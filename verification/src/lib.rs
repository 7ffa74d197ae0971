//! Training of a byte-level byte-pair-encoding tokenizer.
//!
//! The corpus is scanned chunk by chunk into pre-token frequency counts,
//! pre-tokens become sequences of interned symbol ids, and a merge loop
//! repeatedly replaces the most frequent adjacent symbol pair, emitting the
//! ordered list of merges.

pub mod aggregate;
pub mod counts;
pub mod heap;
pub mod interner;
pub mod maps;
pub mod merge;
pub mod pair_toks;
pub mod pretoken;
pub mod train;
