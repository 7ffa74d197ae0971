//! End-to-end training scenarios over small corpora.

use rusty_tokey::merge::apply_merges;
use rusty_tokey::maps::ByteCounts;
use rusty_tokey::pretoken::chunk_pre_token_counts;
use rusty_tokey::pretoken::pre_tokenize;
use rusty_tokey::train::train_details;
use rusty_tokey::train::train_from_chunks;

fn no_specials() -> Vec<String> {
    Vec::new()
}

fn one_chunk(text: &[u8]) -> Vec<Vec<u8>> {
    vec![text.to_vec()]
}

fn pair(l: &[u8], r: &[u8]) -> (Vec<u8>, Vec<u8>) {
    (l.to_vec(), r.to_vec())
}

#[test]
fn empty_corpus_gives_no_merges() {
    let merges = train_from_chunks(&Vec::new(), &no_specials(), 10).unwrap();
    assert_eq!(merges, Vec::new());
}

#[test]
fn empty_file_gives_no_merges() {
    let merges = train_from_chunks(&one_chunk(b""), &no_specials(), 10).unwrap();
    assert_eq!(merges, Vec::new());
}

#[test]
fn zero_max_gives_no_merges() {
    let merges = train_from_chunks(&one_chunk(b"low low low low low"), &no_specials(), 0).unwrap();
    assert_eq!(merges, Vec::new());
}

#[test]
fn low_corpus_first_two_merges() {
    let merges = train_from_chunks(&one_chunk(b"low low low low low"), &no_specials(), 2).unwrap();
    assert_eq!(merges, vec![pair(b"l", b"o"), pair(b"lo", b"w")]);
}

#[test]
fn special_token_is_excluded() {
    let specials = vec![String::from("<|endoftext|>")];
    let merges =
        train_from_chunks(&one_chunk(b"hello world\n<|endoftext|>hello world"), &specials, 1)
            .unwrap();
    assert_eq!(merges.len(), 1);
    // "hello" and " world" each occur twice; every pair inside them counts
    // 2, and the smallest such pair by bytes is (" ", "w").
    assert_eq!(merges, vec![pair(b" ", b"w")]);
}

#[test]
fn aaaa_merges_greedily_and_stops() {
    let merges = train_from_chunks(&one_chunk(b"aaaa"), &no_specials(), 3).unwrap();
    assert_eq!(merges, vec![pair(b"a", b"a"), pair(b"aa", b"aa")]);
}

#[test]
fn abab_counts_every_adjacency() {
    let merges = train_from_chunks(&one_chunk(b"abab abab"), &no_specials(), 2).unwrap();
    assert_eq!(merges, vec![pair(b"a", b"b"), pair(b"ab", b"ab")]);
}

#[test]
fn unique_pairs_still_merge_by_rank() {
    // No pair occurs twice: training still proceeds top-by-count over the
    // count-1 pairs, smallest bytes first.
    let merges = train_from_chunks(&one_chunk(b"abc"), &no_specials(), 5).unwrap();
    assert_eq!(merges, vec![pair(b"a", b"b"), pair(b"ab", b"c")]);
}

#[test]
fn identical_runs_give_identical_merges() {
    let chunks = one_chunk(b"the cat sat on the mat");
    let a = train_from_chunks(&chunks, &no_specials(), 6).unwrap();
    let b = train_from_chunks(&chunks, &no_specials(), 6).unwrap();
    assert_eq!(a, b);
}

#[test]
fn boundary_choice_does_not_change_merges() {
    // The same text as one chunk and split at a pre-token border.
    let whole = one_chunk(b"low low low low low");
    let split = vec![b"low".to_vec(), b" low low low low".to_vec()];
    let a = train_from_chunks(&whole, &no_specials(), 2).unwrap();
    let b = train_from_chunks(&split, &no_specials(), 2).unwrap();
    assert_eq!(a, b);
}

#[test]
fn applying_merges_reproduces_final_counts() {
    let (merges, initial, final_counts, mut interner) =
        train_details(&one_chunk(b"low low low low low"), &no_specials(), 2).unwrap();
    let replayed = apply_merges(initial, &merges, &mut interner);
    assert!(replayed.same_counts(&final_counts));
}

#[test]
fn applying_merges_reproduces_final_counts_abab() {
    let (merges, initial, final_counts, mut interner) =
        train_details(&one_chunk(b"abab abab zq"), &no_specials(), 3).unwrap();
    let replayed = apply_merges(initial, &merges, &mut interner);
    assert!(replayed.same_counts(&final_counts));
}

#[test]
fn invalid_utf8_is_decoded_lossily() {
    let counts: ByteCounts = chunk_pre_token_counts(&vec![0xFF], &no_specials()).unwrap();
    // 0xFF is replaced by U+FFFD, whose UTF-8 form is EF BF BD.
    assert_eq!(counts.get(&vec![0xEF, 0xBF, 0xBD]), 1);
    assert_eq!(counts.num_entries(), 1);
}

#[test]
fn pre_tokenize_keeps_leading_spaces() {
    let toks = pre_tokenize("low low", &no_specials()).unwrap();
    assert_eq!(toks, vec![b"low".to_vec(), b" low".to_vec()]);
}

#[test]
fn special_tokens_are_matched_literally() {
    // "." must split only on the literal dot, not on every character.
    let toks = pre_tokenize("ab.cd", &vec![String::from(".")]).unwrap();
    assert_eq!(toks, vec![b"ab".to_vec(), b"cd".to_vec()]);
}

#[test]
fn contractions_match_as_single_pre_tokens() {
    let toks = pre_tokenize("it's", &no_specials()).unwrap();
    assert_eq!(toks, vec![b"it".to_vec(), b"'s".to_vec()]);
}

#[test]
fn unicode_letters_and_digits_pre_tokenize() {
    let toks = pre_tokenize("caf\u{e9} 123", &no_specials()).unwrap();
    assert_eq!(toks, vec![vec![0x63, 0x61, 0x66, 0xC3, 0xA9], b" 123".to_vec()]);
}

#[test]
fn trailing_whitespace_is_its_own_pre_token() {
    let toks = pre_tokenize("hi there\n", &no_specials()).unwrap();
    assert_eq!(toks, vec![b"hi".to_vec(), b" there".to_vec(), b"\n".to_vec()]);
}
