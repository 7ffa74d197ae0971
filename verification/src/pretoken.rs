//! Pre-tokenization: split a text on the literal special tokens, then run
//! the fixed pre-token pattern over every piece, emitting each match as a
//! byte string.
//!
//! The regular-expression work is done by outside crates behind the
//! trusted wrappers below; what they return is named by uninterpreted spec
//! functions, so every contract above them is exact in terms of those
//! names.

use vstd::prelude::*;
use vstd::string::StringExecFns;
use vstd::string::StrSliceExecFns;
use vstd::utf8::encode_utf8;
use vstd::utf8::valid_utf8;
use crate::counts::{assoc_count, assoc_total, lemma_count_le_total};
use crate::maps::ByteCounts;

verus! {

/// What `regex::escape` returns for `s`.
pub uninterp spec fn escaped_spec(s: Seq<char>) -> Seq<char>;

/// What compiling `pattern` and collecting every non-overlapping match in
/// `text` yields: the matched substrings in order, or nothing when the
/// pattern does not compile or matching fails.
pub uninterp spec fn regex_find_spec(pattern: Seq<char>, text: Seq<char>) -> Option<
    Seq<Seq<char>>,
>;

/// What compiling `pattern` and splitting `text` on its matches yields:
/// the substrings between matches in order, or nothing when the pattern
/// does not compile or matching fails.
pub uninterp spec fn regex_split_spec(pattern: Seq<char>, text: Seq<char>) -> Option<
    Seq<Seq<char>>,
>;

/// What lossy UTF-8 decoding makes of `bytes`: invalid sequences become
/// replacement characters.
pub uninterp spec fn lossy_decode_spec(bytes: Seq<u8>) -> Seq<char>;

/// Relies on `regex::escape`: the returned pattern matches the input
/// string literally, and depends on the input characters alone.
#[verifier::external_body]
fn regex_escape(s: &str) -> (r: String)
    ensures
        r@ == escaped_spec(s@),
{
    regex::escape(s)
}

/// Relies on `fancy_regex::Regex::new`, `Regex::find_iter` and
/// `Match::as_str`: the iterator yields each successive non-overlapping
/// match of the pattern in the text, in order; compilation or matching
/// failure yields an error. The outcome depends on the pattern and the
/// text alone.
#[verifier::external_body]
fn regex_find_all(pattern: &str, text: &str) -> (r: Option<Vec<String>>)
    ensures
        (r is Some) == (regex_find_spec(pattern@, text@) is Some),
        r matches Some(v) ==> regex_find_spec(pattern@, text@) == Some(
            v@.map_values(|m: String| m@),
        ),
{
    let re = match fancy_regex::Regex::new(pattern) {
        Ok(re) => re,
        Err(_) => return None,
    };
    let mut out: Vec<String> = Vec::new();
    for m in re.find_iter(text) {
        match m {
            Ok(mm) => out.push(mm.as_str().to_string()),
            Err(_) => return None,
        }
    }
    Some(out)
}

/// Relies on `fancy_regex::Regex::new` and `Regex::split`: the iterator
/// yields the substrings of the text that are not matched by the pattern,
/// in order; compilation or matching failure yields an error. The outcome
/// depends on the pattern and the text alone.
#[verifier::external_body]
fn regex_split_all(pattern: &str, text: &str) -> (r: Option<Vec<String>>)
    ensures
        (r is Some) == (regex_split_spec(pattern@, text@) is Some),
        r matches Some(v) ==> regex_split_spec(pattern@, text@) == Some(
            v@.map_values(|m: String| m@),
        ),
{
    let re = match fancy_regex::Regex::new(pattern) {
        Ok(re) => re,
        Err(_) => return None,
    };
    let mut out: Vec<String> = Vec::new();
    for m in re.split(text) {
        match m {
            Ok(mm) => out.push(mm.to_string()),
            Err(_) => return None,
        }
    }
    Some(out)
}

/// Relies on `String::from_utf8_lossy`: invalid UTF-8 sequences are
/// replaced with the replacement character, valid input comes back
/// unchanged, and the outcome depends on the bytes alone.
#[verifier::external_body]
fn lossy_decode(bytes: &Vec<u8>) -> (r: String)
    ensures
        r@ == lossy_decode_spec(bytes@),
        valid_utf8(bytes@) ==> encode_utf8(r@) == bytes@,
{
    String::from_utf8_lossy(bytes).into_owned()
}

/// The fixed pre-token pattern.
pub open spec fn pre_token_pattern_spec() -> Seq<char> {
    "'(?:[sdmt]|ll|ve|re)| ?\\p{L}+| ?\\p{N}+| ?[^\\s\\p{L}\\p{N}]+|\\s+(?!\\S)|\\s+"@
}

pub fn pre_token_pattern() -> (r: &'static str)
    ensures
        r@ == pre_token_pattern_spec(),
{
    "'(?:[sdmt]|ll|ve|re)| ?\\p{L}+| ?\\p{N}+| ?[^\\s\\p{L}\\p{N}]+|\\s+(?!\\S)|\\s+"
}

/// Views of a vector of strings.
pub open spec fn views_of(ss: Seq<String>) -> Seq<Seq<char>> {
    ss.map_values(|s: String| s@)
}

/// Views of a vector of byte strings.
pub open spec fn bytes_views_of(bs: Seq<Vec<u8>>) -> Seq<Seq<u8>> {
    bs.map_values(|b: Vec<u8>| b@)
}

/// The alternation pattern that matches any special token: the escaped
/// tokens joined with `|`.
pub open spec fn special_pattern_spec(specials: Seq<Seq<char>>) -> Seq<char>
    decreases specials.len(),
{
    if specials.len() == 0 {
        Seq::empty()
    } else if specials.len() == 1 {
        escaped_spec(specials[0])
    } else {
        escaped_spec(specials[0]) + seq!['|'] + special_pattern_spec(specials.skip(1))
    }
}

/// The pieces of `text` after removing every special-token occurrence:
/// the text itself when there are no special tokens, otherwise the
/// regex split on their alternation.
pub open spec fn sub_texts_spec(text: Seq<char>, specials: Seq<Seq<char>>) -> Option<
    Seq<Seq<char>>,
> {
    if specials.len() == 0 {
        Some(seq![text])
    } else {
        regex_split_spec(special_pattern_spec(specials), text)
    }
}

/// All pre-token matches across the pieces, concatenated in order;
/// nothing when matching fails on any piece.
pub open spec fn find_concat_spec(subs: Seq<Seq<char>>) -> Option<Seq<Seq<char>>>
    decreases subs.len(),
{
    if subs.len() == 0 {
        Some(Seq::empty())
    } else {
        match find_concat_spec(subs.drop_last()) {
            None => None,
            Some(rest) => match regex_find_spec(pre_token_pattern_spec(), subs.last()) {
                None => None,
                Some(ms) => Some(rest + ms),
            },
        }
    }
}

/// Once matching fails on a prefix of the pieces it fails for the whole.
pub proof fn lemma_find_concat_prefix_none(subs: Seq<Seq<char>>, i: int)
    requires
        0 <= i <= subs.len(),
        find_concat_spec(subs.take(i)) is None,
    ensures
        find_concat_spec(subs) is None,
    decreases subs.len() - i,
{
    if i == subs.len() {
        assert(subs.take(i) =~= subs);
    } else {
        assert(subs.take(i + 1).drop_last() =~= subs.take(i));
        lemma_find_concat_prefix_none(subs, i + 1);
    }
}

/// The pre-tokens of `text` under `specials`: the UTF-8 bytes of each
/// pre-token match of each piece, in order.
pub open spec fn pretokens_spec(text: Seq<char>, specials: Seq<Seq<char>>) -> Option<
    Seq<Seq<u8>>,
> {
    match sub_texts_spec(text, specials) {
        None => None,
        Some(subs) => match find_concat_spec(subs) {
            None => None,
            Some(ms) => Some(ms.map_values(|m: Seq<char>| encode_utf8(m))),
        },
    }
}

/// Join the escaped special tokens with `|`.
fn build_special_pattern(specials: &Vec<String>) -> (r: String)
    requires
        specials@.len() >= 1,
    ensures
        r@ == special_pattern_spec(views_of(specials@)),
{
    let ghost sv = views_of(specials@);
    let n = specials.len();
    let mut acc = String::new();
    let first = regex_escape(specials[0].as_str());
    acc.append(first.as_str());
    proof {
        assert(sv[0] == specials@[0]@);
        assert(acc@ =~= escaped_spec(sv[0]));
        assert(sv.skip(0) =~= sv);
    }
    let mut i: usize = 1;
    while i < n
        invariant
            n == specials@.len(),
            sv == views_of(specials@),
            sv.len() == n,
            1 <= i <= n,
            i < n ==> special_pattern_spec(sv) == acc@ + seq!['|'] + special_pattern_spec(
                sv.skip(i as int),
            ),
            i == n ==> special_pattern_spec(sv) == acc@,
        decreases n - i,
    {
        let ghost accpre = acc@;
        acc.append("|");
        let esc = regex_escape(specials[i].as_str());
        acc.append(esc.as_str());
        proof {
            reveal_strlit("|");
            assert(sv.skip(i as int)[0] == sv[i as int]);
            assert(sv.skip(i as int).skip(1) =~= sv.skip(i + 1));
            assert(sv[i as int] == specials@[i as int]@);
            if i + 1 < n {
                assert(special_pattern_spec(sv.skip(i as int)) == escaped_spec(sv[i as int])
                    + seq!['|'] + special_pattern_spec(sv.skip(i + 1)));
                assert(accpre + seq!['|'] + (escaped_spec(sv[i as int]) + seq!['|']
                    + special_pattern_spec(sv.skip(i + 1))) =~= acc@ + seq!['|']
                    + special_pattern_spec(sv.skip(i + 1)));
            } else {
                assert(sv.skip(i as int).len() == 1);
                assert(special_pattern_spec(sv.skip(i as int)) == escaped_spec(sv[i as int]));
                assert(accpre + seq!['|'] + escaped_spec(sv[i as int]) =~= acc@);
            }
        }
        i += 1;
    }
    acc
}

/// Pre-tokenize `text` under the special tokens, returning the pre-token
/// byte strings in match order, or nothing when a pattern fails to
/// compile or match.
pub fn pre_tokenize(text: &str, specials: &Vec<String>) -> (r: Option<Vec<Vec<u8>>>)
    ensures
        (r is Some) == (pretokens_spec(text@, views_of(specials@)) is Some),
        r matches Some(v) ==> pretokens_spec(text@, views_of(specials@)) == Some(
            bytes_views_of(v@),
        ),
{
    let ghost sv = views_of(specials@);
    let subs: Vec<String>;
    if specials.len() == 0 {
        let mut s: Vec<String> = Vec::new();
        s.push(text.to_owned());
        subs = s;
        proof {
            assert(views_of(subs@) =~= seq![text@]);
        }
    } else {
        let pat = build_special_pattern(specials);
        match regex_split_all(pat.as_str(), text) {
            None => {
                proof {
                    assert(sv.len() == specials@.len());
                    assert(regex_split_spec(special_pattern_spec(sv), text@) is None);
                    assert(sub_texts_spec(text@, sv) is None);
                }
                return None;
            },
            Some(v) => {
                subs = v;
            },
        }
    }
    assert(sub_texts_spec(text@, sv) == Some(views_of(subs@)));
    let ghost subv = views_of(subs@);
    let pat = pre_token_pattern();
    let mut out: Vec<Vec<u8>> = Vec::new();
    let ghost mut acc: Seq<Seq<char>> = Seq::empty();
    let n = subs.len();
    let mut i: usize = 0;
    proof {
        assert(subv.take(0) =~= Seq::<Seq<char>>::empty());
        assert(bytes_views_of(out@) =~= acc.map_values(|m: Seq<char>| encode_utf8(m)));
    }
    while i < n
        invariant
            n == subs@.len(),
            sv == views_of(specials@),
            subv == views_of(subs@),
            subv.len() == n,
            i <= n,
            sub_texts_spec(text@, sv) == Some(subv),
            pat@ == pre_token_pattern_spec(),
            find_concat_spec(subv.take(i as int)) == Some(acc),
            bytes_views_of(out@) == acc.map_values(|m: Seq<char>| encode_utf8(m)),
        decreases n - i,
    {
        let ms = match regex_find_all(pat, subs[i].as_str()) {
            None => {
                proof {
                    assert(subv.take(i + 1).drop_last() =~= subv.take(i as int));
                    assert(subv.take(i + 1).last() == subv[i as int]);
                    assert(subv[i as int] == subs@[i as int]@);
                    assert(find_concat_spec(subv.take(i + 1)) is None);
                    lemma_find_concat_prefix_none(subv, i + 1);
                }
                return None;
            },
            Some(ms) => ms,
        };
        let ghost msv = ms@.map_values(|m: String| m@);
        let m = ms.len();
        let mut j: usize = 0;
        while j < m
            invariant
                m == ms@.len(),
                msv == ms@.map_values(|m: String| m@),
                j <= m,
                bytes_views_of(out@) == (acc + msv.take(j as int)).map_values(
                    |m: Seq<char>| encode_utf8(m),
                ),
            decreases m - j,
        {
            let ghost outpre = out@;
            out.push(ms[j].as_str().as_bytes_vec());
            proof {
                assert(msv[j as int] == ms@[j as int]@);
                assert(acc + msv.take(j + 1) =~= (acc + msv.take(j as int)).push(msv[j as int]));
                assert(bytes_views_of(out@) =~= bytes_views_of(outpre).push(
                    encode_utf8(msv[j as int]),
                ));
                assert((acc + msv.take(j + 1)).map_values(|m: Seq<char>| encode_utf8(m)) =~= (acc
                    + msv.take(j as int)).map_values(|m: Seq<char>| encode_utf8(m)).push(
                    encode_utf8(msv[j as int]),
                ));
            }
            j += 1;
        }
        proof {
            assert(msv.take(m as int) =~= msv);
            assert(subv.take(i + 1).drop_last() =~= subv.take(i as int));
            assert(subv.take(i + 1).last() == subv[i as int]);
            assert(subv[i as int] == subs@[i as int]@);
            assert(find_concat_spec(subv.take(i + 1)) == Some(acc + msv));
            acc = acc + msv;
        }
        i += 1;
    }
    proof {
        assert(subv.take(n as int) =~= subv);
    }
    Some(out)
}

/// Multiplicity of `k` among the byte strings `s`.
pub open spec fn count_in(s: Seq<Seq<u8>>, k: Seq<u8>) -> nat
    decreases s.len(),
{
    if s.len() == 0 {
        0
    } else {
        count_in(s.drop_last(), k) + if s.last() == k {
            1nat
        } else {
            0
        }
    }
}

/// Multiplicity is additive over concatenation of pre-token streams.
pub proof fn lemma_count_in_append(s1: Seq<Seq<u8>>, s2: Seq<Seq<u8>>, k: Seq<u8>)
    ensures
        count_in(s1 + s2, k) == count_in(s1, k) + count_in(s2, k),
    decreases s2.len(),
{
    if s2.len() == 0 {
        assert(s1 + s2 =~= s1);
    } else {
        lemma_count_in_append(s1, s2.drop_last(), k);
        assert((s1 + s2).drop_last() =~= s1 + s2.drop_last());
        assert((s1 + s2).last() == s2.last());
    }
}

/// Pre-token counts of one corpus chunk: decode the bytes lossily,
/// pre-tokenize, and count every pre-token. On success each byte string
/// is counted with its exact multiplicity, and the counts sum to the
/// number of pre-tokens.
pub fn chunk_pre_token_counts(chunk: &Vec<u8>, specials: &Vec<String>) -> (r: Option<ByteCounts>)
    ensures
        (r is Some) == (pretokens_spec(lossy_decode_spec(chunk@), views_of(specials@)) is Some),
        r matches Some(bc) ==> {
            &&& bc.wf()
            &&& pretokens_spec(lossy_decode_spec(chunk@), views_of(specials@)) matches Some(toks)
                && (forall|k: Seq<u8>| assoc_count(bc@, k) == count_in(toks, k)) && assoc_total(
                bc@,
            ) == toks.len() && toks.len() <= usize::MAX
        },
{
    let text = lossy_decode(chunk);
    let toks = match pre_tokenize(text.as_str(), specials) {
        None => {
            return None;
        },
        Some(v) => v,
    };
    let ghost tv = bytes_views_of(toks@);
    let mut bc = ByteCounts::new();
    let n = toks.len();
    let mut i: usize = 0;
    proof {
        assert(tv.take(0) =~= Seq::<Seq<u8>>::empty());
    }
    while i < n
        invariant
            n == toks@.len(),
            tv == bytes_views_of(toks@),
            tv.len() == n,
            i <= n,
            bc.wf(),
            assoc_total(bc@) == i,
            forall|k: Seq<u8>| assoc_count(bc@, k) == count_in(tv.take(i as int), k),
        decreases n - i,
    {
        proof {
            lemma_count_le_total(bc@, toks@[i as int]@);
        }
        bc.add(toks[i].clone(), 1);
        proof {
            assert(tv.take(i + 1).drop_last() =~= tv.take(i as int));
            assert(tv.take(i + 1).last() == tv[i as int]);
            assert(tv[i as int] == toks@[i as int]@);
        }
        i += 1;
    }
    proof {
        assert(tv.take(n as int) =~= tv);
    }
    Some(bc)
}

} // verus!
