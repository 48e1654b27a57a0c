//! Segmentation of unsegmented Chinese text into tokens, with a frequency
//! dictionary for known vocabulary and a four-state hidden Markov model for
//! words the dictionary does not hold.
//!
//! A text is first split into spans of Han ideographs, letters, digits and a
//! few connecting signs, and what lies between them. Each span is cut by
//! one of three modes: every dictionary word in it; its most probable
//! division into words; or that division with the unknown stretches cut by
//! the model.

pub mod dictionary;
pub mod error;
pub mod hmm;
pub mod lattice;
pub mod logscale;
pub mod pattern;
pub mod segment;
pub mod text;
pub mod tokenizer;
pub mod wordmap;

use crate::dictionary::Dictionary;
use crate::error::{Error, JResult};
use crate::hmm::{cut_other, cut_tokens, skip_tokens, HmmModel};
use crate::lattice::{advances, dag, edges, lemma_edges, lemma_route_table_advances, route_table};
use crate::logscale::{lemma_ln_fixed_range, spec_ln_fixed};
use crate::pattern::{pattern_compiles, regex_matches, Pattern};
use crate::segment::{
    lemma_pieces_cover, pieces, pieces_bytes, Piece, SegmentMatches, SegmentState,
};
use crate::text::{
    boundary, byte_len, char_offsets, char_starts, chars_of, end_of, joined,
    lemma_boundary_is_char_boundary, lemma_same_bytes_same_text, lemma_starts_upto,
    lemma_str_valid, push_token, slice, texts,
};
use vstd::prelude::*;
use vstd::string::*;
use vstd::utf8::*;

verus! {

/// The pattern of a span that is cut into words: Han ideographs, letters,
/// digits, and the signs `+ # & . _ % -`.
pub const SPLIT_PATTERN: &'static str = "([\\u4E00-\\u9FD5a-zA-Z0-9+#&\\._%\\-]+)";

/// A letter or a digit of ASCII.
pub open spec fn is_alnum(b: u8) -> bool {
    (0x30 <= b <= 0x39) || (0x41 <= b <= 0x5a) || (0x61 <= b <= 0x7a)
}

/// The text is one character.
pub open spec fn one_char(w: Seq<u8>) -> bool {
    char_starts(w).len() == 1
}

/// The start of a run that goes on: where it began, or `x` if none is open.
pub open spec fn run_start(left: Option<int>, x: int) -> int {
    match left {
        Some(l) => l,
        None => x,
    }
}

/// The tokens of a sentence from offset `x` on in the mode without the
/// model, where `left` is the start of the run of single letters and digits
/// that is open, if any. The route table is followed from word to word.
/// Words of one letter or digit are gathered into one token as long as
/// they follow one another; any other word is a token.
pub open spec fn plain_tokens(
    s: Seq<u8>,
    rs: Seq<(i128, usize)>,
    x: int,
    left: Option<int>,
) -> Seq<Seq<u8>>
    decreases s.len() - x,
    when advances(s, rs) && boundary(s, x)
{
    if x >= s.len() {
        match left {
            Some(l) => seq![s.subrange(l, s.len() as int)],
            None => seq![],
        }
    } else {
        let y = rs[x].1 as int;
        let frag = s.subrange(x, y);
        if one_char(frag) && is_alnum(frag[0]) {
            plain_tokens(s, rs, y, Some(run_start(left, x)))
        } else {
            (match left {
                Some(l) => seq![s.subrange(l, x)],
                None => seq![],
            }) + seq![frag] + plain_tokens(s, rs, y, None)
        }
    }
}

/// The tokens of a run of single characters: the run itself where it is one
/// character; its characters one by one where the dictionary holds the run
/// with a count above zero; else what the model cuts it into.
pub open spec fn run_tokens(dict: Map<Seq<u8>, u64>, m: &HmmModel, w: Seq<u8>) -> Seq<Seq<u8>> {
    if one_char(w) {
        seq![w]
    } else if !dict.contains_key(w) || dict[w] == 0 {
        cut_tokens(m, w)
    } else {
        chars_of(w)
    }
}

/// The tokens of a sentence from offset `x` on in the mode with the model,
/// where `left` is the start of the run of single characters that is open,
/// if any. The route table is followed from word to word. Words of one
/// character are gathered into a run as long as they follow one another,
/// and the run is cut as `run_tokens` says; any longer word is a token.
pub open spec fn hmm_tokens(
    dict: Map<Seq<u8>, u64>,
    m: &HmmModel,
    s: Seq<u8>,
    rs: Seq<(i128, usize)>,
    x: int,
    left: Option<int>,
) -> Seq<Seq<u8>>
    decreases s.len() - x,
    when advances(s, rs) && boundary(s, x)
{
    if x >= s.len() {
        match left {
            Some(l) => run_tokens(dict, m, s.subrange(l, s.len() as int)),
            None => seq![],
        }
    } else {
        let y = rs[x].1 as int;
        let frag = s.subrange(x, y);
        if one_char(frag) {
            hmm_tokens(dict, m, s, rs, y, Some(run_start(left, x)))
        } else {
            (match left {
                Some(l) => run_tokens(dict, m, s.subrange(l, x)),
                None => seq![],
            }) + seq![frag] + hmm_tokens(dict, m, s, rs, y, None)
        }
    }
}

/// The words from `k` to each of the given ends.
pub open spec fn edge_tokens(s: Seq<u8>, k: int, ends: Seq<usize>) -> Seq<Seq<u8>> {
    ends.map_values(|j: usize| s.subrange(k, j as int))
}

/// Every dictionary word of a sentence that starts at or after offset `k`:
/// by the offset at which it starts, and then by its length.
pub open spec fn all_tokens(dict: Map<Seq<u8>, u64>, s: Seq<u8>, k: int) -> Seq<Seq<u8>>
    decreases s.len() - k,
{
    if k < 0 || k >= s.len() {
        seq![]
    } else {
        (if boundary(s, k) {
            edge_tokens(s, k, edges(dict, s, k))
        } else {
            seq![]
        }) + all_tokens(dict, s, k + 1)
    }
}

/// The start of a run that is open or opens at `x`.
fn open_run(left: Option<usize>, x: usize) -> (r: usize)
    ensures
        r == run_start(
            match left {
                Some(l) => Some(l as int),
                None => None,
            },
            x as int,
        ),
{
    match left {
        Some(l) => l,
        None => x,
    }
}

/// `left` as the specifications read it.
pub open spec fn as_int(left: Option<usize>) -> Option<int> {
    match left {
        Some(l) => Some(l as int),
        None => None,
    }
}

fn is_alnum_byte(b: u8) -> (r: bool)
    ensures
        r == is_alnum(b),
{
    (0x30 <= b && b <= 0x39) || (0x41 <= b && b <= 0x5a) || (0x61 <= b && b <= 0x7a)
}

/// Whether a text is one character.
fn is_one_char(w: &str) -> (r: bool)
    ensures
        r == one_char(w.spec_bytes()),
{
    char_offsets(w.as_bytes()).len() == 1
}

/// Follows the route table through a sentence and adds the tokens of the
/// mode without the model to `words`.
pub fn walk_plain<'a>(sentence: &'a str, rs: &Vec<(i128, usize)>, words: &mut Vec<&'a str>)
    requires
        advances(sentence.spec_bytes(), rs@),
    ensures
        texts(final(words)@) == texts(old(words)@) + plain_tokens(
            sentence.spec_bytes(),
            rs@,
            0,
            None,
        ),
        joined(texts(final(words)@)) == joined(texts(old(words)@)) + sentence.spec_bytes(),
{
    let ghost s = sentence.spec_bytes();
    let n = byte_len(sentence);
    let bytes = sentence.as_bytes();
    let mut x: usize = 0;
    let mut left: Option<usize> = None;
    proof {
        lemma_str_valid(sentence);
        lemma_boundary_is_char_boundary(s, 0);
        assert(joined(texts(words@)) + s.subrange(0, 0) =~= joined(texts(words@)));
    }
    while x < n
        invariant
            0 <= x <= n,
            n == s.len(),
            s == sentence.spec_bytes(),
            bytes@ == s,
            advances(s, rs@),
            boundary(s, x as int),
            left matches Some(l) ==> l <= x && boundary(s, l as int),
            joined(texts(words@)) == joined(texts(old(words)@)) + s.subrange(
                0,
                run_start(as_int(left), x as int),
            ),
            texts(words@) + plain_tokens(s, rs@, x as int, as_int(left)) == texts(old(words)@)
                + plain_tokens(s, rs@, 0, None),
        decreases n - x,
    {
        let y = rs[x].1;
        let frag = slice(sentence, x, y);
        let ghost before = texts(words@);
        if is_one_char(frag) && is_alnum_byte(bytes[x]) {
            assert(s.subrange(x as int, y as int)[0] == s[x as int]);
            left = Some(open_run(left, x));
        } else {
            let ghost rest = plain_tokens(s, rs@, y as int, None);
            assert(s.subrange(x as int, y as int)[0] == s[x as int]);
            match left {
                Some(l) => {
                    push_token(words, slice(sentence, l, x));
                    push_token(words, frag);
                    assert(texts(words@) + rest =~= before + (seq![s.subrange(l as int, x as int)]
                        + seq![s.subrange(x as int, y as int)] + rest));
                    assert(s.subrange(0, l as int) + s.subrange(l as int, x as int) + s.subrange(
                        x as int,
                        y as int,
                    ) =~= s.subrange(0, y as int));
                },
                None => {
                    push_token(words, frag);
                    assert(texts(words@) + rest =~= before + (Seq::<Seq<u8>>::empty() + seq![
                        s.subrange(x as int, y as int),
                    ] + rest));
                    assert(s.subrange(0, x as int) + s.subrange(x as int, y as int) =~= s.subrange(
                        0,
                        y as int,
                    ));
                },
            }
            left = None;
        }
        x = y;
    }
    let ghost before = texts(words@);
    match left {
        Some(l) => {
            push_token(words, slice(sentence, l, n));
            assert(texts(words@) =~= before + seq![s.subrange(l as int, n as int)]);
            assert(s.subrange(0, l as int) + s.subrange(l as int, n as int) =~= s);
        },
        None => {
            assert(before + Seq::<Seq<u8>>::empty() =~= before);
            assert(s.subrange(0, n as int) =~= s);
        },
    }
}

/// Adds every dictionary word of a sentence to `words`, given the rows of
/// its lattice.
fn walk_all<'a>(
    sentence: &'a str,
    rows: &Vec<Vec<usize>>,
    words: &mut Vec<&'a str>,
    Ghost(dict): Ghost<Map<Seq<u8>, u64>>,
)
    requires
        rows@.len() == sentence.spec_bytes().len(),
        forall|k: int|
            0 <= k < rows@.len() ==> (#[trigger] rows@[k])@ == (if boundary(
                sentence.spec_bytes(),
                k,
            ) {
                edges(dict, sentence.spec_bytes(), k)
            } else {
                Seq::<usize>::empty()
            }),
    ensures
        texts(final(words)@) == texts(old(words)@) + all_tokens(dict, sentence.spec_bytes(), 0),
{
    let ghost s = sentence.spec_bytes();
    let n = rows.len();
    let mut k: usize = 0;
    while k < n
        invariant
            0 <= k <= n,
            n == s.len(),
            n == rows@.len(),
            s == sentence.spec_bytes(),
            forall|i: int|
                0 <= i < rows@.len() ==> (#[trigger] rows@[i])@ == (if boundary(s, i) {
                    edges(dict, s, i)
                } else {
                    Seq::<usize>::empty()
                }),
            texts(words@) + all_tokens(dict, s, k as int) == texts(old(words)@) + all_tokens(
                dict,
                s,
                0,
            ),
        decreases n - k,
    {
        let row = &rows[k];
        let ghost before = texts(words@);
        let ghost here = if boundary(s, k as int) {
            edge_tokens(s, k as int, edges(dict, s, k as int))
        } else {
            Seq::<Seq<u8>>::empty()
        };
        let ghost rest = all_tokens(dict, s, k + 1);
        proof {
            lemma_edges(dict, s, k as int, n as int);
            assert(here =~= edge_tokens(s, k as int, row@));
        }
        let mut i: usize = 0;
        while i < row.len()
            invariant
                0 <= i <= row@.len(),
                k < n,
                n == s.len(),
                s == sentence.spec_bytes(),
                row@.len() > 0 ==> boundary(s, k as int) && row@ == edges(dict, s, k as int),
                forall|u: int|
                    0 <= u < row@.len() ==> k < (#[trigger] row@[u]) <= n && boundary(
                        s,
                        row@[u] as int,
                    ),
                texts(words@) == before + edge_tokens(s, k as int, row@.take(i as int)),
            decreases row@.len() - i,
        {
            push_token(words, slice(sentence, k, row[i]));
            assert(texts(words@) =~= before + edge_tokens(s, k as int, row@.take(i + 1))) by {
                assert(row@.take(i + 1) =~= row@.take(i as int).push(row@[i as int]));
                assert(edge_tokens(s, k as int, row@.take(i + 1)) =~= edge_tokens(
                    s,
                    k as int,
                    row@.take(i as int),
                ).push(s.subrange(k as int, row@[i as int] as int)));
            }
            i = i + 1;
        }
        proof {
            assert(row@.take(row@.len() as int) =~= row@);
            assert(texts(words@) + rest =~= before + (here + rest));
        }
        k = k + 1;
    }
    assert(texts(words@) + Seq::<Seq<u8>>::empty() =~= texts(words@));
}

/// Adds the characters of a text to `words`, one by one.
pub fn push_chars<'a>(word: &'a str, words: &mut Vec<&'a str>)
    ensures
        texts(final(words)@) == texts(old(words)@) + chars_of(word.spec_bytes()),
        joined(texts(final(words)@)) == joined(texts(old(words)@)) + word.spec_bytes(),
{
    let bytes = word.as_bytes();
    let starts = char_offsets(bytes);
    let n = bytes.len();
    let c = starts.len();
    let ghost b = bytes@;
    proof {
        lemma_starts_upto(b, n as int);
        lemma_str_valid(word);
        lemma_boundary_is_char_boundary(b, 0);
        if n > 0 {
            assert(!is_continuation_byte(b[0]));
            let t0 = choose|t0: int| 0 <= t0 < starts@.len() && #[trigger] starts@[t0] == 0;
            if t0 > 0 {
                assert(starts@[0] < starts@[t0]);
            }
        }
        assert(joined(texts(words@)) + b.subrange(0, 0) =~= joined(texts(words@)));
    }
    let mut t: usize = 0;
    assert(texts(words@) + chars_of(b).take(0) =~= texts(words@));
    while t < c
        invariant
            0 <= t <= c,
            c == starts@.len(),
            n == b.len(),
            b == word.spec_bytes(),
            starts@ == char_starts(b),
            n == 0 ==> c == 0,
            c > 0 ==> starts@[0] == 0,
            joined(texts(words@)) == joined(texts(old(words)@)) + b.subrange(
                0,
                if t < c {
                    starts@[t as int] as int
                } else {
                    n as int
                },
            ),
            forall|u: int| 0 <= u < c ==> (#[trigger] starts@[u]) < n && !is_continuation_byte(
                b[starts@[u] as int],
            ),
            forall|u: int, w: int| 0 <= u < w < c ==> (#[trigger] starts@[u]) < #[trigger] starts@[w],
            texts(words@) == texts(old(words)@) + chars_of(b).take(t as int),
        decreases c - t,
    {
        let a = starts[t];
        let e: usize = if t + 1 < c {
            starts[t + 1]
        } else {
            n
        };
        push_token(words, slice(word, a, e));
        assert(chars_of(b).take(t + 1) =~= chars_of(b).take(t as int).push(
            b.subrange(a as int, e as int),
        ));
        assert(texts(words@) =~= texts(old(words)@) + chars_of(b).take(t + 1));
        assert(b.subrange(0, a as int) + b.subrange(a as int, e as int) =~= b.subrange(
            0,
            e as int,
        ));
        t = t + 1;
    }
    assert(chars_of(b).take(c as int) =~= chars_of(b));
    assert(b.subrange(0, n as int) =~= b);
}

/// Adds the tokens of a run of single characters to `words`.
pub fn flush_run<'a>(dict: &Dictionary, model: &HmmModel, word: &'a str, words: &mut Vec<&'a str>)
    requires
        model.wf(),
    ensures
        texts(final(words)@) == texts(old(words)@) + run_tokens(dict.entries(), model, word.spec_bytes()),
        joined(texts(final(words)@)) == joined(texts(old(words)@)) + word.spec_bytes(),
{
    if is_one_char(word) {
        push_token(words, word);
        assert(texts(words@) =~= texts(old(words)@) + seq![word.spec_bytes()]);
    } else {
        let known = match dict.frequency(word) {
            Some(f) => f > 0,
            None => false,
        };
        if known {
            push_chars(word, words);
        } else {
            crate::hmm::cut(model, word, words);
        }
    }
}

/// Follows the route table through a sentence and adds the tokens of the
/// mode with the model to `words`.
pub fn walk_hmm<'a>(
    dict: &Dictionary,
    model: &HmmModel,
    sentence: &'a str,
    rs: &Vec<(i128, usize)>,
    words: &mut Vec<&'a str>,
)
    requires
        model.wf(),
        advances(sentence.spec_bytes(), rs@),
    ensures
        texts(final(words)@) == texts(old(words)@) + hmm_tokens(
            dict.entries(),
            model,
            sentence.spec_bytes(),
            rs@,
            0,
            None,
        ),
        joined(texts(final(words)@)) == joined(texts(old(words)@)) + sentence.spec_bytes(),
{
    let ghost s = sentence.spec_bytes();
    let ghost d = dict.entries();
    let n = byte_len(sentence);
    let mut x: usize = 0;
    let mut left: Option<usize> = None;
    proof {
        lemma_str_valid(sentence);
        lemma_boundary_is_char_boundary(s, 0);
        assert(joined(texts(words@)) + s.subrange(0, 0) =~= joined(texts(words@)));
    }
    while x < n
        invariant
            0 <= x <= n,
            n == s.len(),
            s == sentence.spec_bytes(),
            d == dict.entries(),
            model.wf(),
            advances(s, rs@),
            boundary(s, x as int),
            left matches Some(l) ==> l <= x && boundary(s, l as int),
            joined(texts(words@)) == joined(texts(old(words)@)) + s.subrange(
                0,
                run_start(as_int(left), x as int),
            ),
            texts(words@) + hmm_tokens(d, model, s, rs@, x as int, as_int(left)) == texts(
                old(words)@,
            ) + hmm_tokens(d, model, s, rs@, 0, None),
        decreases n - x,
    {
        let y = rs[x].1;
        let frag = slice(sentence, x, y);
        let ghost before = texts(words@);
        if is_one_char(frag) {
            left = Some(open_run(left, x));
        } else {
            let ghost rest = hmm_tokens(d, model, s, rs@, y as int, None);
            match left {
                Some(l) => {
                    flush_run(dict, model, slice(sentence, l, x), words);
                    let ghost run = run_tokens(d, model, s.subrange(l as int, x as int));
                    push_token(words, frag);
                    assert(texts(words@) + rest =~= before + (run + seq![
                        s.subrange(x as int, y as int),
                    ] + rest));
                    assert(s.subrange(0, l as int) + s.subrange(l as int, x as int) + s.subrange(
                        x as int,
                        y as int,
                    ) =~= s.subrange(0, y as int));
                },
                None => {
                    push_token(words, frag);
                    assert(texts(words@) + rest =~= before + (Seq::<Seq<u8>>::empty() + seq![
                        s.subrange(x as int, y as int),
                    ] + rest));
                    assert(s.subrange(0, x as int) + s.subrange(x as int, y as int) =~= s.subrange(
                        0,
                        y as int,
                    ));
                },
            }
            left = None;
        }
        x = y;
    }
    let ghost before = texts(words@);
    match left {
        Some(l) => {
            flush_run(dict, model, slice(sentence, l, n), words);
            assert(s.subrange(0, l as int) + s.subrange(l as int, n as int) =~= s);
        },
        None => {
            assert(before + Seq::<Seq<u8>>::empty() =~= before);
            assert(s.subrange(0, n as int) =~= s);
        },
    }
}

/// A dictionary entry with a count above zero.
pub open spec fn is_entry(dict: Map<Seq<u8>, u64>, g: Seq<u8>) -> bool {
    dict.contains_key(g) && dict[g] > 0
}

/// The stretches of `n` characters of `w` that are dictionary entries with
/// a count above zero, from the one that starts at character `i` on.
pub open spec fn grams(dict: Map<Seq<u8>, u64>, w: Seq<u8>, n: int, i: int) -> Seq<Seq<u8>>
    decreases char_starts(w).len() - i,
{
    if n < 1 || i < 0 || i + n > char_starts(w).len() {
        seq![]
    } else {
        let g = w.subrange(char_starts(w)[i] as int, end_of(w, char_starts(w), i + n - 1));
        (if is_entry(dict, g) {
            seq![g]
        } else {
            seq![]
        }) + grams(dict, w, n, i + 1)
    }
}

/// The tokens that the search mode makes of a word: of a word of more than
/// two characters each stretch of two characters that is an entry, of one of
/// more than three also each stretch of three, and then the word.
pub open spec fn search_word(dict: Map<Seq<u8>, u64>, w: Seq<u8>) -> Seq<Seq<u8>> {
    (if char_starts(w).len() > 2 {
        grams(dict, w, 2, 0)
    } else {
        seq![]
    }) + (if char_starts(w).len() > 3 {
        grams(dict, w, 3, 0)
    } else {
        seq![]
    }) + seq![w]
}

/// The tokens that the search mode makes of a sequence of words.
pub open spec fn search_tokens(dict: Map<Seq<u8>, u64>, ws: Seq<Seq<u8>>) -> Seq<Seq<u8>>
    decreases ws.len(),
{
    if ws.len() == 0 {
        seq![]
    } else {
        search_word(dict, ws[0]) + search_tokens(dict, ws.drop_first())
    }
}

/// Adds to `words` the stretches of `n` characters of `word` that are
/// entries.
fn push_grams<'a>(
    dict: &Dictionary,
    word: &'a str,
    starts: &Vec<usize>,
    n: usize,
    words: &mut Vec<&'a str>,
)
    requires
        starts@ == char_starts(word.spec_bytes()),
        1 <= n <= 3,
    ensures
        texts(final(words)@) == texts(old(words)@) + grams(dict.entries(), word.spec_bytes(), n as int, 0),
{
    let ghost b = word.spec_bytes();
    let ghost d = dict.entries();
    let len = byte_len(word);
    let c = starts.len();
    proof {
        lemma_starts_upto(b, len as int);
    }
    let mut i: usize = 0;
    while i < c && n <= c - i
        invariant
            0 <= i <= c,
            1 <= n <= 3,
            c == starts@.len(),
            len == b.len(),
            b == word.spec_bytes(),
            d == dict.entries(),
            starts@ == char_starts(b),
            forall|u: int| 0 <= u < c ==> (#[trigger] starts@[u]) < len && !is_continuation_byte(
                b[starts@[u] as int],
            ),
            forall|u: int, w: int| 0 <= u < w < c ==> (#[trigger] starts@[u]) < #[trigger] starts@[w],
            texts(words@) + grams(d, b, n as int, i as int) == texts(old(words)@) + grams(
                d,
                b,
                n as int,
                0,
            ),
        decreases c - i,
    {
        let a = starts[i];
        let e: usize = if i + n < c {
            starts[i + n]
        } else {
            len
        };
        let gram = slice(word, a, e);
        let ghost before = texts(words@);
        let ghost rest = grams(d, b, n as int, i + 1);
        let found = match dict.frequency(gram) {
            Some(f) => f > 0,
            None => false,
        };
        if found {
            push_token(words, gram);
            assert(texts(words@) + rest =~= before + (seq![b.subrange(a as int, e as int)] + rest));
        } else {
            assert(before + rest =~= before + (Seq::<Seq<u8>>::empty() + rest));
        }
        i = i + 1;
    }
    assert(texts(words@) + Seq::<Seq<u8>>::empty() =~= texts(words@));
}

/// Adds to `out` what the search mode makes of each of `words`.
pub fn expand_for_search<'a>(dict: &Dictionary, words: &Vec<&'a str>) -> (out: Vec<&'a str>)
    ensures
        texts(out@) == search_tokens(dict.entries(), texts(words@)),
{
    let ghost d = dict.entries();
    let ghost all = texts(words@);
    let mut out: Vec<&'a str> = Vec::new();
    let mut i: usize = 0;
    assert(all.skip(0) =~= all);
    assert(texts(out@) =~= Seq::<Seq<u8>>::empty());
    assert(texts(out@) + search_tokens(d, all) =~= search_tokens(d, all));
    while i < words.len()
        invariant
            0 <= i <= words@.len(),
            d == dict.entries(),
            all == texts(words@),
            texts(out@) + search_tokens(d, all.skip(i as int)) == search_tokens(d, all),
        decreases words@.len() - i,
    {
        let word = words[i];
        let starts = char_offsets(word.as_bytes());
        let ghost before = texts(out@);
        let ghost w = word.spec_bytes();
        let ghost rest = search_tokens(d, all.skip(i + 1));
        proof {
            assert(all.skip(i as int)[0] == w);
            assert(all.skip(i as int).drop_first() =~= all.skip(i + 1));
        }
        let ghost two = if char_starts(w).len() > 2 {
            grams(d, w, 2, 0)
        } else {
            Seq::<Seq<u8>>::empty()
        };
        let ghost three = if char_starts(w).len() > 3 {
            grams(d, w, 3, 0)
        } else {
            Seq::<Seq<u8>>::empty()
        };
        if starts.len() > 2 {
            push_grams(dict, word, &starts, 2, &mut out);
        }
        assert(texts(out@) =~= before + two);
        if starts.len() > 3 {
            push_grams(dict, word, &starts, 3, &mut out);
        }
        assert(texts(out@) =~= before + two + three);
        push_token(&mut out, word);
        assert(texts(out@) + rest =~= before + ((two + three + seq![w]) + rest));
        i = i + 1;
    }
    assert(all.skip(words@.len() as int) =~= Seq::<Seq<u8>>::empty());
    assert(texts(out@) + Seq::<Seq<u8>>::empty() =~= texts(out@));
    out
}

/// Where a dictionary word starts at offset `k`, the mode of all words
/// yields a token that starts there: the result is the place of the
/// shortest such word among the tokens.
pub proof fn lemma_all_tokens_start(dict: Map<Seq<u8>, u64>, s: Seq<u8>, k: int) -> (i: int)
    requires
        0 <= k < s.len(),
        boundary(s, k),
        edges(dict, s, k).len() > 0,
    ensures
        0 <= i < all_tokens(dict, s, 0).len(),
        all_tokens(dict, s, 0)[i] == s.subrange(k, edges(dict, s, k)[0] as int),
{
    lemma_all_tokens_at(dict, s, 0, k, 0)
}

/// The start of the character that holds the byte at offset `i`.
pub open spec fn char_start(s: Seq<u8>, i: int) -> int
    decreases i,
{
    if i <= 0 || i >= s.len() || !is_continuation_byte(s[i]) {
        i
    } else {
        char_start(s, i - 1)
    }
}

proof fn lemma_char_start(s: Seq<u8>, i: int)
    requires
        0 <= i < s.len(),
        boundary(s, 0),
    ensures
        0 <= char_start(s, i) <= i,
        boundary(s, char_start(s, i)),
        forall|j: int| char_start(s, i) < j <= i ==> is_continuation_byte(#[trigger] s[j]),
    decreases i,
{
    if i > 0 && is_continuation_byte(s[i]) {
        lemma_char_start(s, i - 1);
    }
}

/// Every dictionary word of the sentence is a token of the mode of all
/// words: the result is its place among the tokens.
pub proof fn lemma_all_tokens_hold(dict: Map<Seq<u8>, u64>, s: Seq<u8>, k: int, j: int) -> (t: int)
    requires
        0 <= k < j <= s.len(),
        s.len() <= usize::MAX,
        boundary(s, k),
        boundary(s, j),
        crate::lattice::is_word(dict, s, k, j),
    ensures
        0 <= t < all_tokens(dict, s, 0).len(),
        all_tokens(dict, s, 0)[t] == s.subrange(k, j),
{
    let e = lemma_edge_place(dict, s, k, j, s.len() as int);
    lemma_all_tokens_at(dict, s, 0, k, e)
}

proof fn lemma_edge_place(dict: Map<Seq<u8>, u64>, s: Seq<u8>, k: int, j: int, hi: int) -> (e: int)
    requires
        0 <= k < j <= hi <= s.len(),
        s.len() <= usize::MAX,
        boundary(s, j),
        crate::lattice::is_word(dict, s, k, j),
    ensures
        0 <= e < crate::lattice::edges_upto(dict, s, k, hi).len(),
        crate::lattice::edges_upto(dict, s, k, hi)[e] == j,
    decreases hi - j,
{
    if j < hi {
        lemma_edge_place(dict, s, k, j, hi - 1)
    } else {
        crate::lattice::edges_upto(dict, s, k, hi - 1).len() as int
    }
}

proof fn lemma_all_tokens_at(dict: Map<Seq<u8>, u64>, s: Seq<u8>, from: int, k: int, e: int) -> (t:
    int)
    requires
        0 <= from <= k < s.len(),
        boundary(s, k),
        0 <= e < edges(dict, s, k).len(),
    ensures
        0 <= t < all_tokens(dict, s, from).len(),
        all_tokens(dict, s, from)[t] == s.subrange(k, edges(dict, s, k)[e] as int),
    decreases k - from,
{
    let head = if boundary(s, from) {
        edge_tokens(s, from, edges(dict, s, from))
    } else {
        Seq::<Seq<u8>>::empty()
    };
    if from == k {
        e
    } else {
        let t = lemma_all_tokens_at(dict, s, from + 1, k, e);
        head.len() + t
    }
}

/// Where a dictionary word starts with every character of a sentence, the
/// mode of all words leaves no byte out: the byte at any offset `i` lies in
/// a token. The result is the place of such a token and the offsets between
/// which it lies.
pub proof fn lemma_all_words_cover(dict: Map<Seq<u8>, u64>, s: Seq<u8>, i: int) -> (r: (
    int,
    int,
    int,
))
    requires
        0 <= i < s.len(),
        s.len() <= usize::MAX,
        boundary(s, 0),
        forall|k: int| 0 <= k < s.len() && boundary(s, k) ==> #[trigger] edges(dict, s, k).len() > 0,
    ensures
        0 <= r.0 < all_tokens(dict, s, 0).len(),
        0 <= r.1 <= i < r.2 <= s.len(),
        all_tokens(dict, s, 0)[r.0] == s.subrange(r.1, r.2),
{
    lemma_char_start(s, i);
    let k = char_start(s, i);
    assert(edges(dict, s, k).len() > 0);
    lemma_edges(dict, s, k, s.len() as int);
    let j = edges(dict, s, k)[0] as int;
    let t = lemma_all_tokens_start(dict, s, k);
    (t, k, j)
}

/// The search mode keeps every word that it is given, in order: the result
/// holds, for each word, its place among the tokens.
pub proof fn lemma_search_keeps_words(dict: Map<Seq<u8>, u64>, ws: Seq<Seq<u8>>) -> (idx: Seq<int>)
    ensures
        idx.len() == ws.len(),
        forall|i: int|
            0 <= i < ws.len() ==> 0 <= (#[trigger] idx[i]) < search_tokens(dict, ws).len()
                && search_tokens(dict, ws)[idx[i]] == ws[i],
        forall|i: int, j: int| 0 <= i < j < ws.len() ==> (#[trigger] idx[i]) < #[trigger] idx[j],
    decreases ws.len(),
{
    if ws.len() == 0 {
        Seq::<int>::empty()
    } else {
        let head = search_word(dict, ws[0]);
        let rest = lemma_search_keeps_words(dict, ws.drop_first());
        let here = head.len() - 1;
        assert(head[here] == ws[0]);
        let idx = Seq::new(
            ws.len(),
            |i: int|
                if i == 0 {
                    here
                } else {
                    head.len() + rest[i - 1]
                },
        );
        assert forall|i: int| 0 <= i < ws.len() implies 0 <= (#[trigger] idx[i]) < search_tokens(
            dict,
            ws,
        ).len() && search_tokens(dict, ws)[idx[i]] == ws[i] by {
            if i > 0 {
                assert(ws.drop_first()[i - 1] == ws[i]);
                assert(0 <= rest[i - 1] < search_tokens(dict, ws.drop_first()).len());
            }
        }
        assert forall|i: int, j: int| 0 <= i < j < ws.len() implies (#[trigger] idx[i])
            < #[trigger] idx[j] by {
            assert(0 <= rest[j - 1]);
            if i > 0 {
                assert(rest[i - 1] < rest[j - 1]);
            }
        }
        idx
    }
}

/// Token lists with the same bytes hold the same texts.
pub proof fn lemma_same_tokens(first: Seq<&str>, second: Seq<&str>)
    requires
        texts(first) == texts(second),
    ensures
        first.len() == second.len(),
        forall|i: int| 0 <= i < first.len() ==> (#[trigger] first[i])@ == second[i]@,
{
    assert(texts(first).len() == first.len());
    assert(texts(second).len() == second.len());
    assert forall|i: int| 0 <= i < first.len() implies (#[trigger] first[i])@ == second[i]@ by {
        assert(texts(first)[i] == first[i].spec_bytes());
        assert(texts(second)[i] == second[i].spec_bytes());
        lemma_same_bytes_same_text(first[i], second[i]);
    }
}

/// The segmentation engine: a dictionary, a model for unknown words, and
/// the pattern that splits a text into spans.
pub struct Jieba {
    dict: Dictionary,
    model: HmmModel,
    splitter: Pattern,
}

impl Jieba {
    /// The engine's dictionary.
    pub closed spec fn dict(&self) -> Dictionary {
        self.dict
    }

    /// The engine's model.
    pub closed spec fn model(&self) -> HmmModel {
        self.model
    }

    /// The dictionary holds counts, the model is in order, and the pattern
    /// is the one that splits a text into spans.
    pub closed spec fn wf(&self) -> bool {
        &&& self.dict.spec_total() >= 1
        &&& self.model.wf()
        &&& self.splitter.source() == SPLIT_PATTERN@
    }

    /// The dictionary's entries.
    pub open spec fn entries(&self) -> Map<Seq<u8>, u64> {
        self.dict().entries()
    }

    /// The logarithm of the dictionary's total.
    pub open spec fn log_total(&self) -> int {
        spec_ln_fixed(self.dict().spec_total())
    }

    /// The route table of a sentence.
    pub open spec fn routes(&self, s: Seq<u8>) -> Seq<(i128, usize)> {
        route_table(self.entries(), s, self.log_total())
    }

    /// The tokens of a span that is cut into words, by mode: every
    /// dictionary word in it; or its best division, with or without the
    /// model for the stretches that the dictionary does not hold.
    pub open spec fn span_tokens(&self, b: Seq<u8>, all: bool, hmm: bool) -> Seq<Seq<u8>> {
        if all {
            all_tokens(self.entries(), b, 0)
        } else if hmm {
            hmm_tokens(self.entries(), &self.model(), b, self.routes(b), 0, None)
        } else {
            plain_tokens(b, self.routes(b), 0, None)
        }
    }

    /// The tokens of the pieces of a text: a span that matched the pattern
    /// is cut into words, a piece between two is split by the pattern of
    /// letters and digits.
    pub open spec fn text_tokens(&self, ps: Seq<Piece>, b: Seq<u8>, all: bool, hmm: bool) -> Seq<
        Seq<u8>,
    >
        decreases ps.len(),
    {
        if ps.len() == 0 {
            seq![]
        } else {
            (if ps[0].matched {
                self.span_tokens(b.subrange(ps[0].lo, ps[0].hi), all, hmm)
            } else {
                skip_tokens(b.subrange(ps[0].lo, ps[0].hi))
            }) + self.text_tokens(ps.drop_first(), b, all, hmm)
        }
    }

    /// The tokens of a text.
    pub open spec fn cut_spec(&self, text: &str, all: bool, hmm: bool) -> Seq<Seq<u8>> {
        self.text_tokens(
            pieces(regex_matches(SPLIT_PATTERN@, text@), text.spec_bytes().len() as int),
            text.spec_bytes(),
            all,
            hmm,
        )
    }

    /// Makes an engine of its parts, where the dictionary holds counts and
    /// the pattern was compiled.
    pub fn assemble(dict: Dictionary, model: HmmModel, splitter: Option<Pattern>) -> (r: JResult<
        Jieba,
    >)
        requires
            model.wf(),
            splitter matches Some(re) ==> re.source() == SPLIT_PATTERN@,
        ensures
            r is Ok <==> dict.spec_total() >= 1 && splitter is Some,
            r matches Ok(j) ==> j.wf() && j.dict() == dict && j.model() == model,
            r matches Err(e) ==> e is Unexpected,
    {
        if dict.total() == 0 {
            return Err(Error::Unexpected(String::from_str("the dictionary holds no counts")));
        }
        match splitter {
            None => Err(Error::Unexpected(String::from_str("a pattern was refused"))),
            Some(re) => Ok(Jieba { dict, model, splitter: re }),
        }
    }

    /// Makes an engine from the text of a dictionary and a model. It is made
    /// where the text holds an entry with a count above zero and the pattern
    /// that splits a text into spans is accepted.
    pub fn new(dict_text: &str, model: HmmModel) -> (r: JResult<Jieba>)
        requires
            model.wf(),
        ensures
            r is Ok <==> crate::dictionary::add_text(
                crate::dictionary::empty_model(),
                dict_text.spec_bytes(),
            ).total >= 1 && pattern_compiles(SPLIT_PATTERN@),
            r matches Ok(j) ==> j.wf() && j.model() == model && j.dict()@
                == crate::dictionary::add_text(
                crate::dictionary::empty_model(),
                dict_text.spec_bytes(),
            ),
            r matches Err(e) ==> e is Unexpected,
    {
        match Dictionary::load(dict_text) {
            Err(e) => Err(e),
            Ok(dict) => Self::assemble(dict, model, Pattern::new(SPLIT_PATTERN)),
        }
    }

    /// The rows of the lattice of a sentence.
    pub fn dag(&self, sentence: &str) -> (rows: Vec<Vec<usize>>)
        ensures
            rows@.len() == sentence.spec_bytes().len(),
            forall|k: int|
                0 <= k < rows@.len() ==> (#[trigger] rows@[k])@ == (if boundary(
                    sentence.spec_bytes(),
                    k,
                ) {
                    edges(self.entries(), sentence.spec_bytes(), k)
                } else {
                    Seq::<usize>::empty()
                }),
    {
        dag(&self.dict, sentence.as_bytes())
    }

    /// The route table of a sentence.
    pub fn calc(&self, sentence: &str) -> (rs: Vec<(i128, usize)>)
        requires
            self.wf(),
        ensures
            rs@ == self.routes(sentence.spec_bytes()),
            rs@.len() == sentence.spec_bytes().len() + 1,
            rs@.last() == (0i128, sentence.spec_bytes().len() as usize),
            advances(sentence.spec_bytes(), rs@),
    {
        let rs = crate::lattice::calc(&self.dict, sentence.as_bytes());
        let n = byte_len(sentence);
        proof {
            self.dict.lemma_total_fits();
            lemma_ln_fixed_range(self.dict.spec_total());
            lemma_route_table_advances(self.entries(), sentence.spec_bytes(), self.log_total());
        }
        rs
    }

    /// Adds to `words` the best division of a sentence into words, the
    /// stretches that the dictionary does not hold cut by the model.
    pub fn cut_dag_with_hmm<'a>(&self, sentence: &'a str, words: &mut Vec<&'a str>)
        requires
            self.wf(),
        ensures
            texts(final(words)@) == texts(old(words)@) + self.span_tokens(
                sentence.spec_bytes(),
                false,
                true,
            ),
            joined(texts(final(words)@)) == joined(texts(old(words)@)) + sentence.spec_bytes(),
    {
        let rs = self.calc(sentence);
        walk_hmm(&self.dict, &self.model, sentence, &rs, words);
    }

    /// Adds to `words` the best division of a sentence into words.
    pub fn cut_dag_no_hmm<'a>(&self, sentence: &'a str, words: &mut Vec<&'a str>)
        requires
            self.wf(),
        ensures
            texts(final(words)@) == texts(old(words)@) + self.span_tokens(
                sentence.spec_bytes(),
                false,
                false,
            ),
            joined(texts(final(words)@)) == joined(texts(old(words)@)) + sentence.spec_bytes(),
    {
        let rs = self.calc(sentence);
        walk_plain(sentence, &rs, words);
    }

    /// Adds to `words` every dictionary word of a sentence.
    pub fn cut_all<'a>(&self, sentence: &'a str, words: &mut Vec<&'a str>)
        ensures
            texts(final(words)@) == texts(old(words)@) + self.span_tokens(
                sentence.spec_bytes(),
                true,
                false,
            ),
    {
        let rows = self.dag(sentence);
        walk_all(sentence, &rows, words, Ghost(self.entries()));
    }

    /// Cuts a text into tokens: with `cut_all`, every dictionary word of
    /// each span; else the best division of each span, with the model for
    /// unknown stretches if `hmm` is set. What lies between the spans is
    /// handed on as it is.
    pub fn cut<'a>(&self, text: &'a str, cut_all: bool, hmm: bool) -> (words: Vec<&'a str>)
        requires
            self.wf(),
        ensures
            texts(words@) == self.cut_spec(text, cut_all, hmm),
            !cut_all ==> joined(texts(words@)) == text.spec_bytes(),
    {
        let ghost b = text.spec_bytes();
        let ghost total = self.cut_spec(text, cut_all, hmm);
        let mut words: Vec<&'a str> = Vec::new();
        let mut it = SegmentMatches::new(&self.splitter, text);
        let mut done = false;
        assert(texts(words@) =~= Seq::<Seq<u8>>::empty());
        assert(texts(words@) + total =~= total);
        proof {
            lemma_pieces_cover(it.matches(), 0, 0, b);
            assert(b.subrange(0, b.len() as int) =~= b);
            assert(joined(texts(words@)) + b =~= b);
        }
        while !done
            invariant
                self.wf(),
                it.wf(),
                it.text() == text,
                b == text.spec_bytes(),
                done ==> it.remaining().len() == 0,
                texts(words@) + self.text_tokens(it.remaining(), b, cut_all, hmm) == total,
                !cut_all ==> joined(texts(words@)) + pieces_bytes(it.remaining(), b) == b,
            decreases it.remaining().len() + (if done { 0int } else { 1int }),
        {
            let ghost before = texts(words@);
            let ghost rem = it.remaining();
            match it.next() {
                None => {
                    done = true;
                },
                Some(st) => {
                    let ghost rest = self.text_tokens(rem.drop_first(), b, cut_all, hmm);
                    let ghost part = b.subrange(rem[0].lo, rem[0].hi);
                    match st {
                        SegmentState::Matched(m) => {
                            if cut_all {
                                self.cut_all(m, &mut words);
                            } else if hmm {
                                self.cut_dag_with_hmm(m, &mut words);
                            } else {
                                self.cut_dag_no_hmm(m, &mut words);
                            }
                            assert(texts(words@) + rest =~= before + (self.span_tokens(
                                part,
                                cut_all,
                                hmm,
                            ) + rest));
                        },
                        SegmentState::Unmatched(u) => {
                            cut_other(&self.model, u, &mut words);
                            assert(texts(words@) + rest =~= before + (skip_tokens(part) + rest));
                        },
                    }
                    assert(!cut_all ==> joined(texts(words@)) + pieces_bytes(rem.drop_first(), b)
                        =~= joined(before) + (part + pieces_bytes(rem.drop_first(), b)));
                },
            }
        }
        assert(texts(words@) + Seq::<Seq<u8>>::empty() =~= texts(words@));
        assert(joined(texts(words@)) + Seq::<u8>::empty() =~= joined(texts(words@)));
        words
    }

    /// Cutting is a function of the engine, the text and the mode: two
    /// results for the same text in the same mode agree token by token.
    pub proof fn lemma_cut_deterministic(
        &self,
        text: &str,
        all: bool,
        hmm: bool,
        first: Seq<&str>,
        second: Seq<&str>,
    )
        requires
            texts(first) == self.cut_spec(text, all, hmm),
            texts(second) == self.cut_spec(text, all, hmm),
        ensures
            first.len() == second.len(),
            forall|i: int| 0 <= i < first.len() ==> (#[trigger] first[i])@ == second[i]@,
    {
        lemma_same_tokens(first, second);
    }

    /// Two results of the search mode for the same text agree token by
    /// token.
    pub proof fn lemma_search_deterministic(&self, text: &str, first: Seq<&str>, second: Seq<&str>)
        requires
            texts(first) == search_tokens(self.entries(), self.cut_spec(text, false, true)),
            texts(second) == search_tokens(self.entries(), self.cut_spec(text, false, true)),
        ensures
            first.len() == second.len(),
            forall|i: int| 0 <= i < first.len() ==> (#[trigger] first[i])@ == second[i]@,
    {
        lemma_same_tokens(first, second);
    }

    /// Cuts a text for a search index: the tokens of the mode with the
    /// model, each long one preceded by the dictionary entries of two and
    /// three characters within it.
    pub fn cut_for_search<'a>(&self, text: &'a str) -> (words: Vec<&'a str>)
        requires
            self.wf(),
        ensures
            texts(words@) == search_tokens(self.entries(), self.cut_spec(text, false, true)),
            joined(self.cut_spec(text, false, true)) == text.spec_bytes(),
    {
        let words = self.cut(text, false, true);
        expand_for_search(&self.dict, &words)
    }
}

} // verus!
