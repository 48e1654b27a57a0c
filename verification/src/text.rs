//! Text as UTF-8 bytes: character boundaries and slicing by byte offsets.

use vstd::prelude::*;
use vstd::string::*;
use vstd::utf8::*;

verus! {

/// Offset `i` lies between two characters of `b`, or at one of its ends:
/// it is within `b` and the byte there, if any, does not continue a
/// character.
pub open spec fn boundary(b: Seq<u8>, i: int) -> bool {
    0 <= i <= b.len() && (i < b.len() ==> !is_continuation_byte(b[i]))
}

/// The end of the character that starts at `i`: the first boundary after `i`.
pub open spec fn char_end(b: Seq<u8>, i: int) -> int
    decreases b.len() - i,
{
    if i + 1 >= b.len() || !is_continuation_byte(b[i + 1]) {
        i + 1
    } else {
        char_end(b, i + 1)
    }
}

/// The offsets below `n` at which a character starts, in ascending order.
pub open spec fn starts_upto(b: Seq<u8>, n: int) -> Seq<usize>
    decreases n,
{
    if n <= 0 {
        seq![]
    } else if !is_continuation_byte(b[n - 1]) {
        starts_upto(b, n - 1).push((n - 1) as usize)
    } else {
        starts_upto(b, n - 1)
    }
}

/// The offsets at which the characters of `b` start, in ascending order.
pub open spec fn char_starts(b: Seq<u8>) -> Seq<usize> {
    starts_upto(b, b.len() as int)
}

/// The end of character number `t`, given where the characters start: the
/// start of the next one, or the end of the text.
pub open spec fn end_of(b: Seq<u8>, starts: Seq<usize>, t: int) -> int {
    if t + 1 < starts.len() {
        starts[t + 1] as int
    } else {
        b.len() as int
    }
}

/// The characters of `b`, each as its bytes.
pub open spec fn chars_of(b: Seq<u8>) -> Seq<Seq<u8>> {
    Seq::new(
        char_starts(b).len(),
        |t: int| b.subrange(char_starts(b)[t] as int, end_of(b, char_starts(b), t)),
    )
}

/// The bytes of each of a sequence of texts.
pub open spec fn texts(ws: Seq<&str>) -> Seq<Seq<u8>> {
    ws.map_values(|w: &str| w.spec_bytes())
}

/// The texts of a sequence, one after the other.
pub open spec fn joined(ws: Seq<Seq<u8>>) -> Seq<u8>
    decreases ws.len(),
{
    if ws.len() == 0 {
        seq![]
    } else {
        joined(ws.drop_last()) + ws.last()
    }
}

/// One more text at the end adds its bytes at the end.
pub proof fn lemma_joined_push(ws: Seq<Seq<u8>>, w: Seq<u8>)
    ensures
        joined(ws.push(w)) == joined(ws) + w,
{
    assert(ws.push(w).drop_last() =~= ws);
}

/// Adds a token to the end of a list.
pub fn push_token<'a>(words: &mut Vec<&'a str>, w: &'a str)
    ensures
        final(words)@ == old(words)@.push(w),
        texts(final(words)@) == texts(old(words)@).push(w.spec_bytes()),
        joined(texts(final(words)@)) == joined(texts(old(words)@)) + w.spec_bytes(),
{
    words.push(w);
    assert(texts(words@) =~= texts(old(words)@).push(w.spec_bytes()));
    proof {
        lemma_joined_push(texts(old(words)@), w.spec_bytes());
    }
}

/// Whether a byte continues a character that an earlier byte began.
pub fn is_continuation(b: u8) -> (r: bool)
    ensures
        r == is_continuation_byte(b),
{
    0x80 <= b && b <= 0xbf
}

/// What holds of the starts below `n`: they ascend, each is a boundary below
/// `n`, and every boundary below `n` is among them.
pub proof fn lemma_starts_upto(b: Seq<u8>, n: int)
    requires
        0 <= n <= b.len(),
        b.len() <= usize::MAX,
    ensures
        starts_upto(b, n).len() <= n,
        forall|t: int|
            0 <= t < starts_upto(b, n).len() ==> (#[trigger] starts_upto(b, n)[t]) < n
                && !is_continuation_byte(b[starts_upto(b, n)[t] as int]),
        forall|t: int, u: int|
            0 <= t < u < starts_upto(b, n).len() ==> (#[trigger] starts_upto(b, n)[t])
                < #[trigger] starts_upto(b, n)[u],
        forall|i: int|
            0 <= i < n && !is_continuation_byte(#[trigger] b[i]) ==> exists|t: int|
                0 <= t < starts_upto(b, n).len() && #[trigger] starts_upto(b, n)[t] == i,
        forall|t: int|
            #![trigger starts_upto(b, n)[t]]
            0 <= t < starts_upto(b, n).len() ==> forall|j: int|
                starts_upto(b, n)[t] < j < (if t + 1 < starts_upto(b, n).len() {
                    starts_upto(b, n)[t + 1] as int
                } else {
                    n
                }) ==> is_continuation_byte(#[trigger] b[j]),
    decreases n,
{
    if n > 0 {
        lemma_starts_upto(b, n - 1);
        let before = starts_upto(b, n - 1);
        let now = starts_upto(b, n);
        if !is_continuation_byte(b[n - 1]) {
            assert forall|i: int|
                0 <= i < n && !is_continuation_byte(#[trigger] b[i]) implies exists|t: int|
                0 <= t < now.len() && #[trigger] now[t] == i by {
                if i == n - 1 {
                    assert(now[before.len() as int] == i);
                } else {
                    let t = choose|t: int| 0 <= t < before.len() && #[trigger] before[t] == i;
                    assert(now[t] == i);
                }
            }
            assert forall|t: int|
                #![trigger now[t]]
                0 <= t < now.len() implies forall|j: int|
                now[t] < j < (if t + 1 < now.len() {
                    now[t + 1] as int
                } else {
                    n
                }) ==> is_continuation_byte(#[trigger] b[j]) by {
                if t < before.len() {
                    assert(now[t] == before[t]);
                    if t + 1 < before.len() {
                        assert(now[t + 1] == before[t + 1]);
                    }
                }
            }
        } else {
            assert forall|i: int|
                0 <= i < n && !is_continuation_byte(#[trigger] b[i]) implies exists|t: int|
                0 <= t < now.len() && #[trigger] now[t] == i by {
                let t = choose|t: int| 0 <= t < before.len() && #[trigger] before[t] == i;
                assert(now[t] == i);
            }
        }
    }
}

/// The offsets at which the characters of a text start.
pub fn char_offsets(bytes: &[u8]) -> (v: Vec<usize>)
    ensures
        v@ == char_starts(bytes@),
{
    let mut v: Vec<usize> = Vec::new();
    let mut i: usize = 0;
    while i < bytes.len()
        invariant
            0 <= i <= bytes@.len(),
            v@ == starts_upto(bytes@, i as int),
        decreases bytes@.len() - i,
    {
        if !is_continuation(bytes[i]) {
            v.push(i);
        }
        i = i + 1;
    }
    v
}

/// On well-formed UTF-8 the boundaries are exactly the offsets at which the
/// text may be split.
pub proof fn lemma_boundary_is_char_boundary(b: Seq<u8>, i: int)
    requires
        valid_utf8(b),
        0 <= i <= b.len(),
    ensures
        boundary(b, i) <==> is_char_boundary(b, i),
{
    if i < b.len() {
        is_char_boundary_iff_not_is_continuation_byte(b, i);
    } else {
        is_char_boundary_start_end_of_seq(b);
    }
}

/// The bytes of a string are well-formed UTF-8.
pub proof fn lemma_str_valid(s: &str)
    ensures
        valid_utf8(s.spec_bytes()),
{
    encode_utf8_valid_utf8(s@);
}

/// A string is determined by its bytes.
pub proof fn lemma_same_bytes_same_text(s: &str, t: &str)
    requires
        s.spec_bytes() == t.spec_bytes(),
    ensures
        s@ == t@,
{
    encode_utf8_decode_utf8(s@);
    encode_utf8_decode_utf8(t@);
}

/// The length of a text in bytes.
pub fn byte_len(s: &str) -> (n: usize)
    ensures
        n == s.spec_bytes().len(),
{
    s.as_bytes().len()
}

/// The part of `text` between two boundaries.
pub fn slice<'a>(text: &'a str, from: usize, to: usize) -> (r: &'a str)
    requires
        from <= to,
        boundary(text.spec_bytes(), from as int),
        boundary(text.spec_bytes(), to as int),
    ensures
        r.spec_bytes() == text.spec_bytes().subrange(from as int, to as int),
{
    let ghost b = text.spec_bytes();
    proof {
        lemma_str_valid(text);
        lemma_boundary_is_char_boundary(b, to as int);
    }
    let (head, _) = text.split_at(to);
    proof {
        let h = head.spec_bytes();
        valid_utf8_split(b, to as int);
        assert(h == b.subrange(0, to as int));
        lemma_boundary_is_char_boundary(h, from as int);
        assert(from < to ==> h[from as int] == b[from as int]);
    }
    let (_, r) = head.split_at(from);
    assert(r.spec_bytes() =~= b.subrange(from as int, to as int));
    r
}

} // verus!
