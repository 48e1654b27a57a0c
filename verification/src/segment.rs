//! Splitting a text by the matches of a pattern: the matches themselves, and
//! what lies between them, in the order of the text.

use crate::pattern::{matches_in_order, regex_matches, Pattern};
use crate::text::{
    boundary, byte_len, lemma_boundary_is_char_boundary, lemma_same_bytes_same_text,
    lemma_str_valid, slice,
};
use vstd::prelude::*;
use vstd::string::*;

verus! {

/// One piece of a split text: the byte range `[lo, hi)`, and whether the
/// pattern matched it.
pub struct Piece {
    pub matched: bool,
    pub lo: int,
    pub hi: int,
}

/// The pieces of a text of `len` bytes from offset `last` on, where `ms[i..]`
/// are the matches still ahead. Each match is a piece; so is each stretch
/// between two matches, before the first or after the last, unless it is
/// empty.
pub open spec fn pieces_from(ms: Seq<(usize, usize)>, i: int, last: int, len: int) -> Seq<Piece>
    decreases ms.len() - i,
{
    if i < 0 || i >= ms.len() {
        if last == len {
            seq![]
        } else {
            seq![Piece { matched: false, lo: last, hi: len }]
        }
    } else {
        let gap = if last == ms[i].0 {
            seq![]
        } else {
            seq![Piece { matched: false, lo: last, hi: ms[i].0 as int }]
        };
        gap + seq![Piece { matched: true, lo: ms[i].0 as int, hi: ms[i].1 as int }] + pieces_from(
            ms,
            i + 1,
            ms[i].1 as int,
            len,
        )
    }
}

/// The pieces of a whole text.
pub open spec fn pieces(ms: Seq<(usize, usize)>, len: int) -> Seq<Piece> {
    pieces_from(ms, 0, 0, len)
}

/// The bytes of the pieces, one after the other.
pub open spec fn pieces_bytes(ps: Seq<Piece>, bytes: Seq<u8>) -> Seq<u8>
    decreases ps.len(),
{
    if ps.len() == 0 {
        seq![]
    } else {
        bytes.subrange(ps[0].lo, ps[0].hi) + pieces_bytes(ps.drop_first(), bytes)
    }
}

/// The bytes of two runs of pieces, one after the other.
pub proof fn lemma_pieces_bytes_concat(a: Seq<Piece>, b: Seq<Piece>, bytes: Seq<u8>)
    ensures
        pieces_bytes(a + b, bytes) == pieces_bytes(a, bytes) + pieces_bytes(b, bytes),
    decreases a.len(),
{
    if a.len() == 0 {
        assert(a + b =~= b);
    } else {
        assert((a + b).drop_first() =~= a.drop_first() + b);
        lemma_pieces_bytes_concat(a.drop_first(), b, bytes);
    }
    assert(pieces_bytes(a + b, bytes) =~= pieces_bytes(a, bytes) + pieces_bytes(b, bytes));
}

/// The bytes of a single piece.
pub proof fn lemma_pieces_bytes_one(p: Piece, bytes: Seq<u8>)
    ensures
        pieces_bytes(seq![p], bytes) == bytes.subrange(p.lo, p.hi),
{
    let ps = seq![p];
    assert(ps.drop_first() =~= Seq::<Piece>::empty());
    assert(pieces_bytes(ps.drop_first(), bytes) =~= Seq::<u8>::empty());
    assert(pieces_bytes(ps, bytes) =~= bytes.subrange(p.lo, p.hi));
}

/// The pieces cover the text from `last` on, each byte once and in order.
pub proof fn lemma_pieces_cover(ms: Seq<(usize, usize)>, i: int, last: int, bytes: Seq<u8>)
    requires
        matches_in_order(ms, bytes),
        0 <= i <= ms.len(),
        0 <= last <= bytes.len(),
        i < ms.len() ==> last <= ms[i].0,
    ensures
        pieces_bytes(pieces_from(ms, i, last, bytes.len() as int), bytes) == bytes.subrange(
            last,
            bytes.len() as int,
        ),
    decreases ms.len() - i,
{
    let len = bytes.len() as int;
    let ps = pieces_from(ms, i, last, len);
    if i >= ms.len() {
        if last == len {
            assert(bytes.subrange(last, len) =~= Seq::<u8>::empty());
        } else {
            lemma_pieces_bytes_one(Piece { matched: false, lo: last, hi: len }, bytes);
        }
    } else {
        let s = ms[i].0 as int;
        let e = ms[i].1 as int;
        let gap = if last == s {
            Seq::<Piece>::empty()
        } else {
            seq![Piece { matched: false, lo: last, hi: s }]
        };
        let hit = seq![Piece { matched: true, lo: s, hi: e }];
        let rest = pieces_from(ms, i + 1, e, len);
        lemma_pieces_cover(ms, i + 1, e, bytes);
        lemma_pieces_bytes_concat(gap + hit, rest, bytes);
        lemma_pieces_bytes_concat(gap, hit, bytes);
        lemma_pieces_bytes_one(Piece { matched: true, lo: s, hi: e }, bytes);
        if last == s {
            assert(pieces_bytes(gap, bytes) =~= bytes.subrange(last, s));
        } else {
            lemma_pieces_bytes_one(Piece { matched: false, lo: last, hi: s }, bytes);
        }
        assert(bytes.subrange(last, s) + bytes.subrange(s, e) + bytes.subrange(e, len)
            =~= bytes.subrange(last, len));
    }
}

/// Splitting again the text that the pieces spell gives the same pieces,
/// for matches that come in order, as every search returns them.
pub proof fn lemma_split_again(pattern: Seq<char>, text: &str, again: &str)
    requires
        matches_in_order(regex_matches(pattern, text@), text.spec_bytes()),
        again.spec_bytes() == pieces_bytes(
            pieces(regex_matches(pattern, text@), text.spec_bytes().len() as int),
            text.spec_bytes(),
        ),
    ensures
        again@ == text@,
        pieces(regex_matches(pattern, again@), again.spec_bytes().len() as int) == pieces(
            regex_matches(pattern, text@),
            text.spec_bytes().len() as int,
        ),
{
    let b = text.spec_bytes();
    lemma_pieces_cover(regex_matches(pattern, text@), 0, 0, b);
    assert(b.subrange(0, b.len() as int) =~= b);
    lemma_same_bytes_same_text(again, text);
}

/// A piece of the text as it is handed out.
pub enum SegmentState<'t> {
    Unmatched(&'t str),
    Matched(&'t str),
}

impl<'t> SegmentState<'t> {
    /// The text of the piece.
    pub open spec fn text(self) -> &'t str {
        match self {
            SegmentState::Unmatched(s) => s,
            SegmentState::Matched(s) => s,
        }
    }

    /// The piece stands for `p` in a text with the given bytes.
    pub open spec fn is_piece(self, p: Piece, bytes: Seq<u8>) -> bool {
        &&& (self is Matched) == p.matched
        &&& 0 <= p.lo <= p.hi <= bytes.len()
        &&& self.text().spec_bytes() == bytes.subrange(p.lo, p.hi)
    }

    /// The text of the piece, matched or not.
    pub fn into_str(self) -> (r: &'t str)
        ensures
            r == self.text(),
    {
        match self {
            SegmentState::Unmatched(s) => s,
            SegmentState::Matched(s) => s,
        }
    }
}

/// A text being split by the matches of a pattern.
pub struct SegmentMatches<'t> {
    matches: Vec<(usize, usize)>,
    text: &'t str,
    next: usize,
    last: usize,
    matched: Option<(usize, usize)>,
}

impl<'t> SegmentMatches<'t> {
    /// The text that is split.
    pub closed spec fn text(&self) -> &'t str {
        self.text
    }

    /// The matches of the pattern in the text.
    pub closed spec fn matches(&self) -> Seq<(usize, usize)> {
        self.matches@
    }

    /// The matches come in order, and the place reached in the text is the
    /// end of the last match that was looked at, or the end of the text once
    /// its tail has gone out.
    pub closed spec fn wf(&self) -> bool {
        &&& matches_in_order(self.matches@, self.text.spec_bytes())
        &&& self.next <= self.matches@.len()
        &&& self.last == self.reached() || (self.next == self.matches@.len() && self.last
            == self.text.spec_bytes().len())
        &&& self.matched matches Some(m) ==> self.next > 0 && m == self.matches@[self.next - 1]
            && self.last == m.1
    }

    /// Where the last match that was looked at ended.
    pub closed spec fn reached(&self) -> int {
        if self.next == 0 {
            0
        } else {
            self.matches@[self.next - 1].1 as int
        }
    }

    /// The pieces that have not been handed out yet.
    pub closed spec fn remaining(&self) -> Seq<Piece> {
        let pending = match self.matched {
            Some(m) => seq![Piece { matched: true, lo: m.0 as int, hi: m.1 as int }],
            None => seq![],
        };
        pending + pieces_from(
            self.matches@,
            self.next as int,
            self.last as int,
            self.text.spec_bytes().len() as int,
        )
    }

    /// Searches `text` for the pattern. The pieces that are then handed out
    /// spell the text, none lost and none twice.
    pub fn new(re: &Pattern, text: &'t str) -> (r: SegmentMatches<'t>)
        ensures
            r.wf(),
            r.text() == text,
            r.matches() == regex_matches(re.source(), text@),
            matches_in_order(r.matches(), text.spec_bytes()),
            r.remaining() == pieces(r.matches(), text.spec_bytes().len() as int),
            pieces_bytes(r.remaining(), text.spec_bytes()) == text.spec_bytes(),
    {
        let r = SegmentMatches { matches: re.find_all(text), text, next: 0, last: 0, matched: None };
        assert(r.remaining() =~= pieces(r.matches(), text.spec_bytes().len() as int));
        proof {
            let b = text.spec_bytes();
            lemma_pieces_cover(r.matches(), 0, 0, b);
            assert(b.subrange(0, b.len() as int) =~= b);
        }
        r
    }

    /// Hands out the next piece, if one is left.
    pub fn next(&mut self) -> (r: Option<SegmentState<'t>>)
        requires
            old(self).wf(),
        ensures
            final(self).wf(),
            final(self).text() == old(self).text(),
            final(self).matches() == old(self).matches(),
            match r {
                None => old(self).remaining().len() == 0 && final(self).remaining() == old(
                    self,
                ).remaining(),
                Some(st) => old(self).remaining().len() > 0 && final(self).remaining() == old(
                    self,
                ).remaining().drop_first() && st.is_piece(
                    old(self).remaining()[0],
                    old(self).text().spec_bytes(),
                ),
            },
    {
        let ghost bytes = self.text.spec_bytes();
        let ghost ms = self.matches@;
        let ghost len = bytes.len() as int;
        proof {
            lemma_str_valid(self.text);
            assert forall|i: int| 0 <= i < ms.len() implies boundary(bytes, (#[trigger] ms[i]).0 as int)
                && boundary(bytes, ms[i].1 as int) by {
                lemma_boundary_is_char_boundary(bytes, ms[i].0 as int);
                lemma_boundary_is_char_boundary(bytes, ms[i].1 as int);
            }
        }
        if let Some(m) = self.matched {
            self.matched = None;
            let s = slice(self.text, m.0, m.1);
            proof {
                let rest = pieces_from(ms, self.next as int, self.last as int, len);
                let pending = seq![Piece { matched: true, lo: m.0 as int, hi: m.1 as int }];
                assert((pending + rest).drop_first() =~= rest);
                assert(final(self).remaining() =~= rest);
            }
            return Some(SegmentState::Matched(s));
        }
        assert(self.remaining() =~= pieces_from(ms, self.next as int, self.last as int, len));
        if self.next >= self.matches.len() {
            let to = byte_len(self.text);
            if self.last == to {
                None
            } else {
                let from = self.last;
                let s = slice(self.text, from, to);
                self.last = to;
                proof {
                    assert(old(self).remaining().drop_first() =~= Seq::<Piece>::empty());
                    assert(final(self).remaining() =~= Seq::<Piece>::empty());
                }
                Some(SegmentState::Unmatched(s))
            }
        } else {
            let m = self.matches[self.next];
            let ghost gap = pieces_from(ms, self.next as int + 1, m.1 as int, len);
            if self.last == m.0 {
                self.last = m.1;
                self.next = self.next + 1;
                let s = slice(self.text, m.0, m.1);
                proof {
                    let hit = seq![Piece { matched: true, lo: m.0 as int, hi: m.1 as int }];
                    assert(old(self).remaining() =~= hit + gap);
                    assert((hit + gap).drop_first() =~= gap);
                }
                Some(SegmentState::Matched(s))
            } else {
                let from = self.last;
                proof {
                    if old(self).next > 0 {
                        assert(ms[old(self).next - 1].1 <= ms[old(self).next as int].0);
                    }
                }
                let s = slice(self.text, from, m.0);
                self.last = m.1;
                self.next = self.next + 1;
                self.matched = Some(m);
                proof {
                    let un = seq![Piece { matched: false, lo: from as int, hi: m.0 as int }];
                    let hit = seq![Piece { matched: true, lo: m.0 as int, hi: m.1 as int }];
                    assert(old(self).remaining() =~= un + hit + gap);
                    assert((un + hit + gap).drop_first() =~= hit + gap);
                }
                Some(SegmentState::Unmatched(s))
            }
        }
    }
}

} // verus!
