//! The frequency model: words with their counts, and every prefix of every
//! word.
//!
//! A dictionary is read from text with one entry per line, each of three
//! fields separated by white space: the word, its count, and a tag that is
//! not used. A count is a whole number written in decimal digits; one
//! written in any other way, with a sign, a fraction or an exponent, is not
//! taken for a count. A line of any other shape is passed over.

use crate::error::{Error, JResult};
use crate::logscale::{ln_fixed, spec_ln_fixed, LN_MAX};
use crate::text::{boundary, is_continuation};
use crate::wordmap::{hash_of, WordMap};
use vstd::prelude::*;
use vstd::slice::*;
use vstd::string::*;
use vstd::utf8::*;

verus! {

/// The three bytes write a white-space character: U+1680, U+2000 to
/// U+200A, U+2028, U+2029, U+202F, U+205F or U+3000.
pub open spec fn is_wide_blank(a: u8, b: u8, c: u8) -> bool {
    ||| (a == 0xe1 && b == 0x9a && c == 0x80)
    ||| (a == 0xe2 && b == 0x80 && ((0x80 <= c <= 0x8a) || c == 0xa8 || c == 0xa9 || c == 0xaf))
    ||| (a == 0xe2 && b == 0x81 && c == 0x9f)
    ||| (a == 0xe3 && b == 0x80 && c == 0x80)
}

/// The length in bytes of the white-space character that starts at offset
/// `i`, or 0 where none starts there. White space is what Unicode calls so:
/// tab to carriage return, space, U+0085, U+00A0, and the characters of
/// `is_wide_blank`.
pub open spec fn blank_len(s: Seq<u8>, i: int) -> int {
    if i < 0 || i >= s.len() {
        0
    } else if s[i] == 0x20 || (0x09 <= s[i] <= 0x0d) {
        1
    } else if i + 1 < s.len() && s[i] == 0xc2 && (s[i + 1] == 0x85 || s[i + 1] == 0xa0) {
        2
    } else if i + 2 < s.len() && is_wide_blank(s[i], s[i + 1], s[i + 2]) {
        3
    } else {
        0
    }
}

/// The first offset at or after `i` at which no white space starts.
pub open spec fn skip_blank(s: Seq<u8>, i: int) -> int
    decreases s.len() - i,
{
    if blank_len(s, i) > 0 {
        skip_blank(s, i + blank_len(s, i))
    } else {
        i
    }
}

/// The first offset at or after `i` at which white space starts, or the end.
pub open spec fn skip_word(s: Seq<u8>, i: int) -> int
    decreases s.len() - i,
{
    if 0 <= i < s.len() && blank_len(s, i) == 0 {
        skip_word(s, i + 1)
    } else {
        i
    }
}

/// The byte range of field number `n` (from 0) among those that begin at or
/// after `i`, if there are that many.
pub open spec fn field_at(s: Seq<u8>, i: int, n: nat) -> Option<(int, int)>
    decreases n,
{
    let a = skip_blank(s, i);
    if a >= s.len() {
        None
    } else if n == 0 {
        Some((a, skip_word(s, a)))
    } else {
        field_at(s, skip_word(s, a), (n - 1) as nat)
    }
}

/// Every byte is a decimal digit.
pub open spec fn all_digits(d: Seq<u8>) -> bool {
    forall|i: int| 0 <= i < d.len() ==> 0x30 <= #[trigger] d[i] <= 0x39
}

/// The number that a string of digits writes.
pub open spec fn digits_value(d: Seq<u8>) -> int
    decreases d.len(),
{
    if d.len() == 0 {
        0
    } else {
        digits_value(d.drop_last()) * 10 + (d.last() - 0x30)
    }
}

/// The count that a field writes: one or more decimal digits whose value
/// fits 64 bits.
pub open spec fn number(d: Seq<u8>) -> Option<u64> {
    if d.len() > 0 && all_digits(d) && digits_value(d) <= u64::MAX {
        Some(digits_value(d) as u64)
    } else {
        None
    }
}

/// The entry that a line holds: its word and count, if it has exactly three
/// fields and the second is a count.
pub open spec fn entry_of(line: Seq<u8>) -> Option<(Seq<u8>, u64)> {
    if field_at(line, 0, 2) is Some && field_at(line, 0, 3) is None {
        let w = field_at(line, 0, 0)->0;
        let f = field_at(line, 0, 1)->0;
        match number(line.subrange(f.0, f.1)) {
            Some(count) => Some((line.subrange(w.0, w.1), count)),
            None => None,
        }
    } else {
        None
    }
}


/// `m` with each prefix of `w` that ends between two characters and is at
/// most `n` bytes long entered with count 0, unless it is there already.
pub open spec fn with_prefixes(m: Map<Seq<u8>, u64>, w: Seq<u8>, n: int) -> Map<Seq<u8>, u64>
    decreases n,
{
    if n <= 0 {
        m
    } else {
        let before = with_prefixes(m, w, n - 1);
        if boundary(w, n) && !before.contains_key(w.subrange(0, n)) {
            before.insert(w.subrange(0, n), 0)
        } else {
            before
        }
    }
}

/// `m` after word `w` is entered with count `f`: the word takes the count,
/// and each of its shorter prefixes is entered with count 0 if it is new.
pub open spec fn insert_word(m: Map<Seq<u8>, u64>, w: Seq<u8>, f: u64) -> Map<Seq<u8>, u64> {
    with_prefixes(m.insert(w, f), w, w.len() - 1)
}

/// What a dictionary holds: its entries and the sum of the counts that were
/// entered.
pub struct DictModel {
    pub entries: Map<Seq<u8>, u64>,
    pub total: nat,
}

/// The model after one more line. A line without an entry changes nothing,
/// nor does one whose count would take the total beyond 64 bits.
pub open spec fn add_line(st: DictModel, line: Seq<u8>) -> DictModel {
    match entry_of(line) {
        Some((w, f)) => if st.total + f <= u64::MAX {
            DictModel { entries: insert_word(st.entries, w, f), total: st.total + f as nat }
        } else {
            st
        },
        None => st,
    }
}

/// The model after the rest of `text` is read from offset `i` on, where the
/// line being read began at `start`. A line ends at a line feed or at the
/// end of the text; nothing follows a line feed that ends the text.
pub open spec fn add_lines(st: DictModel, text: Seq<u8>, start: int, i: int) -> DictModel
    decreases text.len() - i,
{
    if i < 0 || i >= text.len() {
        if start < text.len() {
            add_line(st, text.subrange(start, text.len() as int))
        } else {
            st
        }
    } else if text[i] == 0x0a {
        add_lines(add_line(st, text.subrange(start, i)), text, i + 1, i + 1)
    } else {
        add_lines(st, text, start, i + 1)
    }
}

/// The model after all of `text` is read.
pub open spec fn add_text(st: DictModel, text: Seq<u8>) -> DictModel {
    add_lines(st, text, 0, 0)
}

/// The model of a dictionary with nothing in it.
pub open spec fn empty_model() -> DictModel {
    DictModel { entries: Map::empty(), total: 0 }
}

/// Every prefix of an entry that ends between two of its characters is an
/// entry too.
pub open spec fn prefix_closed(m: Map<Seq<u8>, u64>) -> bool {
    forall|w: Seq<u8>, n: int|
        #![trigger m.contains_key(w), w.subrange(0, n)]
        m.contains_key(w) && 0 < n < w.len() && boundary(w, n) ==> m.contains_key(
            w.subrange(0, n),
        )
}

/// What entering the prefixes of `w` up to `n` bytes does to a map: what was
/// there stays as it was, each such prefix is there afterwards, and nothing
/// else is new.
pub proof fn lemma_with_prefixes(m: Map<Seq<u8>, u64>, w: Seq<u8>, n: int)
    requires
        n < w.len(),
    ensures
        forall|k: Seq<u8>|
            m.contains_key(k) ==> #[trigger] with_prefixes(m, w, n).contains_key(k)
                && with_prefixes(m, w, n)[k] == m[k],
        forall|j: int|
            0 < j <= n && boundary(w, j) ==> with_prefixes(m, w, n).contains_key(
                #[trigger] w.subrange(0, j),
            ),
        forall|k: Seq<u8>|
            #[trigger] with_prefixes(m, w, n).contains_key(k) ==> m.contains_key(k) || exists|
                j: int,
            |
                0 < j <= n && boundary(w, j) && k == #[trigger] w.subrange(0, j),
    decreases n,
{
    if n > 0 {
        lemma_with_prefixes(m, w, n - 1);
        let before = with_prefixes(m, w, n - 1);
        let now = with_prefixes(m, w, n);
        assert forall|k: Seq<u8>| #[trigger] now.contains_key(k) implies m.contains_key(k)
            || exists|j: int| 0 < j <= n && boundary(w, j) && k == #[trigger] w.subrange(0, j) by {
            if !before.contains_key(k) {
                assert(k == w.subrange(0, n));
            } else if !m.contains_key(k) {
                let j = choose|j: int|
                    0 < j <= n - 1 && boundary(w, j) && k == #[trigger] w.subrange(0, j);
                assert(0 < j <= n && boundary(w, j) && k == w.subrange(0, j));
            }
        }
    }
}

/// Entering a word keeps the prefixes complete.
pub proof fn lemma_insert_word_closed(m: Map<Seq<u8>, u64>, w: Seq<u8>, f: u64)
    requires
        prefix_closed(m),
    ensures
        prefix_closed(insert_word(m, w, f)),
        insert_word(m, w, f).contains_key(w),
        insert_word(m, w, f)[w] == f,
{
    let base = m.insert(w, f);
    let r = insert_word(m, w, f);
    lemma_with_prefixes(base, w, w.len() - 1);
    assert forall|x: Seq<u8>, n: int|
        #![trigger r.contains_key(x), x.subrange(0, n)]
        r.contains_key(x) && 0 < n < x.len() && boundary(x, n) implies r.contains_key(
        x.subrange(0, n),
    ) by {
        if x == w {
        } else if m.contains_key(x) {
            assert(m.contains_key(x.subrange(0, n)));
            assert(base.contains_key(x.subrange(0, n)));
        } else {
            assert(!base.contains_key(x));
            let j = choose|j: int|
                0 < j <= w.len() - 1 && boundary(w, j) && x == #[trigger] w.subrange(0, j);
            assert(x.subrange(0, n) =~= w.subrange(0, n));
            assert(x[n] == w[n]);
            assert(boundary(w, n));
        }
    }
}

/// Reading lines keeps the prefixes complete.
pub proof fn lemma_add_lines_closed(st: DictModel, text: Seq<u8>, start: int, i: int)
    requires
        prefix_closed(st.entries),
    ensures
        prefix_closed(add_lines(st, text, start, i).entries),
    decreases text.len() - i,
{
    if i < 0 || i >= text.len() {
        if start < text.len() {
            lemma_add_line_closed(st, text.subrange(start, text.len() as int));
        }
    } else if text[i] == 0x0a {
        lemma_add_line_closed(st, text.subrange(start, i));
        lemma_add_lines_closed(add_line(st, text.subrange(start, i)), text, i + 1, i + 1);
    } else {
        lemma_add_lines_closed(st, text, start, i + 1);
    }
}

/// Reading one line keeps the prefixes complete.
pub proof fn lemma_add_line_closed(st: DictModel, line: Seq<u8>)
    requires
        prefix_closed(st.entries),
    ensures
        prefix_closed(add_line(st, line).entries),
{
    match entry_of(line) {
        Some((w, f)) => {
            lemma_insert_word_closed(st.entries, w, f);
        },
        None => {},
    }
}

/// In a dictionary read from text, every prefix of an entry that ends
/// between two of its characters is an entry.
pub proof fn lemma_text_closed(text: Seq<u8>)
    ensures
        prefix_closed(add_text(empty_model(), text).entries),
{
    lemma_add_lines_closed(empty_model(), text, 0, 0);
}

/// Skipping white space stays within the line and stops where none starts.
pub proof fn lemma_skip_blank_range(s: Seq<u8>, i: int)
    requires
        0 <= i <= s.len(),
    ensures
        i <= skip_blank(s, i) <= s.len(),
        blank_len(s, skip_blank(s, i)) == 0,
    decreases s.len() - i,
{
    if blank_len(s, i) > 0 {
        lemma_skip_blank_range(s, i + blank_len(s, i));
    }
}

/// Skipping a field stays within the line and takes at least its first byte.
pub proof fn lemma_skip_word_range(s: Seq<u8>, i: int)
    requires
        0 <= i <= s.len(),
    ensures
        i <= skip_word(s, i) <= s.len(),
        i < s.len() && blank_len(s, i) == 0 ==> i < skip_word(s, i),
    decreases s.len() - i,
{
    if i < s.len() && blank_len(s, i) == 0 {
        lemma_skip_word_range(s, i + 1);
    }
}

proof fn lemma_digits_grow(d: Seq<u8>, k: int)
    requires
        all_digits(d),
        0 <= k <= d.len(),
    ensures
        0 <= digits_value(d.take(k)) <= digits_value(d),
    decreases d.len() - k,
{
    if k == d.len() {
        assert(d.take(k) =~= d);
        lemma_digits_nonnegative(d);
    } else {
        lemma_digits_grow(d, k + 1);
        assert(d.take(k + 1).drop_last() =~= d.take(k));
        lemma_digits_nonnegative(d.take(k));
    }
}

proof fn lemma_digits_nonnegative(d: Seq<u8>)
    requires
        all_digits(d),
    ensures
        0 <= digits_value(d),
    decreases d.len(),
{
    if d.len() > 0 {
        lemma_digits_nonnegative(d.drop_last());
    }
}

fn is_wide_blank_bytes(a: u8, b: u8, c: u8) -> (r: bool)
    ensures
        r == is_wide_blank(a, b, c),
{
    (a == 0xe1 && b == 0x9a && c == 0x80) || (a == 0xe2 && b == 0x80 && ((0x80 <= c && c <= 0x8a)
        || c == 0xa8 || c == 0xa9 || c == 0xaf)) || (a == 0xe2 && b == 0x81 && c == 0x9f) || (a
        == 0xe3 && b == 0x80 && c == 0x80)
}

/// The length of the white-space character that starts at `i`, or 0.
fn blank_len_at(s: &[u8], i: usize) -> (r: usize)
    requires
        i <= s@.len(),
    ensures
        r == blank_len(s@, i as int),
        i + r <= s@.len(),
{
    let n = s.len();
    if i >= n {
        0
    } else if s[i] == 0x20 || (0x09 <= s[i] && s[i] <= 0x0d) {
        1
    } else if n - i > 1 && s[i] == 0xc2 && (s[i + 1] == 0x85 || s[i + 1] == 0xa0) {
        2
    } else if n - i > 2 && is_wide_blank_bytes(s[i], s[i + 1], s[i + 2]) {
        3
    } else {
        0
    }
}

fn skip_blank_from(s: &[u8], i: usize) -> (r: usize)
    requires
        i <= s@.len(),
    ensures
        r == skip_blank(s@, i as int),
        i <= r <= s@.len(),
{
    let n = s.len();
    let mut j: usize = i;
    let mut w: usize = blank_len_at(s, j);
    while w > 0
        invariant
            n == s@.len(),
            i <= j <= s@.len(),
            w == blank_len(s@, j as int),
            j + w <= s@.len(),
            skip_blank(s@, i as int) == skip_blank(s@, j as int),
        decreases s@.len() - j,
    {
        j = j + w;
        w = blank_len_at(s, j);
    }
    j
}

fn skip_word_from(s: &[u8], i: usize) -> (r: usize)
    requires
        i <= s@.len(),
    ensures
        r == skip_word(s@, i as int),
        i <= r <= s@.len(),
{
    let mut j: usize = i;
    while j < s.len() && blank_len_at(s, j) == 0
        invariant
            i <= j <= s@.len(),
            skip_word(s@, i as int) == skip_word(s@, j as int),
        decreases s@.len() - j,
    {
        j = j + 1;
    }
    j
}

/// The next field at or after `i`, as a byte range.
fn next_field(s: &[u8], i: usize) -> (r: Option<(usize, usize)>)
    requires
        i <= s@.len(),
    ensures
        match r {
            Some((a, b)) => field_at(s@, i as int, 0) == Some((a as int, b as int)) && i <= a < b
                <= s@.len(),
            None => field_at(s@, i as int, 0) is None,
        },
        forall|n: nat|
            #[trigger] field_at(s@, i as int, n + 1) == (match r {
                Some((a, b)) => field_at(s@, b as int, n),
                None => None,
            }),
{
    let a = skip_blank_from(s, i);
    if a >= s.len() {
        None
    } else {
        let b = skip_word_from(s, a);
        proof {
            lemma_skip_blank_range(s@, i as int);
            lemma_skip_word_range(s@, a as int);
        }
        Some((a, b))
    }
}

/// The count that the bytes of `s` in `[a, b)` write.
fn parse_number(s: &[u8], a: usize, b: usize) -> (r: Option<u64>)
    requires
        a <= b <= s@.len(),
    ensures
        r == number(s@.subrange(a as int, b as int)),
{
    let ghost d = s@.subrange(a as int, b as int);
    if a == b {
        return None;
    }
    let mut v: u64 = 0;
    let mut i: usize = a;
    while i < b
        invariant
            a <= i <= b <= s@.len(),
            d == s@.subrange(a as int, b as int),
            all_digits(d.take(i - a)),
            v == digits_value(d.take(i - a)),
        decreases b - i,
    {
        let c = s[i];
        if c < 0x30 || c > 0x39 {
            assert(d[i - a] == c);
            return None;
        }
        let wide: u128 = (v as u128) * 10 + ((c - 0x30) as u128);
        proof {
            assert(d.take(i - a + 1).drop_last() =~= d.take(i - a));
            assert(d.take(i - a + 1).last() == c);
            assert(all_digits(d.take(i - a + 1))) by {
                assert forall|j: int| 0 <= j < i - a + 1 implies 0x30 <= #[trigger] d.take(
                    i - a + 1,
                )[j] <= 0x39 by {
                    if j < i - a {
                        assert(d.take(i - a)[j] == d[j]);
                    }
                }
            }
        }
        if wide > 0xffff_ffff_ffff_ffffu128 {
            proof {
                if all_digits(d) {
                    lemma_digits_grow(d, i - a + 1);
                }
            }
            return None;
        }
        v = wide as u64;
        i = i + 1;
    }
    proof {
        assert(d.take(b - a) =~= d);
    }
    Some(v)
}

/// The entry of a line: the byte range of its word, and its count.
pub fn parse_line(line: &[u8]) -> (r: Option<(usize, usize, u64)>)
    ensures
        match r {
            Some((a, b, f)) => a < b <= line@.len() && entry_of(line@) == Some(
                (line@.subrange(a as int, b as int), f),
            ),
            None => entry_of(line@) is None,
        },
{
    let f0 = next_field(line, 0);
    match f0 {
        None => None,
        Some((a0, b0)) => {
            let f1 = next_field(line, b0);
            match f1 {
                None => None,
                Some((a1, b1)) => {
                    let f2 = next_field(line, b1);
                    match f2 {
                        None => None,
                        Some((a2, b2)) => {
                            let f3 = next_field(line, b2);
                            proof {
                                assert(field_at(line@, 0, 1) == field_at(line@, b0 as int, 0));
                                assert(field_at(line@, 0, 2) == field_at(line@, b0 as int, 1));
                                assert(field_at(line@, 0, 3) == field_at(line@, b0 as int, 2));
                                assert(field_at(line@, b0 as int, 1) == field_at(
                                    line@,
                                    b1 as int,
                                    0,
                                ));
                                assert(field_at(line@, b0 as int, 2) == field_at(
                                    line@,
                                    b1 as int,
                                    1,
                                ));
                                assert(field_at(line@, b1 as int, 1) == field_at(
                                    line@,
                                    b2 as int,
                                    0,
                                ));
                            }
                            if f3.is_some() {
                                return None;
                            }
                            match parse_number(line, a1, b1) {
                                None => None,
                                Some(f) => Some((a0, b0, f)),
                            }
                        },
                    }
                },
            }
        },
    }
}

/// The words with their counts, every prefix of every word, and the sum of
/// the counts that were entered.
pub struct Dictionary {
    words: WordMap,
    total: u64,
}

impl Dictionary {
    /// What the dictionary holds: the entries and the total.
    pub closed spec fn view(&self) -> DictModel {
        DictModel { entries: self.words@, total: self.total as nat }
    }

    /// The entries: each word and each prefix, with its count.
    pub open spec fn entries(&self) -> Map<Seq<u8>, u64> {
        self@.entries
    }

    /// The sum of the counts entered.
    pub open spec fn spec_total(&self) -> nat {
        self@.total
    }

    /// The count under `key`, if it is an entry.
    pub open spec fn spec_frequency(&self, key: Seq<u8>) -> Option<u64> {
        if self.entries().contains_key(key) {
            Some(self.entries()[key])
        } else {
            None
        }
    }

    /// The total fits 64 bits.
    pub proof fn lemma_total_fits(&self)
        ensures
            self.spec_total() <= u64::MAX,
    {
    }

    /// A dictionary with nothing in it.
    pub fn new() -> (d: Dictionary)
        ensures
            d@ == empty_model(),
    {
        Dictionary { words: WordMap::new(), total: 0 }
    }

    /// Enters `w` with count `f`, and its prefixes.
    fn insert(&mut self, w: &[u8], f: u64)
        requires
            old(self).total + f <= u64::MAX,
        ensures
            final(self)@ == (DictModel {
                entries: insert_word(old(self).entries(), w@, f),
                total: old(self).spec_total() + f as nat,
            }),
    {
        self.total = self.total + f;
        self.words.set(w, f);
        let mut n: usize = 1;
        while n < w.len()
            invariant
                1 <= n,
                n <= w@.len() || n == 1,
                self.total == old(self).total + f,
                self.words@ == with_prefixes(old(self).words@.insert(w@, f), w@, n - 1),
            decreases w@.len() - n,
        {
            if !is_continuation(w[n]) {
                let prefix = slice_subrange(w, 0, n);
                if self.words.get(prefix).is_none() {
                    self.words.set(prefix, 0);
                }
            }
            n = n + 1;
        }
        proof {
            if w@.len() == 0 {
                assert(with_prefixes(old(self).words@.insert(w@, f), w@, -1) == old(
                    self,
                ).words@.insert(w@, f));
            }
        }
    }

    /// Takes in one line.
    fn add_entry(&mut self, line: &[u8])
        ensures
            final(self)@ == add_line(old(self)@, line@),
    {
        match parse_line(line) {
            None => {},
            Some((a, b, f)) => {
                if f <= u64::MAX - self.total {
                    self.insert(slice_subrange(line, a, b), f);
                }
            },
        }
    }

    /// Takes in the entries of `lines`, one line after the other.
    pub fn add_word(&mut self, lines: &str)
        ensures
            final(self)@ == add_text(old(self)@, lines.spec_bytes()),
    {
        let bytes = lines.as_bytes();
        let n = bytes.len();
        let mut start: usize = 0;
        let mut i: usize = 0;
        while i < n
            invariant
                0 <= start <= i <= n,
                n == bytes@.len(),
                bytes@ == lines.spec_bytes(),
                add_lines(self@, bytes@, start as int, i as int) == add_text(
                    old(self)@,
                    bytes@,
                ),
            decreases n - i,
        {
            if bytes[i] == 0x0a {
                self.add_entry(slice_subrange(bytes, start, i));
                start = i + 1;
            }
            i = i + 1;
        }
        if start < n {
            self.add_entry(slice_subrange(bytes, start, n));
        }
    }

    /// Reads a dictionary from text. It fails when the text holds no entry
    /// with a count above zero, since nothing can then be scored.
    pub fn load(text: &str) -> (r: JResult<Dictionary>)
        ensures
            add_text(empty_model(), text.spec_bytes()).total > 0 ==> r is Ok,
            r matches Ok(d) ==> d@ == add_text(empty_model(), text.spec_bytes())
                && d.spec_total() > 0,
            r matches Err(e) ==> e is Unexpected,
    {
        let mut d = Dictionary::new();
        d.add_word(text);
        if d.total == 0 {
            Err(Error::Unexpected(String::from_str("the dictionary holds no counts")))
        } else {
            Ok(d)
        }
    }

    /// The count under `key`: of a word as it was entered, 0 for what is
    /// only a prefix of one, nothing for any other text.
    pub fn frequency(&self, key: &str) -> (r: Option<u64>)
        ensures
            r == self.spec_frequency(key.spec_bytes()),
    {
        self.words.get(key.as_bytes())
    }

    /// The count under a key given as bytes.
    pub fn frequency_of(&self, key: &[u8]) -> (r: Option<u64>)
        ensures
            r == self.spec_frequency(key@),
    {
        self.words.get(key)
    }

    /// The count under a key whose hash the caller has at hand.
    pub fn frequency_hashed(&self, key: &[u8], h: u64) -> (r: Option<u64>)
        requires
            h == hash_of(key@),
        ensures
            r == self.spec_frequency(key@),
    {
        self.words.get_hashed(key, h)
    }

    /// The sum of the counts entered.
    pub fn total(&self) -> (r: u64)
        ensures
            r == self.spec_total(),
    {
        self.total
    }

    /// The logarithm of the total.
    pub fn log_total(&self) -> (r: u64)
        requires
            self.spec_total() >= 1,
        ensures
            r == spec_ln_fixed(self.spec_total()),
            r <= LN_MAX,
    {
        ln_fixed(self.total)
    }
}

} // verus!
