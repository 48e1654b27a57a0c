//! The hidden Markov model for words the dictionary does not hold: four
//! states over the characters of a run, decoded by the Viterbi algorithm.
//!
//! Probabilities are logarithms in fixed point, from `MIN_SCORE`, which
//! stands for "cannot be", up to 0.

use crate::error::{Error, JResult};
use crate::pattern::{pattern_compiles, regex_is_match, regex_matches, Pattern};
use crate::segment::{lemma_pieces_cover, pieces, pieces_bytes, Piece, SegmentMatches};
use crate::text::{
    boundary, byte_len, char_offsets, char_starts, chars_of, end_of, is_continuation, joined,
    lemma_boundary_is_char_boundary, lemma_starts_upto, lemma_str_valid, push_token, slice, texts,
};
use std::collections::HashMap;
use vstd::prelude::*;
use vstd::slice::*;
use vstd::string::*;
use vstd::utf8::*;

verus! {

broadcast use vstd::std_specs::hash::group_hash_axioms;

/// The score of what cannot be.
pub const MIN_SCORE: i64 = -0x4000_0000_0000_0000;

/// The pattern of a run of Han ideographs.
pub const HAN_PATTERN: &'static str ="([\\u{4E00}-\\u{9FD5}]+)";

/// The pattern of a run of letters and digits, with a fraction and a percent
/// sign if they follow.
pub const SKIP_PATTERN: &'static str ="([a-zA-Z0-9]+(?:.\\d+)?%?)";

/// The place of a character in a word: at its beginning, at its end, in its
/// middle, or a word by itself.
#[derive(Debug, PartialEq, Eq, Hash, PartialOrd, Ord, Clone, Copy, Structural)]
pub enum Status {
    B,
    E,
    M,
    S,
}

impl Status {
    /// The state's number: B, E, M, S are 0, 1, 2, 3.
    pub open spec fn spec_index(self) -> int {
        match self {
            Status::B => 0,
            Status::E => 1,
            Status::M => 2,
            Status::S => 3,
        }
    }

    /// The state's number.
    pub fn index(self) -> (r: usize)
        ensures
            r == self.spec_index(),
    {
        match self {
            Status::B => 0,
            Status::E => 1,
            Status::M => 2,
            Status::S => 3,
        }
    }

    /// The two states that may come before this one: a word begins after a
    /// word has ended, and goes on after it has begun.
    pub open spec fn spec_before(self) -> (Status, Status) {
        match self {
            Status::B => (Status::E, Status::S),
            Status::E => (Status::B, Status::M),
            Status::M => (Status::M, Status::B),
            Status::S => (Status::S, Status::E),
        }
    }

    /// The two states that may come before this one.
    pub fn before(self) -> (r: (Status, Status))
        ensures
            r == self.spec_before(),
    {
        match self {
            Status::B => (Status::E, Status::S),
            Status::E => (Status::B, Status::M),
            Status::M => (Status::M, Status::B),
            Status::S => (Status::S, Status::E),
        }
    }

    /// The state ends a word.
    pub open spec fn ends_word(self) -> bool {
        self == Status::E || self == Status::S
    }
}

/// A value that can stand in the model's tables.
pub open spec fn is_score(v: int) -> bool {
    MIN_SCORE <= v <= 0
}

/// The bytes of `c` read as one number, the first byte leading.
pub open spec fn pack(c: Seq<u8>) -> int
    decreases c.len(),
{
    if c.len() == 0 {
        0
    } else {
        pack(c.drop_last()) * 256 + c.last()
    }
}

/// The key under which the emission of character `c` by state `y` is kept.
pub open spec fn emit_key(y: Status, c: Seq<u8>) -> int {
    (pack(c) * 8 + c.len()) * 4 + y.spec_index()
}

/// `c` holds the bytes of one character: a first byte that continues
/// nothing, and up to three bytes that continue it.
pub open spec fn is_single_char(c: Seq<u8>) -> bool {
    &&& 1 <= c.len() <= 4
    &&& !is_continuation_byte(c[0])
    &&& forall|j: int| 1 <= j < c.len() ==> is_continuation_byte(#[trigger] c[j])
}

/// Up to four bytes read as one number stay below `2^32`, fewer bytes
/// further below.
pub proof fn lemma_pack_range(c: Seq<u8>)
    requires
        c.len() <= 4,
    ensures
        0 <= pack(c) < 0x1_0000_0000,
        c.len() <= 3 ==> pack(c) < 0x100_0000,
        c.len() <= 2 ==> pack(c) < 0x1_0000,
        c.len() <= 1 ==> pack(c) < 0x100,
        c.len() == 0 ==> pack(c) == 0,
    decreases c.len(),
{
    if c.len() > 0 {
        lemma_pack_range(c.drop_last());
    }
}

/// Byte strings of one length that read as the same number are the same.
pub proof fn lemma_pack_injective(c: Seq<u8>, d: Seq<u8>)
    requires
        c.len() == d.len(),
        c.len() <= 4,
        pack(c) == pack(d),
    ensures
        c == d,
    decreases c.len(),
{
    if c.len() > 0 {
        lemma_pack_range(c.drop_last());
        lemma_pack_range(d.drop_last());
        lemma_pack_injective(c.drop_last(), d.drop_last());
        assert(c =~= c.drop_last().push(c.last()));
        assert(d =~= d.drop_last().push(d.last()));
    } else {
        assert(c =~= d);
    }
}

/// Different characters and states have different keys.
pub proof fn lemma_emit_key_injective(y: Status, c: Seq<u8>, z: Status, d: Seq<u8>)
    requires
        c.len() <= 4,
        d.len() <= 4,
        emit_key(y, c) == emit_key(z, d),
    ensures
        y == z,
        c == d,
{
    lemma_pack_range(c);
    lemma_pack_range(d);
    lemma_pack_injective(c, d);
}

/// The model: the start scores of the four states, the scores of the steps
/// between them, the scores of the characters that each state shows, and
/// the two patterns by which a run is told apart and split.
pub struct HmmModel {
    start: Vec<i64>,
    trans: Vec<i64>,
    emit: HashMap<u64, i64>,
    han: Pattern,
    skip: Pattern,
}

impl HmmModel {
    /// The tables have their shape, every value in them is a score, and the
    /// patterns are the two that the model works with.
    pub closed spec fn wf(&self) -> bool {
        &&& self.start@.len() == 4
        &&& self.trans@.len() == 16
        &&& forall|i: int| 0 <= i < 4 ==> is_score(#[trigger] self.start@[i] as int)
        &&& forall|i: int| 0 <= i < 16 ==> is_score(#[trigger] self.trans@[i] as int)
        &&& forall|k: u64| self.emit@.contains_key(k) ==> is_score(#[trigger] self.emit@[k] as int)
        &&& self.han.source() == HAN_PATTERN@
        &&& self.skip.source() == SKIP_PATTERN@
    }

    /// The score of a run that starts in state `y`.
    pub closed spec fn start_of(&self, y: Status) -> int {
        self.start@[y.spec_index()] as int
    }

    /// The score of the step from state `from` to state `to`.
    pub closed spec fn trans_of(&self, from: Status, to: Status) -> int {
        self.trans@[from.spec_index() * 4 + to.spec_index()] as int
    }

    /// The score of state `y` showing character `c`: as it was set, and
    /// `MIN_SCORE` for a character that was never set for the state.
    pub closed spec fn emission(&self, y: Status, c: Seq<u8>) -> int {
        if 1 <= c.len() <= 4 && self.emit@.contains_key(emit_key(y, c) as u64) {
            self.emit@[emit_key(y, c) as u64] as int
        } else {
            MIN_SCORE as int
        }
    }

    /// The tables hold scores.
    pub proof fn lemma_scores(&self, from: Status, to: Status, c: Seq<u8>)
        requires
            self.wf(),
        ensures
            is_score(self.start_of(to)),
            is_score(self.trans_of(from, to)),
            is_score(self.emission(to, c)),
    {
        assert(is_score(self.start@[to.spec_index()] as int));
        assert(is_score(self.trans@[from.spec_index() * 4 + to.spec_index()] as int));
    }

    /// Whether the given tables can make a model: four start scores and
    /// sixteen step scores, each from `MIN_SCORE` to 0.
    pub open spec fn tables_ok(start: Seq<i64>, trans: Seq<i64>) -> bool {
        &&& start.len() == 4
        &&& trans.len() == 16
        &&& forall|i: int| 0 <= i < 4 ==> is_score(#[trigger] start[i] as int)
        &&& forall|i: int| 0 <= i < 16 ==> is_score(#[trigger] trans[i] as int)
    }

    /// The model holds the given tables, and no emission.
    pub open spec fn made_of(&self, start: Seq<i64>, trans: Seq<i64>) -> bool {
        &&& self.wf()
        &&& forall|y: Status| #[trigger] self.start_of(y) == start[y.spec_index()]
        &&& forall|y: Status, z: Status|
            #[trigger] self.trans_of(y, z) == trans[y.spec_index() * 4 + z.spec_index()]
        &&& forall|y: Status, c: Seq<u8>| #[trigger] self.emission(y, c) == MIN_SCORE
    }

    fn scores_ok(v: &Vec<i64>, n: usize) -> (r: bool)
        ensures
            r == (v@.len() == n && forall|i: int| 0 <= i < n ==> is_score(#[trigger] v@[i] as int)),
    {
        if v.len() != n {
            return false;
        }
        let mut i: usize = 0;
        while i < n
            invariant
                0 <= i <= n,
                v@.len() == n,
                forall|j: int| 0 <= j < i ==> is_score(#[trigger] v@[j] as int),
            decreases n - i,
        {
            if v[i] < MIN_SCORE || v[i] > 0 {
                return false;
            }
            i = i + 1;
        }
        true
    }

    /// Makes a model of the tables and the two compiled patterns, where the
    /// tables are in order and both patterns were compiled.
    pub fn assemble(
        start: Vec<i64>,
        trans: Vec<i64>,
        han: Option<Pattern>,
        skip: Option<Pattern>,
    ) -> (r: JResult<HmmModel>)
        requires
            han matches Some(h) ==> h.source() == HAN_PATTERN@,
            skip matches Some(k) ==> k.source() == SKIP_PATTERN@,
        ensures
            r is Ok <==> Self::tables_ok(start@, trans@) && han is Some && skip is Some,
            r matches Ok(m) ==> m.made_of(start@, trans@),
            r matches Err(e) ==> e is Unexpected,
    {
        if !Self::scores_ok(&start, 4) || !Self::scores_ok(&trans, 16) {
            return Err(Error::Unexpected(String::from_str("a score is out of range")));
        }
        match han {
            None => Err(Error::Unexpected(String::from_str("a pattern was refused"))),
            Some(h) => match skip {
                None => Err(Error::Unexpected(String::from_str("a pattern was refused"))),
                Some(k) => {
                    let m = HmmModel { start, trans, emit: HashMap::new(), han: h, skip: k };
                    Ok(m)
                },
            },
        }
    }

    /// Makes a model without emissions. `start` holds the start scores of B,
    /// E, M, S; `trans` the step scores, that of the step from state `y` to
    /// state `z` at `4 * y + z`. Tables of another shape are refused, and so
    /// are scores outside `MIN_SCORE ..= 0`. The model's two patterns are
    /// compiled on the way, and the model is made where both are accepted.
    pub fn new(start: Vec<i64>, trans: Vec<i64>) -> (r: JResult<HmmModel>)
        ensures
            r is Ok <==> Self::tables_ok(start@, trans@) && pattern_compiles(HAN_PATTERN@)
                && pattern_compiles(SKIP_PATTERN@),
            r matches Ok(m) ==> m.made_of(start@, trans@),
            r matches Err(e) ==> e is Unexpected,
    {
        let han = Pattern::new(HAN_PATTERN);
        let skip = Pattern::new(SKIP_PATTERN);
        Self::assemble(start, trans, han, skip)
    }

    /// The number of the bytes of `bytes` in `[a, b)`, read as in `pack`.
    fn pack_bytes(bytes: &[u8], a: usize, b: usize) -> (p: u64)
        requires
            a <= b <= bytes@.len(),
            b - a <= 4,
        ensures
            p == pack(bytes@.subrange(a as int, b as int)),
            p < 0x1_0000_0000,
    {
        let ghost c = bytes@.subrange(a as int, b as int);
        let mut p: u64 = 0;
        let mut i: usize = a;
        while i < b
            invariant
                a <= i <= b <= bytes@.len(),
                b - a <= 4,
                c == bytes@.subrange(a as int, b as int),
                p == pack(c.take(i - a)),
                p < 0x1_0000_0000,
            decreases b - i,
        {
            proof {
                assert(c.take(i - a + 1).drop_last() =~= c.take(i - a));
                assert(c.take(i - a + 1).last() == bytes@[i as int]);
                lemma_pack_range(c.take(i - a));
                lemma_pack_range(c.take(i - a + 1));
            }
            p = p * 256 + bytes[i] as u64;
            i = i + 1;
        }
        proof {
            assert(c.take(b - a) =~= c);
        }
        p
    }

    /// The score of state `y` showing the character at `bytes[a..b]`.
    fn emit_at(&self, y: Status, bytes: &[u8], a: usize, b: usize) -> (r: i64)
        requires
            self.wf(),
            a < b <= bytes@.len(),
        ensures
            r == self.emission(y, bytes@.subrange(a as int, b as int)),
            is_score(r as int),
    {
        if b - a > 4 {
            return MIN_SCORE;
        }
        let p = Self::pack_bytes(bytes, a, b);
        let key: u64 = (p * 8 + (b - a) as u64) * 4 + y.index() as u64;
        match self.emit.get(&key) {
            Some(v) => *v,
            None => MIN_SCORE,
        }
    }

    /// Sets the score of state `y` showing the character `ch`. It is refused,
    /// and nothing changes, where `ch` is not one character or the score is
    /// outside `MIN_SCORE ..= 0`.
    pub fn set_emission(&mut self, y: Status, ch: &str, score: i64) -> (r: JResult<()>)
        requires
            old(self).wf(),
        ensures
            final(self).wf(),
            r is Ok <==> is_single_char(ch.spec_bytes()) && is_score(score as int),
            r matches Err(e) ==> e is Unexpected,
            forall|z: Status| #[trigger] final(self).start_of(z) == old(self).start_of(z),
            forall|z: Status, w: Status|
                #[trigger] final(self).trans_of(z, w) == old(self).trans_of(z, w),
            forall|z: Status, c: Seq<u8>|
                #[trigger] final(self).emission(z, c) == (if r is Ok && z == y && c
                    == ch.spec_bytes() {
                    score as int
                } else {
                    old(self).emission(z, c)
                }),
    {
        let bytes = ch.as_bytes();
        let n = bytes.len();
        if n < 1 || n > 4 || score < MIN_SCORE || score > 0 {
            return Err(Error::Unexpected(String::from_str("not a character with a score")));
        }
        if is_continuation(bytes[0]) {
            return Err(Error::Unexpected(String::from_str("not a character with a score")));
        }
        let mut j: usize = 1;
        while j < n
            invariant
                1 <= j <= n,
                n == bytes@.len(),
                bytes@ == ch.spec_bytes(),
                *self == *old(self),
                old(self).wf(),
                forall|i: int| 1 <= i < j ==> is_continuation_byte(#[trigger] bytes@[i]),
            decreases n - j,
        {
            if !is_continuation(bytes[j]) {
                return Err(Error::Unexpected(String::from_str("not a character with a score")));
            }
            j = j + 1;
        }
        let p = Self::pack_bytes(bytes, 0, n);
        let key: u64 = (p * 8 + n as u64) * 4 + y.index() as u64;
        proof {
            assert(bytes@.subrange(0, n as int) =~= bytes@);
            assert(key == emit_key(y, bytes@));
        }
        self.emit.insert(key, score);
        proof {
            assert forall|z: Status, c: Seq<u8>| #[trigger]
                final(self).emission(z, c) == (if z == y && c == bytes@ {
                    score as int
                } else {
                    old(self).emission(z, c)
                }) by {
                if 1 <= c.len() <= 4 {
                    lemma_pack_range(c);
                    if emit_key(z, c) == emit_key(y, bytes@) {
                        lemma_emit_key_injective(z, c, y, bytes@);
                    }
                }
            }
        }
        Ok(())
    }

    fn start_at(&self, y: Status) -> (r: i64)
        requires
            self.wf(),
        ensures
            r == self.start_of(y),
            is_score(r as int),
    {
        self.start[y.index()]
    }

    fn trans_at(&self, from: Status, to: Status) -> (r: i64)
        requires
            self.wf(),
        ensures
            r == self.trans_of(from, to),
            is_score(r as int),
    {
        self.trans[from.index() * 4 + to.index()]
    }
}

/// The score of the best path over the characters up to number `t` that
/// ends in state `y`: at the first character the state's start score and
/// its emission; later the better of the two states that may come before,
/// with the step from it, and the emission.
pub open spec fn v_score(m: &HmmModel, obs: Seq<Seq<u8>>, t: int, y: Status) -> int
    decreases t,
{
    if t <= 0 {
        m.start_of(y) + m.emission(y, obs[0])
    } else {
        let p = y.spec_before();
        let a = v_score(m, obs, t - 1, p.0) + m.trans_of(p.0, y);
        let b = v_score(m, obs, t - 1, p.1) + m.trans_of(p.1, y);
        (if a > b {
            a
        } else {
            b
        }) + m.emission(y, obs[t])
    }
}

/// The state before `y` on the best path that ends in `y` at character
/// `t >= 1`. Of two equally good states the one with the higher number is
/// taken.
pub open spec fn v_back(m: &HmmModel, obs: Seq<Seq<u8>>, t: int, y: Status) -> Status {
    let p = y.spec_before();
    let a = v_score(m, obs, t - 1, p.0) + m.trans_of(p.0, y);
    let b = v_score(m, obs, t - 1, p.1) + m.trans_of(p.1, y);
    if a > b || (a == b && p.0.spec_index() > p.1.spec_index()) {
        p.0
    } else {
        p.1
    }
}

/// The state of the last character: the better of the two that end a word,
/// `S` where they are equal.
pub open spec fn v_last(m: &HmmModel, obs: Seq<Seq<u8>>) -> Status {
    if v_score(m, obs, obs.len() - 1, Status::E) > v_score(m, obs, obs.len() - 1, Status::S) {
        Status::E
    } else {
        Status::S
    }
}

/// The state of character `t` on the decoded path.
pub open spec fn v_state(m: &HmmModel, obs: Seq<Seq<u8>>, t: int) -> Status
    decreases obs.len() - t,
{
    if t + 1 >= obs.len() {
        v_last(m, obs)
    } else {
        v_back(m, obs, t + 1, v_state(m, obs, t + 1))
    }
}

/// The decoded path: one state for each character.
pub open spec fn viterbi_path(m: &HmmModel, obs: Seq<Seq<u8>>) -> Seq<Status> {
    Seq::new(obs.len(), |t: int| v_state(m, obs, t))
}

/// State `prev` may come before state `next`.
pub open spec fn follows(prev: Status, next: Status) -> bool {
    prev == next.spec_before().0 || prev == next.spec_before().1
}

/// A path of states that the model allows: each state may follow the one
/// before it, and the last one ends a word.
pub open spec fn valid_path(p: Seq<Status>) -> bool {
    &&& p.len() > 0 ==> p.last().ends_word()
    &&& forall|t: int| 0 <= t < p.len() - 1 ==> follows(#[trigger] p[t], p[t + 1])
}

/// The score of the first `t + 1` states of a path over the characters.
pub open spec fn path_score(m: &HmmModel, obs: Seq<Seq<u8>>, q: Seq<Status>, t: int) -> int
    decreases t,
{
    if t <= 0 {
        m.start_of(q[0]) + m.emission(q[0], obs[0])
    } else {
        path_score(m, obs, q, t - 1) + m.trans_of(q[t - 1], q[t]) + m.emission(q[t], obs[t])
    }
}

/// The decoded path is one that the model allows: no word is left open at
/// its end, a word that has begun goes on or ends, and a new word begins
/// only after one has ended.
pub proof fn lemma_viterbi_valid(m: &HmmModel, obs: Seq<Seq<u8>>)
    ensures
        viterbi_path(m, obs).len() == obs.len(),
        valid_path(viterbi_path(m, obs)),
{
    let p = viterbi_path(m, obs);
    assert forall|t: int| 0 <= t < p.len() - 1 implies follows(#[trigger] p[t], p[t + 1]) by {
        assert(p[t] == v_back(m, obs, t + 1, p[t + 1]));
    }
}

/// On a path that the model allows, a word that begins at character `t`
/// ends at a later character, with nothing but its middle between: the
/// result is the character at which it ends.
pub proof fn lemma_begin_reaches_end(p: Seq<Status>, t: int) -> (e: int)
    requires
        valid_path(p),
        0 <= t < p.len(),
        p[t] == Status::B,
    ensures
        t < e < p.len(),
        p[e] == Status::E,
        forall|u: int| t < u < e ==> p[u] == Status::M,
{
    lemma_word_goes_on(p, t, t + 1)
}

proof fn lemma_word_goes_on(p: Seq<Status>, t: int, u: int) -> (e: int)
    requires
        valid_path(p),
        0 <= t < u <= p.len(),
        p[u - 1] == Status::B || p[u - 1] == Status::M,
        forall|w: int| t < w < u ==> p[w] == Status::M,
    ensures
        t < e < p.len(),
        p[e] == Status::E,
        forall|w: int| t < w < e ==> p[w] == Status::M,
    decreases p.len() - u,
{
    if u == p.len() {
        assert(p.last() == p[u - 1]);
        assert(false);
        0
    } else {
        assert(follows(p[u - 1], p[u - 1 + 1]));
        if p[u] == Status::E {
            u
        } else {
            lemma_word_goes_on(p, t, u + 1)
        }
    }
}

/// No path to state `q[t]` at character `t` scores more than the best one.
pub proof fn lemma_score_bounds_path(m: &HmmModel, obs: Seq<Seq<u8>>, q: Seq<Status>, t: int)
    requires
        0 <= t < q.len(),
        forall|u: int| 0 <= u < t ==> follows(#[trigger] q[u], q[u + 1]),
    ensures
        path_score(m, obs, q, t) <= v_score(m, obs, t, q[t]),
    decreases t,
{
    if t > 0 {
        lemma_score_bounds_path(m, obs, q, t - 1);
        assert(follows(q[t - 1], q[t - 1 + 1]));
    }
}

/// The decoded path has the score that the algorithm found for its state.
pub proof fn lemma_viterbi_attains(m: &HmmModel, obs: Seq<Seq<u8>>, t: int)
    requires
        0 <= t < obs.len(),
    ensures
        path_score(m, obs, viterbi_path(m, obs), t) == v_score(m, obs, t, v_state(m, obs, t)),
    decreases t,
{
    if t > 0 {
        lemma_viterbi_attains(m, obs, t - 1);
        assert(v_state(m, obs, t - 1) == v_back(m, obs, t, v_state(m, obs, t)));
    }
}

/// The decoded path is a best one: no path that the model allows scores
/// more over the same characters.
pub proof fn lemma_viterbi_optimal(m: &HmmModel, obs: Seq<Seq<u8>>, q: Seq<Status>)
    requires
        q.len() == obs.len(),
        obs.len() > 0,
        valid_path(q),
    ensures
        path_score(m, obs, q, obs.len() - 1) <= path_score(
            m,
            obs,
            viterbi_path(m, obs),
            obs.len() - 1,
        ),
{
    let n = obs.len() as int;
    lemma_score_bounds_path(m, obs, q, n - 1);
    lemma_viterbi_attains(m, obs, n - 1);
    assert(q[n - 1] == q.last());
}

/// The score of a run of one character `c` in state `y`.
pub open spec fn start_score(m: &HmmModel, y: Status, c: Seq<u8>) -> int {
    m.start_of(y) + m.emission(y, c)
}

/// The model takes character `c` for the start of a word rather than for
/// its middle or its end. Where more characters follow (`more`), a start
/// as B scores higher than one as M, whether the run goes on to M or to E,
/// and a start as S scores no lower than one as E, whether it goes on to B
/// or to S. Where `c` is the whole run, S scores no lower than E.
pub open spec fn starts_a_word(m: &HmmModel, c: Seq<u8>, more: bool) -> bool {
    if more {
        &&& start_score(m, Status::B, c) + m.trans_of(Status::B, Status::E) > start_score(
            m,
            Status::M,
            c,
        ) + m.trans_of(Status::M, Status::E)
        &&& start_score(m, Status::B, c) + m.trans_of(Status::B, Status::M) > start_score(
            m,
            Status::M,
            c,
        ) + m.trans_of(Status::M, Status::M)
        &&& start_score(m, Status::S, c) + m.trans_of(Status::S, Status::B) >= start_score(
            m,
            Status::E,
            c,
        ) + m.trans_of(Status::E, Status::B)
        &&& start_score(m, Status::S, c) + m.trans_of(Status::S, Status::S) >= start_score(
            m,
            Status::E,
            c,
        ) + m.trans_of(Status::E, Status::S)
    } else {
        start_score(m, Status::S, c) >= start_score(m, Status::E, c)
    }
}

/// Where the model takes the first character for the start of a word, the
/// decoded path does so too: its first state is neither the middle nor the
/// end of a word. For a run of one character that is the only case in
/// which it is so.
pub proof fn lemma_first_state(m: &HmmModel, obs: Seq<Seq<u8>>)
    requires
        obs.len() > 0,
    ensures
        starts_a_word(m, obs[0], obs.len() > 1) ==> viterbi_path(m, obs)[0] == Status::B
            || viterbi_path(m, obs)[0] == Status::S,
        obs.len() == 1 ==> (starts_a_word(m, obs[0], false) <==> viterbi_path(m, obs)[0]
            == Status::S),
{
    if obs.len() > 1 {
        let y = v_state(m, obs, 1);
        assert(v_state(m, obs, 0) == v_back(m, obs, 1, y));
    }
}

/// A model in which neither the middle nor the end of a word can start a
/// run takes a character for the start of a word if B and S show it no
/// worse than M and E do and can go on from it.
pub proof fn lemma_starts_at_floor(m: &HmmModel, c: Seq<u8>, more: bool)
    requires
        m.wf(),
        m.start_of(Status::E) == MIN_SCORE,
        m.start_of(Status::M) == MIN_SCORE,
        m.emission(Status::B, c) >= m.emission(Status::M, c),
        m.emission(Status::S, c) >= m.emission(Status::E, c),
        m.start_of(Status::B) + m.trans_of(Status::B, Status::E) > MIN_SCORE,
        m.start_of(Status::B) + m.trans_of(Status::B, Status::M) > MIN_SCORE,
        m.start_of(Status::S) + m.trans_of(Status::S, Status::B) > MIN_SCORE,
        m.start_of(Status::S) + m.trans_of(Status::S, Status::S) > MIN_SCORE,
    ensures
        starts_a_word(m, c, more),
{
    m.lemma_scores(Status::E, Status::B, c);
    m.lemma_scores(Status::E, Status::S, c);
    m.lemma_scores(Status::M, Status::M, c);
    m.lemma_scores(Status::M, Status::E, c);
    m.lemma_scores(Status::S, Status::B, c);
    m.lemma_scores(Status::S, Status::S, c);
    m.lemma_scores(Status::B, Status::M, c);
    m.lemma_scores(Status::B, Status::E, c);
}

/// The scores of the four states at one character.
struct Column {
    b: i128,
    e: i128,
    m: i128,
    s: i128,
}

impl Column {
    spec fn at(&self, y: Status) -> i128 {
        match y {
            Status::B => self.b,
            Status::E => self.e,
            Status::M => self.m,
            Status::S => self.s,
        }
    }

    fn get(&self, y: Status) -> (r: i128)
        ensures
            r == self.at(y),
    {
        match y {
            Status::B => self.b,
            Status::E => self.e,
            Status::M => self.m,
            Status::S => self.s,
        }
    }

    /// The column holds the scores at character `t`.
    spec fn holds(&self, m: &HmmModel, obs: Seq<Seq<u8>>, t: int) -> bool {
        forall|y: Status|
            #![trigger self.at(y)]
            self.at(y) == v_score(m, obs, t, y) && (2 * t + 2) * MIN_SCORE <= self.at(y) <= 0
    }
}

/// For each state at one character, the state before it.
#[derive(Clone, Copy)]
struct Backs {
    b: Status,
    e: Status,
    m: Status,
    s: Status,
}

impl Backs {
    spec fn at(&self, y: Status) -> Status {
        match y {
            Status::B => self.b,
            Status::E => self.e,
            Status::M => self.m,
            Status::S => self.s,
        }
    }

    fn get(&self, y: Status) -> (r: Status)
        ensures
            r == self.at(y),
    {
        match y {
            Status::B => self.b,
            Status::E => self.e,
            Status::M => self.m,
            Status::S => self.s,
        }
    }
}

/// The score of state `y` at the first character.
fn first_score(model: &HmmModel, y: Status, bytes: &[u8], a: usize, b: usize) -> (r: i128)
    requires
        model.wf(),
        a < b <= bytes@.len(),
    ensures
        r == model.start_of(y) + model.emission(y, bytes@.subrange(a as int, b as int)),
        2 * MIN_SCORE <= r <= 0,
{
    model.start_at(y) as i128 + model.emit_at(y, bytes, a, b) as i128
}

/// The score of state `y` at character `t`, and the state before it, from
/// the scores at character `t - 1`.
fn advance(
    model: &HmmModel,
    cur: &Column,
    y: Status,
    bytes: &[u8],
    a: usize,
    b: usize,
    Ghost(obs): Ghost<Seq<Seq<u8>>>,
    Ghost(t): Ghost<int>,
) -> (r: (i128, Status))
    requires
        model.wf(),
        1 <= t < obs.len(),
        t < usize::MAX,
        cur.holds(model, obs, t - 1),
        a < b <= bytes@.len(),
        obs[t] == bytes@.subrange(a as int, b as int),
    ensures
        r.0 == v_score(model, obs, t, y),
        r.1 == v_back(model, obs, t, y),
        (2 * t + 2) * MIN_SCORE <= r.0 <= 0,
{
    let p = y.before();
    let left: i128 = cur.get(p.0) + model.trans_at(p.0, y) as i128;
    let right: i128 = cur.get(p.1) + model.trans_at(p.1, y) as i128;
    let em: i128 = model.emit_at(y, bytes, a, b) as i128;
    if left > right || (left == right && p.0.index() > p.1.index()) {
        (left + em, p.0)
    } else {
        (right + em, p.1)
    }
}

/// The most probable states of the characters of `obs`, one for each, by the
/// Viterbi algorithm.
pub fn viterbi(model: &HmmModel, obs: &str) -> (path: Vec<Status>)
    requires
        model.wf(),
    ensures
        path@ == viterbi_path(model, chars_of(obs.spec_bytes())),
        path@.len() == char_starts(obs.spec_bytes()).len(),
        valid_path(path@),
        path@.len() > 0 && starts_a_word(
            model,
            chars_of(obs.spec_bytes())[0],
            path@.len() > 1,
        ) ==> path@[0] == Status::B || path@[0] == Status::S,
{
    proof {
        lemma_viterbi_valid(model, chars_of(obs.spec_bytes()));
        if chars_of(obs.spec_bytes()).len() > 0 {
            lemma_first_state(model, chars_of(obs.spec_bytes()));
        }
    }
    let bytes = obs.as_bytes();
    let starts = char_offsets(bytes);
    let n = bytes.len();
    let c = starts.len();
    let ghost chars = chars_of(bytes@);
    proof {
        lemma_starts_upto(bytes@, n as int);
    }
    let mut path: Vec<Status> = Vec::new();
    if c == 0 {
        assert(path@ =~= viterbi_path(model, chars));
        return path;
    }
    let first_end: usize = if c > 1 {
        starts[1]
    } else {
        n
    };
    let mut cur = Column {
        b: first_score(model, Status::B, bytes, starts[0], first_end),
        e: first_score(model, Status::E, bytes, starts[0], first_end),
        m: first_score(model, Status::M, bytes, starts[0], first_end),
        s: first_score(model, Status::S, bytes, starts[0], first_end),
    };
    let filler = Backs { b: Status::S, e: Status::S, m: Status::S, s: Status::S };
    let mut backs: Vec<Backs> = Vec::new();
    backs.push(filler);
    let mut t: usize = 1;
    while t < c
        invariant
            1 <= t <= c,
            model.wf(),
            c == starts@.len(),
            n == bytes@.len(),
            starts@ == char_starts(bytes@),
            chars == chars_of(bytes@),
            chars.len() == c,
            forall|u: int| 0 <= u < c ==> (#[trigger] starts@[u]) < n,
            forall|u: int, w: int| 0 <= u < w < c ==> (#[trigger] starts@[u]) < #[trigger] starts@[w],
            cur.holds(model, chars, t - 1),
            backs@.len() == t,
            forall|u: int, y: Status|
                1 <= u < t ==> #[trigger] backs@[u].at(y) == v_back(model, chars, u, y),
        decreases c - t,
    {
        let a = starts[t];
        let b: usize = if t + 1 < c {
            starts[t + 1]
        } else {
            n
        };
        let nb = advance(model, &cur, Status::B, bytes, a, b, Ghost(chars), Ghost(t as int));
        let ne = advance(model, &cur, Status::E, bytes, a, b, Ghost(chars), Ghost(t as int));
        let nm = advance(model, &cur, Status::M, bytes, a, b, Ghost(chars), Ghost(t as int));
        let ns = advance(model, &cur, Status::S, bytes, a, b, Ghost(chars), Ghost(t as int));
        cur = Column { b: nb.0, e: ne.0, m: nm.0, s: ns.0 };
        backs.push(Backs { b: nb.1, e: ne.1, m: nm.1, s: ns.1 });
        t = t + 1;
    }
    let last = if cur.e > cur.s {
        Status::E
    } else {
        Status::S
    };
    let mut k: usize = 0;
    while k < c
        invariant
            0 <= k <= c,
            path@.len() == k,
        decreases c - k,
    {
        path.push(Status::S);
        k = k + 1;
    }
    path.set(c - 1, last);
    let mut u: usize = c - 1;
    assert(cur.at(Status::E) == cur.e && cur.at(Status::S) == cur.s);
    while u > 0
        invariant
            0 <= u < c,
            path@.len() == c,
            backs@.len() == c,
            chars.len() == c,
            forall|w: int, y: Status|
                1 <= w < c ==> #[trigger] backs@[w].at(y) == v_back(model, chars, w, y),
            forall|w: int| u <= w < c ==> #[trigger] path@[w] == v_state(model, chars, w),
        decreases u,
    {
        let before = backs[u].get(path[u]);
        path.set(u - 1, before);
        u = u - 1;
    }
    assert(path@ =~= viterbi_path(model, chars));
    path
}

/// The words that a path of states cuts the text into, from character `t`
/// on, where the word being read began at `begin`: a word ends with each
/// character whose state ends a word.
pub open spec fn state_tokens(
    b: Seq<u8>,
    starts: Seq<usize>,
    path: Seq<Status>,
    t: int,
    begin: int,
) -> Seq<Seq<u8>>
    decreases path.len() - t,
{
    if t < 0 || t >= path.len() {
        seq![]
    } else if path[t].ends_word() {
        seq![b.subrange(begin, end_of(b, starts, t))] + state_tokens(
            b,
            starts,
            path,
            t + 1,
            end_of(b, starts, t),
        )
    } else {
        state_tokens(b, starts, path, t + 1, begin)
    }
}

/// The words that the model cuts a run of characters into.
pub open spec fn han_tokens(m: &HmmModel, b: Seq<u8>) -> Seq<Seq<u8>> {
    state_tokens(b, char_starts(b), viterbi_path(m, chars_of(b)), 0, 0)
}

/// The pieces of a split text as tokens, empty pieces left out.
pub open spec fn piece_tokens(ps: Seq<Piece>, b: Seq<u8>) -> Seq<Seq<u8>>
    decreases ps.len(),
{
    if ps.len() == 0 {
        seq![]
    } else {
        (if ps[0].lo == ps[0].hi {
            seq![]
        } else {
            seq![b.subrange(ps[0].lo, ps[0].hi)]
        }) + piece_tokens(ps.drop_first(), b)
    }
}

/// The tokens of a text split by the pattern of letters and digits.
pub open spec fn skip_tokens(b: Seq<u8>) -> Seq<Seq<u8>> {
    piece_tokens(pieces(regex_matches(SKIP_PATTERN@, decode_utf8(b)), b.len() as int), b)
}

/// The tokens of a run of characters that the dictionary does not hold.
/// A run with a Han ideograph in it is cut by the model, unless it is one
/// character; any other run is split by the pattern of letters and digits.
pub open spec fn cut_tokens(m: &HmmModel, b: Seq<u8>) -> Seq<Seq<u8>> {
    if regex_is_match(HAN_PATTERN@, decode_utf8(b)) {
        if char_starts(b).len() > 1 {
            han_tokens(m, b)
        } else {
            seq![b]
        }
    } else {
        skip_tokens(b)
    }
}

/// The text of a string is what its bytes decode to.
pub proof fn lemma_text_of_bytes(s: &str)
    ensures
        s@ == decode_utf8(s.spec_bytes()),
{
    encode_utf8_decode_utf8(s@);
}

/// Cuts a run of characters by the model and adds the words to `words`.
pub fn cut_han<'a>(model: &HmmModel, sentence: &'a str, words: &mut Vec<&'a str>)
    requires
        model.wf(),
    ensures
        texts(final(words)@) == texts(old(words)@) + han_tokens(model, sentence.spec_bytes()),
        joined(texts(final(words)@)) == joined(texts(old(words)@)) + sentence.spec_bytes(),
{
    let path = viterbi(model, sentence);
    let bytes = sentence.as_bytes();
    let starts = char_offsets(bytes);
    let n = bytes.len();
    let c = starts.len();
    let ghost b = bytes@;
    proof {
        lemma_starts_upto(b, n as int);
        lemma_str_valid(sentence);
        lemma_boundary_is_char_boundary(b, 0);
    }
    let mut begin: usize = 0;
    let mut i: usize = 0;
    assert(texts(words@) + state_tokens(b, starts@, path@, 0, 0) == texts(old(words)@)
        + han_tokens(model, b));
    assert(joined(texts(words@)) + b.subrange(0, 0) =~= joined(texts(words@)));
    while i < c
        invariant
            0 <= i <= c,
            c == starts@.len(),
            c == path@.len(),
            n == b.len(),
            b == sentence.spec_bytes(),
            starts@ == char_starts(b),
            begin <= n,
            joined(texts(words@)) == joined(texts(old(words)@)) + b.subrange(0, begin as int),
            i > 0 && path@[i - 1].ends_word() ==> begin == end_of(b, starts@, i - 1),
            forall|u: int| 0 <= u < c ==> (#[trigger] starts@[u]) < n && !is_continuation_byte(
                b[starts@[u] as int],
            ),
            forall|u: int, w: int| 0 <= u < w < c ==> (#[trigger] starts@[u]) < #[trigger] starts@[w],
            boundary(b, begin as int),
            i < c ==> begin <= starts@[i as int],
            texts(words@) + state_tokens(b, starts@, path@, i as int, begin as int) == texts(
                old(words)@,
            ) + han_tokens(model, b),
        decreases c - i,
    {
        let state = path[i];
        if state == Status::E || state == Status::S {
            let end: usize = if i + 1 < c {
                starts[i + 1]
            } else {
                n
            };
            let ghost before = texts(words@);
            let ghost rest = state_tokens(b, starts@, path@, i + 1, end as int);
            assert(state_tokens(b, starts@, path@, i as int, begin as int) == seq![
                b.subrange(begin as int, end as int),
            ] + rest);
            push_token(words, slice(sentence, begin, end));
            assert(texts(words@) + rest =~= before + (seq![b.subrange(begin as int, end as int)]
                + rest));
            assert(b.subrange(0, begin as int) + b.subrange(begin as int, end as int)
                =~= b.subrange(0, end as int));
            begin = end;
        }
        i = i + 1;
    }
    assert(texts(words@) + Seq::<Seq<u8>>::empty() =~= texts(words@));
    proof {
        if c > 0 {
            assert(path@.last() == path@[c - 1]);
        } else if n > 0 {
            assert(!is_continuation_byte(b[0]));
        }
        assert(begin == n);
        assert(b.subrange(0, n as int) =~= b);
    }
}

/// Splits `text` by the matches of `re` and adds the pieces that are not
/// empty to `words`.
pub fn push_pieces<'a>(re: &Pattern, text: &'a str, words: &mut Vec<&'a str>)
    ensures
        texts(final(words)@) == texts(old(words)@) + piece_tokens(
            pieces(
                regex_matches(re.source(), text@),
                text.spec_bytes().len() as int,
            ),
            text.spec_bytes(),
        ),
        joined(texts(final(words)@)) == joined(texts(old(words)@)) + text.spec_bytes(),
{
    let ghost b = text.spec_bytes();
    let ghost all = piece_tokens(
        pieces(regex_matches(re.source(), text@), b.len() as int),
        b,
    );
    let mut it = SegmentMatches::new(re, text);
    let mut done = false;
    assert(texts(words@) + all == texts(old(words)@) + all);
    proof {
        lemma_pieces_cover(it.matches(), 0, 0, b);
        assert(b.subrange(0, b.len() as int) =~= b);
    }
    while !done
        invariant
            it.wf(),
            it.text() == text,
            b == text.spec_bytes(),
            done ==> it.remaining().len() == 0,
            texts(words@) + piece_tokens(it.remaining(), b) == texts(old(words)@) + all,
            joined(texts(words@)) + pieces_bytes(it.remaining(), b) == joined(texts(old(words)@))
                + b,
        decreases it.remaining().len() + (if done { 0int } else { 1int }),
    {
        let ghost before = texts(words@);
        let ghost rem = it.remaining();
        match it.next() {
            None => {
                done = true;
            },
            Some(st) => {
                let x = st.into_str();
                let ghost rest = piece_tokens(rem.drop_first(), b);
                let ghost part = b.subrange(rem[0].lo, rem[0].hi);
                if byte_len(x) != 0 {
                    push_token(words, x);
                    assert(texts(words@) + rest =~= before + (seq![part] + rest));
                } else {
                    assert(Seq::<Seq<u8>>::empty() + rest =~= rest);
                    assert(part =~= Seq::<u8>::empty());
                }
                assert(joined(texts(words@)) + pieces_bytes(rem.drop_first(), b) =~= joined(before)
                    + (part + pieces_bytes(rem.drop_first(), b)));
            },
        }
    }
    assert(texts(words@) + Seq::<Seq<u8>>::empty() =~= texts(words@));
    assert(joined(texts(words@)) + Seq::<u8>::empty() =~= joined(texts(words@)));
}

/// Splits a text by the pattern of letters and digits and adds the pieces
/// to `words`.
pub fn cut_other<'a>(model: &HmmModel, text: &'a str, words: &mut Vec<&'a str>)
    requires
        model.wf(),
    ensures
        texts(final(words)@) == texts(old(words)@) + skip_tokens(text.spec_bytes()),
        joined(texts(final(words)@)) == joined(texts(old(words)@)) + text.spec_bytes(),
{
    proof {
        lemma_text_of_bytes(text);
    }
    push_pieces(&model.skip, text, words);
}

/// Cuts a run of characters that the dictionary does not hold and adds its
/// tokens to `words`.
pub fn cut<'a>(model: &HmmModel, sentence: &'a str, words: &mut Vec<&'a str>)
    requires
        model.wf(),
    ensures
        texts(final(words)@) == texts(old(words)@) + cut_tokens(model, sentence.spec_bytes()),
        joined(texts(final(words)@)) == joined(texts(old(words)@)) + sentence.spec_bytes(),
{
    proof {
        lemma_text_of_bytes(sentence);
    }
    if model.han.is_match(sentence) {
        if char_offsets(sentence.as_bytes()).len() > 1 {
            cut_han(model, sentence, words);
        } else {
            push_token(words, sentence);
            assert(texts(old(words)@).push(sentence.spec_bytes()) =~= texts(old(words)@) + seq![
                sentence.spec_bytes(),
            ]);
        }
    } else {
        push_pieces(&model.skip, sentence, words);
    }
}

} // verus!
