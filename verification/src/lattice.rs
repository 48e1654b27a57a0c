//! The lattice of dictionary words over a sentence, and the best path
//! through it.
//!
//! Offsets are byte offsets into the sentence. An edge `k -> j` stands for
//! the word `sentence[k..j]`; it is in the lattice when `k` and `j` lie
//! between characters and the dictionary holds the word with a count above
//! zero.

use crate::dictionary::Dictionary;
use crate::logscale::{lemma_ln_fixed_range, ln_fixed, spec_ln_fixed, LN_MAX};
use crate::text::{boundary, char_end, is_continuation};
use crate::wordmap::{hash_extend, hash_of, hash_prefix, lemma_hash_prefix_of_part, HASH_SEED};
use vstd::prelude::*;
use vstd::slice::*;
use vstd::utf8::*;

verus! {

/// `s[k..j]` is a dictionary word with a count above zero.
pub open spec fn is_word(dict: Map<Seq<u8>, u64>, s: Seq<u8>, k: int, j: int) -> bool {
    dict.contains_key(s.subrange(k, j)) && dict[s.subrange(k, j)] > 0
}

/// The ends, in ascending order and up to `hi`, of the edges that leave `k`.
pub open spec fn edges_upto(dict: Map<Seq<u8>, u64>, s: Seq<u8>, k: int, hi: int) -> Seq<usize>
    decreases hi - k,
{
    if hi <= k {
        seq![]
    } else {
        let before = edges_upto(dict, s, k, hi - 1);
        if boundary(s, hi) && is_word(dict, s, k, hi) {
            before.push(hi as usize)
        } else {
            before
        }
    }
}

/// The ends of all edges that leave `k`, in ascending order.
pub open spec fn edges(dict: Map<Seq<u8>, u64>, s: Seq<u8>, k: int) -> Seq<usize> {
    edges_upto(dict, s, k, s.len() as int)
}

/// The score of a word with count `f`: the logarithm of its count, taken as
/// 1 where it is 0, less the logarithm of the total.
pub open spec fn word_score(f: u64, log_total: int) -> int {
    spec_ln_fixed(
        if f == 0 {
            1
        } else {
            f as nat
        },
    ) - log_total
}

/// The best way on from offset `k`: its score and the end of its first word.
///
/// At the end of the sentence the score is 0. Where edges leave `k`, the
/// best of them is taken, the score of an edge being that of its word plus
/// the best score from its end. Where none leaves, the one character at `k`
/// is taken as a word of count 0. Inside a character the entry is that of
/// the next offset.
pub open spec fn route(dict: Map<Seq<u8>, u64>, s: Seq<u8>, log_total: int, k: int) -> (int, int)
    decreases s.len() - k, 1int, 0int,
{
    if k < 0 || k >= s.len() {
        (0, s.len() as int)
    } else if !boundary(s, k) {
        route(dict, s, log_total, k + 1)
    } else {
        match best_edge(dict, s, log_total, k, s.len() as int) {
            Some(b) => b,
            None => (
                word_score(0, log_total) + route(dict, s, log_total, k + 1).0,
                char_end(s, k),
            ),
        }
    }
}

/// The best of the edges from `k` that end at or before `hi`: the one with
/// the highest score and, among equals, the longest.
pub open spec fn best_edge(
    dict: Map<Seq<u8>, u64>,
    s: Seq<u8>,
    log_total: int,
    k: int,
    hi: int,
) -> Option<(int, int)>
    decreases s.len() - k, 0int, hi - k,
{
    if k < 0 || hi <= k || hi > s.len() {
        None
    } else {
        let before = best_edge(dict, s, log_total, k, hi - 1);
        if boundary(s, hi) && is_word(dict, s, k, hi) {
            let score = word_score(dict[s.subrange(k, hi)], log_total) + route(
                dict,
                s,
                log_total,
                hi,
            ).0;
            match before {
                Some(b) => if b.0 > score {
                    before
                } else {
                    Some((score, hi))
                },
                None => Some((score, hi)),
            }
        } else {
            before
        }
    }
}

/// The route table of a sentence. It has an entry for each offset from 0
/// to the length of the sentence: the best way on from there for an offset
/// at which a character starts, `(0, 0)` for an offset inside a character,
/// and `(0, length)` for the end of the sentence, from where nothing is left
/// to go.
pub open spec fn route_table(dict: Map<Seq<u8>, u64>, s: Seq<u8>, log_total: int) -> Seq<
    (i128, usize),
> {
    Seq::new(
        s.len() + 1,
        |k: int|
            if boundary(s, k) {
                (route(dict, s, log_total, k).0 as i128, route(dict, s, log_total, k).1 as usize)
            } else {
                (0i128, 0usize)
            },
    )
}

/// The table has an entry for each offset up to the length of the
/// sentence, and each entry leads on: from an offset at which a character
/// starts to a later offset between two characters.
pub open spec fn advances(s: Seq<u8>, rs: Seq<(i128, usize)>) -> bool {
    &&& rs.len() == s.len() + 1
    &&& forall|k: int|
        0 <= k < s.len() && boundary(s, k) ==> k < (#[trigger] rs[k]).1 <= s.len() && boundary(
            s,
            rs[k].1 as int,
        )
}

/// The route table leads on.
pub proof fn lemma_route_table_advances(dict: Map<Seq<u8>, u64>, s: Seq<u8>, log_total: int)
    requires
        0 <= log_total <= LN_MAX,
        s.len() <= usize::MAX,
    ensures
        advances(s, route_table(dict, s, log_total)),
{
    let rs = route_table(dict, s, log_total);
    assert forall|k: int| 0 <= k < s.len() && boundary(s, k) implies k < (#[trigger] rs[k]).1
        <= s.len() && boundary(s, rs[k].1 as int) by {
        lemma_route_range(dict, s, log_total, k);
    }
}

/// What holds of the ends of the edges that leave `k`: each lies after `k`
/// and between two characters, and the word up to it is in the dictionary.
pub proof fn lemma_edges(dict: Map<Seq<u8>, u64>, s: Seq<u8>, k: int, hi: int)
    requires
        0 <= k,
        hi <= s.len() <= usize::MAX,
    ensures
        forall|i: int|
            0 <= i < edges_upto(dict, s, k, hi).len() ==> k < (#[trigger] edges_upto(
                dict,
                s,
                k,
                hi,
            )[i]) <= hi && boundary(s, edges_upto(dict, s, k, hi)[i] as int) && is_word(
                dict,
                s,
                k,
                edges_upto(dict, s, k, hi)[i] as int,
            ),
    decreases hi - k,
{
    if hi > k {
        lemma_edges(dict, s, k, hi - 1);
        let before = edges_upto(dict, s, k, hi - 1);
        let now = edges_upto(dict, s, k, hi);
        assert forall|i: int| 0 <= i < now.len() implies k < (#[trigger] now[i]) <= hi && boundary(
            s,
            now[i] as int,
        ) && is_word(dict, s, k, now[i] as int) by {
            if i < before.len() {
                assert(now[i] == before[i]);
            } else {
                assert(now[i] == hi as usize);
            }
        }
    }
}

/// The character that starts at `i` ends at `e` when only continuation bytes
/// lie between.
pub proof fn lemma_char_end_is(s: Seq<u8>, i: int, e: int)
    requires
        0 <= i < e <= s.len(),
        boundary(s, e),
        forall|j: int| i < j < e ==> is_continuation_byte(#[trigger] s[j]),
    ensures
        char_end(s, i) == e,
    decreases e - i,
{
    if i + 1 < e {
        lemma_char_end_is(s, i + 1, e);
    }
}

/// The character that starts at `i` ends after `i`, within the text and
/// between two characters.
pub proof fn lemma_char_end_range(s: Seq<u8>, i: int)
    requires
        0 <= i < s.len(),
    ensures
        i < char_end(s, i) <= s.len(),
        boundary(s, char_end(s, i)),
        forall|j: int| i < j < char_end(s, i) ==> is_continuation_byte(#[trigger] s[j]),
    decreases s.len() - i,
{
    if !(i + 1 >= s.len() || !is_continuation_byte(s[i + 1])) {
        lemma_char_end_range(s, i + 1);
    }
}

/// A best path lies within the sentence and is never worth more, nor less,
/// than so many words of the extreme scores as it has bytes left.
pub proof fn lemma_route_range(dict: Map<Seq<u8>, u64>, s: Seq<u8>, log_total: int, k: int)
    requires
        0 <= k <= s.len(),
        0 <= log_total <= LN_MAX,
    ensures
        -(s.len() - k) * LN_MAX <= route(dict, s, log_total, k).0 <= (s.len() - k) * LN_MAX,
        k < s.len() && boundary(s, k) ==> k < route(dict, s, log_total, k).1 <= s.len()
            && boundary(s, route(dict, s, log_total, k).1),
    decreases s.len() - k, 1int, 0int,
{
    if k < s.len() {
        lemma_route_range(dict, s, log_total, k + 1);
        if boundary(s, k) {
            lemma_best_edge_range(dict, s, log_total, k, s.len() as int);
            lemma_char_end_range(s, k);
            lemma_ln_fixed_range(1);
        }
    }
}

/// The best edge is an edge, and its score lies within the same bounds.
pub proof fn lemma_best_edge_range(
    dict: Map<Seq<u8>, u64>,
    s: Seq<u8>,
    log_total: int,
    k: int,
    hi: int,
)
    requires
        0 <= k < s.len(),
        k <= hi <= s.len(),
        0 <= log_total <= LN_MAX,
    ensures
        best_edge(dict, s, log_total, k, hi) matches Some(b) ==> {
            &&& -(s.len() - k) * LN_MAX <= b.0 <= (s.len() - k) * LN_MAX
            &&& k < b.1 <= hi
            &&& boundary(s, b.1)
            &&& is_word(dict, s, k, b.1)
        },
    decreases s.len() - k, 0int, hi - k,
{
    if hi > k {
        lemma_best_edge_range(dict, s, log_total, k, hi - 1);
        if boundary(s, hi) && is_word(dict, s, k, hi) {
            lemma_route_range(dict, s, log_total, hi);
            lemma_ln_fixed_range(dict[s.subrange(k, hi)] as nat);
        }
    }
}

/// A step that a division of the sentence may take from `k` to `j`: along
/// an edge, or over the one character at `k` where no edge leaves it.
pub open spec fn is_step(dict: Map<Seq<u8>, u64>, s: Seq<u8>, k: int, j: int) -> bool {
    (boundary(s, j) && is_word(dict, s, k, j)) || (edges(dict, s, k).len() == 0 && j == char_end(
        s,
        k,
    ))
}

/// The score of the step from `k` to `j`.
pub open spec fn step_score(
    dict: Map<Seq<u8>, u64>,
    s: Seq<u8>,
    log_total: int,
    k: int,
    j: int,
) -> int {
    word_score(
        if is_word(dict, s, k, j) {
            dict[s.subrange(k, j)]
        } else {
            0
        },
        log_total,
    )
}

/// `ends` holds the ends of the words of a division of the sentence from
/// offset `k` to its end.
pub open spec fn is_way(dict: Map<Seq<u8>, u64>, s: Seq<u8>, k: int, ends: Seq<int>) -> bool
    decreases ends.len(),
{
    if ends.len() == 0 {
        k == s.len()
    } else {
        &&& 0 <= k < ends[0] <= s.len()
        &&& is_step(dict, s, k, ends[0])
        &&& is_way(dict, s, ends[0], ends.drop_first())
    }
}

/// The score of a division: the sum of the scores of its steps.
pub open spec fn way_score(
    dict: Map<Seq<u8>, u64>,
    s: Seq<u8>,
    log_total: int,
    k: int,
    ends: Seq<int>,
) -> int
    decreases ends.len(),
{
    if ends.len() == 0 {
        0
    } else {
        step_score(dict, s, log_total, k, ends[0]) + way_score(
            dict,
            s,
            log_total,
            ends[0],
            ends.drop_first(),
        )
    }
}

/// The division that the route table leads along from offset `k`.
pub open spec fn route_way(dict: Map<Seq<u8>, u64>, s: Seq<u8>, log_total: int, k: int) -> Seq<
    int,
>
    decreases s.len() - k,
{
    let j = route(dict, s, log_total, k).1;
    if k < 0 || k >= s.len() || j <= k || j > s.len() {
        seq![]
    } else {
        seq![j] + route_way(dict, s, log_total, j)
    }
}

/// An edge is among the edges that leave its start.
pub proof fn lemma_edge_is_listed(dict: Map<Seq<u8>, u64>, s: Seq<u8>, k: int, j: int, hi: int)
    requires
        k < j <= hi,
        boundary(s, j),
        is_word(dict, s, k, j),
    ensures
        edges_upto(dict, s, k, hi).len() > 0,
    decreases hi - j,
{
    if j < hi {
        lemma_edge_is_listed(dict, s, k, j, hi - 1);
    }
}

/// The best edge scores at least as much as any edge.
pub proof fn lemma_best_edge_leads(
    dict: Map<Seq<u8>, u64>,
    s: Seq<u8>,
    log_total: int,
    k: int,
    j: int,
    hi: int,
)
    requires
        0 <= k < j <= hi <= s.len(),
        boundary(s, j),
        is_word(dict, s, k, j),
    ensures
        best_edge(dict, s, log_total, k, hi) matches Some(b) && b.0 >= word_score(
            dict[s.subrange(k, j)],
            log_total,
        ) + route(dict, s, log_total, j).0,
    decreases hi - j,
{
    if j < hi {
        lemma_best_edge_leads(dict, s, log_total, k, j, hi - 1);
    }
}

/// Where no edge leaves `k`, there is no best edge.
pub proof fn lemma_no_edge(dict: Map<Seq<u8>, u64>, s: Seq<u8>, log_total: int, k: int, hi: int)
    requires
        0 <= k,
        hi <= s.len(),
        edges_upto(dict, s, k, hi).len() == 0,
    ensures
        best_edge(dict, s, log_total, k, hi) is None,
    decreases hi - k,
{
    if hi > k {
        lemma_no_edge(dict, s, log_total, k, hi - 1);
    }
}

/// The route table holds the best scores: no division of the sentence from
/// offset `k` on scores more than the table's entry at `k`.
pub proof fn lemma_route_is_best(
    dict: Map<Seq<u8>, u64>,
    s: Seq<u8>,
    log_total: int,
    k: int,
    ends: Seq<int>,
)
    requires
        0 <= k <= s.len(),
        boundary(s, k),
        is_way(dict, s, k, ends),
    ensures
        way_score(dict, s, log_total, k, ends) <= route(dict, s, log_total, k).0,
    decreases ends.len(),
{
    if ends.len() > 0 {
        let j = ends[0];
        lemma_char_end_range(s, k);
        lemma_route_is_best(dict, s, log_total, j, ends.drop_first());
        if boundary(s, j) && is_word(dict, s, k, j) {
            lemma_best_edge_leads(dict, s, log_total, k, j, s.len() as int);
        } else {
            lemma_no_edge(dict, s, log_total, k, s.len() as int);
            lemma_pass_on(dict, s, log_total, k + 1, j);
            if is_word(dict, s, k, j) {
                lemma_edge_is_listed(dict, s, k, j, s.len() as int);
            }
        }
    }
}

/// The route table's own division is one, and it has the table's score.
pub proof fn lemma_route_way(dict: Map<Seq<u8>, u64>, s: Seq<u8>, log_total: int, k: int)
    requires
        0 <= k <= s.len(),
        boundary(s, k),
        0 <= log_total <= LN_MAX,
    ensures
        is_way(dict, s, k, route_way(dict, s, log_total, k)),
        way_score(dict, s, log_total, k, route_way(dict, s, log_total, k)) == route(
            dict,
            s,
            log_total,
            k,
        ).0,
    decreases s.len() - k,
{
    if k < s.len() {
        let j = route(dict, s, log_total, k).1;
        lemma_route_range(dict, s, log_total, k);
        lemma_route_way(dict, s, log_total, j);
        let way = route_way(dict, s, log_total, k);
        assert(way.drop_first() =~= route_way(dict, s, log_total, j));
        lemma_best_edge_range(dict, s, log_total, k, s.len() as int);
        match best_edge(dict, s, log_total, k, s.len() as int) {
            Some(b) => {
                lemma_best_edge_score(dict, s, log_total, k, s.len() as int);
            },
            None => {
                lemma_char_end_range(s, k);
                lemma_pass_on(dict, s, log_total, k + 1, j);
                lemma_none_means_no_edge(dict, s, log_total, k, s.len() as int);
                if is_word(dict, s, k, j) {
                    lemma_edge_is_listed(dict, s, k, j, s.len() as int);
                }
            },
        }
    }
}

/// The best edge has the score of its word and of the best way on from its
/// end.
pub proof fn lemma_best_edge_score(
    dict: Map<Seq<u8>, u64>,
    s: Seq<u8>,
    log_total: int,
    k: int,
    hi: int,
)
    requires
        0 <= k,
        hi <= s.len(),
    ensures
        best_edge(dict, s, log_total, k, hi) matches Some(b) ==> b.0 == word_score(
            dict[s.subrange(k, b.1)],
            log_total,
        ) + route(dict, s, log_total, b.1).0,
    decreases hi - k,
{
    if hi > k {
        lemma_best_edge_score(dict, s, log_total, k, hi - 1);
    }
}

/// Where there is no best edge, no edge leaves `k`.
pub proof fn lemma_none_means_no_edge(
    dict: Map<Seq<u8>, u64>,
    s: Seq<u8>,
    log_total: int,
    k: int,
    hi: int,
)
    requires
        0 <= k,
        hi <= s.len(),
        best_edge(dict, s, log_total, k, hi) is None,
    ensures
        edges_upto(dict, s, k, hi).len() == 0,
    decreases hi - k,
{
    if hi > k {
        if boundary(s, hi) && is_word(dict, s, k, hi) {
        } else {
            lemma_none_means_no_edge(dict, s, log_total, k, hi - 1);
        }
    }
}

/// The rows of the lattice: for each offset at which a character starts, the
/// ends of the edges that leave it, in ascending order. The row of an offset
/// inside a character is empty.
pub fn dag(dict: &Dictionary, sentence: &[u8]) -> (rows: Vec<Vec<usize>>)
    ensures
        rows@.len() == sentence@.len(),
        forall|k: int|
            0 <= k < sentence@.len() ==> (#[trigger] rows@[k])@ == (if boundary(sentence@, k) {
                edges(dict.entries(), sentence@, k)
            } else {
                Seq::<usize>::empty()
            }),
{
    let n = sentence.len();
    let ghost s = sentence@;
    let mut rows: Vec<Vec<usize>> = Vec::new();
    let mut k: usize = 0;
    while k < n
        invariant
            0 <= k <= n,
            n == s.len(),
            s == sentence@,
            rows@.len() == k,
            forall|i: int|
                0 <= i < k ==> (#[trigger] rows@[i])@ == (if boundary(s, i) {
                    edges(dict.entries(), s, i)
                } else {
                    Seq::<usize>::empty()
                }),
        decreases n - k,
    {
        let mut row: Vec<usize> = Vec::new();
        if !is_continuation(sentence[k]) {
            let mut h: u64 = HASH_SEED;
            let mut j: usize = k;
            while j < n
                invariant
                    k <= j <= n,
                    n == s.len(),
                    s == sentence@,
                    h == hash_prefix(s.subrange(k as int, n as int), j - k),
                    row@ == edges_upto(dict.entries(), s, k as int, j as int),
                decreases n - j,
            {
                h = hash_extend(h, sentence[j]);
                j = j + 1;
                if j == n || !is_continuation(sentence[j]) {
                    proof {
                        lemma_hash_prefix_of_part(s, k as int, n as int, j - k);
                    }
                    let key = slice_subrange(sentence, k, j);
                    match dict.frequency_hashed(key, h) {
                        Some(f) => {
                            if f > 0 {
                                row.push(j);
                            }
                        },
                        None => {},
                    }
                }
            }
        }
        rows.push(row);
        k = k + 1;
    }
    rows
}

/// The route table: for each offset at which a character starts, the score
/// of the best way on from there and the end of its first word. The entry of
/// an offset inside a character is `(0, 0)`; the last entry, at the length
/// of the sentence, is `(0, length)`.
pub fn calc(dict: &Dictionary, sentence: &[u8]) -> (rs: Vec<(i128, usize)>)
    requires
        dict.spec_total() >= 1,
    ensures
        rs@ == route_table(dict.entries(), sentence@, spec_ln_fixed(dict.spec_total())),
        rs@.len() == sentence@.len() + 1,
        rs@.last() == (0i128, sentence@.len() as usize),
{
    let n = sentence.len();
    let ghost s = sentence@;
    let ghost d = dict.entries();
    let log_total: i128 = dict.log_total() as i128;
    let ghost lt = log_total as int;
    let mut rs: Vec<(i128, usize)> = Vec::new();
    let mut i: usize = 0;
    while i < n
        invariant
            0 <= i <= n,
            rs@.len() == i,
            forall|j: int| 0 <= j < i ==> #[trigger] rs@[j] == (0i128, 0usize),
        decreases n - i,
    {
        rs.push((0i128, 0usize));
        i = i + 1;
    }
    rs.push((0i128, n));
    // The start of the character after the one being looked at, and the
    // best score from there.
    let mut next_start: usize = n;
    let mut next_score: i128 = 0;
    let mut k: usize = n;
    while k > 0
        invariant
            0 <= k <= next_start <= n,
            n == s.len(),
            s == sentence@,
            d == dict.entries(),
            dict.spec_total() >= 1,
            lt == spec_ln_fixed(dict.spec_total()),
            log_total == lt,
            0 <= lt <= LN_MAX,
            rs@.len() == n + 1,
            rs@[n as int] == (0i128, n),
            boundary(s, next_start as int),
            forall|j: int| k <= j < next_start ==> is_continuation_byte(#[trigger] s[j]),
            next_score == route(d, s, lt, next_start as int).0,
            forall|j: int| 0 <= j < k ==> #[trigger] rs@[j] == (0i128, 0usize),
            forall|j: int|
                k <= j < n && boundary(s, j) ==> ((#[trigger] rs@[j]).0 as int, rs@[j].1 as int)
                    == route(d, s, lt, j),
            forall|j: int| k <= j < n && !boundary(s, j) ==> #[trigger] rs@[j] == (0i128, 0usize),
        decreases k,
    {
        k = k - 1;
        if !is_continuation(sentence[k]) {
            let mut best: Option<(i128, usize)> = None;
            let mut h: u64 = HASH_SEED;
            let mut j: usize = k;
            while j < n
                invariant
                    k <= j <= n,
                    k < n,
                    n == s.len(),
                    s == sentence@,
                    d == dict.entries(),
                    log_total == lt,
                    0 <= lt <= LN_MAX,
                    rs@.len() == n + 1,
                    rs@[n as int] == (0i128, n),
                    h == hash_prefix(s.subrange(k as int, n as int), j - k),
                    match best {
                        Some(b) => best_edge(d, s, lt, k as int, j as int) == Some(
                            (b.0 as int, b.1 as int),
                        ),
                        None => best_edge(d, s, lt, k as int, j as int) is None,
                    },
                    forall|m: int|
                        k < m < n && boundary(s, m) ==> ((#[trigger] rs@[m]).0 as int, rs@[m].1 as int)
                            == route(d, s, lt, m),
                decreases n - j,
            {
                h = hash_extend(h, sentence[j]);
                j = j + 1;
                if j == n || !is_continuation(sentence[j]) {
                    proof {
                        lemma_hash_prefix_of_part(s, k as int, n as int, j - k);
                    }
                    let key = slice_subrange(sentence, k, j);
                    match dict.frequency_hashed(key, h) {
                        Some(f) => {
                            if f > 0 {
                                proof {
                                    lemma_route_range(d, s, lt, j as int);
                                    lemma_best_edge_range(d, s, lt, k as int, j - 1);
                                }
                                let score: i128 = ln_fixed(f) as i128 - log_total + rs[j].0;
                                best = match best {
                                    Some(b) => if b.0 > score {
                                        Some(b)
                                    } else {
                                        Some((score, j))
                                    },
                                    None => Some((score, j)),
                                };
                            }
                        },
                        None => {},
                    }
                }
            }
            let entry: (i128, usize) = match best {
                Some(b) => b,
                None => {
                    proof {
                        lemma_route_range(d, s, lt, next_start as int);
                        lemma_char_end_is(s, k as int, next_start as int);
                        lemma_pass_on(d, s, lt, k as int + 1, next_start as int);
                    }
                    (ln_fixed(1) as i128 - log_total + next_score, next_start)
                },
            };
            rs.set(k, entry);
            next_start = k;
            next_score = entry.0;
        }
    }
    proof {
        assert forall|j: int| 0 <= j <= n implies rs@[j] == #[trigger] route_table(d, s, lt)[j] by {
            if j < n && boundary(s, j) {
                lemma_route_range(d, s, lt, j);
            }
        }
        assert(rs@ =~= route_table(d, s, lt));
    }
    rs
}

/// Across continuation bytes the route is that of the next character.
pub proof fn lemma_pass_on(dict: Map<Seq<u8>, u64>, s: Seq<u8>, log_total: int, i: int, e: int)
    requires
        0 <= i <= e <= s.len(),
        forall|j: int| i <= j < e ==> is_continuation_byte(#[trigger] s[j]),
    ensures
        route(dict, s, log_total, i) == route(dict, s, log_total, e),
    decreases e - i,
{
    if i < e {
        lemma_pass_on(dict, s, log_total, i + 1, e);
    }
}

} // verus!
