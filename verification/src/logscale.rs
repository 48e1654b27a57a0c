//! Natural logarithms in fixed point.
//!
//! Scores are log-probabilities held as integers: a score `s` stands for the
//! real number `s / 2^32`. The logarithm of a count is taken from a table of
//! `ln(1 + i/128)` with linear interpolation between its entries, which keeps
//! it within about `1e-5` of the real logarithm.

use vstd::arithmetic::power2::*;
use vstd::prelude::*;

verus! {

/// `ln 2`, in fixed point.
pub const LN2: u64 = 2977044472;

/// The number of table intervals between one power of two and the next.
pub const STEPS: u64 = 128;

/// `ln(1 + i/128)` in fixed point, for `i` from 0 to 128.
pub const LN_TABLE: [u64; 129] = [
    0, 33424039, 66589974, 99501762, 132163268, 164578269,
    196750459, 228683449, 260380768, 291845871, 323082134, 354092863,
    384881291, 415450582, 445803834, 475944079, 505874286, 535597362,
    565116154, 594433450, 623551984, 652474432, 681203418, 709741511,
    738091233, 766255054, 794235396, 822034634, 849655098, 877099072,
    904368797, 931466472, 958394255, 985154263, 1011748572, 1038179224,
    1064448219, 1090557523, 1116509066, 1142304743, 1167946415, 1193435910,
    1218775023, 1243965519, 1269009132, 1293907562, 1318662486, 1343275546,
    1367748360, 1392082518, 1416279581, 1440341085, 1464268541, 1488063435,
    1511727226, 1535261353, 1558667227, 1581946239, 1605099758, 1628129128,
    1651035675, 1673820701, 1696485489, 1719031300, 1741459379, 1763770948,
    1785967210, 1808049353, 1830018543, 1851875930, 1873622647, 1895259807,
    1916788510, 1938209838, 1959524856, 1980734614, 2001840147, 2022842474,
    2043742599, 2064541513, 2085240191, 2105839594, 2126340670, 2146744353,
    2167051565, 2187263213, 2207380193, 2227403387, 2247333665, 2267171887,
    2286918897, 2306575533, 2326142616, 2345620959, 2365011363, 2384314620,
    2403531508, 2422662797, 2441709246, 2460671605, 2479550612, 2498346998,
    2517061482, 2535694775, 2554247578, 2572720585, 2591114477, 2609429930,
    2627667611, 2645828176, 2663912276, 2681920551, 2699853634, 2717712152,
    2735496721, 2753207951, 2770846446, 2788412798, 2805907598, 2823331424,
    2840684851, 2857968445, 2875182766, 2892328366, 2909405794, 2926415587,
    2943358281, 2960234402, 2977044472,
];

/// The exponent of the largest power of two that is at most `x`.
pub open spec fn log2_floor(x: nat) -> nat
    decreases x,
{
    if x < 2 {
        0
    } else {
        1 + log2_floor(x / 2)
    }
}

/// The largest power of two that is at most `x` (1 for `x = 0`).
pub open spec fn pow2_floor(x: nat) -> nat
    decreases x,
{
    if x < 2 {
        1
    } else {
        2 * pow2_floor(x / 2)
    }
}

/// The table's value at `r / p`, for `0 <= r < p`: the entry at or below it
/// plus the share of the step to the next entry, rounded down.
pub open spec fn interpolated(r: nat, p: nat) -> int
    recommends
        r < p,
{
    let idx = STEPS * r / (p as int);
    let rem = STEPS * r - idx * p;
    LN_TABLE[idx] + (LN_TABLE[idx + 1] - LN_TABLE[idx]) * rem / (p as int)
}

/// The fixed-point logarithm of `x >= 1`. With `x = p + r`, `p` the largest
/// power of two in `x`, it is `log2(p) * LN2` plus the table's value at
/// `r / p`.
pub open spec fn spec_ln_fixed(x: nat) -> int
    recommends
        x >= 1,
{
    log2_floor(x) * LN2 + interpolated((x - pow2_floor(x)) as nat, pow2_floor(x))
}

/// `ln_fixed` as a function of a `u64`.
pub open spec fn spec_ln_fixed_u64(x: u64) -> u64 {
    spec_ln_fixed(x as nat) as u64
}

/// The largest value `ln_fixed` takes on a `u64`: 64 times `ln 2`.
pub const LN_MAX: u64 = 190530846208;

proof fn lemma_table_rises()
    ensures
        forall|i: int| 0 <= i < 128 ==> (#[trigger] LN_TABLE[i]) <= LN_TABLE[i + 1],
        forall|i: int| 0 <= i <= 128 ==> 0 <= (#[trigger] LN_TABLE[i]) <= LN2,
{
}

/// The largest power of two in `x` is at most `x` and more than half of it.
pub proof fn lemma_leading_power(x: nat)
    requires
        x >= 1,
    ensures
        1 <= pow2_floor(x) <= x < 2 * pow2_floor(x),
    decreases x,
{
    if x >= 2 {
        lemma_leading_power(x / 2);
    }
}

/// A number below `2^(n+1)` has its largest power of two at or below `2^n`.
pub proof fn lemma_log2_floor_bound(x: nat, n: nat)
    requires
        x < pow2(n + 1),
    ensures
        log2_floor(x) <= n,
    decreases n,
{
    if x >= 2 {
        lemma_pow2_unfold(n + 1);
        if n == 0 {
            lemma2_to64();
        } else {
            lemma_log2_floor_bound(x / 2, (n - 1) as nat);
        }
    }
}

/// The interpolated table value lies between 0 and `ln 2`.
pub proof fn lemma_interpolated_range(r: nat, p: nat)
    requires
        r < p,
    ensures
        0 <= interpolated(r, p) <= LN2,
{
    let scaled = STEPS * r;
    let idx = scaled / (p as int);
    assert(0 <= idx * p <= scaled && scaled - idx * p < p && 0 <= idx < 128) by (nonlinear_arith)
        requires
            idx == scaled / (p as int),
            p >= 1,
            0 <= scaled < 128 * p,
    ;
    let rem = scaled - idx * p;
    lemma_table_rises();
    let diff = LN_TABLE[idx + 1] - LN_TABLE[idx];
    assert(0 <= (diff * rem) / (p as int) <= diff) by (nonlinear_arith)
        requires
            0 <= rem < p,
            0 <= diff,
    ;
}

/// The logarithm of a count that fits 64 bits lies between 0 and `LN_MAX`.
pub proof fn lemma_ln_fixed_range(x: nat)
    requires
        1 <= x <= u64::MAX,
    ensures
        0 <= spec_ln_fixed(x) <= LN_MAX,
{
    lemma_leading_power(x);
    lemma2_to64_rest();
    lemma_log2_floor_bound(x, 63);
    lemma_interpolated_range((x - pow2_floor(x)) as nat, pow2_floor(x));
    let e = log2_floor(x);
    assert(0 <= e * LN2 <= 63 * LN2) by (nonlinear_arith)
        requires
            0 <= e <= 63,
    ;
}

proof fn lemma_table_ordered(i: int, j: int)
    requires
        0 <= i <= j <= 128,
    ensures
        LN_TABLE[i] <= LN_TABLE[j],
    decreases j - i,
{
    if i < j {
        lemma_table_rises();
        lemma_table_ordered(i + 1, j);
    }
}

/// The largest power of two in a number, and its exponent, do not fall as
/// the number grows; numbers with the same exponent have the same power.
pub proof fn lemma_leading_power_rises(x: nat, y: nat)
    requires
        x <= y,
    ensures
        log2_floor(x) <= log2_floor(y),
        pow2_floor(x) <= pow2_floor(y),
        log2_floor(x) == log2_floor(y) ==> pow2_floor(x) == pow2_floor(y),
    decreases y,
{
    if y >= 2 {
        if x >= 2 {
            lemma_leading_power_rises(x / 2, y / 2);
        } else {
            lemma_leading_power(y);
        }
    }
}

/// The interpolated table value does not fall as `r` grows.
pub proof fn lemma_interpolated_rises(r1: nat, r2: nat, p: nat)
    requires
        r1 <= r2 < p,
    ensures
        interpolated(r1, p) <= interpolated(r2, p),
{
    let s1 = STEPS * r1;
    let s2 = STEPS * r2;
    let i1 = s1 / (p as int);
    let i2 = s2 / (p as int);
    assert(0 <= i1 * p <= s1 && s1 - i1 * p < p && 0 <= i1 < 128) by (nonlinear_arith)
        requires
            i1 == s1 / (p as int),
            p >= 1,
            0 <= s1 < 128 * p,
    ;
    assert(0 <= i2 * p <= s2 && s2 - i2 * p < p && 0 <= i2 < 128) by (nonlinear_arith)
        requires
            i2 == s2 / (p as int),
            p >= 1,
            0 <= s2 < 128 * p,
    ;
    assert(i1 <= i2) by (nonlinear_arith)
        requires
            i1 == s1 / (p as int),
            i2 == s2 / (p as int),
            p >= 1,
            0 <= s1 <= s2,
    ;
    let m1 = s1 - i1 * p;
    let m2 = s2 - i2 * p;
    lemma_table_rises();
    let d1 = LN_TABLE[i1 + 1] - LN_TABLE[i1];
    let d2 = LN_TABLE[i2 + 1] - LN_TABLE[i2];
    assert(0 <= (d1 * m1) / (p as int) <= d1) by (nonlinear_arith)
        requires
            0 <= m1 < p,
            0 <= d1,
    ;
    assert(0 <= (d2 * m2) / (p as int) <= d2) by (nonlinear_arith)
        requires
            0 <= m2 < p,
            0 <= d2,
    ;
    if i1 == i2 {
        assert((d1 * m1) / (p as int) <= (d1 * m2) / (p as int)) by (nonlinear_arith)
            requires
                0 <= m1 <= m2,
                0 <= d1,
                p >= 1,
        ;
    } else {
        lemma_table_ordered(i1 + 1, i2);
    }
}

/// A higher count never has a lower logarithm.
pub proof fn lemma_ln_fixed_rises(x: nat, y: nat)
    requires
        1 <= x <= y,
    ensures
        spec_ln_fixed(x) <= spec_ln_fixed(y),
{
    lemma_leading_power_rises(x, y);
    lemma_leading_power(x);
    lemma_leading_power(y);
    let px = pow2_floor(x);
    let py = pow2_floor(y);
    lemma_interpolated_range((x - px) as nat, px);
    lemma_interpolated_range((y - py) as nat, py);
    if log2_floor(x) == log2_floor(y) {
        lemma_interpolated_rises((x - px) as nat, (y - py) as nat, px);
    } else {
        let ex = log2_floor(x);
        let ey = log2_floor(y);
        assert((ex + 1) * LN2 <= ey * LN2) by (nonlinear_arith)
            requires
                ex + 1 <= ey,
        ;
        assert((ex + 1) * LN2 == ex * LN2 + LN2) by (nonlinear_arith);
    }
}

/// The logarithm of a power of two is its exponent times `ln 2`.
pub proof fn lemma_ln_fixed_of_power(x: nat)
    requires
        x >= 1,
        x == pow2_floor(x),
    ensures
        spec_ln_fixed(x) == log2_floor(x) * LN2,
{
    lemma_table_rises();
    assert(STEPS * 0 / (x as int) == 0) by (nonlinear_arith)
        requires
            x >= 1,
    ;
    assert((LN_TABLE[1] - LN_TABLE[0]) * 0 / (x as int) == 0) by (nonlinear_arith)
        requires
            x >= 1,
    ;
}

fn table_step(idx: usize) -> (r: (u64, u64))
    requires
        idx < 128,
    ensures
        r.0 == LN_TABLE[idx as int],
        r.1 == LN_TABLE[idx + 1],
        r.0 <= r.1 <= LN2,
{
    proof {
        lemma_table_rises();
    }
    (LN_TABLE[idx], LN_TABLE[idx + 1])
}

/// The largest power of two in `x`, and its exponent.
fn leading_power(x: u64) -> (r: (u64, u64))
    requires
        x >= 1,
    ensures
        r.0 == log2_floor(x as nat),
        r.1 == pow2_floor(x as nat),
        r.0 <= 63,
        r.1 <= x,
        x - r.1 < r.1,
{
    let mut y: u64 = x;
    let mut e: u64 = 0;
    let mut p: u64 = 1;
    proof {
        lemma2_to64();
        lemma2_to64_rest();
        assert(pow2_floor(x as nat) == 1 * pow2_floor(x as nat));
    }
    while y >= 2
        invariant
            1 <= y,
            p >= 1,
            log2_floor(x as nat) == e + log2_floor(y as nat),
            pow2_floor(x as nat) == p * pow2_floor(y as nat),
            p * y <= x,
            x < p * (y + 1),
            p == pow2(e as nat),
            e <= 63,
            pow2(64) == 0x10000000000000000,
        decreases y,
    {
        proof {
            let q = pow2_floor((y / 2) as nat);
            assert(pow2_floor(y as nat) == 2 * q);
            assert(2 * p <= p * y) by (nonlinear_arith)
                requires
                    y >= 2,
                    p >= 1,
            ;
            assert(p * (2 * q) == (2 * p) * q) by (nonlinear_arith);
            assert((2 * p) * (y / 2) <= p * y) by (nonlinear_arith)
                requires
                    2 * (y / 2) <= y,
                    p >= 1,
            ;
            assert(p * (y + 1) <= (2 * p) * (y / 2 + 1)) by (nonlinear_arith)
                requires
                    y + 1 <= 2 * (y / 2 + 1),
                    p >= 1,
            ;
            lemma_pow2_unfold((e + 1) as nat);
            if e + 1 >= 64 {
                if e + 1 > 64 {
                    lemma_pow2_strictly_increases(64, (e + 1) as nat);
                }
                assert(false);
            }
        }
        y = y / 2;
        e = e + 1;
        p = p * 2;
    }
    proof {
        assert(y == 1);
        assert(pow2_floor(1) == 1 && log2_floor(1) == 0);
        assert(p * 1 == p && p * pow2_floor(1) == p) by (nonlinear_arith)
            requires
                pow2_floor(1) == 1,
        ;
        assert(p * (1 + 1) == p + p) by (nonlinear_arith);
    }
    (e, p)
}

fn interpolate(r: u64, p: u64) -> (v: u64)
    requires
        r < p,
    ensures
        v == interpolated(r as nat, p as nat),
        v <= LN2,
{
    let wide_p: u128 = p as u128;
    let scaled: u128 = 128 * (r as u128);
    let idx: u128 = scaled / wide_p;
    proof {
        assert(idx * wide_p <= scaled && scaled - idx * wide_p < wide_p && idx < 128)
            by (nonlinear_arith)
            requires
                idx == scaled / wide_p,
                wide_p >= 1,
                scaled < 128 * wide_p,
                scaled >= 0,
        ;
    }
    let rem: u128 = scaled - idx * wide_p;
    let (lo, hi) = table_step(idx as usize);
    let diff: u128 = (hi - lo) as u128;
    proof {
        assert(diff * rem <= diff * wide_p && diff * wide_p <= 0x1_0000_0000
            * 0x1_0000_0000_0000_0000) by (nonlinear_arith)
            requires
                0 <= rem <= wide_p <= 0x1_0000_0000_0000_0000,
                0 <= diff <= 0x1_0000_0000,
        ;
        assert((diff * rem) / (wide_p as int) <= diff) by (nonlinear_arith)
            requires
                diff * rem <= diff * wide_p,
                wide_p >= 1,
                diff >= 0,
                rem >= 0,
        ;
    }
    let part: u128 = diff * rem / wide_p;
    (lo as u128 + part) as u64
}

/// The fixed-point logarithm of a count.
#[verifier::when_used_as_spec(spec_ln_fixed_u64)]
pub fn ln_fixed(x: u64) -> (r: u64)
    requires
        x >= 1,
    ensures
        r == spec_ln_fixed(x as nat),
        r <= LN_MAX,
{
    let (e, p) = leading_power(x);
    let v = interpolate(x - p, p);
    proof {
        assert(e * LN2 <= 63 * LN2) by (nonlinear_arith)
            requires
                e <= 63,
        ;
    }
    e * LN2 + v
}

} // verus!
