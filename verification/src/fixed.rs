use vstd::prelude::*;

verus! {

use vstd::arithmetic::div_mod::{
    lemma_div_is_ordered, lemma_div_multiples_vanish, lemma_fundamental_div_mod,
    lemma_mod_pos_bound, lemma_div_denominator,
};
use vstd::arithmetic::mul::{lemma_mul_inequality, lemma_mul_upper_bound};
use vstd::arithmetic::power2::{lemma2_to64, lemma_pow2_adds, lemma_pow2_pos, pow2};

/// Scores are fixed-point numbers with 16 fractional bits: a raw value `v`
/// stands for the real number `v / SCALE`.
pub const SCALE: u64 = 65536;

/// `ln(2) * SCALE`, rounded to the nearest integer.
pub const LN2_FP: u64 = 45426;

/// Saturating addition: the mathematical sum, capped at `u64::MAX`.
pub open spec fn sat_add(a: int, b: int) -> int {
    if a + b > u64::MAX { u64::MAX as int } else { a + b }
}

/// Saturating multiplication: the mathematical product, capped at `u64::MAX`.
pub open spec fn sat_mul(a: int, b: int) -> int {
    if a * b > u64::MAX { u64::MAX as int } else { a * b }
}

/// `a * b / c` over the integers (quotient rounded toward zero), capped at `u64::MAX`.
pub open spec fn sat_mul_div(a: int, b: int, c: int) -> int
    recommends
        c >= 1,
{
    if a * b / c > u64::MAX { u64::MAX as int } else { a * b / c }
}

/// Subtraction clamped at zero.
pub open spec fn sub_floor(a: int, b: int) -> int {
    if a >= b { a - b } else { 0 }
}

pub fn add_sat(a: u64, b: u64) -> (r: u64)
    ensures
        r as int == sat_add(a as int, b as int),
{
    if b <= u64::MAX - a {
        a + b
    } else {
        u64::MAX
    }
}

pub fn mul_sat(a: u64, b: u64) -> (r: u64)
    ensures
        r as int == sat_mul(a as int, b as int),
{
    proof {
        lemma_mul_upper_bound(a as int, u64::MAX as int, b as int, u64::MAX as int);
    }
    let p: u128 = (a as u128) * (b as u128);
    if p > u64::MAX as u128 {
        u64::MAX
    } else {
        p as u64
    }
}

pub fn mul_div_sat(a: u64, b: u64, c: u64) -> (r: u64)
    requires
        c >= 1,
    ensures
        r as int == sat_mul_div(a as int, b as int, c as int),
{
    proof {
        lemma_mul_upper_bound(a as int, u64::MAX as int, b as int, u64::MAX as int);
    }
    let p: u128 = (a as u128) * (b as u128);
    let q: u128 = p / (c as u128);
    if q > u64::MAX as u128 {
        u64::MAX
    } else {
        q as u64
    }
}

pub fn sub_clamped(a: u64, b: u64) -> (r: u64)
    ensures
        r as int == sub_floor(a as int, b as int),
{
    if a >= b {
        a - b
    } else {
        0
    }
}

/// If `a >= b * c` then dividing by `c` keeps the bound `b`.
proof fn lemma_div_ge(a: int, b: int, c: int)
    requires
        c >= 1,
        b >= 0,
        a >= b * c,
    ensures
        a / c >= b,
{
    lemma_div_is_ordered(b * c, a, c);
    lemma_div_multiples_vanish(b, c);
    assert(b * c == c * b) by (nonlinear_arith);
}

/// If `a < b * c` then the quotient `a / c` stays below `b`.
proof fn lemma_div_lt(a: int, b: int, c: int)
    requires
        c >= 1,
        a >= 0,
        b >= 0,
        a < b * c,
    ensures
        a / c < b,
{
    lemma_fundamental_div_mod(a, c);
    lemma_mod_pos_bound(a, c);
    if a / c >= b {
        lemma_mul_inequality(b, a / c, c);
        assert(b * c <= (a / c) * c);
        assert(a == c * (a / c) + a % c);
        assert((a / c) * c == c * (a / c)) by (nonlinear_arith);
        assert(false);
    }
}

/// The integer part of the base-2 logarithm.
pub open spec fn floor_log2(x: int) -> nat
    recommends
        x >= 1,
    decreases x,
{
    if x < 2 {
        0
    } else {
        1 + floor_log2(x / 2)
    }
}

/// The mantissa of `x` scaled to `[2^32, 2^33)`.
pub open spec fn mantissa(x: int) -> int
    recommends
        x >= 1,
{
    x * 0x1_0000_0000 / (pow2(floor_log2(x)) as int)
}

/// `n` fractional bits of `log2` of a mantissa in `[2^32, 2^33)`, obtained by
/// repeated squaring: each squaring doubles the remaining exponent, and a
/// renormalizing halving contributes one result bit.
pub open spec fn log2_frac(m: int, n: nat) -> int
    decreases n,
{
    if n == 0 {
        0
    } else {
        let msq = m * m / 0x1_0000_0000;
        if msq >= 0x2_0000_0000 {
            pow2((n - 1) as nat) as int + log2_frac(msq / 2, (n - 1) as nat)
        } else {
            log2_frac(msq, (n - 1) as nat)
        }
    }
}

/// `log2(x) * SCALE`, up to the truncation of the digit recurrence.
pub open spec fn log2_fixed_spec(x: int) -> int {
    floor_log2(x) as int * 65536 + log2_frac(mantissa(x), 16)
}

pub fn log2_fixed(x: u64) -> (r: u64)
    requires
        x >= 1,
    ensures
        r as int == log2_fixed_spec(x as int),
        r < 4194304,
{
    let mut k: u64 = 0;
    let mut p2: u64 = 1;
    let mut y: u64 = x;
    proof {
        lemma2_to64();
    }
    while y >= 2
        invariant
            x >= 1,
            1 <= y,
            p2 == pow2(k as nat),
            y as int == x as int / p2 as int,
            k <= 63,
            floor_log2(x as int) == k + floor_log2(y as int),
        decreases y,
    {
        proof {
            lemma_pow2_pos(k as nat);
            lemma_fundamental_div_mod(x as int, p2 as int);
            lemma_mod_pos_bound(x as int, p2 as int);
            lemma_mul_inequality(2, y as int, p2 as int);
            // 2 * p2 == pow2(k + 1) and x >= 2 * p2, so k + 1 stays below 64
            lemma_pow2_adds(k as nat, 1);
            lemma2_to64();
            if k >= 63 {
                assert(pow2(64) > u64::MAX);
                assert(false);
            }
            lemma_div_denominator(x as int, p2 as int, 2);
            assert(floor_log2(y as int) == 1 + floor_log2(y as int / 2));
        }
        y = y / 2;
        k = k + 1;
        p2 = p2 * 2;
    }
    proof {
        lemma_pow2_pos(k as nat);
        lemma_fundamental_div_mod(x as int, p2 as int);
        lemma_mod_pos_bound(x as int, p2 as int);
        assert(floor_log2(1) == 0);
        assert(floor_log2(x as int) == k);
        // p2 <= x < 2 * p2
        assert(p2 <= x);
        assert(x < 2 * p2 as int);
    }
    let m0: u128 = ((x as u128) * 4294967296u128) / (p2 as u128);
    proof {
        lemma_mul_inequality(p2 as int, x as int, 4294967296);
        lemma_div_ge(x as int * 4294967296, 4294967296, p2 as int);
        assert(p2 as int * 4294967296 == 4294967296 * p2 as int) by (nonlinear_arith);
        assert(x as int * 4294967296 < 8589934592 * p2 as int) by (nonlinear_arith)
            requires
                x < 2 * p2 as int,
                p2 >= 1,
        ;
        lemma_div_lt(x as int * 4294967296, 8589934592, p2 as int);
        assert(m0 as int == mantissa(x as int));
    }
    let mut m: u128 = m0;
    let mut frac: u64 = 0;
    let mut i: u64 = 0;
    while i < 16
        invariant
            i <= 16,
            4294967296 <= m < 8589934592,
            frac < pow2(i as nat),
            log2_frac(m0 as int, 16) == frac * pow2((16 - i) as nat) + log2_frac(
                m as int,
                (16 - i) as nat,
            ),
        decreases 16 - i,
    {
        proof {
            lemma2_to64();
            lemma_mul_upper_bound(m as int, 8589934591, m as int, 8589934591);
            lemma_mul_inequality(4294967296, m as int, m as int);
            lemma_div_ge(m as int * m as int, 4294967296, 4294967296);
            lemma_div_lt(m as int * m as int, 17179869184, 4294967296);
        }
        let msq: u128 = (m * m) / 4294967296u128;
        let ghost n_left: nat = (16 - i) as nat;
        proof {
            lemma_pow2_adds((15 - i) as nat, 1);
            assert(pow2((16 - i) as nat) == 2 * pow2((15 - i) as nat));
        }
        if msq >= 8589934592u128 {
            proof {
                assert(log2_frac(m as int, n_left) == pow2((n_left - 1) as nat) as int
                    + log2_frac(msq as int / 2, (n_left - 1) as nat));
                assert((2 * frac + 1) * pow2((15 - i) as nat) == frac * (2 * pow2(
                    (15 - i) as nat,
                )) + pow2((15 - i) as nat)) by (nonlinear_arith);
            }
            m = msq / 2;
            frac = frac * 2 + 1;
        } else {
            proof {
                assert(log2_frac(m as int, n_left) == log2_frac(msq as int, (n_left - 1) as nat));
                assert((2 * frac) * pow2((15 - i) as nat) == frac * (2 * pow2((15 - i) as nat)))
                    by (nonlinear_arith);
            }
            m = msq;
            frac = frac * 2;
        }
        i = i + 1;
    }
    proof {
        lemma2_to64();
        assert(i == 16);
        assert(pow2(0) == 1);
        assert(log2_frac(m as int, 0) == 0);
        assert(frac * pow2((16 - i) as nat) == frac as int) by (nonlinear_arith)
            requires
                i == 16,
                pow2(0) == 1,
        ;
        assert(log2_frac(m0 as int, 16) == frac);
    }
    k * 65536 + frac
}

/// `ln(x) * SCALE`: the fixed-point base-2 logarithm rescaled by `ln(2)`.
pub open spec fn ln_fixed_spec(x: int) -> int {
    log2_fixed_spec(x) * 45426 / 65536
}

pub fn ln_fixed(x: u64) -> (r: u64)
    requires
        x >= 1,
    ensures
        r as int == ln_fixed_spec(x as int),
        r < 2949120,
{
    let lg = log2_fixed(x);
    proof {
        lemma_div_lt(lg as int * 45426, 2949120, 65536);
    }
    (lg * 45426) / 65536
}

/// The unsmoothed inverse document frequency `ln(n_docs) - ln(df)` in fixed
/// point, zero for terms that occur in no document.
pub open spec fn idf_fixed_spec(n_docs: int, df: int) -> int {
    if n_docs < 1 || df < 1 {
        0
    } else {
        sub_floor(ln_fixed_spec(n_docs), ln_fixed_spec(df))
    }
}

pub fn idf_fixed(n_docs: u64, df: u64) -> (r: u64)
    ensures
        r as int == idf_fixed_spec(n_docs as int, df as int),
        r < 2949120,
{
    if n_docs < 1 || df < 1 {
        0
    } else {
        let a = ln_fixed(n_docs);
        let b = ln_fixed(df);
        sub_clamped(a, b)
    }
}

/// The BM25 contribution of one posting, in fixed point:
/// `idf * (tf * (k1 + 1)) / (tf + k1 * (1 - b + b * len / avg_len))`,
/// with `avg_len = total_len / n_docs`, carried out in saturating integer
/// arithmetic on `SCALE`-scaled values; `b` is clamped into `[0, 1]` and the
/// denominator to at least one step of the scale grid.
pub open spec fn posting_fp(k1: int, b: int, idf: int, tf: int, len: int, n_docs: int, total_len: int) -> int
    recommends
        total_len >= 1,
{
    let be = if b > 65536 { 65536 } else { b };
    let lennorm = sat_mul_div(be, sat_mul(len, n_docs), total_len);
    let norm = sat_add(65536 - be, lennorm);
    let denom0 = sat_add(sat_mul(tf, 65536), sat_mul_div(k1, norm, 65536));
    let denom = if denom0 < 1 { 1 } else { denom0 };
    let tfc = sat_mul_div(sat_mul(tf, sat_add(k1, 65536)), 65536, denom);
    sat_mul_div(idf, tfc, 65536)
}

pub fn posting_fixed(k1: u64, b: u64, idf: u64, tf: u64, len: u64, n_docs: u64, total_len: u64) -> (r: u64)
    requires
        total_len >= 1,
    ensures
        r as int == posting_fp(k1 as int, b as int, idf as int, tf as int, len as int, n_docs as int, total_len as int),
{
    let be = if b > SCALE { SCALE } else { b };
    let t1 = mul_sat(len, n_docs);
    let lennorm = mul_div_sat(be, t1, total_len);
    let norm = add_sat(SCALE - be, lennorm);
    let d1 = mul_sat(tf, SCALE);
    let d2 = mul_div_sat(k1, norm, SCALE);
    let denom0 = add_sat(d1, d2);
    let denom = if denom0 < 1 { 1 } else { denom0 };
    let num = mul_sat(tf, add_sat(k1, SCALE));
    let tfc = mul_div_sat(num, SCALE, denom);
    mul_div_sat(idf, tfc, SCALE)
}

} // verus!
