//! Fixed-point arithmetic with 16 fractional bits (unit: 1/65536).
//!
//! `exp2_fp` approximates `65536 * 2^(r/65536)` by a truncated Taylor series
//! of `2^t` on the fractional part, `log2_fp` approximates
//! `65536 * log2(k)` by the atanh series of the natural logarithm, and
//! `disc_fp` is the rank discount `65536 / log2(i + 2)`. The series have
//! non-negative coefficients, which makes every step monotonic; the proofs
//! below rely on that.

use vstd::prelude::*;
use vstd::arithmetic::div_mod::{
    lemma_div_is_ordered, lemma_div_by_multiple, lemma_multiply_divide_lt,
    lemma_div_is_ordered_by_denominator, lemma_fundamental_div_mod,
    lemma_mod_division_less_than_divisor,
};
use vstd::arithmetic::mul::lemma_mul_nonnegative;

verus! {

/// One unit of the integer part: the fixed-point representation of 1.
pub const SCALE: u64 = 65536;

/// Largest relevancy accepted by the gain computation (20 in real terms),
/// which keeps every gain below 2^37.
pub const REL_MAX: u64 = 1310720;

/// `a <= b * d` bounds the quotient `a / d` by `b`.
pub proof fn lemma_div_bound(a: int, b: int, d: int)
    requires
        0 <= a,
        0 <= b,
        0 < d,
        a <= b * d,
    ensures
        a / d <= b,
{
    lemma_div_is_ordered(a, b * d, d);
    lemma_div_by_multiple(b, d);
}

/// Quotients respect the cross-multiplied ordering of two fractions.
pub proof fn lemma_div_cross(n1: int, d1: int, n2: int, d2: int)
    requires
        0 <= n1,
        0 < d1,
        0 < d2,
        n1 * d2 <= n2 * d1,
    ensures
        n1 / d1 <= n2 / d2,
{
    let q1 = n1 / d1;
    lemma_fundamental_div_mod(n1, d1);
    lemma_mod_division_less_than_divisor(n1, d1);
    assert(q1 * d1 <= n1);
    assert(q1 >= 0) by {
        vstd::arithmetic::div_mod::lemma_div_pos_is_pos(n1, d1);
    }
    assert(q1 * d2 <= n2) by (nonlinear_arith)
        requires
            q1 * d1 <= n1,
            n1 * d2 <= n2 * d1,
            d1 > 0,
            d2 > 0,
            q1 >= 0,
            n1 >= 0,
    ;
    assert(n2 / d2 >= q1) by {
        assert(q1 * d2 >= 0) by (nonlinear_arith)
            requires
                q1 >= 0,
                d2 > 0,
        ;
        lemma_div_is_ordered(q1 * d2, n2, d2);
        lemma_div_by_multiple(q1, d2);
    }
}

/// Products of non-negative factors are ordered by their factors.
pub proof fn mul_le(a: int, b: int, c: int, d: int)
    requires
        0 <= a <= c,
        0 <= b <= d,
    ensures
        a * b <= c * d,
{
    assert(a * b <= c * d) by (nonlinear_arith)
        requires
            0 <= a <= c,
            0 <= b <= d,
    ;
}

/// Powers of two, as a mathematical integer.
pub open spec fn pow2(n: int) -> int
    decreases n,
{
    if n <= 0 {
        1
    } else {
        2 * pow2(n - 1)
    }
}

pub proof fn lemma_pow2_pos(n: int)
    ensures
        pow2(n) >= 1,
    decreases n,
{
    if n > 0 {
        lemma_pow2_pos(n - 1);
    }
}

pub proof fn lemma_pow2_mono(a: int, b: int)
    requires
        a <= b,
    ensures
        pow2(a) <= pow2(b),
    decreases b - a,
{
    if a < b {
        lemma_pow2_mono(a, b - 1);
        lemma_pow2_pos(b - 1);
    }
}

/// Taylor series of `2^t` on `t in [0, 1)`, in fixed point: the argument `f`
/// is the fractional part (0 <= f < 65536) and the result lies in
/// [65536, 131061). The coefficients are `ln(2)^k / k!` scaled by 65536.
pub open spec fn exp2_frac(f: int) -> int {
    let p4 = 630 + f * 87 / 65536;
    let p3 = 3638 + f * p4 / 65536;
    let p2 = 15743 + f * p3 / 65536;
    let p1 = 45426 + f * p2 / 65536;
    65536 + f * p1 / 65536
}

/// `65536 * 2^(r / 65536)`, approximately: split `r` into integer and
/// fractional parts and scale the series value by the integer power.
pub open spec fn exp2_fp(r: int) -> int {
    pow2(r / 65536) * exp2_frac(r % 65536)
}

/// Fixed-point gain `65536 * (2^(r/65536) - 1)`.
pub open spec fn gain_fp(r: int) -> int {
    exp2_fp(r) - 65536
}

/// A product of bounded non-negative factors, divided by a positive
/// constant, stays bounded and monotonic; this is the single step of every
/// Horner evaluation below.
proof fn lemma_step_bound(f: int, p: int, fb: int, pb: int)
    requires
        0 <= f <= fb <= 65536,
        0 <= p <= pb,
    ensures
        0 <= f * p / 65536 <= fb * pb / 65536,
        f * p / 65536 <= p,
{
    lemma_mul_nonnegative(f, p);
    mul_le(f, p, fb, pb);
    lemma_div_is_ordered(f * p, fb * pb, 65536);
    assert(f * p / 65536 >= 0) by {
        vstd::arithmetic::div_mod::lemma_div_pos_is_pos(f * p, 65536);
    }
    mul_le(f, p, 65536, p);
    assert(f * p <= p * 65536) by {
        assert(65536 * p == p * 65536) by (nonlinear_arith);
    }
    lemma_div_bound(f * p, p, 65536);
}

pub proof fn lemma_exp2_frac_bounds(f: int)
    requires
        0 <= f < 65536,
    ensures
        65536 <= exp2_frac(f) <= 131060,
{
    let p4 = 630 + f * 87 / 65536;
    let p3 = 3638 + f * p4 / 65536;
    let p2 = 15743 + f * p3 / 65536;
    let p1 = 45426 + f * p2 / 65536;
    lemma_step_bound(f, 87, 65535, 87);
    assert(0 <= p4 <= 717);
    lemma_step_bound(f, p4, 65535, 717);
    assert(0 <= p3 <= 4355);
    lemma_step_bound(f, p3, 65535, 4355);
    assert(0 <= p2 <= 20098);
    lemma_step_bound(f, p2, 65535, 20098);
    assert(0 <= p1 <= 65524);
    lemma_step_bound(f, p1, 65535, 65524);
    assert(f * p1 / 65536 <= 65524);
}

pub proof fn lemma_exp2_frac_mono(f1: int, f2: int)
    requires
        0 <= f1 <= f2 < 65536,
    ensures
        exp2_frac(f1) <= exp2_frac(f2),
{
    let a4 = 630 + f1 * 87 / 65536;
    let b4 = 630 + f2 * 87 / 65536;
    lemma_step_bound(f1, 87, f2, 87);
    assert(0 <= a4 <= b4);
    let a3 = 3638 + f1 * a4 / 65536;
    let b3 = 3638 + f2 * b4 / 65536;
    lemma_step_bound(f1, a4, f2, b4);
    assert(0 <= a3 <= b3);
    let a2 = 15743 + f1 * a3 / 65536;
    let b2 = 15743 + f2 * b3 / 65536;
    lemma_step_bound(f1, a3, f2, b3);
    assert(0 <= a2 <= b2);
    let a1 = 45426 + f1 * a2 / 65536;
    let b1 = 45426 + f2 * b2 / 65536;
    lemma_step_bound(f1, a2, f2, b2);
    assert(0 <= a1 <= b1);
    lemma_step_bound(f1, a1, f2, b1);
}

pub proof fn lemma_exp2_bounds(r: int)
    requires
        0 <= r <= 1310720,
    ensures
        65536 <= exp2_fp(r),
        exp2_fp(r) <= 137426370560,
        gain_fp(r) >= 0,
{
    let n = r / 65536;
    let f = r % 65536;
    lemma_mod_division_less_than_divisor(r, 65536);
    vstd::arithmetic::div_mod::lemma_mod_bound(r, 65536);
    assert(0 <= f < 65536);
    assert(0 <= n <= 20) by {
        lemma_div_bound(r, 20, 65536);
        vstd::arithmetic::div_mod::lemma_div_pos_is_pos(r, 65536);
    }
    lemma_exp2_frac_bounds(f);
    lemma_pow2_pos(n);
    lemma_pow2_mono(n, 20);
    assert(pow2(20) == 1048576) by {
        reveal_with_fuel(pow2, 21);
    }
    mul_le(1, 65536, pow2(n), exp2_frac(f));
    mul_le(pow2(n), exp2_frac(f), 1048576, 131060);
}

pub proof fn lemma_exp2_mono(r1: int, r2: int)
    requires
        0 <= r1 <= r2 <= 1310720,
    ensures
        exp2_fp(r1) <= exp2_fp(r2),
        gain_fp(r1) <= gain_fp(r2),
{
    let n1 = r1 / 65536;
    let f1 = r1 % 65536;
    let n2 = r2 / 65536;
    let f2 = r2 % 65536;
    lemma_mod_division_less_than_divisor(r1, 65536);
    vstd::arithmetic::div_mod::lemma_mod_bound(r1, 65536);
    lemma_mod_division_less_than_divisor(r2, 65536);
    vstd::arithmetic::div_mod::lemma_mod_bound(r2, 65536);
    lemma_div_is_ordered(r1, r2, 65536);
    vstd::arithmetic::div_mod::lemma_div_pos_is_pos(r1, 65536);
    lemma_exp2_frac_bounds(f1);
    lemma_exp2_frac_bounds(f2);
    lemma_pow2_pos(n1);
    if n1 == n2 {
        lemma_fundamental_div_mod(r1, 65536);
        lemma_fundamental_div_mod(r2, 65536);
        assert(f1 <= f2);
        lemma_exp2_frac_mono(f1, f2);
        mul_le(pow2(n1), exp2_frac(f1), pow2(n2), exp2_frac(f2));
    } else {
        assert(n1 < n2);
        // exp2_fp(r1) < 131072 * pow2(n1) == 65536 * pow2(n1 + 1) <= exp2_fp(r2)
        mul_le(pow2(n1), exp2_frac(f1), pow2(n1), 131060);
        assert(pow2(n1) * 131060 <= pow2(n1 + 1) * 65536) by {
            assert(pow2(n1 + 1) == 2 * pow2(n1));
            assert(pow2(n1) * 131060 <= (2 * pow2(n1)) * 65536) by (nonlinear_arith)
                requires
                    pow2(n1) >= 1,
            ;
        }
        lemma_pow2_mono(n1 + 1, n2);
        lemma_pow2_pos(n2);
        mul_le(pow2(n1 + 1), 65536, pow2(n2), exp2_frac(f2));
    }
}

/// `2^(r/65536)` in fixed point, exact per `exp2_fp`.
pub fn exp2_fixed(r: u64) -> (res: u64)
    requires
        r <= REL_MAX,
    ensures
        res == exp2_fp(r as int),
        65536 <= res <= 137426370560,
{
    proof {
        lemma_exp2_bounds(r as int);
        lemma_exp2_frac_bounds((r % 65536) as int);
        lemma_div_bound(r as int, 20, 65536);
        vstd::arithmetic::div_mod::lemma_div_pos_is_pos(r as int, 65536);
    }
    let n: u64 = r / 65536;
    let f: u64 = r % 65536;
    proof {
        lemma_step_bound(f as int, 87, 65535, 87);
    }
    let p4: u64 = 630 + f * 87 / 65536;
    proof {
        lemma_step_bound(f as int, p4 as int, 65535, 717);
    }
    let p3: u64 = 3638 + f * p4 / 65536;
    proof {
        lemma_step_bound(f as int, p3 as int, 65535, 4355);
    }
    let p2: u64 = 15743 + f * p3 / 65536;
    proof {
        lemma_step_bound(f as int, p2 as int, 65535, 20098);
    }
    let p1: u64 = 45426 + f * p2 / 65536;
    proof {
        lemma_step_bound(f as int, p1 as int, 65535, 65524);
    }
    let fr: u64 = 65536 + f * p1 / 65536;
    assert(fr == exp2_frac(f as int));
    let mut pw: u64 = 1;
    let mut j: u64 = 0;
    while j < n
        invariant
            0 <= j <= n <= 20,
            pw == pow2(j as int),
            pw <= 1048576,
        decreases n - j,
    {
        proof {
            lemma_pow2_mono(j as int + 1, 20);
            assert(pow2(20) == 1048576) by {
                reveal_with_fuel(pow2, 21);
            }
        }
        pw = pw * 2;
        j = j + 1;
    }
    proof {
        lemma_pow2_pos(n as int);
        mul_le(fr as int, pw as int, 131060, 1048576);
        mul_le(pw as int, fr as int, 1048576, 131060);
        mul_le(1, 65536, pw as int, fr as int);
        assert((fr as int) * (pw as int) == (pw as int) * (fr as int)) by (nonlinear_arith);
    }
    fr * pw
}

/// Fixed-point gain `2^(r/65536) - 1`, exact per `gain_fp`.
pub fn gain_fixed(r: u64) -> (res: u64)
    requires
        r <= REL_MAX,
    ensures
        res == gain_fp(r as int),
        res <= 137426305024,
{
    let e = exp2_fixed(r);
    e - 65536
}

/// The gain is zero exactly on the two smallest relevancy values: at this
/// resolution a relevancy below 2/65536 is indistinguishable from zero.
pub proof fn lemma_gain_zero(r: int)
    requires
        0 <= r <= 1310720,
    ensures
        gain_fp(r) == 0 <==> r < 2,
        gain_fp(0) == 0,
{
    assert(exp2_frac(0) == 65536);
    assert(exp2_frac(1) == 65536);
    assert(exp2_frac(2) == 65537);
    assert(pow2(0) == 1);
    assert(exp2_fp(0) == 65536);
    assert(exp2_fp(1) == 65536);
    assert(exp2_fp(2) == 65537);
    if r >= 2 {
        lemma_exp2_mono(2, r);
    }
    lemma_exp2_bounds(r);
}

/// Floor of the base-2 logarithm, for k >= 1.
pub open spec fn flog2(k: int) -> int
    decreases k,
{
    if k < 2 {
        0
    } else {
        1 + flog2(k / 2)
    }
}

pub proof fn lemma_flog2_bounds(k: int)
    requires
        k >= 1,
    ensures
        flog2(k) >= 0,
        pow2(flog2(k)) <= k < 2 * pow2(flog2(k)),
    decreases k,
{
    if k < 2 {
    } else {
        lemma_flog2_bounds(k / 2);
        lemma_fundamental_div_mod(k, 2);
        lemma_mod_division_less_than_divisor(k, 2);
    }
}

pub proof fn lemma_flog2_mono(k1: int, k2: int)
    requires
        1 <= k1 <= k2,
    ensures
        flog2(k1) <= flog2(k2),
{
    lemma_flog2_bounds(k1);
    lemma_flog2_bounds(k2);
    if flog2(k1) > flog2(k2) {
        lemma_pow2_mono(flog2(k2) + 1, flog2(k1));
        assert(pow2(flog2(k2) + 1) == 2 * pow2(flog2(k2)));
        assert(false);
    }
}

/// Truncated atanh series for the fractional part of the base-2 logarithm:
/// the argument is `z = 65536 * (t - 1) / (t + 1)` for a mantissa
/// `t in [1, 2)`, the result approximates `65536 * log2(t)`. The constants
/// are `1/3`, `1/5` and `2/ln(2)`, scaled by 65536.
pub open spec fn log2_frac(z: int) -> int {
    let w = z * z / 65536;
    let q = 21845 + w * 13107 / 65536;
    let p = 65536 + w * q / 65536;
    let u = z * p / 65536;
    u * 189113 / 65536
}

/// `65536 * log2(k)`, approximately, for k >= 2: the integer part is the
/// floor logarithm, the fraction comes from the series on the mantissa.
pub open spec fn log2_fp(k: int) -> int {
    let n = flog2(k);
    let t = k * 65536 / pow2(n);
    let z = (t - 65536) * 65536 / (t + 65536);
    n * 65536 + log2_frac(z)
}

/// Rank discount `65536 / log2(i + 2)` for the item at 0-based position `i`.
pub open spec fn disc_fp(i: int) -> int {
    4294967296int / log2_fp(i + 2)
}

pub proof fn lemma_log2_frac_bounds(z1: int, z2: int)
    requires
        0 <= z1 <= z2 <= 21845,
    ensures
        0 <= log2_frac(z1) <= log2_frac(z2) <= 65524,
{
    let wa = z1 * z1 / 65536;
    let wb = z2 * z2 / 65536;
    lemma_step_bound(z1, z1, z2, z2);
    lemma_step_bound(z2, z2, 21845, 21845);
    assert(0 <= wa <= wb <= 7281);
    let qa = 21845 + wa * 13107 / 65536;
    let qb = 21845 + wb * 13107 / 65536;
    lemma_step_bound(wa, 13107, wb, 13107);
    lemma_step_bound(wb, 13107, 7281, 13107);
    assert(0 <= qa <= qb <= 23301);
    let pa = 65536 + wa * qa / 65536;
    let pb = 65536 + wb * qb / 65536;
    lemma_step_bound(wa, qa, wb, qb);
    lemma_step_bound(wb, qb, 7281, 23301);
    assert(0 <= pa <= pb <= 68124);
    let ua = z1 * pa / 65536;
    let ub = z2 * pb / 65536;
    lemma_step_bound(z1, pa, z2, pb);
    lemma_step_bound(z2, pb, 21845, 68124);
    assert(0 <= ua <= ub <= 22707);
    lemma_step_bound(ua, 189113, ub, 189113);
    lemma_step_bound(ub, 189113, 22707, 189113);
}

/// Mantissa and series argument of `log2_fp`, with their ranges.
pub proof fn lemma_log2_parts(k: int)
    requires
        2 <= k,
    ensures
        1 <= flog2(k),
        65536 <= k * 65536 / pow2(flog2(k)) < 131072,
        ({
            let t = k * 65536 / pow2(flog2(k));
            0 <= (t - 65536) * 65536 / (t + 65536) <= 21845
        }),
        65536 <= log2_fp(k) <= flog2(k) * 65536 + 65524,
{
    let n = flog2(k);
    let t = k * 65536 / pow2(n);
    lemma_flog2_bounds(k);
    lemma_pow2_pos(n);
    assert(n >= 1);
    // lower bound on t
    assert(pow2(n) * 65536 <= k * 65536) by {
        mul_le(pow2(n), 65536, k, 65536);
    }
    lemma_div_is_ordered(pow2(n) * 65536, k * 65536, pow2(n));
    assert((pow2(n) * 65536) / pow2(n) == 65536) by {
        assert(pow2(n) * 65536 == 65536 * pow2(n)) by (nonlinear_arith);
        lemma_div_by_multiple(65536, pow2(n));
    }
    // upper bound on t
    assert(k * 65536 < pow2(n) * 131072) by (nonlinear_arith)
        requires
            k < 2 * pow2(n),
            pow2(n) >= 1,
    ;
    lemma_multiply_divide_lt(k * 65536, pow2(n), 131072);
    assert(k * 65536 >= 0) by {
        mul_le(0, 0, k, 65536);
    }
    vstd::arithmetic::div_mod::lemma_div_pos_is_pos(k * 65536, pow2(n));
    assert(65536 <= t < 131072);
    // range of z
    let z = (t - 65536) * 65536 / (t + 65536);
    assert((t - 65536) * 65536 >= 0) by {
        mul_le(0, 0, t - 65536, 65536);
    }
    vstd::arithmetic::div_mod::lemma_div_pos_is_pos((t - 65536) * 65536, t + 65536);
    assert((t - 65536) * 65536 < (t + 65536) * 21846) by (nonlinear_arith)
        requires
            65536 <= t < 131072,
    ;
    lemma_multiply_divide_lt((t - 65536) * 65536, t + 65536, 21846);
    assert(0 <= z <= 21845);
    lemma_log2_frac_bounds(z, 21845);
}

pub proof fn lemma_log2_mono(k1: int, k2: int)
    requires
        2 <= k1 <= k2,
    ensures
        log2_fp(k1) <= log2_fp(k2),
{
    let n1 = flog2(k1);
    let n2 = flog2(k2);
    let t1 = k1 * 65536 / pow2(n1);
    let t2 = k2 * 65536 / pow2(n2);
    let z1 = (t1 - 65536) * 65536 / (t1 + 65536);
    let z2 = (t2 - 65536) * 65536 / (t2 + 65536);
    lemma_log2_parts(k1);
    lemma_log2_parts(k2);
    lemma_flog2_mono(k1, k2);
    if n1 == n2 {
        lemma_pow2_pos(n1);
        assert(k1 * 65536 <= k2 * 65536) by {
            mul_le(k1, 65536, k2, 65536);
        }
        assert(k1 * 65536 >= 0) by {
            mul_le(0, 0, k1, 65536);
        }
        lemma_div_is_ordered(k1 * 65536, k2 * 65536, pow2(n1));
        assert(t1 <= t2);
        assert(((t1 - 65536) * 65536) * (t2 + 65536) <= ((t2 - 65536) * 65536) * (t1 + 65536))
            by (nonlinear_arith)
            requires
                65536 <= t1 <= t2,
        ;
        assert((t1 - 65536) * 65536 >= 0) by {
            mul_le(0, 0, t1 - 65536, 65536);
        }
        lemma_div_cross((t1 - 65536) * 65536, t1 + 65536, (t2 - 65536) * 65536, t2 + 65536);
        assert(z1 <= z2);
        lemma_log2_frac_bounds(z1, z2);
    } else {
        assert(n1 < n2);
        assert(n1 * 65536 + log2_frac(z1) <= n1 * 65536 + 65524);
        assert((n1 + 1) * 65536 <= n2 * 65536) by {
            mul_le(n1 + 1, 65536, n2, 65536);
        }
        assert(log2_frac(z2) >= 0);
    }
}

/// `log2_fixed(k)` is `65536 * log2(k)`, exact per `log2_fp`.
pub fn log2_fixed(k: u64) -> (res: u64)
    requires
        2 <= k <= 4294967298,
    ensures
        res == log2_fp(k as int),
        65536 <= res <= 2162676,
{
    proof {
        lemma_log2_parts(k as int);
        lemma_flog2_bounds(k as int);
        assert(pow2(33) == 8589934592) by {
            reveal_with_fuel(pow2, 34);
        }
        if flog2(k as int) >= 33 {
            lemma_pow2_mono(33, flog2(k as int));
            assert(false);
        }
    }
    let mut n: u64 = 0;
    let mut pw: u64 = 1;
    let mut m: u64 = k;
    while m >= 2
        invariant
            1 <= m,
            pw == pow2(n as int),
            pw <= k,
            m == k as int / pow2(n as int),
            flog2(k as int) == n + flog2(m as int),
            n <= 33,
            2 <= k <= 4294967298,
        decreases m,
    {
        proof {
            lemma_pow2_pos(n as int);
            lemma_fundamental_div_mod(k as int, pow2(n as int));
            lemma_mod_division_less_than_divisor(k as int, pow2(n as int));
            assert(k as int >= 2 * pow2(n as int)) by (nonlinear_arith)
                requires
                    k as int == pow2(n as int) * (m as int) + (k as int) % pow2(n as int),
                    m >= 2,
                    pow2(n as int) >= 1,
                    (k as int) % pow2(n as int) >= 0,
            ;
            vstd::arithmetic::div_mod::lemma_div_denominator(k as int, pow2(n as int), 2);
            if n + 1 > 33 {
                lemma_pow2_mono(34, n as int + 1);
                assert(pow2(34) == 17179869184) by {
                    reveal_with_fuel(pow2, 35);
                }
                assert(false);
            }
        }
        m = m / 2;
        n = n + 1;
        pw = pw * 2;
    }
    proof {
        assert(flog2(m as int) == 0);
        assert(n == flog2(k as int));
        assert(n <= 32);
    }
    let t: u64 = (k * 65536) / pw;
    let z: u64 = ((t - 65536) * 65536) / (t + 65536);
    proof {
        lemma_log2_frac_bounds(z as int, 21845);
        lemma_step_bound(z as int, z as int, 21845, 21845);
    }
    let w: u64 = z * z / 65536;
    proof {
        lemma_step_bound(w as int, 13107, 7281, 13107);
    }
    let q: u64 = 21845 + w * 13107 / 65536;
    proof {
        lemma_step_bound(w as int, q as int, 7281, 23301);
    }
    let p: u64 = 65536 + w * q / 65536;
    proof {
        lemma_step_bound(z as int, p as int, 21845, 68124);
    }
    let u: u64 = z * p / 65536;
    proof {
        lemma_step_bound(u as int, 189113, 22707, 189113);
    }
    let l: u64 = u * 189113 / 65536;
    assert(l == log2_frac(z as int));
    n * 65536 + l
}

/// `disc_fixed(i)` is the discount of rank `i + 1`, exact per `disc_fp`.
pub fn disc_fixed(i: u64) -> (res: u64)
    requires
        i <= 4294967296,
    ensures
        res == disc_fp(i as int),
        1 <= res <= 65536,
{
    let lg = log2_fixed(i + 2);
    proof {
        lemma_div_is_ordered_by_denominator(4294967296, 65536, lg as int);
        lemma_div_is_ordered_by_denominator(4294967296, lg as int, 2162676);
    }
    4294967296 / lg
}

/// The discount never increases with the rank.
pub proof fn lemma_disc_antitone(i1: int, i2: int)
    requires
        0 <= i1 <= i2,
    ensures
        disc_fp(i1) >= disc_fp(i2) >= 0,
        disc_fp(i1) <= 65536,
{
    lemma_log2_mono(i1 + 2, i2 + 2);
    lemma_log2_parts(i1 + 2);
    lemma_log2_parts(i2 + 2);
    lemma_div_is_ordered_by_denominator(4294967296, log2_fp(i1 + 2), log2_fp(i2 + 2));
    lemma_div_is_ordered_by_denominator(4294967296, 65536, log2_fp(i1 + 2));
    vstd::arithmetic::div_mod::lemma_div_pos_is_pos(4294967296, log2_fp(i2 + 2));
}

/// The discount of the first rank is exactly 1, and the discount is positive
/// at every position a sequence of admissible length can reach.
pub proof fn lemma_disc_low(i: int)
    requires
        0 <= i <= 4294967296,
    ensures
        disc_fp(i) >= 1,
        disc_fp(0) == 65536,
{
    lemma_log2_parts(i + 2);
    lemma_flog2_bounds(i + 2);
    assert(pow2(33) == 8589934592) by {
        reveal_with_fuel(pow2, 34);
    }
    if flog2(i + 2) >= 33 {
        lemma_pow2_mono(33, flog2(i + 2));
        assert(false);
    }
    assert(flog2(i + 2) * 65536 + 65524 <= 32 * 65536 + 65524) by {
        mul_le(flog2(i + 2), 65536, 32, 65536);
    }
    lemma_div_is_ordered_by_denominator(4294967296, log2_fp(i + 2), 2162676);
    assert(log2_fp(2) == 65536) by {
        assert(flog2(2) == 1) by {
            reveal_with_fuel(flog2, 3);
        }
        assert(pow2(1) == 2) by {
            reveal_with_fuel(pow2, 2);
        }
        assert(2 * 65536 / 2 == 65536);
        assert(log2_frac(0) == 0);
    }
}

} // verus!
