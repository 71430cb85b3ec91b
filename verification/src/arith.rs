//! Saturating and rounding arithmetic over the 128-bit stake domain, and the
//! fixed-point ratio approximation used for per-thing values.
//!
//! A ratio ("per-thing") is represented by its scaled integer part: a value
//! `parts` with `0 <= parts <= acc`, standing for the fraction `parts / acc`,
//! where `acc` is the positive accuracy (denominator) of the fixed-point type.

use vstd::prelude::*;

verus! {

/// Largest accuracy of any supported fixed-point ratio type (one quintillion,
/// the denominator of the finest per-thing in use).
pub const ACCURACY_MAX: u128 = 1_000_000_000_000_000_000;

/// Saturating addition on the stake domain.
pub open spec fn sat_add_spec(a: u128, b: u128) -> u128 {
    if a + b > u128::MAX {
        u128::MAX
    } else {
        (a + b) as u128
    }
}

/// Saturating multiplication on the stake domain.
pub open spec fn sat_mul_spec(a: u128, b: u128) -> u128 {
    if a * b > u128::MAX {
        u128::MAX
    } else {
        (a * b) as u128
    }
}

/// Saturating multiplication, executable form.
pub fn sat_mul(a: u128, b: u128) -> (r: u128)
    ensures
        r == sat_mul_spec(a, b),
{
    match a.checked_mul(b) {
        Some(v) => v,
        None => u128::MAX,
    }
}

/// `n / d` over the unbounded integers, rounded to the nearest integer with
/// ties rounded down.
pub open spec fn drn(n: int, d: int) -> int
    recommends
        n >= 0,
        d >= 1,
{
    if n % d > d / 2 {
        n / d + 1
    } else {
        n / d
    }
}

/// `n / d` rounded to the nearest integer, ties rounded down.
pub fn div_round_nearest(n: u128, d: u128) -> (r: u128)
    requires
        d >= 1,
    ensures
        r == drn(n as int, d as int),
{
    let q = n / d;
    let rem = n % d;
    if rem > d / 2 {
        proof {
            assert(q < u128::MAX) by (nonlinear_arith)
                requires
                    d >= 1,
                    q == n as int / d as int,
                    n as int % d as int > d as int / 2,
                    n <= u128::MAX,
            ;
        }
        q + 1
    } else {
        q
    }
}

/// The scaled integer part of the ratio approximation of `p / q` into a
/// fixed-point type of accuracy `acc`, clamped to `[0, 1]`: the denominator is
/// first reduced so that the final product fits the stake domain, then the
/// part is taken by rounding down.
pub open spec fn ratio_parts_spec(p: u128, q: u128, acc: u128) -> int
    recommends
        1 <= acc <= ACCURACY_MAX,
{
    let q1: int = if q >= 1 { q as int } else { 1 };
    let p1: int = if p as int <= q1 { p as int } else { q1 };
    let factor: int = if q1 / (acc as int) >= 1 { q1 / (acc as int) } else { 1 };
    let pr = p1 / factor;
    let qr = q1 / factor;
    (pr * acc) / qr
}

/// The ratio part is within the fixed-point range.
pub proof fn lemma_ratio_parts_bound(p: u128, q: u128, acc: u128)
    requires
        1 <= acc <= ACCURACY_MAX,
    ensures
        0 <= ratio_parts_spec(p, q, acc) <= acc,
{
    let q1: int = if q >= 1 { q as int } else { 1 };
    let p1: int = if p as int <= q1 { p as int } else { q1 };
    let factor: int = if q1 / (acc as int) >= 1 { q1 / (acc as int) } else { 1 };
    let pr = p1 / factor;
    let qr = q1 / factor;
    assert(qr >= 1 && pr <= qr && pr >= 0) by (nonlinear_arith)
        requires
            q1 >= 1,
            acc >= 1,
            0 <= p1 <= q1,
            factor == (if q1 / (acc as int) >= 1 { q1 / (acc as int) } else { 1 }),
            pr == p1 / factor,
            qr == q1 / factor,
    ;
    assert((pr * acc) / qr <= acc && (pr * acc) / qr >= 0) by (nonlinear_arith)
        requires
            qr >= 1,
            0 <= pr <= qr,
            acc >= 1,
    ;
}

/// A zero numerator always approximates to the zero ratio.
pub proof fn lemma_ratio_parts_zero(q: u128, acc: u128)
    requires
        1 <= acc <= ACCURACY_MAX,
    ensures
        ratio_parts_spec(0, q, acc) == 0,
{
    let q1: int = if q >= 1 { q as int } else { 1 };
    let factor: int = if q1 / (acc as int) >= 1 { q1 / (acc as int) } else { 1 };
    assert(factor >= 1 && q1 / factor >= 1 && 0int / factor == 0 && (0int * acc) / (q1 / factor)
        == 0) by (nonlinear_arith)
        requires
            q1 >= 1,
            acc >= 1,
            factor == (if q1 / (acc as int) >= 1 { q1 / (acc as int) } else { 1 }),
    ;
}

/// Approximate `p / q` as the scaled part of a ratio with accuracy `acc`.
pub fn ratio_parts(p: u128, q: u128, acc: u128) -> (r: u128)
    requires
        1 <= acc <= ACCURACY_MAX,
    ensures
        r == ratio_parts_spec(p, q, acc),
        r <= acc,
{
    let q1: u128 = if q >= 1 { q } else { 1 };
    let p1: u128 = if p <= q1 { p } else { q1 };
    let f0 = q1 / acc;
    let factor: u128 = if f0 >= 1 { f0 } else { 1 };
    let pr = p1 / factor;
    let qr = q1 / factor;
    proof {
        lemma_ratio_parts_bound(p, q, acc);
        assert(qr >= 1 && pr <= qr) by (nonlinear_arith)
            requires
                q1 >= 1,
                acc >= 1,
                p1 <= q1,
                factor == (if q1 as int / acc as int >= 1 { q1 as int / acc as int } else { 1 }),
                pr == p1 as int / factor as int,
                qr == q1 as int / factor as int,
        ;
        assert(qr < 2 * acc) by (nonlinear_arith)
            requires
                acc >= 1,
                q1 >= 1,
                factor == (if q1 as int / acc as int >= 1 { q1 as int / acc as int } else { 1 }),
                qr == q1 as int / factor as int,
        ;
        assert(pr * acc < 2 * acc * acc && 2 * acc * acc <= 2 * ACCURACY_MAX * ACCURACY_MAX
            && (pr as int * acc as int) / (qr as int) <= acc) by (nonlinear_arith)
            requires
                qr >= 1,
                pr <= qr,
                qr < 2 * acc,
                1 <= acc <= ACCURACY_MAX,
        ;
    }
    (pr * acc) / qr
}

/// `b` scaled by the ratio `parts / acc`, rounded to the nearest integer with
/// ties rounded down.
pub open spec fn mul_ratio_nearest_spec(parts: u128, b: u128, acc: u128) -> int
    recommends
        parts <= acc,
        1 <= acc <= ACCURACY_MAX,
{
    drn(parts as int * b as int, acc as int)
}

/// Multiply `b` by the ratio `parts / acc`, rounding to nearest (ties down).
pub fn mul_ratio_nearest(parts: u128, b: u128, acc: u128) -> (r: u128)
    requires
        parts <= acc,
        1 <= acc <= ACCURACY_MAX,
    ensures
        r == mul_ratio_nearest_spec(parts, b, acc),
        r <= b,
{
    let q = b / acc;
    let rem = b % acc;
    proof {
        assert(b == q * acc + rem && rem < acc && parts * q <= b as int - rem && rem * parts
            < acc * acc && acc * acc <= ACCURACY_MAX * ACCURACY_MAX) by (nonlinear_arith)
            requires
                1 <= acc <= ACCURACY_MAX,
                parts <= acc,
                q == b as int / acc as int,
                rem == b as int % acc as int,
        ;
    }
    let base = parts * q;
    let x = rem * parts;
    let extra = div_round_nearest(x, acc);
    proof {
        assert(parts * b == base * acc + x) by (nonlinear_arith)
            requires
                b == q * acc + rem,
                base == parts * q,
                x == rem * parts,
        ;
        vstd::arithmetic::div_mod::lemma_hoist_over_denominator(x as int, base as int, acc as nat);
        vstd::arithmetic::div_mod::lemma_mod_multiples_vanish(base as int, x as int, acc as int);
        assert((base * acc + x) / (acc as int) == base + x as int / acc as int);
        assert((base * acc + x) % (acc as int) == x as int % acc as int);
        assert(extra <= rem) by (nonlinear_arith)
            requires
                1 <= acc,
                parts <= acc,
                rem < acc,
                x == rem * parts,
                extra == drn(x as int, acc as int),
                extra == (if x as int % acc as int > acc as int / 2 {
                    x as int / acc as int + 1
                } else {
                    x as int / acc as int
                }),
        ;
    }
    base + extra
}

/// `b` scaled by the ratio `parts / acc`, rounded up.
pub open spec fn mul_ratio_ceil_spec(parts: u128, b: u128, acc: u128) -> int
    recommends
        parts <= acc,
        1 <= acc <= ACCURACY_MAX,
{
    let t = parts as int * b as int;
    if t % (acc as int) > 0 {
        t / (acc as int) + 1
    } else {
        t / (acc as int)
    }
}

/// Multiply `b` by the ratio `parts / acc`, rounding up.
pub fn mul_ratio_ceil(parts: u128, b: u128, acc: u128) -> (r: u128)
    requires
        parts <= acc,
        1 <= acc <= ACCURACY_MAX,
    ensures
        r == mul_ratio_ceil_spec(parts, b, acc),
        r <= b,
{
    let q = b / acc;
    let rem = b % acc;
    proof {
        assert(b == q * acc + rem && rem < acc && parts * q <= b as int - rem && rem * parts
            < acc * acc && acc * acc <= ACCURACY_MAX * ACCURACY_MAX) by (nonlinear_arith)
            requires
                1 <= acc <= ACCURACY_MAX,
                parts <= acc,
                q == b as int / acc as int,
                rem == b as int % acc as int,
        ;
    }
    let base = parts * q;
    let x = rem * parts;
    let xq = x / acc;
    let xr = x % acc;
    proof {
        assert(xq < u128::MAX) by (nonlinear_arith)
            requires
                acc >= 1,
                xq == x as int / acc as int,
                x < u128::MAX,
        ;
    }
    let extra: u128 = if xr > 0 {
        xq + 1
    } else {
        xq
    };
    proof {
        assert(parts * b == base * acc + x) by (nonlinear_arith)
            requires
                b == q * acc + rem,
                base == parts * q,
                x == rem * parts,
        ;
        vstd::arithmetic::div_mod::lemma_hoist_over_denominator(x as int, base as int, acc as nat);
        vstd::arithmetic::div_mod::lemma_mod_multiples_vanish(base as int, x as int, acc as int);
        assert((base * acc + x) / (acc as int) == base + x as int / acc as int);
        assert((base * acc + x) % (acc as int) == x as int % acc as int);
        assert(extra <= rem) by (nonlinear_arith)
            requires
                1 <= acc,
                parts <= acc,
                rem < acc,
                x == rem * parts,
                extra == (if x as int % acc as int > 0 {
                    x as int / acc as int + 1
                } else {
                    x as int / acc as int
                }),
        ;
    }
    base + extra
}

} // verus!
