//! Fixed-point arithmetic.
//!
//! Every real-valued quantity of the classifier (model weights, instance
//! weights, error rates, the convergence threshold) is held as an integer
//! number of units of `1 / SCALE`, so `SCALE` itself stands for 1.0.
//! The natural logarithm and the exponential are computed by truncated
//! series whose every step is integer arithmetic; the spec functions here
//! state those computations exactly, and the executable functions are
//! proved to return exactly the specified values.

use vstd::prelude::*;

verus! {

/// One whole unit: the fixed-point representation of 1.0.
pub const SCALE: i64 = 1_000_000_000_000;

/// ln 2 in fixed-point units, rounded to the nearest unit.
pub const LN2: i64 = 693_147_180_560;

/// Largest magnitude accepted by `exp_fixed` before saturating.
pub const EXP_ARG_LIM: i64 = 14_000_000_000_000;

/// Cap on the result of `exp_fixed`.
pub const EXP_CAP: i64 = 2_000_000_000_000_000_000;

/// Number of series terms beyond the first used for the logarithm.
pub const LN_TERMS: i64 = 12;

/// Number of series terms beyond the first used for the exponential.
pub const EXP_TERMS: i64 = 14;

/// Tail of the arc-tangent-hyperbolic series: the sum, for k from `k0` to
/// `LN_TERMS`, of `t_k / (2 k + 1)`, where `t_k` is obtained from the
/// previous term by one fixed-point multiplication with `z2`.
pub open spec fn ln_series_tail(z2: int, t: int, k: int) -> int
    decreases LN_TERMS + 1 - k,
{
    if k > LN_TERMS {
        0
    } else {
        let t2 = t * z2 / (SCALE as int);
        t2 / (2 * k + 1) + ln_series_tail(z2, t2, k + 1)
    }
}

/// Fixed-point ln of `m / SCALE` for `m` between `SCALE` and `2 * SCALE`:
/// `2 * atanh(z)` with `z = (m - SCALE) / (m + SCALE)`, by series.
pub open spec fn spec_ln_norm(m: int) -> int {
    let z = (m - SCALE) * (SCALE as int) / (m + SCALE);
    let z2 = z * z / (SCALE as int);
    2 * (z + ln_series_tail(z2, z, 1))
}

/// Fixed-point ln of `x / SCALE` for `x` between 1 and `SCALE`: the
/// argument is doubled until it reaches a whole unit, and each doubling
/// subtracts ln 2.
pub open spec fn spec_ln_frac(x: int) -> int
    decreases 2 * SCALE - x,
{
    if x <= 0 {
        0
    } else if x >= SCALE {
        spec_ln_norm(x)
    } else {
        spec_ln_frac(2 * x) - LN2
    }
}

/// Fixed-point `0.5 * ln(a / b)` for `a`, `b` between 1 and `SCALE`,
/// with the final halving truncated toward zero.
pub open spec fn spec_half_ln_ratio(a: int, b: int) -> int {
    let d = spec_ln_frac(a) - spec_ln_frac(b);
    if d >= 0 {
        d / 2
    } else {
        -((-d) / 2)
    }
}

/// Tail of the Taylor series of the exponential: terms `k0` to
/// `EXP_TERMS`, where each term is the previous one multiplied by `r` and
/// divided by its index.
pub open spec fn exp_series_tail(r: int, t: int, k: int) -> int
    decreases EXP_TERMS + 1 - k,
{
    if k > EXP_TERMS {
        0
    } else {
        let t2 = t * r / (SCALE as int) / k;
        t2 + exp_series_tail(r, t2, k + 1)
    }
}

/// Fixed-point exp of `r / SCALE` for `r` between 0 and `LN2`.
pub open spec fn spec_exp_norm(r: int) -> int {
    SCALE + exp_series_tail(r, SCALE as int, 1)
}

/// `v` doubled `q` times, saturating at `EXP_CAP`.
pub open spec fn shift_up(v: int, q: int) -> int
    decreases q,
{
    if q <= 0 {
        v
    } else if 2 * v > EXP_CAP {
        EXP_CAP as int
    } else {
        shift_up(2 * v, q - 1)
    }
}

/// `v` halved `q` times, truncating at each step.
pub open spec fn shift_down(v: int, q: int) -> int
    decreases q,
{
    if q <= 0 {
        v
    } else {
        shift_down(v / 2, q - 1)
    }
}

/// Fixed-point exponential: `SCALE * e^(x / SCALE)`, computed from the
/// argument clamped into `[-EXP_ARG_LIM, EXP_ARG_LIM]`, split as
/// `q * ln 2 + r`, with the series applied to `r` and the result shifted
/// by `q` binary places.  The result is at least 1 and at most `EXP_CAP`.
pub open spec fn spec_exp_fixed(x: int) -> int {
    let xc = if x < -EXP_ARG_LIM {
        -EXP_ARG_LIM as int
    } else if x > EXP_ARG_LIM {
        EXP_ARG_LIM as int
    } else {
        x
    };
    let q = xc / (LN2 as int);
    let r = xc % (LN2 as int);
    let base = spec_exp_norm(r);
    let v = if q >= 0 {
        shift_up(base, q)
    } else {
        shift_down(base, -q)
    };
    if v < 1 {
        1
    } else {
        v
    }
}

/// The series tail is nonnegative and bounded whenever its state is.
pub proof fn lemma_ln_tail_bounds(z2: int, t: int, k: int)
    requires
        0 <= z2 <= SCALE,
        0 <= t <= SCALE,
        1 <= k <= LN_TERMS + 1,
    ensures
        0 <= ln_series_tail(z2, t, k) <= (LN_TERMS + 1 - k) * SCALE as int,
    decreases LN_TERMS + 1 - k,
{
    if k > LN_TERMS {
    } else {
        let t2 = t * z2 / (SCALE as int);
        assert(0 <= t2 <= SCALE) by {
            assert(0 <= t * z2 <= SCALE as int * SCALE as int) by (nonlinear_arith)
                requires 0 <= z2 <= SCALE && 0 <= t <= SCALE;
            vstd::arithmetic::div_mod::lemma_div_is_ordered(t * z2,
                SCALE as int * SCALE as int, SCALE as int);
            vstd::arithmetic::div_mod::lemma_div_multiples_vanish(SCALE as int, SCALE as int);
            vstd::arithmetic::div_mod::lemma_div_pos_is_pos(t * z2, SCALE as int);
        }
        assert(0 <= t2 / (2 * k + 1) <= t2) by {
            vstd::arithmetic::div_mod::lemma_div_is_ordered_by_denominator(t2, 1, 2 * k + 1);
            vstd::arithmetic::div_mod::lemma_div_pos_is_pos(t2, 2 * k + 1);
        }
        lemma_ln_tail_bounds(z2, t2, k + 1);
    }
}

/// The normalized logarithm is nonnegative and bounded for arguments in
/// its window.
pub proof fn lemma_ln_norm_bounds(m: int)
    requires
        SCALE <= m <= 2 * SCALE,
    ensures
        0 <= spec_ln_norm(m) <= 2 * (LN_TERMS + 1) * SCALE as int,
{
    let z = (m - SCALE) * (SCALE as int) / (m + SCALE);
    assert(0 <= z <= SCALE) by {
        assert((m - SCALE) * (SCALE as int) >= 0) by (nonlinear_arith)
            requires m >= SCALE;
        assert((m - SCALE) * (SCALE as int) <= (m + SCALE) * (SCALE as int)) by (nonlinear_arith)
            requires m >= SCALE && SCALE > 0;
        vstd::arithmetic::div_mod::lemma_div_is_ordered((m - SCALE) * (SCALE as int),
            (m + SCALE) * (SCALE as int), m + SCALE);
        vstd::arithmetic::div_mod::lemma_div_multiples_vanish(SCALE as int, m + SCALE);
        assert((m + SCALE) * (SCALE as int) == (SCALE as int) * (m + SCALE)) by (nonlinear_arith);
    }
    let z2 = z * z / (SCALE as int);
    assert(0 <= z2 <= SCALE) by {
        assert(0 <= z * z <= SCALE as int * SCALE as int) by (nonlinear_arith)
            requires 0 <= z <= SCALE;
    }
    lemma_ln_tail_bounds(z2, z, 1);
}

/// Fixed-point ln of `m / SCALE` for `m` in `[SCALE, 2 * SCALE]`.
fn ln_norm(m: i64) -> (r: i64)
    requires
        SCALE <= m <= 2 * SCALE,
    ensures
        r == spec_ln_norm(m as int),
        0 <= r <= 2 * (LN_TERMS + 1) * SCALE,
{
    proof {
        lemma_ln_norm_bounds(m as int);
    }
    let zq: i128 = ((m - SCALE) as i128 * SCALE as i128) / (m + SCALE) as i128;
    proof {
        assert(0 <= zq <= SCALE) by {
            assert((m - SCALE) as i128 * SCALE as i128 >= 0) by (nonlinear_arith)
                requires m >= SCALE;
            assert((m - SCALE) * (SCALE as int) <= (m as int + SCALE) * (SCALE as int))
                by (nonlinear_arith)
                requires SCALE <= m as int <= 2 * SCALE;
            vstd::arithmetic::div_mod::lemma_div_is_ordered((m - SCALE) * (SCALE as int),
                (m as int + SCALE) * (SCALE as int), m as int + SCALE);
            assert((m as int + SCALE) * (SCALE as int) == (m as int + SCALE) * (SCALE as int));
            vstd::arithmetic::div_mod::lemma_div_multiples_vanish(SCALE as int,
                m as int + SCALE);
            assert((m as int + SCALE) * (SCALE as int) / (m as int + SCALE) == SCALE as int);
            vstd::arithmetic::div_mod::lemma_div_pos_is_pos((m - SCALE) * (SCALE as int),
                m as int + SCALE);
        }
    }
    let z: i64 = zq as i64;
    proof {
        assert(z == zq);
        assert(0 <= z <= SCALE);
        assert(z as i128 * z as i128 <= SCALE as i128 * SCALE as i128) by (nonlinear_arith)
            requires 0 <= z <= SCALE;
    }
    let z2q: i128 = (z as i128 * z as i128) / SCALE as i128;
    proof {
        assert(0 <= z * z <= SCALE as int * SCALE as int) by (nonlinear_arith)
            requires 0 <= z <= SCALE;
        assert(0 <= z2q <= SCALE) by {
            vstd::arithmetic::div_mod::lemma_div_is_ordered(z * z,
                SCALE as int * SCALE as int, SCALE as int);
            vstd::arithmetic::div_mod::lemma_div_multiples_vanish(SCALE as int, SCALE as int);
            vstd::arithmetic::div_mod::lemma_div_pos_is_pos(z * z, SCALE as int);
        }
    }
    let z2: i64 = z2q as i64;
    proof {
        assert(z2 == z * z / (SCALE as int));
    }
    let mut t: i64 = z;
    let mut acc: i64 = z;
    let mut k: i64 = 1;
    while k <= LN_TERMS
        invariant
            0 <= z2 <= SCALE,
            0 <= t <= SCALE,
            1 <= k <= LN_TERMS + 1,
            0 <= acc <= k * SCALE,
            acc + ln_series_tail(z2 as int, t as int, k as int) == z
                + ln_series_tail(z2 as int, z as int, 1),
            0 <= z <= SCALE,
        decreases LN_TERMS + 1 - k,
    {
        proof {
            assert(0 <= t * z2 <= SCALE as int * SCALE as int) by (nonlinear_arith)
                requires 0 <= t <= SCALE && 0 <= z2 <= SCALE;
            vstd::arithmetic::div_mod::lemma_div_is_ordered(t * z2,
                SCALE as int * SCALE as int, SCALE as int);
            vstd::arithmetic::div_mod::lemma_div_multiples_vanish(SCALE as int, SCALE as int);
            vstd::arithmetic::div_mod::lemma_div_pos_is_pos(t * z2, SCALE as int);
        }
        let t2: i64 = ((t as i128 * z2 as i128) / SCALE as i128) as i64;
        proof {
            assert(t2 == t * z2 / (SCALE as int));
            assert(0 <= (t2 as int) / (2 * (k as int) + 1) <= t2 as int) by {
                vstd::arithmetic::div_mod::lemma_div_is_ordered_by_denominator(t2 as int, 1,
                    2 * (k as int) + 1);
                vstd::arithmetic::div_mod::lemma_div_pos_is_pos(t2 as int, 2 * (k as int) + 1);
            }
        }
        acc = acc + t2 / (2 * k + 1);
        t = t2;
        k = k + 1;
    }
    proof {
        lemma_ln_tail_bounds(z2 as int, t as int, k as int);
    }
    2 * acc
}

/// Fixed-point ln of `x / SCALE` for `x` in `[1, SCALE]`; the result is
/// never positive beyond the window bound and never more negative than 41
/// units of ln 2 below it.
fn ln_frac(x: i64) -> (r: i64)
    requires
        1 <= x <= SCALE,
    ensures
        r == spec_ln_frac(x as int),
        -41 * LN2 <= r <= 2 * (LN_TERMS + 1) * SCALE,
{
    let mut m: i64 = x;
    let mut j: i64 = 0;
    proof {
        vstd::arithmetic::power2::lemma2_to64();
    }
    while m < SCALE
        invariant
            1 <= m <= 2 * SCALE,
            0 <= j <= 40,
            spec_ln_frac(x as int) == spec_ln_frac(m as int) - j * LN2,
            m >= vstd::arithmetic::power2::pow2(j as nat),
        decreases 2 * SCALE - m,
    {
        proof {
            vstd::arithmetic::power2::lemma2_to64_rest();
            // 2^40 already exceeds SCALE, so j stays below 40 here.
            if j >= 40 {
                assert(false);
            }
            vstd::arithmetic::power2::lemma_pow2_unfold((j + 1) as nat);
        }
        m = m * 2;
        j = j + 1;
    }
    let base = ln_norm(m);
    base - j * LN2
}

/// Fixed-point `0.5 * ln(a / b)` for `a`, `b` in `[1, SCALE - 1]`.
pub fn half_ln_ratio(a: i64, b: i64) -> (r: i64)
    requires
        1 <= a < SCALE,
        1 <= b < SCALE,
    ensures
        r == spec_half_ln_ratio(a as int, b as int),
        -30 * SCALE <= r <= 30 * SCALE,
{
    let la = ln_frac(a);
    let lb = ln_frac(b);
    let d = la - lb;
    if d >= 0 {
        d / 2
    } else {
        -((-d) / 2)
    }
}

/// Fixed-point exponential of `x / SCALE`, saturating as described at
/// `spec_exp_fixed`.
pub fn exp_fixed(x: i128) -> (r: i64)
    ensures
        r == spec_exp_fixed(x as int),
        1 <= r <= EXP_CAP,
{
    let xc: i64 = if x < -EXP_ARG_LIM as i128 {
        -EXP_ARG_LIM
    } else if x > EXP_ARG_LIM as i128 {
        EXP_ARG_LIM
    } else {
        x as i64
    };
    // Split xc = q * LN2 + r0 with 0 <= r0 < LN2, working on nonnegative
    // operands only.
    let q: i64;
    let r0: i64;
    if xc >= 0 {
        q = xc / LN2;
        r0 = xc % LN2;
    } else {
        let y = -xc;
        let qy = y / LN2;
        let ry = y % LN2;
        if ry == 0 {
            q = -qy;
            r0 = 0;
        } else {
            q = -qy - 1;
            r0 = LN2 - ry;
        }
        proof {
            vstd::arithmetic::div_mod::lemma_fundamental_div_mod_converse(xc as int, LN2 as int,
                q as int, r0 as int);
        }
    }
    proof {
        assert(q == xc as int / LN2 as int);
        assert(r0 == xc as int % LN2 as int);
        assert(-21 <= q <= 21);
    }
    // Taylor series for exp(r0 / SCALE).
    let mut t: i64 = SCALE;
    let mut sum: i64 = SCALE;
    let mut k: i64 = 1;
    while k <= EXP_TERMS
        invariant
            0 <= r0 < LN2,
            0 <= t <= SCALE,
            1 <= k <= EXP_TERMS + 1,
            SCALE <= sum <= k * SCALE,
            sum + exp_series_tail(r0 as int, t as int, k as int) == SCALE
                + exp_series_tail(r0 as int, SCALE as int, 1),
        decreases EXP_TERMS + 1 - k,
    {
        proof {
            assert(0 <= t * r0 <= SCALE as int * SCALE as int) by (nonlinear_arith)
                requires 0 <= t <= SCALE && 0 <= r0 <= SCALE;
            vstd::arithmetic::div_mod::lemma_div_is_ordered(t * r0,
                SCALE as int * SCALE as int, SCALE as int);
            vstd::arithmetic::div_mod::lemma_div_multiples_vanish(SCALE as int, SCALE as int);
            vstd::arithmetic::div_mod::lemma_div_pos_is_pos(t * r0, SCALE as int);
        }
        let tm: i64 = ((t as i128 * r0 as i128) / SCALE as i128) as i64;
        proof {
            vstd::arithmetic::div_mod::lemma_div_is_ordered(tm as int, SCALE as int, k as int);
            vstd::arithmetic::div_mod::lemma_div_pos_is_pos(tm as int, k as int);
            assert(SCALE as int / k as int <= SCALE);
        }
        let t2: i64 = tm / k;
        sum = sum + t2;
        t = t2;
        k = k + 1;
    }
    proof {
        lemma_exp_tail_bounds(r0 as int, t as int, k as int);
        assert(spec_exp_norm(r0 as int) == sum);
    }
    // Shift by q binary places, saturating at EXP_CAP.
    let mut v: i64 = sum;
    if q >= 0 {
        let mut i: i64 = 0;
        while i < q
            invariant
                0 <= i <= q,
                1 <= v <= EXP_CAP,
                shift_up(v as int, (q - i) as int) == shift_up(sum as int, q as int),
            decreases q - i,
        {
            if 2 * v > EXP_CAP {
                v = EXP_CAP;
            } else {
                v = 2 * v;
            }
            i = i + 1;
        }
    } else {
        let mut i: i64 = 0;
        let qn = -q;
        while i < qn
            invariant
                0 <= i <= qn,
                0 <= v <= EXP_CAP,
                shift_down(v as int, (qn - i) as int) == shift_down(sum as int, qn as int),
            decreases qn - i,
        {
            v = v / 2;
            i = i + 1;
        }
    }
    if v < 1 {
        1
    } else {
        v
    }
}

/// The exponential series tail is nonnegative and bounded whenever its
/// state is.
pub proof fn lemma_exp_tail_bounds(r: int, t: int, k: int)
    requires
        0 <= r <= SCALE,
        0 <= t <= SCALE,
        1 <= k <= EXP_TERMS + 1,
    ensures
        0 <= exp_series_tail(r, t, k) <= (EXP_TERMS + 1 - k) * (SCALE as int),
    decreases EXP_TERMS + 1 - k,
{
    if k > EXP_TERMS {
    } else {
        let tm = t * r / (SCALE as int);
        let t2 = tm / k;
        assert(0 <= tm <= SCALE) by {
            assert(0 <= t * r <= SCALE as int * SCALE as int) by (nonlinear_arith)
                requires 0 <= t <= SCALE && 0 <= r <= SCALE;
            vstd::arithmetic::div_mod::lemma_div_is_ordered(t * r,
                SCALE as int * SCALE as int, SCALE as int);
            vstd::arithmetic::div_mod::lemma_div_multiples_vanish(SCALE as int, SCALE as int);
            vstd::arithmetic::div_mod::lemma_div_pos_is_pos(t * r, SCALE as int);
        }
        assert(0 <= t2 <= SCALE) by {
            vstd::arithmetic::div_mod::lemma_div_is_ordered(tm, SCALE as int, k);
            vstd::arithmetic::div_mod::lemma_div_pos_is_pos(tm, k);
        }
        lemma_exp_tail_bounds(r, t2, k + 1);
    }
}

} // verus!
