//! Fixed-point arithmetic kernel.
//!
//! Every quantity in this crate (liquidity, shares, collateral, costs and
//! prices) is a signed count of units of `1 / SCALE`, so the resolution is
//! one nanounit.  The exponential and logarithm needed by the market scoring
//! rule are computed here on such counts, in plain integer arithmetic, and
//! verified against spec-level definitions of the same approximations.
use vstd::prelude::*;
use vstd::arithmetic::div_mod::*;
use vstd::arithmetic::power2::*;
use vstd::arithmetic::mul::*;

verus! {

/// Number of fixed-point units that represent the real value one.
pub const SCALE: i64 = 1_000_000_000;

/// The finer scale used inside the kernel: `SCALE * SCALE` grains per one.
pub const GRAIN: u128 = 1_000_000_000_000_000_000;

/// `ln(2)` expressed in grains, rounded to the nearest grain.
pub const LN2_GRAIN: u128 = 693_147_180_559_945_309;

/// Arguments of `exp_fixed` below this underflow to zero at unit resolution,
/// so the exponential is only defined down to here (`-44 * SCALE`).
pub const EXP_ARG_MIN: i64 = -44_000_000_000;

/// Floor division of `a` by a positive `d`, i.e. Euclidean division.
pub fn div_floor(a: i128, d: i128) -> (r: i128)
    requires
        1 <= d <= 0x1_0000_0000_0000_0000,
        a > i128::MIN,
    ensures
        r == a as int / d as int,
{
    if a >= 0 {
        let q: u128 = (a as u128) / (d as u128);
        proof {
            lemma_div_nonincreasing(a as int, d as int);
            lemma_div_pos_is_pos(a as int, d as int);
        }
        q as i128
    } else {
        let n: u128 = (-a) as u128;
        let du: u128 = d as u128;
        let q: u128 = (n + du - 1) / du;
        proof {
            let ai = a as int;
            let di = d as int;
            let ni = n as int;
            let qe = ai / di;
            let re = ai % di;
            lemma_fundamental_div_mod(ai, di);
            lemma_mod_bound(ai, di);
            assert(di * (-qe) == -(di * qe)) by (nonlinear_arith);
            assert(ni + di - 1 == di * (-qe) + (di - 1 - re));
            lemma_div_multiples_vanish_fancy(-qe, di - 1 - re, di);
            assert(q == -qe);
            assert(qe <= 0) by {
                lemma_div_is_ordered(ai, 0, di);
                lemma_div_of0(di);
            }
            assert(ni + di - 1 <= di * ni) by (nonlinear_arith)
                requires
                    ni >= 1,
                    di >= 1,
            ;
            lemma_multiply_divide_le(ni + di - 1, di, ni);
        }
        -(q as i128)
    }
}

/// Number of Taylor terms used for the exponential series.
pub const EXP_TERMS: usize = 24;

/// Term `j` of the Taylor series of `e^(rho / GRAIN)` at grain scale,
/// with every division floored exactly as the executable code computes it.
pub open spec fn exp_term(rho: int, j: nat) -> int
    decreases j,
{
    if j == 0 {
        GRAIN as int
    } else {
        exp_term(rho, (j - 1) as nat) * rho / (GRAIN as int * j)
    }
}

/// Partial sum of the series through term `j`.
pub open spec fn exp_psum(rho: int, j: nat) -> int
    decreases j,
{
    if j == 0 {
        GRAIN as int
    } else {
        exp_psum(rho, (j - 1) as nat) + exp_term(rho, j)
    }
}

/// `e^(x / SCALE)` in units of `1 / SCALE`, for `EXP_ARG_MIN <= x <= 0`:
/// `-x` is split as `k * ln 2 + rho` with `0 <= rho < ln 2`, the series gives
/// `e^rho`, and the result is `1 / (2^k * e^rho)` brought back to unit scale.
pub open spec fn spec_exp_fixed(x: int) -> int {
    let xg = -x * SCALE as int;
    let k = xg / LN2_GRAIN as int;
    let rho = xg % LN2_GRAIN as int;
    let e = exp_psum(rho, EXP_TERMS as nat);
    let pre = GRAIN as int * GRAIN as int / e;
    pre / (SCALE as int * pow2(k as nat) as int)
}

proof fn lemma_exp_series_zero(j: nat)
    ensures
        exp_term(0, j) == if j == 0 {
            GRAIN as int
        } else {
            0
        },
        exp_psum(0, j) == GRAIN as int,
    decreases j,
{
    if j > 0 {
        lemma_exp_series_zero((j - 1) as nat);
        lemma_div_of0(GRAIN as int * j);
    }
}

/// Bounds of the series: every term lies in `[0, GRAIN]` and the partial
/// sums lie in `[GRAIN, (j + 1) * GRAIN]`.
pub proof fn lemma_exp_series_bounds(rho: int, j: nat)
    requires
        0 <= rho <= GRAIN,
    ensures
        0 <= exp_term(rho, j) <= GRAIN,
        GRAIN <= exp_psum(rho, j) <= (j + 1) * (GRAIN as int),
    decreases j,
{
    if j > 0 {
        lemma_exp_series_bounds(rho, (j - 1) as nat);
        let tp = exp_term(rho, (j - 1) as nat);
        lemma_mul_nonnegative(tp, rho);
        assert(tp * rho <= GRAIN as int * (GRAIN as int * j)) by (nonlinear_arith)
            requires
                0 <= tp <= GRAIN,
                0 <= rho <= GRAIN,
                1 <= j,
        ;
        lemma_multiply_divide_le(tp * rho, GRAIN as int * j, GRAIN as int);
        lemma_div_pos_is_pos(tp * rho, GRAIN as int * j);
    }
}

/// Spec-level range of the fixed-point exponential: it lies in `[0, SCALE]`
/// on its whole domain, and `e^0` is exactly one.
pub proof fn lemma_exp_fixed_bounds(x: int)
    requires
        EXP_ARG_MIN <= x <= 0,
    ensures
        0 <= spec_exp_fixed(x) <= SCALE,
        x == 0 ==> spec_exp_fixed(x) == SCALE,
{
    let xg = -x * SCALE as int;
    let k = xg / LN2_GRAIN as int;
    let rho = xg % LN2_GRAIN as int;
    lemma_mul_nonnegative(-x, SCALE as int);
    assert(xg < 64 * LN2_GRAIN);
    lemma_multiply_divide_lt(xg, LN2_GRAIN as int, 64);
    lemma_div_pos_is_pos(xg, LN2_GRAIN as int);
    lemma_mod_bound(xg, LN2_GRAIN as int);
    lemma_exp_series_bounds(rho, EXP_TERMS as nat);
    let e = exp_psum(rho, EXP_TERMS as nat);
    let gg = GRAIN as int * GRAIN as int;
    let pre = gg / e;
    lemma_div_is_ordered_by_denominator(gg, GRAIN as int, e);
    lemma_div_multiples_vanish(GRAIN as int, GRAIN as int);
    lemma_div_pos_is_pos(gg, e);
    let den = SCALE as int * pow2(k as nat) as int;
    lemma_pow2_pos(k as nat);
    assert(den >= SCALE) by (nonlinear_arith)
        requires
            den == SCALE as int * pow2(k as nat) as int,
            pow2(k as nat) >= 1,
            SCALE >= 1,
    ;
    lemma_div_is_ordered_by_denominator(pre, SCALE as int, den);
    lemma_div_is_ordered(pre, GRAIN as int, SCALE as int);
    assert(GRAIN as int == SCALE as int * SCALE as int);
    lemma_div_multiples_vanish(SCALE as int, SCALE as int);
    lemma_div_pos_is_pos(pre, den);
    if x == 0 {
        assert(pow2(0) == 1) by {
            vstd::arithmetic::power::lemma_pow0(2);
            vstd::arithmetic::power2::lemma_pow2(0);
        }
        lemma_div_of0(LN2_GRAIN as int);
        lemma_small_mod(0, LN2_GRAIN as nat);
        lemma_exp_series_zero(EXP_TERMS as nat);
    }
}

/// The exponential on fixed-point arguments in `[EXP_ARG_MIN, 0]`.
pub fn exp_fixed(x: i64) -> (r: i64)
    requires
        EXP_ARG_MIN <= x <= 0,
    ensures
        r == spec_exp_fixed(x as int),
        0 <= r <= SCALE,
        x == 0 ==> r == SCALE,
{
    let nx: u128 = (-x) as u128;
    proof {
        lemma_mul_upper_bound(nx as int, 44_000_000_000, SCALE as int, SCALE as int);
    }
    let xg: u128 = nx * (SCALE as u128);
    let k: u128 = xg / LN2_GRAIN;
    let rho: u128 = xg % LN2_GRAIN;
    proof {
        assert(xg < 64 * LN2_GRAIN);
        lemma_multiply_divide_lt(xg as int, LN2_GRAIN as int, 64);
        lemma_mod_bound(xg as int, LN2_GRAIN as int);
    }
    let mut term: u128 = GRAIN;
    let mut sum: u128 = GRAIN;
    let mut j: usize = 1;
    while j <= EXP_TERMS
        invariant
            1 <= j <= EXP_TERMS + 1,
            rho < LN2_GRAIN,
            term == exp_term(rho as int, (j - 1) as nat),
            sum == exp_psum(rho as int, (j - 1) as nat),
            term <= GRAIN,
            GRAIN <= sum <= GRAIN + (j - 1) * (GRAIN as int),
        decreases EXP_TERMS + 1 - j,
    {
        proof {
            lemma_mul_upper_bound(term as int, GRAIN as int, rho as int, GRAIN as int);
            assert(term * rho <= GRAIN * (GRAIN as int * (j as int))) by (nonlinear_arith)
                requires
                    term <= GRAIN,
                    0 <= rho,
                    rho <= GRAIN as int * (j as int),
                    0 <= term,
                    1 <= j,
            ;
            lemma_multiply_divide_le(
                term as int * rho as int,
                GRAIN as int * (j as int),
                GRAIN as int,
            );
            lemma_div_pos_is_pos(term as int * rho as int, GRAIN as int * (j as int));
        }
        term = (term * rho) / (GRAIN * (j as u128));
        sum = sum + term;
        j += 1;
    }
    let gg: u128 = GRAIN * GRAIN;
    let pre: u128 = gg / sum;
    proof {
        lemma_div_is_ordered_by_denominator(gg as int, GRAIN as int, sum as int);
        lemma_div_multiples_vanish(GRAIN as int, GRAIN as int);
        assert(pre <= GRAIN);
    }
    let mut denom: u128 = SCALE as u128;
    let mut i: u128 = 0;
    proof {
        assert(pow2(0) == 1) by {
            vstd::arithmetic::power::lemma_pow0(2);
            vstd::arithmetic::power2::lemma_pow2(0);
        }
        lemma2_to64();
        lemma2_to64_rest();
    }
    while i < k
        invariant
            0 <= i <= k,
            k <= 63,
            denom == SCALE as int * pow2(i as nat) as int,
            denom <= SCALE as int * pow2(63) as int,
        decreases k - i,
    {
        proof {
            lemma_pow2_unfold((i + 1) as nat);
            assert(SCALE as int * pow2((i + 1) as nat) as int == 2 * (SCALE as int * pow2(
                i as nat,
            ) as int)) by (nonlinear_arith)
                requires
                    pow2((i + 1) as nat) == 2 * pow2(i as nat),
            ;
            lemma2_to64();
            lemma2_to64_rest();
            if i as nat + 1 < 63 {
                lemma_pow2_strictly_increases(i as nat + 1, 63);
            }
            assert(SCALE as int * pow2((i + 1) as nat) as int <= SCALE as int * pow2(63) as int)
                by (nonlinear_arith)
                requires
                    pow2((i + 1) as nat) <= pow2(63),
            ;
        }
        denom = denom * 2;
        i += 1;
    }
    let r: u128 = pre / denom;
    proof {
        assert(SCALE as int * pow2(0) as int == SCALE as int);
        lemma_div_is_ordered(pre as int, GRAIN as int, denom as int);
        lemma_div_is_ordered_by_denominator(GRAIN as int, SCALE as int, denom as int);
        assert(GRAIN as int == SCALE as int * SCALE as int);
        lemma_div_multiples_vanish(SCALE as int, SCALE as int);
        assert(r <= SCALE);
        if x == 0 {
            lemma_exp_series_zero((EXP_TERMS - 1) as nat);
            lemma_exp_series_zero(EXP_TERMS as nat);
        }
    }
    r as i64
}

/// Number of odd powers used for the logarithm series.
pub const LN_TERMS: usize = 13;

/// Halvings that bring `m` grains below `2 * GRAIN`.
pub open spec fn norm_k(m: int) -> nat
    decreases m when m >= 1
{
    if m >= 2 * GRAIN as int {
        1 + norm_k(m / 2)
    } else {
        0
    }
}

/// What is left of `m` grains after those halvings.
pub open spec fn norm_m(m: int) -> int
    decreases m when m >= 1
{
    if m >= 2 * GRAIN as int {
        norm_m(m / 2)
    } else {
        m
    }
}

/// Doublings that bring `m` grains up to at least `GRAIN`.
pub open spec fn grow_k(m: int) -> nat
    decreases 2 * GRAIN as int - m when 1 <= m
{
    if m < GRAIN as int {
        1 + grow_k(2 * m)
    } else {
        0
    }
}

/// The value of `m` grains after those doublings.
pub open spec fn grow_m(m: int) -> int
    decreases 2 * GRAIN as int - m when 1 <= m
{
    if m < GRAIN as int {
        grow_m(2 * m)
    } else {
        m
    }
}

/// Odd power `2j + 1` of `t / GRAIN` at grain scale, with the floored
/// divisions placed exactly as the executable code computes them.
pub open spec fn atanh_term(t: int, j: nat) -> int
    decreases j,
{
    if j == 0 {
        t
    } else {
        atanh_term(t, (j - 1) as nat) * t / GRAIN as int * t / GRAIN as int
    }
}

/// Partial sum of `t^(2i+1) / (2i + 1)` through `i == j`.
pub open spec fn atanh_sum(t: int, j: nat) -> int
    decreases j,
{
    if j == 0 {
        t
    } else {
        atanh_sum(t, (j - 1) as nat) + atanh_term(t, j) / (2 * (j as int) + 1)
    }
}

/// `ln(m / GRAIN)` in grains for `GRAIN <= m < 2 * GRAIN`, through
/// `ln m == 2 * atanh((m - 1) / (m + 1))`.
pub open spec fn ln_series(m: int) -> int {
    let t = (m - GRAIN as int) * GRAIN as int / (m + GRAIN as int);
    2 * atanh_sum(t, LN_TERMS as nat)
}

/// `ln(x / SCALE)` in units of `1 / SCALE` for `x >= 1`: the argument is
/// normalised to `[1, 2)` by halvings or doublings, each worth `ln 2`.
pub open spec fn spec_ln_fixed(x: int) -> int {
    let m0 = x * SCALE as int;
    if m0 >= GRAIN as int {
        (norm_k(m0) * LN2_GRAIN as int + ln_series(norm_m(m0))) / (SCALE as int)
    } else {
        (ln_series(grow_m(m0)) - grow_k(m0) * LN2_GRAIN as int) / (SCALE as int)
    }
}

/// The normalisation by halvings lands in `[GRAIN, 2 * GRAIN)`.
proof fn lemma_norm_m_bounds(m0: int)
    requires
        m0 >= GRAIN,
    ensures
        GRAIN <= norm_m(m0) < 2 * GRAIN,
    decreases m0,
{
    if m0 >= 2 * GRAIN as int {
        lemma_div_is_ordered(2 * GRAIN as int, m0, 2);
        lemma_div_multiples_vanish(GRAIN as int, 2);
        lemma_norm_m_bounds(m0 / 2);
    }
}

/// All terms of the odd-power series are non-negative for `t >= 0`.
proof fn lemma_atanh_series_nonneg(t: int, j: nat)
    ensures
        t >= 0 ==> atanh_term(t, j) >= 0,
        t >= 0 ==> atanh_sum(t, j) >= 0,
    decreases j,
{
    if j > 0 && t >= 0 {
        lemma_atanh_series_nonneg(t, (j - 1) as nat);
        let tp = atanh_term(t, (j - 1) as nat);
        lemma_mul_nonnegative(tp, t);
        lemma_div_pos_is_pos(tp * t, GRAIN as int);
        lemma_mul_nonnegative(tp * t / GRAIN as int, t);
        lemma_div_pos_is_pos(tp * t / GRAIN as int * t, GRAIN as int);
        lemma_div_pos_is_pos(atanh_term(t, j), 2 * (j as int) + 1);
    }
}

/// Spec-level sign of the fixed-point logarithm: it is non-negative on
/// arguments of at least one.
pub proof fn lemma_ln_fixed_nonneg(x: int)
    requires
        x >= SCALE,
    ensures
        spec_ln_fixed(x) >= 0,
{
    let m0 = x * SCALE as int;
    assert(m0 >= GRAIN);
    lemma_norm_m_bounds(m0);
    let m = norm_m(m0);
    lemma_mul_nonnegative(m - GRAIN as int, GRAIN as int);
    lemma_div_pos_is_pos((m - GRAIN as int) * GRAIN as int, m + GRAIN as int);
    let t = (m - GRAIN as int) * GRAIN as int / (m + GRAIN as int);
    lemma_atanh_series_nonneg(t, LN_TERMS as nat);
    lemma_mul_nonnegative(norm_k(m0) as int, LN2_GRAIN as int);
    lemma_div_pos_is_pos(
        norm_k(m0) * LN2_GRAIN as int + ln_series(m),
        SCALE as int,
    );
}

/// The logarithm on positive fixed-point arguments.
pub fn ln_fixed(x: i64) -> (r: i64)
    requires
        1 <= x,
    ensures
        r == spec_ln_fixed(x as int),
        -64 * SCALE <= r <= 64 * SCALE,
        x >= SCALE ==> r >= 0,
        x == SCALE ==> r == 0,
{
    proof {
        lemma_mul_inequality(1, x as int, SCALE as int);
        lemma_mul_upper_bound(x as int, 0x7fff_ffff_ffff_ffff, SCALE as int, SCALE as int);
    }
    let mut m: u128 = (x as u128) * (SCALE as u128);
    let ghost m0 = m as int;
    let big: bool = m >= GRAIN;
    let mut kup: u128 = 0;
    let mut kdown: u128 = 0;
    proof {
        lemma2_to64();
        lemma2_to64_rest();
        assert(pow2(0) == 1) by {
            vstd::arithmetic::power::lemma_pow0(2);
            vstd::arithmetic::power2::lemma_pow2(0);
        }
    }
    if big {
        while m >= 2 * GRAIN
            invariant
                GRAIN <= m,
                norm_k(m as int) + kup == norm_k(m0),
                norm_m(m as int) == norm_m(m0),
                kup <= 34,
                pow2(kup as nat) as int * m as int <= m0,
                m0 <= 10_000_000_000_000_000_000_000_000_000,
            decreases m,
        {
            proof {
                lemma_div_is_ordered(2 * GRAIN as int, m as int, 2);
                lemma_div_multiples_vanish(GRAIN as int, 2);
                lemma_pow2_unfold((kup + 1) as nat);
                lemma_fundamental_div_mod(m as int, 2);
                lemma_mod_bound(m as int, 2);
                assert(pow2((kup + 1) as nat) as int * (m as int / 2) <= pow2(kup as nat) as int
                    * m as int) by (nonlinear_arith)
                    requires
                        pow2((kup + 1) as nat) == 2 * pow2(kup as nat),
                        2 * (m as int / 2) <= m as int,
                        pow2(kup as nat) >= 0,
                ;
                lemma2_to64();
                lemma2_to64_rest();
                if kup as nat + 1 >= 35 {
                    if kup as nat + 1 > 35 {
                        lemma_pow2_strictly_increases(35, kup as nat + 1);
                    }
                    assert(pow2((kup + 1) as nat) >= 0x8_0000_0000);
                    assert(pow2((kup + 1) as nat) as int * (m as int / 2) > m0)
                        by (nonlinear_arith)
                        requires
                            pow2((kup + 1) as nat) >= 0x8_0000_0000,
                            m as int / 2 >= GRAIN,
                            m0 <= 10_000_000_000_000_000_000_000_000_000,
                            GRAIN == 1_000_000_000_000_000_000,
                    ;
                }
            }
            m = m / 2;
            kup = kup + 1;
        }
    } else {
        while m < GRAIN
            invariant
                1 <= m < 2 * GRAIN,
                grow_k(m as int) + kdown == grow_k(m0),
                grow_m(m as int) == grow_m(m0),
                kdown <= 30,
                m as int == m0 * pow2(kdown as nat),
                SCALE as int <= m0 < GRAIN,
            decreases 2 * GRAIN - m,
        {
            proof {
                lemma_pow2_unfold((kdown + 1) as nat);
                assert(m0 * pow2((kdown + 1) as nat) as int == 2 * (m0 * pow2(
                    kdown as nat,
                ) as int)) by (nonlinear_arith)
                    requires
                        pow2((kdown + 1) as nat) == 2 * pow2(kdown as nat),
                ;
                lemma2_to64();
                if kdown as nat + 1 >= 31 {
                    lemma_pow2_strictly_increases(30, kdown as nat + 1);
                    assert(m0 * pow2((kdown + 1) as nat) as int >= 2 * GRAIN)
                        by (nonlinear_arith)
                        requires
                            pow2((kdown + 1) as nat) >= 0x8000_0000,
                            m0 >= SCALE as int,
                            SCALE == 1_000_000_000,
                            GRAIN == 1_000_000_000_000_000_000,
                    ;
                }
            }
            m = m * 2;
            kdown = kdown + 1;
        }
    }
    // now GRAIN <= m < 2 * GRAIN
    let t: u128 = (m - GRAIN) * GRAIN / (m + GRAIN);
    proof {
        assert((m as int - GRAIN as int) * GRAIN as int <= (m as int + GRAIN as int) * (GRAIN
            as int / 2)) by (nonlinear_arith)
            requires
                GRAIN <= m as int,
                (m as int) < 2 * GRAIN,
                GRAIN == 1_000_000_000_000_000_000,
        ;
        lemma_multiply_divide_le(
            (m as int - GRAIN as int) * GRAIN as int,
            m as int + GRAIN as int,
            GRAIN as int / 2,
        );
        lemma_div_pos_is_pos((m as int - GRAIN as int) * GRAIN as int, m as int + GRAIN as int);
        lemma_mul_nonnegative(m as int - GRAIN as int, GRAIN as int);
    }
    let mut term: u128 = t;
    let mut s: u128 = t;
    let mut j: usize = 1;
    while j <= LN_TERMS
        invariant
            1 <= j <= LN_TERMS + 1,
            0 <= t <= GRAIN / 2,
            term == atanh_term(t as int, (j - 1) as nat),
            s == atanh_sum(t as int, (j - 1) as nat),
            term <= t,
            s <= (j as int) * t as int,
        decreases LN_TERMS + 1 - j,
    {
        proof {
            lemma_mul_upper_bound(term as int, t as int, t as int, GRAIN as int);
            assert(term as int * t as int <= GRAIN as int * term as int) by (nonlinear_arith)
                requires
                    0 <= term,
                    0 <= t <= GRAIN,
            ;
            lemma_multiply_divide_le(term as int * t as int, GRAIN as int, term as int);
            lemma_div_pos_is_pos(term as int * t as int, GRAIN as int);
        }
        term = term * t / GRAIN;
        proof {
            lemma_mul_upper_bound(term as int, t as int, t as int, GRAIN as int);
            assert(term as int * t as int <= GRAIN as int * term as int) by (nonlinear_arith)
                requires
                    0 <= term,
                    0 <= t <= GRAIN,
            ;
            lemma_multiply_divide_le(term as int * t as int, GRAIN as int, term as int);
            lemma_div_pos_is_pos(term as int * t as int, GRAIN as int);
        }
        term = term * t / GRAIN;
        proof {
            lemma_div_nonincreasing(term as int, 2 * (j as int) + 1);
            lemma_div_pos_is_pos(term as int, 2 * (j as int) + 1);
            lemma_mul_upper_bound(j as int, 14, t as int, GRAIN as int / 2);
            assert((j as int + 1) * (t as int) == j as int * (t as int) + t as int)
                by (nonlinear_arith);
        }
        s = s + term / (2 * (j as u128) + 1);
        j += 1;
    }
    proof {
        lemma_mul_upper_bound(LN_TERMS as int + 1, 14, t as int, GRAIN as int / 2);
        assert(s <= 7 * GRAIN);
    }
    let lnm: u128 = 2 * s;
    if big {
        let num: u128 = kup * LN2_GRAIN + lnm;
        let r: u128 = num / (SCALE as u128);
        proof {
            assert(num as int <= 64 * (SCALE as int * SCALE as int));
            lemma_div_is_ordered(num as int, 64 * (SCALE as int * SCALE as int), SCALE as int);
            assert(64 * (SCALE as int * SCALE as int) == (64 * SCALE as int) * SCALE as int);
            lemma_div_multiples_vanish(64 * SCALE as int, SCALE as int);
            lemma_div_pos_is_pos(num as int, SCALE as int);
            lemma_div_of0(SCALE as int);
        }
        r as i64
    } else {
        let num: i128 = (lnm as i128) - (kdown as i128) * (LN2_GRAIN as i128);
        let r128: i128 = div_floor(num, SCALE as i128);
        proof {
            assert(-64 * (SCALE as int * SCALE as int) <= num as int <= 64 * (SCALE as int
                * SCALE as int));
            lemma_div_is_ordered(num as int, 64 * (SCALE as int * SCALE as int), SCALE as int);
            lemma_div_is_ordered(-64 * (SCALE as int * SCALE as int), num as int, SCALE as int);
            assert(64 * (SCALE as int * SCALE as int) == (64 * SCALE as int) * SCALE as int);
            assert(-64 * (SCALE as int * SCALE as int) == (-64 * SCALE as int) * SCALE as int);
            lemma_div_multiples_vanish(64 * SCALE as int, SCALE as int);
            lemma_div_multiples_vanish(-64 * SCALE as int, SCALE as int);
            if x >= SCALE {
                lemma_mul_inequality(SCALE as int, x as int, SCALE as int);
                assert(false);
            }
        }
        r128 as i64
    }
}

} // verus!
