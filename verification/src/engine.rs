//! The pricing engine: a logarithmic market scoring rule over a fixed set
//! of outcomes.
//!
//! The cost of the current share vector `q` with liquidity `b` is
//! `b * ln(sum_i e^(q_i / b))`, and the price of outcome `i` is
//! `e^(q_i / b) / sum_j e^(q_j / b)`.  Both are computed in fixed point with
//! the usual log-sum-exp stabilisation: the largest exponent is factored out
//! so that every exponential evaluated is of a non-positive argument.
use vstd::prelude::*;
use vstd::arithmetic::div_mod::*;
use vstd::arithmetic::mul::*;
use crate::fixed::{
    div_floor, exp_fixed, lemma_exp_fixed_bounds, ln_fixed, spec_exp_fixed, spec_ln_fixed,
    EXP_ARG_MIN, SCALE,
};

verus! {

/// Largest share count (in units) the engine accepts per outcome.
pub const Q_MAX: i64 = 1_000_000_000_000_000_000;

/// Largest liquidity parameter (in units) the engine accepts.
pub const B_MAX: i64 = 1_000_000_000_000_000;

/// Largest number of outcomes a market may have.
pub const N_MAX: usize = 1_000_000;

/// Every way a market operation can be refused.  Validation failures are
/// rejected at the call that introduces them; `InsufficientCollateral` and
/// `UnknownParticipant` are ordinary declined-trade outcomes.
#[derive(Clone, Copy, Debug, PartialEq, Eq, Structural)]
pub enum MarketError {
    /// The liquidity parameter was not positive at construction.
    InvalidLiquidity,
    /// The outcome count was zero at construction.
    InvalidOutcomeCount,
    /// An outcome identifier was outside `[0, num_outcomes)`.
    InvalidOutcomeIndex,
    /// A target price was outside the open interval `(0, 1)`.
    InvalidPriceTarget,
    /// A negative amount was offered as collateral.
    InvalidAmount,
    /// The participant's collateral cannot cover the cost of the trade.
    InsufficientCollateral,
    /// The participant has never deposited collateral.
    UnknownParticipant,
    /// A quantity left the fixed-point range the engine supports.
    NumericOverflow,
}

/// Maximum of the first `n` entries (`n >= 1`).
pub open spec fn max_upto(qs: Seq<int>, n: nat) -> int
    decreases n,
{
    if n <= 1 {
        qs[0]
    } else if qs[n - 1] >= max_upto(qs, (n - 1) as nat) {
        qs[n - 1]
    } else {
        max_upto(qs, (n - 1) as nat)
    }
}

/// Maximum entry of a non-empty share vector.
pub open spec fn seq_max(qs: Seq<int>) -> int {
    max_upto(qs, qs.len())
}

/// The stabilised exponent for one outcome: `(q - qmax) * SCALE / b`,
/// clipped from below at `EXP_ARG_MIN`.
pub open spec fn spec_exponent(q: int, qmax: int, b: int) -> int {
    let e = (q - qmax) * SCALE as int / b;
    if e < EXP_ARG_MIN as int {
        EXP_ARG_MIN as int
    } else {
        e
    }
}

/// The stabilised exponential term for one outcome.
pub open spec fn spec_term(q: int, qmax: int, b: int) -> int {
    spec_exp_fixed(spec_exponent(q, qmax, b))
}

/// Sum of the stabilised exponential terms of the first `n` outcomes.
pub open spec fn sum_exp_upto(qs: Seq<int>, qmax: int, b: int, n: nat) -> int
    decreases n,
{
    if n == 0 {
        0
    } else {
        sum_exp_upto(qs, qmax, b, (n - 1) as nat) + spec_term(qs[n - 1], qmax, b)
    }
}

/// Sum of the stabilised exponential terms of all outcomes.
pub open spec fn sum_exp(qs: Seq<int>, qmax: int, b: int) -> int {
    sum_exp_upto(qs, qmax, b, qs.len())
}

/// The cost of a share vector: `qmax + b * ln(sum of stabilised terms) / SCALE`
/// (factoring `e^(qmax / b)` out of the naive sum adds `qmax` back to the
/// logarithm, already in units).
pub open spec fn spec_cost(b: int, qs: Seq<int>) -> int {
    let m = seq_max(qs);
    m + b * spec_ln_fixed(sum_exp(qs, m, b)) / (SCALE as int)
}

/// The marginal price of outcome `i`, in units (so `SCALE` is a price of one).
pub open spec fn spec_price(b: int, qs: Seq<int>, i: int) -> int {
    let m = seq_max(qs);
    spec_term(qs[i], m, b) * SCALE as int / sum_exp(qs, m, b)
}

/// The cost of adding `delta` shares of outcome `i`: the difference of the
/// costs of the two share vectors.
pub open spec fn spec_cost_to_trade(b: int, qs: Seq<int>, i: int, delta: int) -> int {
    spec_cost(b, qs.update(i, qs[i] + delta)) - spec_cost(b, qs)
}

/// The signed share quantity that moves the price of an outcome from
/// `pcur` to `pnew`, by the two-outcome closed form
/// `b * (ln(pnew / pcur) - ln((1 - pnew) / (1 - pcur)))`.
pub open spec fn spec_shares_delta(b: int, pcur: int, pnew: int) -> int {
    b * (spec_ln_fixed(pnew) - spec_ln_fixed(pcur) - spec_ln_fixed(SCALE as int - pnew)
        + spec_ln_fixed(SCALE as int - pcur)) / (SCALE as int)
}

/// Reaching the price already in force takes no shares: the closed form
/// gives a zero delta whenever the target equals the current price.
pub proof fn lemma_shares_delta_at_current_price(b: int, p: int)
    ensures
        spec_shares_delta(b, p, p) == 0,
{
    lemma_mul_by_zero_is_zero(b);
    lemma_div_of0(SCALE as int);
}

/// Quotient bound: if `|a| <= c * d` then `|a / d| <= c`.
pub proof fn lemma_div_bound(a: int, d: int, c: int)
    requires
        d >= 1,
        c >= 0,
        -(c * d) <= a <= c * d,
    ensures
        -c <= a / d <= c,
{
    lemma_div_is_ordered(a, c * d, d);
    lemma_div_is_ordered(-(c * d), a, d);
    lemma_div_multiples_vanish(c, d);
    lemma_div_multiples_vanish(-c, d);
    assert(c * d == d * c) by (nonlinear_arith);
    assert(-(c * d) == d * -c) by (nonlinear_arith);
}

/// `max_upto` is an upper bound of, and attained among, the first `n` entries.
pub proof fn lemma_max_upto(qs: Seq<int>, n: nat)
    requires
        1 <= n <= qs.len(),
    ensures
        forall|i: int| 0 <= i < n ==> qs[i] <= max_upto(qs, n),
        exists|i: int| 0 <= i < n && qs[i] == max_upto(qs, n),
    decreases n,
{
    if n == 1 {
        assert(qs[0] == max_upto(qs, n));
    } else {
        lemma_max_upto(qs, (n - 1) as nat);
        if qs[n - 1] >= max_upto(qs, (n - 1) as nat) {
            assert(qs[n - 1] == max_upto(qs, n));
        } else {
            let wi = choose|i: int| 0 <= i < n - 1 && qs[i] == max_upto(qs, (n - 1) as nat);
            assert(qs[wi] == max_upto(qs, n));
        }
    }
}

pub struct MarketMaker {
    /// The liquidity parameter `b`, in units.
    pub b: i64,
    /// Net shares issued per outcome, in units; the index is the outcome id.
    pub outstanding_shares: Vec<i64>,
}

impl MarketMaker {
    /// The share vector as a sequence of mathematical integers.
    pub open spec fn shares(&self) -> Seq<int> {
        self.outstanding_shares@.map_values(|v: i64| v as int)
    }

    /// Well-formedness: positive bounded liquidity, at least one outcome,
    /// and every share count within the supported range.
    pub open spec fn wf(&self) -> bool {
        &&& 1 <= self.b <= B_MAX
        &&& 1 <= self.outstanding_shares@.len() <= N_MAX
        &&& forall|i: int|
            0 <= i < self.outstanding_shares@.len() ==> -Q_MAX <= #[trigger] self.outstanding_shares@[i] <= Q_MAX
    }

    /// Creates an engine with all-zero shares.  The liquidity must be
    /// positive (and within range), and there must be at least one outcome.
    pub fn new(b: i64, num_outcomes: usize) -> (r: Result<MarketMaker, MarketError>)
        ensures
            match r {
                Ok(mm) => {
                    &&& 1 <= b <= B_MAX
                    &&& 1 <= num_outcomes <= N_MAX
                    &&& mm.wf()
                    &&& mm.b == b
                    &&& mm.outstanding_shares@.len() == num_outcomes
                    &&& forall|i: int| 0 <= i < num_outcomes ==> mm.shares()[i] == 0
                },
                Err(MarketError::InvalidLiquidity) => b < 1 || b > B_MAX,
                Err(MarketError::InvalidOutcomeCount) => 1 <= b <= B_MAX && (num_outcomes < 1
                    || num_outcomes > N_MAX),
                Err(_) => false,
            },
    {
        if b < 1 || b > B_MAX {
            return Err(MarketError::InvalidLiquidity);
        }
        if num_outcomes < 1 || num_outcomes > N_MAX {
            return Err(MarketError::InvalidOutcomeCount);
        }
        let mut shares: Vec<i64> = Vec::new();
        let mut i: usize = 0;
        while i < num_outcomes
            invariant
                0 <= i <= num_outcomes,
                shares@.len() == i,
                forall|j: int| 0 <= j < i ==> shares@[j] == 0i64,
            decreases num_outcomes - i,
        {
            shares.push(0i64);
            i += 1;
        }
        Ok(MarketMaker { b, outstanding_shares: shares })
    }

    /// The largest outstanding share count.
    fn max_shares(&self) -> (m: i64)
        requires
            self.wf(),
        ensures
            m == seq_max(self.shares()),
            -Q_MAX <= m <= Q_MAX,
    {
        let mut m: i64 = self.outstanding_shares[0];
        let mut i: usize = 1;
        while i < self.outstanding_shares.len()
            invariant
                self.wf(),
                1 <= i <= self.outstanding_shares@.len(),
                m == max_upto(self.shares(), i as nat),
                -Q_MAX <= m <= Q_MAX,
            decreases self.outstanding_shares@.len() - i,
        {
            let q = self.outstanding_shares[i];
            if q > m {
                m = q;
            }
            i += 1;
        }
        m
    }

    /// The stabilised exponential term of one outcome.
    fn stab_term(&self, q: i64, qmax: i64) -> (t: i64)
        requires
            self.wf(),
            -Q_MAX <= q <= qmax <= Q_MAX,
        ensures
            t == spec_term(q as int, qmax as int, self.b as int),
            0 <= t <= SCALE,
            q == qmax ==> t == SCALE,
    {
        let d: i128 = (q as i128) - (qmax as i128);
        proof {
            lemma_mul_inequality(-2_000_000_000_000_000_000, d as int, SCALE as int);
            lemma_mul_inequality(d as int, 0, SCALE as int);
        }
        let num: i128 = d * (SCALE as i128);
        let e128: i128 = div_floor(num, self.b as i128);
        proof {
            lemma_div_is_ordered(num as int, 0, self.b as int);
            lemma_div_of0(self.b as int);
            if q == qmax {
                assert(num == 0);
            }
        }
        let e: i64 = if e128 < (EXP_ARG_MIN as i128) {
            EXP_ARG_MIN
        } else {
            e128 as i64
        };
        exp_fixed(e)
    }

    /// The sum of the stabilised exponential terms of all outcomes.
    fn sum_of_exp(&self, qmax: i64) -> (s: i64)
        requires
            self.wf(),
            qmax == seq_max(self.shares()),
        ensures
            s == sum_exp(self.shares(), qmax as int, self.b as int),
            SCALE <= s <= self.outstanding_shares@.len() * SCALE,
    {
        proof {
            lemma_max_upto(self.shares(), self.shares().len());
        }
        let ghost wi: int = choose|i: int|
            0 <= i < self.shares().len() && self.shares()[i] == qmax as int;
        let n = self.outstanding_shares.len();
        let mut s: i64 = 0;
        let mut i: usize = 0;
        while i < n
            invariant
                self.wf(),
                n == self.outstanding_shares@.len(),
                qmax == seq_max(self.shares()),
                0 <= wi < n,
                self.shares()[wi] == qmax as int,
                forall|j: int| 0 <= j < n ==> self.shares()[j] <= qmax as int,
                0 <= i <= n,
                s == sum_exp_upto(self.shares(), qmax as int, self.b as int, i as nat),
                0 <= s <= i * SCALE,
                i > wi ==> s >= SCALE,
            decreases n - i,
        {
            proof {
                assert(self.shares()[i as int] == self.outstanding_shares@[i as int] as int);
                assert(self.shares()[wi] == self.outstanding_shares@[wi] as int);
            }
            let t = self.stab_term(self.outstanding_shares[i], qmax);
            s = s + t;
            i += 1;
        }
        s
    }

    /// The cost of the current share vector, in units.
    pub fn cost_fn(&self) -> (r: i64)
        requires
            self.wf(),
        ensures
            r == spec_cost(self.b as int, self.shares()),
            -Q_MAX <= r <= Q_MAX + 64 * B_MAX,
    {
        let qmax = self.max_shares();
        let s = self.sum_of_exp(qmax);
        let ln = ln_fixed(s);
        proof {
            lemma_mul_upper_bound(self.b as int, B_MAX as int, ln as int, 64 * SCALE as int);
            lemma_mul_nonnegative(self.b as int, ln as int);
        }
        let prod: i128 = (self.b as i128) * (ln as i128);
        proof {
            assert((64 * B_MAX as int) * SCALE as int == B_MAX as int * (64 * SCALE as int))
                by (nonlinear_arith);
            lemma_div_bound(prod as int, SCALE as int, 64 * B_MAX as int);
        }
        let c: i128 = div_floor(prod, SCALE as i128);
        qmax + (c as i64)
    }

    /// The marginal price of an outcome, in units, in `[0, SCALE]`.
    pub fn price(&self, outcome_id: usize) -> (r: Result<i64, MarketError>)
        requires
            self.wf(),
        ensures
            match r {
                Ok(p) => {
                    &&& outcome_id < self.outstanding_shares@.len()
                    &&& p == spec_price(self.b as int, self.shares(), outcome_id as int)
                    &&& 0 <= p <= SCALE
                },
                Err(MarketError::InvalidOutcomeIndex) => outcome_id
                    >= self.outstanding_shares@.len(),
                Err(_) => false,
            },
    {
        if outcome_id >= self.outstanding_shares.len() {
            return Err(MarketError::InvalidOutcomeIndex);
        }
        let qmax = self.max_shares();
        let s = self.sum_of_exp(qmax);
        proof {
            lemma_max_upto(self.shares(), self.shares().len());
            assert(self.shares()[outcome_id as int] == self.outstanding_shares@[outcome_id as int]
                as int);
        }
        let t = self.stab_term(self.outstanding_shares[outcome_id], qmax);
        proof {
            lemma_sum_exp_term_le(
                self.shares(),
                qmax as int,
                self.b as int,
                outcome_id as int,
            );
            assert(t as int * SCALE as int <= s as int * SCALE as int) by (nonlinear_arith)
                requires
                    0 <= t as int <= s as int,
                    SCALE as int > 0,
            ;
            lemma_multiply_divide_le(t as int * SCALE as int, s as int, SCALE as int);
            lemma_mul_nonnegative(t as int, SCALE as int);
            lemma_div_pos_is_pos(t as int * SCALE as int, s as int);
        }
        let num: u64 = (t as u64) * (SCALE as u64);
        let p: u64 = num / (s as u64);
        Ok(p as i64)
    }

    /// A copy of the share vector with entry `i` replaced by `v`.
    fn updated_shares(&self, i: usize, v: i64) -> (r: Vec<i64>)
        requires
            i < self.outstanding_shares@.len(),
        ensures
            r@ == self.outstanding_shares@.update(i as int, v),
    {
        let mut out: Vec<i64> = Vec::new();
        let n = self.outstanding_shares.len();
        let mut j: usize = 0;
        while j < n
            invariant
                0 <= j <= n,
                n == self.outstanding_shares@.len(),
                i < n,
                out@.len() == j,
                forall|k: int|
                    0 <= k < j ==> out@[k] == (if k == i {
                        v
                    } else {
                        self.outstanding_shares@[k]
                    }),
            decreases n - j,
        {
            if j == i {
                out.push(v);
            } else {
                out.push(self.outstanding_shares[j]);
            }
            j += 1;
        }
        proof {
            assert(out@ =~= self.outstanding_shares@.update(i as int, v));
        }
        out
    }

    /// The collateral cost of adding `shares` of outcome `outcome_id`
    /// (negative `shares` sell and yield a negative cost, i.e. a refund).
    /// Both cost evaluations happen on snapshots; the engine is unchanged.
    pub fn cost_to_trade(&self, outcome_id: usize, shares: i64) -> (r: Result<
        i64,
        MarketError,
    >)
        requires
            self.wf(),
        ensures
            match r {
                Ok(c) => {
                    &&& outcome_id < self.outstanding_shares@.len()
                    &&& -Q_MAX <= self.shares()[outcome_id as int] + shares <= Q_MAX
                    &&& c == spec_cost_to_trade(
                        self.b as int,
                        self.shares(),
                        outcome_id as int,
                        shares as int,
                    )
                    &&& -2 * Q_MAX - 64 * B_MAX <= c <= 2 * Q_MAX + 64 * B_MAX
                },
                Err(MarketError::InvalidOutcomeIndex) => outcome_id
                    >= self.outstanding_shares@.len(),
                Err(MarketError::NumericOverflow) => {
                    &&& outcome_id < self.outstanding_shares@.len()
                    &&& !(-Q_MAX <= self.shares()[outcome_id as int] + shares <= Q_MAX)
                },
                Err(_) => false,
            },
    {
        if outcome_id >= self.outstanding_shares.len() {
            return Err(MarketError::InvalidOutcomeIndex);
        }
        let q = self.outstanding_shares[outcome_id];
        let nq: i128 = (q as i128) + (shares as i128);
        if nq < -(Q_MAX as i128) || nq > (Q_MAX as i128) {
            return Err(MarketError::NumericOverflow);
        }
        let v2 = self.updated_shares(outcome_id, nq as i64);
        let mm2 = MarketMaker { b: self.b, outstanding_shares: v2 };
        proof {
            assert(mm2.shares() =~= self.shares().update(
                outcome_id as int,
                self.shares()[outcome_id as int] + shares as int,
            ));
            assert(forall|k: int|
                0 <= k < mm2.outstanding_shares@.len() ==> -Q_MAX
                    <= #[trigger] mm2.outstanding_shares@[k] <= Q_MAX);
        }
        let c2 = mm2.cost_fn();
        let c1 = self.cost_fn();
        Ok(c2 - c1)
    }

    /// The signed share quantity that moves the price of `outcome_id` from
    /// its current value to `new_price`, by the two-outcome closed form.
    /// Both prices must lie strictly between zero and one.
    pub fn shares_to_set_price(&self, outcome_id: usize, new_price: i64) -> (r: Result<
        i64,
        MarketError,
    >)
        requires
            self.wf(),
        ensures
            match r {
                Ok(d) => {
                    &&& outcome_id < self.outstanding_shares@.len()
                    &&& 1 <= new_price <= SCALE - 1
                    &&& 1 <= spec_price(self.b as int, self.shares(), outcome_id as int) <= SCALE
                        - 1
                    &&& d == spec_shares_delta(
                        self.b as int,
                        spec_price(self.b as int, self.shares(), outcome_id as int),
                        new_price as int,
                    )
                },
                Err(MarketError::InvalidOutcomeIndex) => outcome_id
                    >= self.outstanding_shares@.len(),
                Err(MarketError::InvalidPriceTarget) => {
                    &&& outcome_id < self.outstanding_shares@.len()
                    &&& !(1 <= new_price <= SCALE - 1)
                },
                Err(MarketError::NumericOverflow) => {
                    &&& outcome_id < self.outstanding_shares@.len()
                    &&& 1 <= new_price <= SCALE - 1
                    &&& !(1 <= spec_price(self.b as int, self.shares(), outcome_id as int)
                        <= SCALE - 1)
                },
                Err(_) => false,
            },
    {
        if outcome_id >= self.outstanding_shares.len() {
            return Err(MarketError::InvalidOutcomeIndex);
        }
        if new_price < 1 || new_price > SCALE - 1 {
            return Err(MarketError::InvalidPriceTarget);
        }
        let pcur: i64 = match self.price(outcome_id) {
            Ok(p) => p,
            Err(_) => {
                proof {
                    assert(false);
                }
                return Err(MarketError::NumericOverflow);
            },
        };
        if pcur < 1 || pcur > SCALE - 1 {
            return Err(MarketError::NumericOverflow);
        }
        let l1 = ln_fixed(new_price);
        let l2 = ln_fixed(pcur);
        let l3 = ln_fixed(SCALE - new_price);
        let l4 = ln_fixed(SCALE - pcur);
        let combo: i64 = l1 - l2 - l3 + l4;
        proof {
            assert(-(B_MAX as int * (256 * SCALE as int)) <= self.b as int * combo as int
                <= B_MAX as int * (256 * SCALE as int)) by (nonlinear_arith)
                requires
                    1 <= self.b as int <= B_MAX,
                    -256 * SCALE as int <= combo as int <= 256 * SCALE as int,
            ;
        }
        let prod: i128 = (self.b as i128) * (combo as i128);
        proof {
            assert((256 * B_MAX as int) * SCALE as int == B_MAX as int * (256 * SCALE as int))
                by (nonlinear_arith);
            lemma_div_bound(prod as int, SCALE as int, 256 * B_MAX as int);
        }
        let d = div_floor(prod, SCALE as i128);
        Ok(d as i64)
    }

    /// Adds `shares` of outcome `outcome_id` to the outstanding shares, in
    /// place.  This is the engine's only mutating operation; no solvency or
    /// bounds checking happens here, that is the ledger's responsibility.
    pub fn trade(&mut self, outcome_id: usize, shares: i64)
        requires
            old(self).wf(),
            outcome_id < old(self).outstanding_shares@.len(),
            -Q_MAX <= old(self).shares()[outcome_id as int] + shares <= Q_MAX,
        ensures
            final(self).wf(),
            final(self).b == old(self).b,
            final(self).shares() == old(self).shares().update(
                outcome_id as int,
                old(self).shares()[outcome_id as int] + shares as int,
            ),
    {
        let q = self.outstanding_shares[outcome_id];
        proof {
            assert(self.shares()[outcome_id as int] == self.outstanding_shares@[outcome_id
                as int] as int);
        }
        let nv: i64 = q + shares;
        self.outstanding_shares[outcome_id] = nv;
        proof {
            assert(self.shares() =~= old(self).shares().update(
                outcome_id as int,
                old(self).shares()[outcome_id as int] + shares as int,
            ));
        }
    }
}

/// Each stabilised term is non-negative and no larger than the whole sum.
pub proof fn lemma_sum_exp_upto_le(qs: Seq<int>, qmax: int, b: int, i: int, n: nat)
    requires
        0 <= i < n,
        n <= qs.len(),
        forall|j: int| 0 <= j < qs.len() ==> qs[j] <= qmax,
        1 <= b,
    ensures
        spec_term(qs[i], qmax, b) <= sum_exp_upto(qs, qmax, b, n),
        sum_exp_upto(qs, qmax, b, n) >= 0,
    decreases n,
{
    lemma_term_bounds(qs[n - 1], qmax, b);
    if i + 1 < n as int {
        lemma_sum_exp_upto_le(qs, qmax, b, i, (n - 1) as nat);
    } else {
        lemma_sum_exp_upto_nonneg(qs, qmax, b, (n - 1) as nat);
    }
}

/// The partial sums of stabilised terms are non-negative.
pub proof fn lemma_sum_exp_upto_nonneg(qs: Seq<int>, qmax: int, b: int, n: nat)
    requires
        n <= qs.len(),
        forall|j: int| 0 <= j < qs.len() ==> qs[j] <= qmax,
        1 <= b,
    ensures
        sum_exp_upto(qs, qmax, b, n) >= 0,
    decreases n,
{
    if n > 0 {
        lemma_term_bounds(qs[n - 1], qmax, b);
        lemma_sum_exp_upto_nonneg(qs, qmax, b, (n - 1) as nat);
    }
}

/// A term of the full sum is at most the full sum.
pub proof fn lemma_sum_exp_term_le(qs: Seq<int>, qmax: int, b: int, i: int)
    requires
        0 <= i < qs.len(),
        forall|j: int| 0 <= j < qs.len() ==> qs[j] <= qmax,
        1 <= b,
    ensures
        spec_term(qs[i], qmax, b) <= sum_exp(qs, qmax, b),
{
    lemma_sum_exp_upto_le(qs, qmax, b, i, qs.len());
}

/// Sum of the prices of the first `n` outcomes, in units.
pub open spec fn sum_prices_upto(b: int, qs: Seq<int>, n: nat) -> int
    decreases n,
{
    if n == 0 {
        0
    } else {
        sum_prices_upto(b, qs, (n - 1) as nat) + spec_price(b, qs, n - 1)
    }
}

/// Sum of the prices of all outcomes, in units.
pub open spec fn sum_prices(b: int, qs: Seq<int>) -> int {
    sum_prices_upto(b, qs, qs.len())
}

/// Floored division is superadditive in the numerator:
/// `a / d + b / d <= (a + b) / d` for non-negative numerators.
proof fn lemma_div_subadd(a: int, b: int, d: int)
    requires
        d >= 1,
        a >= 0,
        b >= 0,
    ensures
        a / d + b / d <= (a + b) / d,
{
    let qa = a / d;
    let ra = a % d;
    let qb = b / d;
    let rb = b % d;
    lemma_fundamental_div_mod(a, d);
    lemma_fundamental_div_mod(b, d);
    lemma_mod_bound(a, d);
    lemma_mod_bound(b, d);
    assert(a + b == d * (qa + qb) + (ra + rb)) by (nonlinear_arith)
        requires
            a == d * qa + ra,
            b == d * qb + rb,
    ;
    if ra + rb < d {
        lemma_div_multiples_vanish_fancy(qa + qb, ra + rb, d);
    } else {
        assert(a + b == d * (qa + qb + 1) + (ra + rb - d)) by (nonlinear_arith)
            requires
                a + b == d * (qa + qb) + (ra + rb),
        ;
        lemma_div_multiples_vanish_fancy(qa + qb + 1, ra + rb - d, d);
    }
}

/// The two sides of the price-sum law, for the first `n` outcomes: the
/// partial price sums are at most `(partial term sum) * SCALE / d` and,
/// scaled by `d`, greater than `(partial term sum) * SCALE - n * d`.
proof fn lemma_price_sum_upto(b: int, qs: Seq<int>, n: nat)
    requires
        1 <= b,
        1 <= qs.len(),
        n <= qs.len(),
        sum_exp(qs, seq_max(qs), b) >= 1,
    ensures
        sum_prices_upto(b, qs, n) <= sum_exp_upto(qs, seq_max(qs), b, n) * SCALE as int
            / sum_exp(qs, seq_max(qs), b),
        sum_exp(qs, seq_max(qs), b) * sum_prices_upto(b, qs, n) >= sum_exp_upto(
            qs,
            seq_max(qs),
            b,
            n,
        ) * SCALE as int - n * sum_exp(qs, seq_max(qs), b) + n,
    decreases n,
{
    let m = seq_max(qs);
    let d = sum_exp(qs, m, b);
    lemma_max_upto(qs, qs.len());
    if n == 0 {
        lemma_div_of0(d);
    } else {
        lemma_price_sum_upto(b, qs, (n - 1) as nat);
        let t = spec_term(qs[n - 1], m, b);
        lemma_term_bounds(qs[n - 1], m, b);
        let ts = t * SCALE as int;
        lemma_mul_nonnegative(t, SCALE as int);
        let tp = sum_exp_upto(qs, m, b, (n - 1) as nat);
        lemma_sum_exp_upto_nonneg(qs, m, b, (n - 1) as nat);
        lemma_mul_nonnegative(tp, SCALE as int);
        // upper bound
        lemma_div_subadd(tp * SCALE as int, ts, d);
        assert(tp * SCALE as int + t * SCALE as int == (tp + t) * SCALE as int)
            by (nonlinear_arith);
        // lower bound
        lemma_fundamental_div_mod(ts, d);
        lemma_mod_bound(ts, d);
        assert(d * (ts / d) > ts - d);
        assert(d * sum_prices_upto(b, qs, n) == d * sum_prices_upto(b, qs, (n - 1) as nat) + d
            * (ts / d)) by (nonlinear_arith)
            requires
                sum_prices_upto(b, qs, n) == sum_prices_upto(b, qs, (n - 1) as nat) + ts / d,
        ;
        assert((n as int) * d == ((n - 1) as int) * d + d) by (nonlinear_arith);
        assert(d * sum_prices_upto(b, qs, n) >= (tp + t) * SCALE as int - (n as int) * d
            + n);
    }
}

/// The prices of all outcomes sum to one, up to the flooring of each
/// price: the sum lies in `(SCALE - n, SCALE]` units, where `n` is the
/// number of outcomes.  This holds for every share vector and every
/// positive liquidity.
pub proof fn lemma_price_sum(b: int, qs: Seq<int>)
    requires
        1 <= b,
        1 <= qs.len(),
    ensures
        SCALE - qs.len() < sum_prices(b, qs) <= SCALE,
{
    let m = seq_max(qs);
    let d = sum_exp(qs, m, b);
    let n = qs.len();
    lemma_max_upto(qs, n);
    let wi = choose|i: int| 0 <= i < n && qs[i] == m;
    lemma_term_bounds(qs[wi], m, b);
    lemma_sum_exp_upto_le(qs, m, b, wi, n);
    assert(d >= SCALE);
    lemma_price_sum_upto(b, qs, n);
    // at n the partial term sum is d itself
    lemma_div_multiples_vanish(SCALE as int, d);
    assert(d * SCALE as int == SCALE as int * d) by (nonlinear_arith);
    assert(sum_prices(b, qs) <= SCALE);
    assert(d * sum_prices(b, qs) >= d * SCALE as int - n * d + n);
    assert(sum_prices(b, qs) > SCALE - n) by (nonlinear_arith)
        requires
            d >= 1,
            n >= 1,
            d * sum_prices(b, qs) >= d * SCALE as int - n * d + n,
    ;
}

/// The operator's solvency: the cost of any share vector is at least its
/// largest entry, so the cost collected on the way to a state always covers
/// paying out the leading outcome — the bounded-loss guarantee of the
/// scoring rule, at fixed point.
pub proof fn lemma_cost_covers_max(b: int, qs: Seq<int>)
    requires
        1 <= b,
        1 <= qs.len(),
    ensures
        spec_cost(b, qs) >= seq_max(qs),
{
    let m = seq_max(qs);
    let d = sum_exp(qs, m, b);
    let n = qs.len();
    lemma_max_upto(qs, n);
    let wi = choose|i: int| 0 <= i < n && qs[i] == m;
    lemma_term_bounds(qs[wi], m, b);
    lemma_sum_exp_upto_le(qs, m, b, wi, n);
    assert(d >= SCALE);
    crate::fixed::lemma_ln_fixed_nonneg(d);
    lemma_mul_nonnegative(b, spec_ln_fixed(d));
    lemma_div_pos_is_pos(b * spec_ln_fixed(d), SCALE as int);
}

/// Range of a single price: it always lies in `[0, SCALE]`; it stays
/// strictly below one when any other outcome's stabilised term is non-zero,
/// and is at least one unit when this outcome's term, scaled, reaches the
/// whole sum.  (At fixed-point resolution a price can reach the closed
/// endpoints: an outcome far enough below the maximum underflows to zero.)
pub proof fn lemma_price_bounds(b: int, qs: Seq<int>, i: int)
    requires
        1 <= b,
        1 <= qs.len(),
        0 <= i < qs.len(),
    ensures
        0 <= spec_price(b, qs, i) <= SCALE,
        (exists|j: int|
            0 <= j < qs.len() && j != i && spec_term(qs[j], seq_max(qs), b) >= 1) ==> spec_price(
            b,
            qs,
            i,
        ) < SCALE,
        spec_term(qs[i], seq_max(qs), b) * SCALE >= sum_exp(qs, seq_max(qs), b) ==> spec_price(
            b,
            qs,
            i,
        ) >= 1,
        qs[i] == seq_max(qs) && qs.len() <= SCALE ==> spec_price(b, qs, i) >= 1,
{
    let m = seq_max(qs);
    let d = sum_exp(qs, m, b);
    let n = qs.len();
    lemma_max_upto(qs, n);
    let wi = choose|k: int| 0 <= k < n && qs[k] == m;
    lemma_term_bounds(qs[wi], m, b);
    lemma_sum_exp_upto_le(qs, m, b, wi, n);
    assert(d >= SCALE);
    let t = spec_term(qs[i], m, b);
    lemma_term_bounds(qs[i], m, b);
    lemma_sum_exp_term_le(qs, m, b, i);
    lemma_mul_nonnegative(t, SCALE as int);
    lemma_div_pos_is_pos(t * SCALE as int, d);
    assert(t * SCALE as int <= d * SCALE as int) by (nonlinear_arith)
        requires
            0 <= t <= d,
            SCALE >= 1,
    ;
    lemma_multiply_divide_le(t * SCALE as int, d, SCALE as int);
    if exists|j: int| 0 <= j < n && j != i && spec_term(qs[j], m, b) >= 1 {
        let j = choose|j: int| 0 <= j < n && j != i && spec_term(qs[j], m, b) >= 1;
        lemma_sum_exp_pair_le(qs, m, b, i, j);
        assert((t * SCALE as int) < d * SCALE as int) by (nonlinear_arith)
            requires
                0 <= t,
                t + 1 <= d,
                SCALE >= 1,
        ;
        lemma_multiply_divide_lt(t * SCALE as int, d, SCALE as int);
    }
    if qs[i] == m && n <= SCALE {
        lemma_sum_exp_upper(qs, m, b, n);
        assert(t * SCALE as int >= d) by (nonlinear_arith)
            requires
                t == SCALE as int,
                d <= (n as int) * SCALE as int,
                n as int <= SCALE as int,
                SCALE as int >= 1,
        ;
    }
    if t * SCALE >= d {
        lemma_div_is_ordered(d, t * SCALE as int, d);
        lemma_div_by_self(d);
    }
}

/// The term sum of the first `n` outcomes is at most `n * SCALE`.
proof fn lemma_sum_exp_upper(qs: Seq<int>, qmax: int, b: int, n: nat)
    requires
        n <= qs.len(),
        forall|k: int| 0 <= k < qs.len() ==> qs[k] <= qmax,
        1 <= b,
    ensures
        sum_exp_upto(qs, qmax, b, n) <= n * SCALE as int,
    decreases n,
{
    if n > 0 {
        lemma_sum_exp_upper(qs, qmax, b, (n - 1) as nat);
        lemma_term_bounds(qs[n - 1], qmax, b);
        assert((n as int) * SCALE as int == ((n - 1) as int) * SCALE as int + SCALE as int)
            by (nonlinear_arith);
    }
}

/// Two distinct terms together do not exceed the whole sum.
proof fn lemma_sum_exp_pair_le(qs: Seq<int>, qmax: int, b: int, i: int, j: int)
    requires
        0 <= i < qs.len(),
        0 <= j < qs.len(),
        i != j,
        forall|k: int| 0 <= k < qs.len() ==> qs[k] <= qmax,
        1 <= b,
    ensures
        spec_term(qs[i], qmax, b) + spec_term(qs[j], qmax, b) <= sum_exp(qs, qmax, b),
{
    let lo = if i < j {
        i
    } else {
        j
    };
    let hi = if i < j {
        j
    } else {
        i
    };
    lemma_sum_exp_pair_le_upto(qs, qmax, b, lo, hi, qs.len());
}

/// Helper for the pair bound, by induction on the prefix length.
proof fn lemma_sum_exp_pair_le_upto(qs: Seq<int>, qmax: int, b: int, lo: int, hi: int, n: nat)
    requires
        0 <= lo < hi < n,
        n <= qs.len(),
        forall|k: int| 0 <= k < qs.len() ==> qs[k] <= qmax,
        1 <= b,
    ensures
        spec_term(qs[lo], qmax, b) + spec_term(qs[hi], qmax, b) <= sum_exp_upto(qs, qmax, b, n),
    decreases n,
{
    lemma_term_bounds(qs[n - 1], qmax, b);
    if hi + 1 < n as int {
        lemma_sum_exp_pair_le_upto(qs, qmax, b, lo, hi, (n - 1) as nat);
    } else {
        lemma_sum_exp_upto_le(qs, qmax, b, lo, (n - 1) as nat);
    }
}

/// When every outcome holds the same share count, every outcome has the
/// same price, namely one divided by the number of outcomes (floored).
pub proof fn lemma_uniform_prices(b: int, qs: Seq<int>, i: int)
    requires
        1 <= b,
        1 <= qs.len(),
        0 <= i < qs.len(),
        forall|j: int| 0 <= j < qs.len() ==> #[trigger] qs[j] == qs[0],
    ensures
        spec_price(b, qs, i) == SCALE as int / qs.len() as int,
{
    let m = seq_max(qs);
    let n = qs.len();
    lemma_max_upto(qs, n);
    assert(m == qs[0]);
    lemma_sum_exp_uniform(qs, m, b, n);
    lemma_term_bounds(qs[i], m, b);
    assert(sum_exp(qs, m, b) == n * SCALE as int);
    lemma_div_multiples_vanish_quotient(SCALE as int, SCALE as int, n as int);
    assert(SCALE as int * (n as int) == (n as int) * SCALE as int) by (nonlinear_arith);
}

/// The term sum of a uniform share vector is the count times `SCALE`.
proof fn lemma_sum_exp_uniform(qs: Seq<int>, qmax: int, b: int, n: nat)
    requires
        1 <= b,
        n <= qs.len(),
        forall|j: int| 0 <= j < qs.len() ==> #[trigger] qs[j] == qmax,
    ensures
        sum_exp_upto(qs, qmax, b, n) == n * SCALE as int,
    decreases n,
{
    if n > 0 {
        lemma_sum_exp_uniform(qs, qmax, b, (n - 1) as nat);
        lemma_term_bounds(qs[n - 1], qmax, b);
    }
}

/// Bounds of a stabilised term: it lies in `[0, SCALE]`, and equals `SCALE`
/// exactly for the outcome holding the maximum.
pub proof fn lemma_term_bounds(q: int, qmax: int, b: int)
    requires
        q <= qmax,
        1 <= b,
    ensures
        0 <= spec_term(q, qmax, b) <= SCALE,
        q == qmax ==> spec_term(q, qmax, b) == SCALE,
{
    let e0 = (q - qmax) * SCALE as int / b;
    lemma_mul_nonnegative(-(q - qmax), SCALE as int);
    lemma_div_is_ordered((q - qmax) * SCALE as int, 0, b);
    lemma_div_of0(b);
    if q == qmax {
        assert((q - qmax) * SCALE as int == 0);
    }
    lemma_exp_fixed_bounds(spec_exponent(q, qmax, b));
}

} // verus!
