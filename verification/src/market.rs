//! The ledger: per-participant collateral and share holdings, and trade
//! application against the pricing engine with a solvency check.
//!
//! Declined trades (unknown participant, insufficient collateral, out-of-range
//! amounts) are distinguishable outcomes that leave every part of the state
//! unchanged; a successful trade updates the participant's holdings, their
//! collateral and the engine's outstanding shares together.
use vstd::prelude::*;
use crate::engine::{
    spec_cost_to_trade, spec_price, spec_shares_delta, MarketError, MarketMaker, B_MAX, N_MAX,
    Q_MAX,
};
use crate::fixed::SCALE;

verus! {

/// Largest collateral balance (in units) a participant may hold.
pub const C_MAX: i64 = 4_000_000_000_000_000_000;

/// One participant's per-outcome holdings and collateral balance.
pub struct Portfolio {
    /// Shares held per outcome, in units; the index is the outcome id.
    pub outcome_shares: Vec<i64>,
    /// Deposited funds not yet spent, in units; never negative.
    pub collateral: i64,
}

impl Portfolio {
    /// The holdings as a sequence of mathematical integers.
    pub open spec fn shares(&self) -> Seq<int> {
        self.outcome_shares@.map_values(|v: i64| v as int)
    }

    /// Well-formedness for a market with `n` outcomes.
    pub open spec fn wf(&self, n: nat) -> bool {
        &&& self.outcome_shares@.len() == n
        &&& forall|i: int| 0 <= i < n ==> -Q_MAX <= #[trigger] self.outcome_shares@[i] <= Q_MAX
        &&& 0 <= self.collateral <= C_MAX
    }
}

/// A market: the pricing engine plus the ledger of participants.
pub struct Market {
    /// The single source of truth for outstanding shares and prices.
    pub market_maker: MarketMaker,
    /// One entry per participant, keyed by address; addresses are distinct.
    pub portfolios: Vec<(String, Portfolio)>,
    /// The fixed number of outcomes.
    pub num_outcomes: usize,
}

impl Market {
    /// Well-formedness of the whole market.
    pub open spec fn wf(&self) -> bool {
        &&& self.market_maker.wf()
        &&& self.num_outcomes == self.market_maker.outstanding_shares@.len()
        &&& forall|i: int|
            0 <= i < self.portfolios@.len() ==> (#[trigger] self.portfolios@[i]).1.wf(
                self.num_outcomes as nat,
            )
        &&& forall|i: int, j: int|
            0 <= i < j < self.portfolios@.len() ==> (#[trigger] self.portfolios@[i]).0@ != (
            #[trigger] self.portfolios@[j]).0@
    }

    /// Whether some participant has the given address.
    pub open spec fn has_participant(&self, a: Seq<char>) -> bool {
        exists|i: int| 0 <= i < self.portfolios@.len() && (#[trigger] self.portfolios@[i]).0@ == a
    }

    /// The index of the participant with the given address.
    pub open spec fn participant_index(&self, a: Seq<char>) -> int {
        choose|i: int| 0 <= i < self.portfolios@.len() && (#[trigger] self.portfolios@[i]).0@ == a
    }

    /// The cost of `sh` extra shares of outcome `oid` at the current state.
    pub open spec fn trade_cost(&self, oid: int, sh: int) -> int {
        spec_cost_to_trade(self.market_maker.b as int, self.market_maker.shares(), oid, sh)
    }

    /// Whether the engine's share count for `oid` stays in range after `sh`.
    pub open spec fn fits_engine(&self, oid: int, sh: int) -> bool {
        -Q_MAX <= self.market_maker.shares()[oid] + sh <= Q_MAX
    }

    /// Whether the participant's holding for `oid` stays in range after `sh`.
    pub open spec fn fits_holding(&self, pi: int, oid: int, sh: int) -> bool {
        -Q_MAX <= self.portfolios@[pi].1.shares()[oid] + sh <= Q_MAX
    }

    /// What `trade` decides on a well-formed market: the exact error for
    /// every refused combination, or `Ok` with the cost that will be charged.
    pub open spec fn spec_trade_decision(&self, a: Seq<char>, oid: int, sh: int) -> Result<
        int,
        MarketError,
    > {
        if oid >= self.num_outcomes {
            Err(MarketError::InvalidOutcomeIndex)
        } else if !self.has_participant(a) {
            Err(MarketError::UnknownParticipant)
        } else {
            let pi = self.participant_index(a);
            let col = self.portfolios@[pi].1.collateral as int;
            let c = self.trade_cost(oid, sh);
            if !self.fits_engine(oid, sh) || !self.fits_holding(pi, oid, sh) {
                Err(MarketError::NumericOverflow)
            } else if col < c {
                Err(MarketError::InsufficientCollateral)
            } else if col - c > C_MAX {
                Err(MarketError::NumericOverflow)
            } else {
                Ok(c)
            }
        }
    }

    /// How a successful trade of `sh` shares of `oid` for participant `a`
    /// relates the new market state to the old: the cost moves out of the
    /// participant's collateral, the shares move into their holdings, and
    /// the engine's outstanding shares move in lockstep; nothing else changes.
    pub open spec fn spec_trade_applied(pre: Market, post: Market, a: Seq<char>, oid: int, sh: int) -> bool {
        let pi = pre.participant_index(a);
        let p = pre.portfolios@[pi];
        let c = pre.trade_cost(oid, sh);
        &&& post.num_outcomes == pre.num_outcomes
        &&& post.market_maker.b == pre.market_maker.b
        &&& post.market_maker.shares() == pre.market_maker.shares().update(
            oid,
            pre.market_maker.shares()[oid] + sh,
        )
        &&& post.portfolios@.len() == pre.portfolios@.len()
        &&& forall|j: int|
            0 <= j < pre.portfolios@.len() && j != pi ==> post.portfolios@[j]
                == pre.portfolios@[j]
        &&& post.portfolios@[pi].0 == p.0
        &&& post.portfolios@[pi].1.collateral == p.1.collateral - c
        &&& post.portfolios@[pi].1.shares() == p.1.shares().update(oid, p.1.shares()[oid] + sh)
    }

    /// Finds the participant with the given address.
    fn find_participant(&self, address: &String) -> (r: Option<usize>)
        requires
            self.wf(),
        ensures
            match r {
                Some(i) => {
                    &&& i < self.portfolios@.len()
                    &&& self.portfolios@[i as int].0@ == address@
                    &&& i as int == self.participant_index(address@)
                    &&& self.has_participant(address@)
                },
                None => !self.has_participant(address@),
            },
    {
        let n = self.portfolios.len();
        let mut i: usize = 0;
        while i < n
            invariant
                self.wf(),
                n == self.portfolios@.len(),
                0 <= i <= n,
                forall|j: int| 0 <= j < i ==> (#[trigger] self.portfolios@[j]).0@ != address@,
            decreases n - i,
        {
            let e = &self.portfolios[i];
            if e.0 == *address {
                proof {
                    assert(self.has_participant(address@));
                    let ci = self.participant_index(address@);
                    if ci < i as int {
                        assert(false);
                    } else if ci > i as int {
                        assert(false);
                    }
                }
                return Some(i);
            }
            i += 1;
        }
        None
    }

    /// Creates a market with the given liquidity and outcome count, with
    /// all-zero outstanding shares and no participants.
    pub fn new(b: i64, num_outcomes: usize) -> (r: Result<Market, MarketError>)
        ensures
            match r {
                Ok(m) => {
                    &&& 1 <= b <= B_MAX
                    &&& 1 <= num_outcomes <= N_MAX
                    &&& m.wf()
                    &&& m.market_maker.b == b
                    &&& m.num_outcomes == num_outcomes
                    &&& m.market_maker.outstanding_shares@.len() == num_outcomes
                    &&& forall|i: int| 0 <= i < num_outcomes ==> m.market_maker.shares()[i] == 0
                    &&& m.portfolios@.len() == 0
                },
                Err(MarketError::InvalidLiquidity) => b < 1 || b > B_MAX,
                Err(MarketError::InvalidOutcomeCount) => 1 <= b <= B_MAX && (num_outcomes < 1
                    || num_outcomes > N_MAX),
                Err(_) => false,
            },
    {
        match MarketMaker::new(b, num_outcomes) {
            Err(e) => Err(e),
            Ok(mm) => Ok(
                Market { market_maker: mm, portfolios: Vec::new(), num_outcomes },
            ),
        }
    }

    /// Adds `amount` of collateral to the participant's balance, lazily
    /// creating an all-zero position on first deposit.  Negative amounts are
    /// refused; so is a balance that would leave the supported range.
    pub fn add_collateral(&mut self, address: String, amount: i64) -> (r: Result<
        (),
        MarketError,
    >)
        requires
            old(self).wf(),
        ensures
            final(self).wf(),
            match r {
                Ok(_) => {
                    &&& amount >= 0
                    &&& final(self).market_maker == old(self).market_maker
                    &&& final(self).num_outcomes == old(self).num_outcomes
                    &&& if old(self).has_participant(address@) {
                        let pi = old(self).participant_index(address@);
                        let p = old(self).portfolios@[pi];
                        &&& p.1.collateral + amount <= C_MAX
                        &&& final(self).portfolios@.len() == old(self).portfolios@.len()
                        &&& forall|j: int|
                            0 <= j < old(self).portfolios@.len() && j != pi ==> final(self).portfolios@[j] == old(self).portfolios@[j]
                        &&& final(self).portfolios@[pi].0 == p.0
                        &&& final(self).portfolios@[pi].1.collateral == p.1.collateral + amount
                        &&& final(self).portfolios@[pi].1.outcome_shares
                            == p.1.outcome_shares
                    } else {
                        &&& amount <= C_MAX
                        &&& final(self).portfolios@.len() == old(self).portfolios@.len() + 1
                        &&& forall|j: int|
                            0 <= j < old(self).portfolios@.len() ==> final(self).portfolios@[j]
                                == old(self).portfolios@[j]
                        &&& final(self).portfolios@.last().0@ == address@
                        &&& final(self).portfolios@.last().1.collateral == amount
                        &&& forall|k: int|
                            0 <= k < old(self).num_outcomes ==> final(self).portfolios@.last().1.shares()[k] == 0
                    }
                },
                Err(MarketError::InvalidAmount) => amount < 0 && *final(self) == *old(self),
                Err(MarketError::NumericOverflow) => {
                    &&& amount >= 0
                    &&& *final(self) == *old(self)
                    &&& if old(self).has_participant(address@) {
                        old(self).portfolios@[old(self).participant_index(address@)].1.collateral
                            + amount > C_MAX
                    } else {
                        amount > C_MAX
                    }
                },
                Err(_) => false,
            },
    {
        if amount < 0 {
            return Err(MarketError::InvalidAmount);
        }
        match self.find_participant(&address) {
            Some(i) => {
                let col = self.portfolios[i].1.collateral;
                if col > C_MAX - amount {
                    return Err(MarketError::NumericOverflow);
                }
                let mut entry = self.portfolios.remove(i);
                entry.1.collateral = col + amount;
                self.portfolios.insert(i, entry);
                proof {
                    assert(forall|j: int|
                        0 <= j < old(self).portfolios@.len() && j != i as int ==> self.portfolios@[j]
                            == old(self).portfolios@[j]);
                }
                Ok(())
            },
            None => {
                if amount > C_MAX {
                    return Err(MarketError::NumericOverflow);
                }
                let shares = zero_shares(self.num_outcomes);
                self.portfolios.push(
                    (address, Portfolio { outcome_shares: shares, collateral: amount }),
                );
                Ok(())
            },
        }
    }

    /// Applies a trade of `shares` of outcome `outcome_id` for the given
    /// participant: charges the cost against their collateral and moves the
    /// shares, or declines with the exact reason and changes nothing.
    /// On success the returned value is the cost that was charged.
    pub fn trade(&mut self, address: String, outcome_id: usize, shares: i64) -> (r: Result<
        i64,
        MarketError,
    >)
        requires
            old(self).wf(),
        ensures
            final(self).wf(),
            match r {
                Ok(c) => {
                    &&& Ok::<int, MarketError>(c as int) == old(self).spec_trade_decision(
                        address@,
                        outcome_id as int,
                        shares as int,
                    )
                    &&& Market::spec_trade_applied(
                        *old(self),
                        *final(self),
                        address@,
                        outcome_id as int,
                        shares as int,
                    )
                },
                Err(e) => {
                    &&& Err::<int, MarketError>(e) == old(self).spec_trade_decision(
                        address@,
                        outcome_id as int,
                        shares as int,
                    )
                    &&& *final(self) == *old(self)
                },
            },
    {
        if outcome_id >= self.num_outcomes {
            return Err(MarketError::InvalidOutcomeIndex);
        }
        let pi = match self.find_participant(&address) {
            Some(i) => i,
            None => {
                return Err(MarketError::UnknownParticipant);
            },
        };
        let cost = match self.market_maker.cost_to_trade(outcome_id, shares) {
            Ok(c) => c,
            Err(_) => {
                return Err(MarketError::NumericOverflow);
            },
        };
        let h = self.portfolios[pi].1.outcome_shares[outcome_id];
        proof {
            assert(self.portfolios@[pi as int].1.shares()[outcome_id as int]
                == self.portfolios@[pi as int].1.outcome_shares@[outcome_id as int] as int);
        }
        let nh: i128 = (h as i128) + (shares as i128);
        if nh < -(Q_MAX as i128) || nh > (Q_MAX as i128) {
            return Err(MarketError::NumericOverflow);
        }
        let col = self.portfolios[pi].1.collateral;
        if col < cost {
            return Err(MarketError::InsufficientCollateral);
        }
        let ncol: i64 = col - cost;
        if ncol > C_MAX {
            return Err(MarketError::NumericOverflow);
        }
        let mut entry = self.portfolios.remove(pi);
        entry.1.outcome_shares[outcome_id] = (nh as i64);
        entry.1.collateral = ncol;
        self.portfolios.insert(pi, entry);
        self.market_maker.trade(outcome_id, shares);
        proof {
            assert(forall|j: int|
                0 <= j < old(self).portfolios@.len() && j != pi as int ==> self.portfolios@[j]
                    == old(self).portfolios@[j]);
            assert(self.portfolios@[pi as int].1.shares() =~= old(self).portfolios@[pi
                as int].1.shares().update(
                outcome_id as int,
                old(self).portfolios@[pi as int].1.shares()[outcome_id as int] + shares as int,
            ));
        }
        Ok(cost)
    }

    /// A bounded-slippage buy: computes the share quantity that would move
    /// the price of `outcome_id` up to `max_price`, and trades the smaller
    /// of that quantity and `shares`.  Only buys: negative `shares` are
    /// refused.  On success the returned value is the quantity traded.
    pub fn buy_with_max_price(
        &mut self,
        address: String,
        outcome_id: usize,
        shares: i64,
        max_price: i64,
    ) -> (r: Result<i64, MarketError>)
        requires
            old(self).wf(),
        ensures
            final(self).wf(),
            shares < 0 ==> r == Err::<i64, MarketError>(MarketError::InvalidAmount) && *final(self) == *old(self),
            shares >= 0 && outcome_id >= old(self).num_outcomes ==> r == Err::<
                i64,
                MarketError,
            >(MarketError::InvalidOutcomeIndex) && *final(self) == *old(self),
            shares >= 0 && outcome_id < old(self).num_outcomes && !(1 <= max_price <= SCALE - 1)
                ==> r == Err::<i64, MarketError>(MarketError::InvalidPriceTarget) && *final(self)
                == *old(self),
            shares >= 0 && outcome_id < old(self).num_outcomes && 1 <= max_price <= SCALE - 1
                && !(1 <= old(self).spec_current_price(outcome_id as int) <= SCALE - 1) ==> r
                == Err::<i64, MarketError>(MarketError::NumericOverflow) && *final(self) == *old(self),
            (shares >= 0 && outcome_id < old(self).num_outcomes && 1 <= max_price <= SCALE - 1
                && 1 <= old(self).spec_current_price(outcome_id as int) <= SCALE - 1) ==> {
                let amt = old(self).spec_buy_amount(outcome_id as int, shares as int,
                    max_price as int);
                match r {
                    Ok(a) => {
                        &&& a == amt
                        &&& old(self).spec_trade_decision(address@, outcome_id as int, amt)
                            is Ok
                        &&& Market::spec_trade_applied(
                            *old(self),
                            *final(self),
                            address@,
                            outcome_id as int,
                            amt,
                        )
                    },
                    Err(e) => {
                        &&& Err::<int, MarketError>(e) == old(self).spec_trade_decision(
                            address@,
                            outcome_id as int,
                            amt,
                        )
                        &&& *final(self) == *old(self)
                    },
                }
            },
    {
        if shares < 0 {
            return Err(MarketError::InvalidAmount);
        }
        if outcome_id >= self.num_outcomes {
            return Err(MarketError::InvalidOutcomeIndex);
        }
        let shares_to_max = match self.market_maker.shares_to_set_price(outcome_id, max_price) {
            Ok(d) => d,
            Err(e) => {
                return Err(e);
            },
        };
        let amount = if shares_to_max < shares {
            shares_to_max
        } else {
            shares
        };
        match self.trade(address, outcome_id, amount) {
            Ok(_c) => Ok(amount),
            Err(e) => Err(e),
        }
    }

    /// The current price of outcome `oid`, as the engine computes it.
    pub open spec fn spec_current_price(&self, oid: int) -> int {
        spec_price(self.market_maker.b as int, self.market_maker.shares(), oid)
    }

    /// The quantity `buy_with_max_price` will trade: the smaller of the
    /// requested size and the quantity that brings the price to the cap.
    pub open spec fn spec_buy_amount(&self, oid: int, shares: int, max_price: int) -> int {
        let d = spec_shares_delta(
            self.market_maker.b as int,
            self.spec_current_price(oid),
            max_price,
        );
        if d < shares {
            d
        } else {
            shares
        }
    }
}

/// Sum over the first `k` participants of their holdings of outcome `oid`.
pub open spec fn holdings_sum_upto(ps: Seq<(String, Portfolio)>, oid: int, k: nat) -> int
    decreases k,
{
    if k == 0 {
        0
    } else {
        holdings_sum_upto(ps, oid, (k - 1) as nat) + ps[k - 1].1.shares()[oid]
    }
}

/// Sum over all participants of their holdings of outcome `oid`.
pub open spec fn holdings_sum(ps: Seq<(String, Portfolio)>, oid: int) -> int {
    holdings_sum_upto(ps, oid, ps.len())
}

/// The ledger moves in lockstep with the engine: for every outcome, the
/// participants' holdings sum to the engine's outstanding shares.
pub open spec fn in_lockstep(m: Market) -> bool {
    forall|oid: int|
        0 <= oid < m.num_outcomes ==> holdings_sum(m.portfolios@, oid)
            == m.market_maker.shares()[oid]
}

/// A freshly created market is in lockstep: it has no participants and
/// all-zero outstanding shares.
pub proof fn lemma_new_market_in_lockstep(m: Market)
    requires
        m.portfolios@.len() == 0,
        forall|oid: int| 0 <= oid < m.num_outcomes ==> m.market_maker.shares()[oid] == 0,
    ensures
        in_lockstep(m),
{
}

/// How the per-outcome holding sums change when exactly one participant's
/// holdings change, and only at one outcome.
proof fn lemma_holdings_sum_update(
    pre: Seq<(String, Portfolio)>,
    post: Seq<(String, Portfolio)>,
    pi: int,
    oid: int,
    o: int,
    sh: int,
    k: nat,
)
    requires
        post.len() == pre.len(),
        0 <= pi < pre.len(),
        k <= pre.len(),
        forall|j: int| 0 <= j < pre.len() && j != pi ==> post[j] == pre[j],
        post[pi].1.shares() == pre[pi].1.shares().update(oid, pre[pi].1.shares()[oid] + sh),
        0 <= oid < pre[pi].1.shares().len(),
        0 <= o < pre[pi].1.shares().len(),
    ensures
        holdings_sum_upto(post, o, k) == holdings_sum_upto(pre, o, k) + if o == oid && k > pi {
            sh
        } else {
            0
        },
    decreases k,
{
    if k > 0 {
        lemma_holdings_sum_update(pre, post, pi, oid, o, sh, (k - 1) as nat);
    }
}

/// Every successful trade keeps the ledger in lockstep with the engine:
/// the shares added to the participant's holdings are exactly the shares
/// added to the engine's outstanding shares.
pub proof fn lemma_trade_keeps_lockstep(
    pre: Market,
    post: Market,
    a: Seq<char>,
    oid: int,
    sh: int,
)
    requires
        pre.wf(),
        0 <= oid < pre.num_outcomes,
        pre.has_participant(a),
        Market::spec_trade_applied(pre, post, a, oid, sh),
        in_lockstep(pre),
    ensures
        in_lockstep(post),
{
    let pi = pre.participant_index(a);
    assert(0 <= pi < pre.portfolios@.len());
    assert forall|o: int| 0 <= o < post.num_outcomes implies holdings_sum(post.portfolios@, o)
        == post.market_maker.shares()[o] by {
        lemma_holdings_sum_update(
            pre.portfolios@,
            post.portfolios@,
            pi,
            oid,
            o,
            sh,
            pre.portfolios@.len(),
        );
    }
}

/// Deposits keep the ledger in lockstep: no holding and no outstanding
/// share changes.  Covers both an existing participant (a collateral-only
/// update) and a newly created all-zero position.
pub proof fn lemma_deposit_keeps_lockstep(pre: Market, post: Market, a: Seq<char>)
    requires
        pre.wf(),
        post.num_outcomes == pre.num_outcomes,
        post.market_maker == pre.market_maker,
        in_lockstep(pre),
        if pre.has_participant(a) {
            &&& post.portfolios@.len() == pre.portfolios@.len()
            &&& forall|j: int|
                0 <= j < pre.portfolios@.len() && j != pre.participant_index(a)
                    ==> post.portfolios@[j] == pre.portfolios@[j]
            &&& post.portfolios@[pre.participant_index(a)].1.outcome_shares
                == pre.portfolios@[pre.participant_index(a)].1.outcome_shares
        } else {
            &&& post.portfolios@.len() == pre.portfolios@.len() + 1
            &&& forall|j: int|
                0 <= j < pre.portfolios@.len() ==> post.portfolios@[j] == pre.portfolios@[j]
            &&& forall|k: int|
                0 <= k < pre.num_outcomes ==> post.portfolios@.last().1.shares()[k] == 0
        },
    ensures
        in_lockstep(post),
{
    assert(forall|j: int|
        0 <= j < pre.portfolios@.len() ==> (#[trigger] post.portfolios@[j]).1.shares()
            == pre.portfolios@[j].1.shares());
    assert forall|o: int| 0 <= o < post.num_outcomes implies holdings_sum(post.portfolios@, o)
        == post.market_maker.shares()[o] by {
        lemma_holdings_sum_same_shares(pre.portfolios@, post.portfolios@, o, pre.portfolios@.len());
        if !pre.has_participant(a) {
            assert(holdings_sum_upto(post.portfolios@, o, post.portfolios@.len())
                == holdings_sum_upto(post.portfolios@, o, pre.portfolios@.len())
                + post.portfolios@.last().1.shares()[o]);
        }
    }
}

/// The holding sums agree on a prefix where every participant's holdings
/// agree.
proof fn lemma_holdings_sum_same_shares(
    pre: Seq<(String, Portfolio)>,
    post: Seq<(String, Portfolio)>,
    o: int,
    k: nat,
)
    requires
        k <= pre.len(),
        k <= post.len(),
        forall|j: int| 0 <= j < k ==> (#[trigger] post[j]).1.shares() == pre[j].1.shares(),
    ensures
        holdings_sum_upto(post, o, k) == holdings_sum_upto(pre, o, k),
    decreases k,
{
    if k > 0 {
        lemma_holdings_sum_same_shares(pre, post, o, (k - 1) as nat);
    }
}

/// A vector of `n` zero share counts.
fn zero_shares(n: usize) -> (r: Vec<i64>)
    ensures
        r@.len() == n,
        forall|i: int| 0 <= i < n ==> r@[i] == 0i64,
{
    let mut out: Vec<i64> = Vec::new();
    let mut i: usize = 0;
    while i < n
        invariant
            0 <= i <= n,
            out@.len() == i,
            forall|j: int| 0 <= j < i ==> out@[j] == 0i64,
        decreases n - i,
    {
        out.push(0i64);
        i += 1;
    }
    out
}

} // verus!
