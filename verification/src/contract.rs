//! The prediction-market ledger: registry, bet accumulation, settlement,
//! and withdrawal, as pure state transitions.
//!
//! The ledger never reads ambient state and never moves money itself: the
//! caller's identity and attached deposit arrive in a [`CallContext`], and
//! settlement and withdrawal return the transfer instructions for the host
//! to execute.

use vstd::prelude::*;

use crate::market::{Bet, BetView, Market, MarketView};
use crate::market::{
    bets_valid, lemma_bet_le_winner_stake, lemma_sum_amounts_push, lemma_sum_amounts_take_step,
    lemma_take_le, lemma_winner_stake_take_step, market_wf, spec_new_market, spec_place_bet,
    spec_settle_market, sum_amounts, winner_stake,
};
use crate::math::mul_div_floor;
use crate::settlement::{
    lemma_payouts_le_pool, lemma_winner_payouts_take_step, payout_amount, payout_schedule,
    payout_views, sum_payouts, winner_payouts,
};

verus! {

/// Why a ledger operation was refused. Every refusal leaves the ledger
/// exactly as it was.
#[derive(Clone, Copy, Debug, PartialEq, Eq, Structural)]
pub enum MarketError {
    /// No market exists under the given identifier.
    NotFound,
    /// The market was already settled; it cannot take bets or settle again.
    AlreadyResolved,
    /// The market has not been settled yet, so there is nothing to withdraw.
    NotResolved,
    /// Only the market's creator may withdraw its funds.
    Unauthorized,
}

/// The context of one call into the ledger: who is calling, and how much
/// currency the call carries. The host that receives calls fills this in;
/// the ledger trusts that the attached deposit was already escrowed.
pub struct CallContext {
    /// Identity of the account making the call.
    pub caller: String,
    /// Value attached to the call, in the currency's smallest unit.
    pub attached_deposit: u128,
}

/// The prediction-market ledger: all markets, keyed by their sequential
/// identifier, plus the counter that allocates the next one.
pub struct PredictionMarketContract {
    markets: Vec<Market>,
    market_count: u64,
}

impl View for PredictionMarketContract {
    type V = Seq<MarketView>;

    closed spec fn view(&self) -> Seq<MarketView> {
        self.markets@.map_values(|m: Market| m@)
    }
}

impl PredictionMarketContract {
    /// Well-formedness of the whole ledger as seen through its view:
    /// market `i` is stored at position `i`, and every market record is
    /// itself well-formed.
    pub open spec fn ledger_inv(s: Seq<MarketView>) -> bool {
        &&& forall|i: int| 0 <= i < s.len() ==> (#[trigger] s[i]).id == i
        &&& forall|i: int| 0 <= i < s.len() ==> market_wf(#[trigger] s[i])
    }

    /// Well-formedness of the ledger: the view invariant, plus the hidden
    /// fact that the allocation counter matches the number of stored markets.
    pub closed spec fn wf(&self) -> bool {
        &&& self.market_count as int == self@.len()
        &&& Self::ledger_inv(self@)
    }

    /// A well-formed ledger satisfies the view-level invariant.
    pub proof fn lemma_wf_ledger_inv(&self)
        requires
            self.wf(),
        ensures
            Self::ledger_inv(self@),
    {
    }

    /// Creates an empty ledger with no markets.
    pub fn new() -> (s: Self)
        ensures
            s.wf(),
            s@ =~= Seq::<MarketView>::empty(),
    {
        PredictionMarketContract { markets: Vec::new(), market_count: 0 }
    }

    /// Creates a new market for `description` with the given outcome
    /// labels, owned by the calling identity, and returns its identifier:
    /// the next sequential one, starting at 0. The outcome labels are not
    /// validated — they may be empty or duplicated. The new market is open,
    /// has no bets, and an empty pool.
    pub fn create_market(
        &mut self,
        ctx: &CallContext,
        description: String,
        outcomes: Vec<String>,
    ) -> (id: u64)
        requires
            old(self).wf(),
            old(self)@.len() < u64::MAX,
        ensures
            final(self).wf(),
            id as int == old(self)@.len(),
            final(self)@ == old(self)@.push(
                spec_new_market(id as int, description@, outcomes.deep_view(), ctx.caller@),
            ),
    {
        let id: u64 = self.market_count;
        let market = Market {
            id: id,
            description: description,
            outcomes: outcomes,
            bets: Vec::new(),
            resolved: false,
            winning_outcome: None,
            total_staked: 0,
            creator: ctx.caller.clone(),
        };
        let ghost prior: Seq<MarketView> = self@;
        let ghost mv: MarketView = market@;
        self.markets.push(market);
        self.market_count = id + 1;
        proof {
            assert(mv.bets =~= Seq::<BetView>::empty());
            assert(mv == spec_new_market(id as int, description@, outcomes.deep_view(), ctx.caller@));
            assert(self@ =~= prior.push(mv));
        }
        id
    }

    /// Places a bet by the calling identity on `prediction`, staking the
    /// deposit attached to the call. Fails with `NotFound` if no market
    /// exists under `market_id`, and with `AlreadyResolved` if the market
    /// has settled; a refused bet changes nothing. An accepted bet is
    /// appended to the market's bets and grows the pool by exactly the
    /// attached amount. The predicted label need not be one of the
    /// market's declared outcomes.
    pub fn place_bet(
        &mut self,
        ctx: &CallContext,
        market_id: u64,
        prediction: String,
    ) -> (r: Result<(), MarketError>)
        requires
            old(self).wf(),
            (market_id as int) < old(self)@.len() && !old(self)@[market_id as int].resolved
                ==> old(self)@[market_id as int].total_staked + ctx.attached_deposit
                <= u128::MAX,
        ensures
            final(self).wf(),
            market_id as int >= old(self)@.len() ==> r == Err::<(), MarketError>(
                MarketError::NotFound,
            ) && final(self)@ == old(self)@,
            (market_id as int) < old(self)@.len() && old(self)@[market_id as int].resolved ==> r
                == Err::<(), MarketError>(MarketError::AlreadyResolved) && final(self)@ == old(self)@,
            (market_id as int) < old(self)@.len() && !old(self)@[market_id as int].resolved ==> r
                == Ok::<(), MarketError>(()) && final(self)@ == old(self)@.update(
                market_id as int,
                spec_place_bet(
                    old(self)@[market_id as int],
                    ctx.caller@,
                    ctx.attached_deposit as int,
                    prediction@,
                ),
            ),
    {
        let n: usize = self.markets.len();
        if market_id >= self.market_count {
            return Err(MarketError::NotFound);
        }
        proof {
            assert((market_id as int) < n as int);
        }
        let idx: usize = market_id as usize;
        if self.markets[idx].resolved {
            return Err(MarketError::AlreadyResolved);
        }
        let bet = Bet {
            bettor: ctx.caller.clone(),
            amount: ctx.attached_deposit,
            prediction: prediction,
        };
        let ghost prior: Seq<MarketView> = self@;
        let ghost betv: BetView = bet@;
        let m: &mut Market = &mut self.markets[idx];
        m.bets.push(bet);
        m.total_staked = m.total_staked + ctx.attached_deposit;
        proof {
            let updated = spec_place_bet(
                prior[idx as int],
                ctx.caller@,
                ctx.attached_deposit as int,
                prediction@,
            );
            assert(self@ =~= prior.update(idx as int, updated)) by {
                assert(self@[idx as int].bets =~= updated.bets);
                assert(self@[idx as int] == updated);
            }
            lemma_sum_amounts_push(prior[idx as int].bets, betv);
            assert(market_wf(updated)) by {
                assert(bets_valid(updated.bets)) by {
                    assert(forall|i: int|
                        0 <= i < prior[idx as int].bets.len() ==> updated.bets[i] == prior[
                            idx as int
                        ].bets[i]);
                }
            }
        }
        Ok(())
    }

    /// Settles a market: records `winning_outcome`, marks the market
    /// resolved, and returns the transfer instructions that pay the whole
    /// pool pro rata to the bets that predicted that outcome, each share
    /// truncated to a whole currency unit. Fails with `NotFound` if no
    /// market exists under `market_id` and with `AlreadyResolved` if it
    /// has already settled — settlement is deliberately not idempotent —
    /// and then changes nothing. The outcome is recorded even if no bet
    /// (or no stake) predicted it; in that case no transfers are emitted
    /// and the pool stays withdrawable by the creator. The instructions
    /// together never exceed the pool. Settlement leaves the bets and the
    /// `total_staked` field untouched.
    pub fn settle_market(
        &mut self,
        market_id: u64,
        winning_outcome: String,
    ) -> (r: Result<Vec<(String, u128)>, MarketError>)
        requires
            old(self).wf(),
        ensures
            final(self).wf(),
            market_id as int >= old(self)@.len() ==> r == Err::<Vec<(String, u128)>, MarketError>(
                MarketError::NotFound,
            ) && final(self)@ == old(self)@,
            (market_id as int) < old(self)@.len() && old(self)@[market_id as int].resolved ==> r
                == Err::<Vec<(String, u128)>, MarketError>(MarketError::AlreadyResolved) && final(self)@ == old(self)@,
            (market_id as int) < old(self)@.len() && !old(self)@[market_id as int].resolved ==> {
                &&& final(self)@ == old(self)@.update(
                    market_id as int,
                    spec_settle_market(old(self)@[market_id as int], winning_outcome@),
                )
                &&& r matches Ok(ps) && payout_views(ps@) == payout_schedule(
                    old(self)@[market_id as int].bets,
                    winning_outcome@,
                    old(self)@[market_id as int].total_staked,
                )
                &&& r matches Ok(ps) && sum_payouts(payout_views(ps@)) <= old(self)@[market_id as int].total_staked
            },
    {
        let n: usize = self.markets.len();
        if market_id >= self.market_count {
            return Err(MarketError::NotFound);
        }
        proof {
            assert((market_id as int) < n as int);
        }
        let idx: usize = market_id as usize;
        if self.markets[idx].resolved {
            return Err(MarketError::AlreadyResolved);
        }
        let ghost mv: MarketView = self@[idx as int];
        proof {
            assert(market_wf(mv));
        }
        let pool: u128 = self.markets[idx].total_staked;
        let nbets: usize = self.markets[idx].bets.len();

        // Total stake on the declared winning outcome.
        let mut wstake: u128 = 0;
        let mut j: usize = 0;
        while j < nbets
            invariant
                self.wf(),
                (idx as int) < self@.len(),
                self@[idx as int] == mv,
                market_wf(mv),
                !mv.resolved,
                nbets == mv.bets.len(),
                pool as int == mv.total_staked,
                j <= nbets,
                wstake as int == winner_stake(mv.bets.take(j as int), winning_outcome@),
                wstake as int <= sum_amounts(mv.bets.take(j as int)),
            decreases nbets - j,
        {
            proof {
                lemma_take_le(mv.bets, winning_outcome@, j as int);
                lemma_take_le(mv.bets, winning_outcome@, j as int + 1);
                lemma_sum_amounts_take_step(mv.bets, j as int);
                lemma_winner_stake_take_step(mv.bets, winning_outcome@, j as int);
            }
            let b: &Bet = &self.markets[idx].bets[j];
            if b.prediction == winning_outcome {
                wstake = wstake + b.amount;
            }
            j = j + 1;
        }
        proof {
            assert(mv.bets.take(nbets as int) =~= mv.bets);
        }

        // One transfer instruction per winning bet, in bet order.
        let mut payouts: Vec<(String, u128)> = Vec::new();
        if wstake > 0 {
            let mut i: usize = 0;
            while i < nbets
                invariant
                    self.wf(),
                    (idx as int) < self@.len(),
                    self@[idx as int] == mv,
                    market_wf(mv),
                    nbets == mv.bets.len(),
                    pool as int == mv.total_staked,
                    0 < wstake,
                    wstake as int == winner_stake(mv.bets, winning_outcome@),
                    i <= nbets,
                    payout_views(payouts@) == winner_payouts(
                        mv.bets.take(i as int),
                        winning_outcome@,
                        pool as int,
                        wstake as int,
                    ),
                decreases nbets - i,
            {
                proof {
                    lemma_winner_payouts_take_step(
                        mv.bets,
                        winning_outcome@,
                        pool as int,
                        wstake as int,
                        i as int,
                    );
                }
                let b: &Bet = &self.markets[idx].bets[i];
                if b.prediction == winning_outcome {
                    proof {
                        lemma_bet_le_winner_stake(mv.bets, winning_outcome@, i as int);
                    }
                    let pay: u128 = mul_div_floor(pool, b.amount, wstake);
                    let ghost prior_p: Seq<(String, u128)> = payouts@;
                    payouts.push((b.bettor.clone(), pay));
                    proof {
                        assert(payout_views(payouts@) =~= winner_payouts(
                            mv.bets.take(i as int),
                            winning_outcome@,
                            pool as int,
                            wstake as int,
                        ).push((mv.bets[i as int].bettor, payout_amount(
                            pool as int,
                            mv.bets[i as int].amount,
                            wstake as int,
                        ))));
                        assert(winner_payouts(
                            mv.bets.take(i as int + 1),
                            winning_outcome@,
                            pool as int,
                            wstake as int,
                        ) =~= winner_payouts(
                            mv.bets.take(i as int),
                            winning_outcome@,
                            pool as int,
                            wstake as int,
                        ).push((mv.bets[i as int].bettor, payout_amount(
                            pool as int,
                            mv.bets[i as int].amount,
                            wstake as int,
                        ))));
                    }
                }
                i = i + 1;
            }
            proof {
                assert(mv.bets.take(nbets as int) =~= mv.bets);
            }
        }

        // Record the outcome and mark the market resolved.
        let ghost wo: Seq<char> = winning_outcome@;
        let ghost prior: Seq<MarketView> = self@;
        let m: &mut Market = &mut self.markets[idx];
        m.resolved = true;
        m.winning_outcome = Some(winning_outcome);
        proof {
            let updated = spec_settle_market(mv, wo);
            assert(self@[idx as int].bets =~= updated.bets);
            assert(self@[idx as int] == updated);
            assert(self@ =~= prior.update(idx as int, updated));
            assert(market_wf(updated));
            lemma_payouts_le_pool(mv.bets, wo, pool as int);
            if wstake == 0 {
                assert(payout_views(payouts@) =~= payout_schedule(mv.bets, wo, mv.total_staked));
            }
        }
        Ok(payouts)
    }

    /// Lets the market's creator sweep the market's accounting pool after
    /// settlement: returns the current `total_staked` as the amount to
    /// transfer to the caller, then zeroes the field, so a second
    /// withdrawal sweeps zero (it is not an error). Settlement does not
    /// deduct its payout instructions from this field; how much of the
    /// swept value is still escrowed — the rounding residual, or the whole
    /// pool when no stake predicted the winning outcome — is the host's
    /// accounting. Fails with `NotFound` if no market exists under
    /// `market_id`, with `NotResolved` before settlement, and with
    /// `Unauthorized` for any caller but the market's creator; a refused
    /// withdrawal changes nothing.
    pub fn withdraw_funds(&mut self, ctx: &CallContext, market_id: u64) -> (r: Result<
        u128,
        MarketError,
    >)
        requires
            old(self).wf(),
        ensures
            final(self).wf(),
            market_id as int >= old(self)@.len() ==> r == Err::<u128, MarketError>(
                MarketError::NotFound,
            ) && final(self)@ == old(self)@,
            (market_id as int) < old(self)@.len() && !old(self)@[market_id as int].resolved ==> r
                == Err::<u128, MarketError>(MarketError::NotResolved) && final(self)@ == old(self)@,
            (market_id as int) < old(self)@.len() && old(self)@[market_id as int].resolved
                && ctx.caller@ != old(self)@[market_id as int].creator ==> r == Err::<
                u128,
                MarketError,
            >(MarketError::Unauthorized) && final(self)@ == old(self)@,
            (market_id as int) < old(self)@.len() && old(self)@[market_id as int].resolved
                && ctx.caller@ == old(self)@[market_id as int].creator ==> {
                &&& r == Ok::<u128, MarketError>(
                    old(self)@[market_id as int].total_staked as u128,
                )
                &&& final(self)@ == old(self)@.update(
                    market_id as int,
                    MarketView { total_staked: 0, ..old(self)@[market_id as int] },
                )
            },
    {
        let n: usize = self.markets.len();
        if market_id >= self.market_count {
            return Err(MarketError::NotFound);
        }
        proof {
            assert((market_id as int) < n as int);
        }
        let idx: usize = market_id as usize;
        if !self.markets[idx].resolved {
            return Err(MarketError::NotResolved);
        }
        if !(ctx.caller == self.markets[idx].creator) {
            return Err(MarketError::Unauthorized);
        }
        let ghost prior: Seq<MarketView> = self@;
        let m: &mut Market = &mut self.markets[idx];
        let amount: u128 = m.total_staked;
        m.total_staked = 0;
        proof {
            let updated = MarketView { total_staked: 0, ..prior[idx as int] };
            assert(self@[idx as int].bets =~= updated.bets);
            assert(self@[idx as int] == updated);
            assert(self@ =~= prior.update(idx as int, updated));
            assert(market_wf(updated));
        }
        Ok(amount)
    }

    /// Returns the page of markets whose identifiers lie in
    /// `[from_index, min(from_index + limit, count))`, each paired with
    /// its identifier, in identifier order. Never fails: a `from_index`
    /// beyond the last market yields an empty page. A pure read.
    pub fn get_markets(&self, from_index: u64, limit: u64) -> (r: Vec<(u64, Market)>)
        requires
            self.wf(),
        ensures
            r@.len() == if (from_index as int) < self@.len() {
                vstd::math::min(limit as int, self@.len() - from_index)
            } else {
                0
            },
            forall|k: int|
                0 <= k < r@.len() ==> (#[trigger] r@[k]).0 as int == from_index + k && r@[k].1@
                    == self@[from_index + k],
    {
        let mut out: Vec<(u64, Market)> = Vec::new();
        if from_index >= self.market_count {
            return out;
        }
        let n: usize = self.markets.len();
        let remaining: u64 = self.market_count - from_index;
        let take_n: u64 = if limit < remaining {
            limit
        } else {
            remaining
        };
        let mut j: u64 = 0;
        while j < take_n
            invariant
                self.wf(),
                n as int == self@.len(),
                from_index as int + take_n as int <= self@.len(),
                j <= take_n,
                out@.len() == j as int,
                forall|k: int|
                    0 <= k < j as int ==> (#[trigger] out@[k]).0 as int == from_index + k
                        && out@[k].1@ == self@[from_index + k],
            decreases take_n - j,
        {
            let idx64: u64 = from_index + j;
            proof {
                assert((idx64 as int) < n as int);
            }
            let copy: Market = self.markets[idx64 as usize].duplicate();
            out.push((idx64, copy));
            j = j + 1;
        }
        out
    }

    /// Returns the current pool of the given market, or `NotFound` if no
    /// market exists under that identifier. A pure read.
    pub fn get_total_staked(&self, market_id: u64) -> (r: Result<u128, MarketError>)
        requires
            self.wf(),
        ensures
            market_id < self@.len() ==> r == Ok::<u128, MarketError>(
                self@[market_id as int].total_staked as u128,
            ),
            market_id as int >= self@.len() ==> r == Err::<u128, MarketError>(
                MarketError::NotFound,
            ),
    {
        let n: usize = self.markets.len();
        if market_id < self.market_count {
            proof {
                assert((market_id as int) < n as int);
            }
            let m: &Market = &self.markets[market_id as usize];
            Ok(m.total_staked)
        } else {
            Err(MarketError::NotFound)
        }
    }
}

} // verus!
