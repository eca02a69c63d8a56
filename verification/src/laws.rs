//! Laws relating sequences of ledger operations.
//!
//! The per-call contracts in [`crate::contract`] describe one transition
//! each; the proofs here compose them over arbitrarily many calls.

use vstd::prelude::*;

use crate::market::{spec_place_bet, spec_settle_market, sum_amounts, BetView, MarketView};

verus! {

/// The market after a sequence of accepted bets, oldest first: each one
/// appended by the transition that `place_bet` performs.
pub open spec fn spec_place_bets(m: MarketView, bets: Seq<BetView>) -> MarketView
    decreases bets.len(),
{
    if bets.len() == 0 {
        m
    } else {
        spec_place_bet(
            spec_place_bets(m, bets.drop_last()),
            bets.last().bettor,
            bets.last().amount,
            bets.last().prediction,
        )
    }
}

/// Law: after any sequence of accepted bets on a market, the pool has
/// grown by exactly the sum of the attached amounts, and the bets stand
/// appended in placement order. In particular, a market created empty
/// holds, after `N` accepted bets, a pool equal to the sum of the `N`
/// attached deposits.
pub proof fn lemma_total_staked_after_bets(m: MarketView, bets: Seq<BetView>)
    ensures
        spec_place_bets(m, bets).total_staked == m.total_staked + sum_amounts(bets),
        spec_place_bets(m, bets).bets == m.bets + bets,
    decreases bets.len(),
{
    if bets.len() == 0 {
        assert(m.bets + bets =~= m.bets);
    } else {
        lemma_total_staked_after_bets(m, bets.drop_last());
        assert(spec_place_bets(m, bets).bets =~= m.bets + bets) by {
            assert((m.bets + bets.drop_last()).push(bets.last()) =~= m.bets + bets);
        }
    }
}

/// Law: no transition ever clears the resolved flag. Placing a bet leaves
/// it as it was, and settlement sets it; once a market is resolved it
/// stays resolved, whatever is done to it afterwards.
pub proof fn lemma_resolution_is_permanent(
    m: MarketView,
    bettor: Seq<char>,
    amount: int,
    prediction: Seq<char>,
    outcome: Seq<char>,
)
    ensures
        spec_place_bet(m, bettor, amount, prediction).resolved == m.resolved,
        spec_settle_market(m, outcome).resolved,
        (MarketView { total_staked: 0, ..m }).resolved == m.resolved,
{
}

} // verus!
