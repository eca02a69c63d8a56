//! The payout model of settlement.
//!
//! When a market settles, the whole pool — stakes of losers included — is
//! redistributed pro rata among the bets that predicted the winning
//! outcome: a bet of `amount` out of a winning stake of `wstake` receives
//! `floor(pool * amount / wstake)`. If nothing was staked on the winning
//! outcome the schedule is empty and the pool stays withdrawable by the
//! market's creator. Truncation may leave a residual; the payouts never
//! exceed the pool.

use vstd::prelude::*;

use crate::market::{bets_valid, winner_stake, BetView};
use crate::math::lemma_div_sum_le;

verus! {

use vstd::arithmetic::div_mod::lemma_div_multiples_vanish;

/// The amount paid to one winning bet: its proportional share of the
/// pool, truncated to a whole currency unit.
pub open spec fn payout_amount(pool: int, amount: int, wstake: int) -> int {
    (pool * amount) / wstake
}

/// The transfer instructions for the winning bets, in bet order:
/// one `(recipient, amount)` pair per bet predicting `outcome`.
pub open spec fn winner_payouts(
    bets: Seq<BetView>,
    outcome: Seq<char>,
    pool: int,
    wstake: int,
) -> Seq<(Seq<char>, int)>
    decreases bets.len(),
{
    if bets.len() == 0 {
        Seq::empty()
    } else {
        winner_payouts(bets.drop_last(), outcome, pool, wstake) + if bets.last().prediction
            == outcome {
            seq![(bets.last().bettor, payout_amount(pool, bets.last().amount, wstake))]
        } else {
            Seq::empty()
        }
    }
}

/// Everything settlement pays out: the winners' proportional shares, or
/// nothing at all when no stake predicted the winning outcome.
pub open spec fn payout_schedule(bets: Seq<BetView>, outcome: Seq<char>, pool: int) -> Seq<
    (Seq<char>, int),
> {
    if winner_stake(bets, outcome) == 0 {
        Seq::empty()
    } else {
        winner_payouts(bets, outcome, pool, winner_stake(bets, outcome))
    }
}

/// Total amount of a sequence of transfer instructions.
pub open spec fn sum_payouts(ps: Seq<(Seq<char>, int)>) -> int
    decreases ps.len(),
{
    if ps.len() == 0 {
        0
    } else {
        sum_payouts(ps.drop_last()) + ps.last().1
    }
}

/// The mathematical value of executable transfer instructions.
pub open spec fn payout_views(ps: Seq<(String, u128)>) -> Seq<(Seq<char>, int)> {
    ps.map_values(|p: (String, u128)| (p.0@, p.1 as int))
}

/// The winner payouts over a prefix grow by one instruction exactly when
/// the next bet predicts the outcome.
pub proof fn lemma_winner_payouts_take_step(
    bets: Seq<BetView>,
    outcome: Seq<char>,
    pool: int,
    wstake: int,
    i: int,
)
    requires
        0 <= i < bets.len(),
    ensures
        winner_payouts(bets.take(i + 1), outcome, pool, wstake) == winner_payouts(
            bets.take(i),
            outcome,
            pool,
            wstake,
        ) + if bets[i].prediction == outcome {
            seq![(bets[i].bettor, payout_amount(pool, bets[i].amount, wstake))]
        } else {
            Seq::<(Seq<char>, int)>::empty()
        },
{
    assert(bets.take(i + 1).drop_last() =~= bets.take(i));
    assert(bets.take(i + 1).last() == bets[i]);
}

/// Law: settlement never pays out more than the pool. The winners'
/// truncated shares sum to at most `pool * winner_stake / wstake`.
pub proof fn lemma_winner_payouts_sum(bets: Seq<BetView>, outcome: Seq<char>, pool: int, wstake: int)
    requires
        bets_valid(bets),
        0 <= pool,
        0 < wstake,
    ensures
        0 <= sum_payouts(winner_payouts(bets, outcome, pool, wstake)),
        sum_payouts(winner_payouts(bets, outcome, pool, wstake)) <= (pool * winner_stake(
            bets,
            outcome,
        )) / wstake,
    decreases bets.len(),
{
    crate::market::lemma_winner_stake_le_sum(bets, outcome);
    if bets.len() == 0 {
        assert((pool * 0) / wstake == 0) by (nonlinear_arith)
            requires
                0 < wstake,
        ;
    } else {
        let prefix = bets.drop_last();
        let b = bets.last();
        assert(bets_valid(prefix)) by {
            assert(forall|i: int| 0 <= i < prefix.len() ==> prefix[i] == bets[i]);
        }
        lemma_winner_payouts_sum(prefix, outcome, pool, wstake);
        crate::market::lemma_winner_stake_le_sum(prefix, outcome);
        assert(b == bets[bets.len() - 1]);
        if b.prediction == outcome {
            let ws0 = winner_stake(prefix, outcome);
            let s0 = winner_payouts(prefix, outcome, pool, wstake);
            let full = winner_payouts(bets, outcome, pool, wstake);
            assert(full.drop_last() =~= s0);
            assert(full.last() == (b.bettor, payout_amount(pool, b.amount, wstake)));
            assert(0 <= pool * ws0 && 0 <= pool * b.amount) by (nonlinear_arith)
                requires
                    0 <= pool,
                    0 <= ws0,
                    0 <= b.amount,
            ;
            lemma_div_sum_le(pool * ws0, pool * b.amount, wstake);
            assert(pool * ws0 + pool * b.amount == pool * (ws0 + b.amount)) by (nonlinear_arith);
        } else {
            assert(winner_payouts(bets, outcome, pool, wstake) =~= winner_payouts(
                prefix,
                outcome,
                pool,
                wstake,
            ));
        }
    }
}

/// Law: the whole payout schedule of a settlement sums to at most the
/// pool, whatever was bet and whichever outcome wins; when no stake
/// predicted the winning outcome it is empty.
pub proof fn lemma_payouts_le_pool(bets: Seq<BetView>, outcome: Seq<char>, pool: int)
    requires
        bets_valid(bets),
        0 <= pool,
    ensures
        0 <= sum_payouts(payout_schedule(bets, outcome, pool)),
        sum_payouts(payout_schedule(bets, outcome, pool)) <= pool,
        winner_stake(bets, outcome) == 0 ==> payout_schedule(bets, outcome, pool) =~= Seq::<
            (Seq<char>, int),
        >::empty(),
{
    let ws = winner_stake(bets, outcome);
    crate::market::lemma_winner_stake_le_sum(bets, outcome);
    if ws != 0 {
        lemma_winner_payouts_sum(bets, outcome, pool, ws);
        assert((ws * pool) / ws == pool) by {
            lemma_div_multiples_vanish(pool, ws);
        }
        assert(pool * ws == ws * pool) by (nonlinear_arith);
    }
}

} // verus!
