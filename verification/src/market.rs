//! Markets and bets, with their mathematical model.
//!
//! A [`Bet`] stakes an amount on an outcome label; a [`Market`] owns an
//! append-only list of bets until it is resolved. Contracts are stated over
//! ghost views ([`BetView`], [`MarketView`]) whose amounts are unbounded
//! integers and whose labels are character sequences.

use vstd::prelude::*;

verus! {

/// A stake placed by one identity on one outcome label.
pub struct Bet {
    /// Identity of the account that placed the bet.
    pub bettor: String,
    /// Staked amount, in the currency's smallest unit.
    pub amount: u128,
    /// The outcome label the bettor predicts; compared to the winning
    /// outcome by exact, case-sensitive equality.
    pub prediction: String,
}

/// The mathematical value of a [`Bet`].
pub ghost struct BetView {
    pub bettor: Seq<char>,
    pub amount: int,
    pub prediction: Seq<char>,
}

impl View for Bet {
    type V = BetView;

    open spec fn view(&self) -> BetView {
        BetView {
            bettor: self.bettor@,
            amount: self.amount as int,
            prediction: self.prediction@,
        }
    }
}

/// A proposition with enumerated outcomes, accepting bets until resolved.
pub struct Market {
    /// Unique identifier, assigned sequentially starting at 0.
    pub id: u64,
    /// Free-text description of the proposition.
    pub description: String,
    /// Outcome labels declared at creation; not validated against bets.
    pub outcomes: Vec<String>,
    /// All bets ever placed, in placement order.
    pub bets: Vec<Bet>,
    /// Whether the market has been settled; never reverts once set.
    pub resolved: bool,
    /// The declared winning outcome; `Some` exactly when resolved.
    pub winning_outcome: Option<String>,
    /// The pool: the sum of all staked amounts, until the creator sweeps it.
    pub total_staked: u128,
    /// Identity of the account that created the market.
    pub creator: String,
}

/// The mathematical value of a [`Market`].
pub ghost struct MarketView {
    pub id: int,
    pub description: Seq<char>,
    pub outcomes: Seq<Seq<char>>,
    pub bets: Seq<BetView>,
    pub resolved: bool,
    pub winning_outcome: Option<Seq<char>>,
    pub total_staked: int,
    pub creator: Seq<char>,
}

impl View for Market {
    type V = MarketView;

    open spec fn view(&self) -> MarketView {
        MarketView {
            id: self.id as int,
            description: self.description@,
            outcomes: self.outcomes.deep_view(),
            bets: self.bets@.map_values(|b: Bet| b@),
            resolved: self.resolved,
            winning_outcome: match self.winning_outcome {
                Some(w) => Some(w@),
                None => None,
            },
            total_staked: self.total_staked as int,
            creator: self.creator@,
        }
    }
}

impl Bet {
    /// An exact copy of the bet.
    pub fn duplicate(&self) -> (r: Bet)
        ensures
            r@ == self@,
    {
        Bet {
            bettor: self.bettor.clone(),
            amount: self.amount,
            prediction: self.prediction.clone(),
        }
    }
}

/// Copies a vector of labels, character for character.
fn clone_labels(v: &Vec<String>) -> (r: Vec<String>)
    ensures
        r.deep_view() == v.deep_view(),
{
    let mut r: Vec<String> = Vec::new();
    let mut i: usize = 0;
    while i < v.len()
        invariant
            i <= v.len(),
            r@.len() == i as int,
            forall|k: int| 0 <= k < i as int ==> (#[trigger] r@[k])@ == v@[k]@,
        decreases v.len() - i,
    {
        r.push(v[i].clone());
        i = i + 1;
    }
    proof {
        assert(r.deep_view() =~= v.deep_view());
    }
    r
}

/// Copies a vector of bets, value for value.
fn clone_bets(v: &Vec<Bet>) -> (r: Vec<Bet>)
    ensures
        r@.map_values(|b: Bet| b@) == v@.map_values(|b: Bet| b@),
{
    let mut r: Vec<Bet> = Vec::new();
    let mut i: usize = 0;
    while i < v.len()
        invariant
            i <= v.len(),
            r@.len() == i as int,
            forall|k: int| 0 <= k < i as int ==> (#[trigger] r@[k])@ == v@[k]@,
        decreases v.len() - i,
    {
        r.push(v[i].duplicate());
        i = i + 1;
    }
    proof {
        assert(r@.map_values(|b: Bet| b@) =~= v@.map_values(|b: Bet| b@));
    }
    r
}

impl Market {
    /// An exact copy of the market record.
    pub fn duplicate(&self) -> (r: Market)
        ensures
            r@ == self@,
    {
        let winning: Option<String> = match &self.winning_outcome {
            Some(w) => Some(w.clone()),
            None => None,
        };
        Market {
            id: self.id,
            description: self.description.clone(),
            outcomes: clone_labels(&self.outcomes),
            bets: clone_bets(&self.bets),
            resolved: self.resolved,
            winning_outcome: winning,
            total_staked: self.total_staked,
            creator: self.creator.clone(),
        }
    }
}

/// Sum of the staked amounts of a sequence of bets.
pub open spec fn sum_amounts(bets: Seq<BetView>) -> int
    decreases bets.len(),
{
    if bets.len() == 0 {
        0
    } else {
        sum_amounts(bets.drop_last()) + bets.last().amount
    }
}

/// Sum of the staked amounts of the bets predicting `outcome`.
pub open spec fn winner_stake(bets: Seq<BetView>, outcome: Seq<char>) -> int
    decreases bets.len(),
{
    if bets.len() == 0 {
        0
    } else {
        winner_stake(bets.drop_last(), outcome) + if bets.last().prediction == outcome {
            bets.last().amount
        } else {
            0
        }
    }
}

/// Every amount is a value of the 128-bit currency unit.
pub open spec fn bets_valid(bets: Seq<BetView>) -> bool {
    forall|i: int| 0 <= i < bets.len() ==> 0 <= #[trigger] bets[i].amount <= u128::MAX as int
}

/// Well-formedness of a market record:
/// a winning outcome is recorded exactly when the market is resolved;
/// until resolution the pool equals the sum of all staked amounts
/// (afterwards the pool is either still that sum or swept to zero);
/// and the sum of all stakes fits the 128-bit currency unit.
pub open spec fn market_wf(m: MarketView) -> bool {
    &&& (m.resolved <==> m.winning_outcome is Some)
    &&& (!m.resolved ==> m.total_staked == sum_amounts(m.bets))
    &&& (m.total_staked == sum_amounts(m.bets) || m.total_staked == 0)
    &&& bets_valid(m.bets)
    &&& 0 <= sum_amounts(m.bets) <= u128::MAX as int
    &&& 0 <= m.total_staked <= u128::MAX as int
}

/// The market that `create_market` records: no bets, an empty pool, and
/// no winning outcome.
pub open spec fn spec_new_market(
    id: int,
    description: Seq<char>,
    outcomes: Seq<Seq<char>>,
    creator: Seq<char>,
) -> MarketView {
    MarketView {
        id: id,
        description: description,
        outcomes: outcomes,
        bets: Seq::empty(),
        resolved: false,
        winning_outcome: None,
        total_staked: 0,
        creator: creator,
    }
}

/// The market transition performed by one accepted bet: the bet is
/// appended and the pool grows by exactly the attached amount.
pub open spec fn spec_place_bet(
    m: MarketView,
    bettor: Seq<char>,
    amount: int,
    prediction: Seq<char>,
) -> MarketView {
    MarketView {
        bets: m.bets.push(BetView { bettor: bettor, amount: amount, prediction: prediction }),
        total_staked: m.total_staked + amount,
        ..m
    }
}

/// The market transition performed by settlement: the winning outcome is
/// recorded and the market is marked resolved; bets and pool are untouched.
pub open spec fn spec_settle_market(m: MarketView, outcome: Seq<char>) -> MarketView {
    MarketView { resolved: true, winning_outcome: Some(outcome), ..m }
}

/// Sums over a prefix grow by exactly the next element.
pub proof fn lemma_sum_amounts_take_step(bets: Seq<BetView>, i: int)
    requires
        0 <= i < bets.len(),
    ensures
        sum_amounts(bets.take(i + 1)) == sum_amounts(bets.take(i)) + bets[i].amount,
{
    assert(bets.take(i + 1).drop_last() =~= bets.take(i));
    assert(bets.take(i + 1).last() == bets[i]);
}

/// The winning stake over a prefix grows by the next element's amount
/// exactly when that element predicts the outcome.
pub proof fn lemma_winner_stake_take_step(bets: Seq<BetView>, outcome: Seq<char>, i: int)
    requires
        0 <= i < bets.len(),
    ensures
        winner_stake(bets.take(i + 1), outcome) == winner_stake(bets.take(i), outcome) + if bets[i].prediction == outcome {
            bets[i].amount
        } else {
            0
        },
{
    assert(bets.take(i + 1).drop_last() =~= bets.take(i));
    assert(bets.take(i + 1).last() == bets[i]);
}

/// Appending a bet grows the sum by exactly that bet's amount.
pub proof fn lemma_sum_amounts_push(bets: Seq<BetView>, b: BetView)
    ensures
        sum_amounts(bets.push(b)) == sum_amounts(bets) + b.amount,
{
    assert(bets.push(b).drop_last() =~= bets);
    assert(bets.push(b).last() == b);
}

/// Appending a bet grows the winning stake by its amount exactly when it
/// predicts the outcome.
pub proof fn lemma_winner_stake_push(bets: Seq<BetView>, outcome: Seq<char>, b: BetView)
    ensures
        winner_stake(bets.push(b), outcome) == winner_stake(bets, outcome) + if b.prediction
            == outcome {
            b.amount
        } else {
            0
        },
{
    assert(bets.push(b).drop_last() =~= bets);
    assert(bets.push(b).last() == b);
}

/// A prefix of the bets stakes no more, in sum or on any one outcome,
/// than the whole sequence.
pub proof fn lemma_take_le(bets: Seq<BetView>, outcome: Seq<char>, i: int)
    requires
        bets_valid(bets),
        0 <= i <= bets.len(),
    ensures
        0 <= sum_amounts(bets.take(i)) <= sum_amounts(bets),
        0 <= winner_stake(bets.take(i), outcome) <= winner_stake(bets, outcome),
    decreases bets.len() - i,
{
    assert(bets_valid(bets.take(i))) by {
        assert(forall|j: int| 0 <= j < i ==> bets.take(i)[j] == bets[j]);
    }
    lemma_winner_stake_le_sum(bets.take(i), outcome);
    if i == bets.len() {
        assert(bets.take(i) =~= bets);
    } else {
        lemma_take_le(bets, outcome, i + 1);
        lemma_sum_amounts_take_step(bets, i);
        lemma_winner_stake_take_step(bets, outcome, i);
    }
}

/// A bet that predicts the outcome stakes no more than the whole stake on
/// that outcome.
pub proof fn lemma_bet_le_winner_stake(bets: Seq<BetView>, outcome: Seq<char>, i: int)
    requires
        bets_valid(bets),
        0 <= i < bets.len(),
        bets[i].prediction == outcome,
    ensures
        bets[i].amount <= winner_stake(bets, outcome),
    decreases bets.len() - i,
{
    lemma_take_le(bets, outcome, i);
    lemma_winner_stake_take_step(bets, outcome, i);
    let tk1 = bets.take(i + 1);
    assert(bets_valid(tk1)) by {
        assert(forall|j: int| 0 <= j < tk1.len() ==> tk1[j] == bets[j]);
    }
    lemma_take_le(bets, outcome, i + 1);
}

/// The stake on any single outcome never exceeds the whole pool's sum.
pub proof fn lemma_winner_stake_le_sum(bets: Seq<BetView>, outcome: Seq<char>)
    requires
        bets_valid(bets),
    ensures
        0 <= winner_stake(bets, outcome) <= sum_amounts(bets),
    decreases bets.len(),
{
    if bets.len() > 0 {
        assert(bets_valid(bets.drop_last())) by {
            assert(forall|i: int|
                0 <= i < bets.drop_last().len() ==> bets.drop_last()[i] == bets[i]);
        }
        lemma_winner_stake_le_sum(bets.drop_last(), outcome);
        assert(bets.last() == bets[bets.len() - 1]);
    }
}

} // verus!
