use prediction_market::contract::{CallContext, MarketError, PredictionMarketContract};
use prediction_market::math::mul_div_floor;

fn ctx(caller: &str, deposit: u128) -> CallContext {
    CallContext { caller: caller.to_string(), attached_deposit: deposit }
}

fn labels(ls: &[&str]) -> Vec<String> {
    ls.iter().map(|s| s.to_string()).collect()
}

#[test]
fn create_assigns_sequential_ids() {
    let mut c = PredictionMarketContract::new();
    let a = ctx("alice", 0);
    let id0 = c.create_market(&a, "first".to_string(), labels(&["yes", "no"]));
    let id1 = c.create_market(&a, "second".to_string(), labels(&[]));
    assert_eq!(id0, 0);
    assert_eq!(id1, 1);
    let page = c.get_markets(0, 10);
    assert_eq!(page.len(), 2);
    assert_eq!(page[0].0, 0);
    assert_eq!(page[0].1.id, 0);
    assert_eq!(page[0].1.description, "first");
    assert_eq!(page[0].1.outcomes, vec!["yes".to_string(), "no".to_string()]);
    assert_eq!(page[0].1.creator, "alice");
    assert!(!page[0].1.resolved);
    assert!(page[0].1.winning_outcome.is_none());
    assert_eq!(page[0].1.total_staked, 0);
    assert_eq!(page[0].1.bets.len(), 0);
    // Empty and duplicate outcome lists are accepted unvalidated.
    assert_eq!(page[1].1.outcomes.len(), 0);
}

#[test]
fn pool_accumulates_attached_deposits() {
    let mut c = PredictionMarketContract::new();
    let id = c.create_market(&ctx("alice", 0), "m".to_string(), labels(&["yes", "no"]));
    assert_eq!(c.place_bet(&ctx("bob", 5), id, "yes".to_string()), Ok(()));
    assert_eq!(c.place_bet(&ctx("carol", 7), id, "no".to_string()), Ok(()));
    assert_eq!(c.place_bet(&ctx("bob", 11), id, "yes".to_string()), Ok(()));
    assert_eq!(c.get_total_staked(id), Ok(23));
    let page = c.get_markets(0, 1);
    let m = &page[0].1;
    assert_eq!(m.bets.len(), 3);
    assert_eq!(m.bets[0].bettor, "bob");
    assert_eq!(m.bets[0].amount, 5);
    assert_eq!(m.bets[0].prediction, "yes");
    assert_eq!(m.bets[1].bettor, "carol");
    assert_eq!(m.bets[2].amount, 11);
}

#[test]
fn bet_on_unknown_market_is_not_found() {
    let mut c = PredictionMarketContract::new();
    assert_eq!(c.place_bet(&ctx("bob", 5), 9, "yes".to_string()), Err(MarketError::NotFound));
    assert_eq!(c.get_total_staked(9), Err(MarketError::NotFound));
}

#[test]
fn bet_on_resolved_market_is_rejected_and_appends_nothing() {
    let mut c = PredictionMarketContract::new();
    let id = c.create_market(&ctx("alice", 0), "m".to_string(), labels(&["yes", "no"]));
    assert_eq!(c.place_bet(&ctx("bob", 5), id, "yes".to_string()), Ok(()));
    c.settle_market(id, "yes".to_string()).unwrap();
    assert_eq!(
        c.place_bet(&ctx("carol", 7), id, "yes".to_string()),
        Err(MarketError::AlreadyResolved)
    );
    let page = c.get_markets(0, 1);
    assert_eq!(page[0].1.bets.len(), 1);
    assert_eq!(c.get_total_staked(id), Ok(5));
}

#[test]
fn settle_unknown_market_is_not_found() {
    let mut c = PredictionMarketContract::new();
    assert_eq!(c.settle_market(3, "yes".to_string()), Err(MarketError::NotFound));
}

#[test]
fn settle_twice_fails_and_keeps_first_outcome() {
    let mut c = PredictionMarketContract::new();
    let id = c.create_market(&ctx("alice", 0), "m".to_string(), labels(&["yes", "no"]));
    assert_eq!(c.place_bet(&ctx("bob", 5), id, "yes".to_string()), Ok(()));
    c.settle_market(id, "yes".to_string()).unwrap();
    assert_eq!(c.settle_market(id, "no".to_string()), Err(MarketError::AlreadyResolved));
    let page = c.get_markets(0, 1);
    assert!(page[0].1.resolved);
    assert_eq!(page[0].1.winning_outcome.as_deref(), Some("yes"));
    assert_eq!(page[0].1.bets.len(), 1);
}

#[test]
fn settlement_pays_the_pool_pro_rata() {
    let mut c = PredictionMarketContract::new();
    let id = c.create_market(&ctx("alice", 0), "m".to_string(), labels(&["yes", "no"]));
    assert_eq!(c.place_bet(&ctx("a", 10), id, "yes".to_string()), Ok(()));
    assert_eq!(c.place_bet(&ctx("b", 30), id, "yes".to_string()), Ok(()));
    assert_eq!(c.place_bet(&ctx("loser", 60), id, "no".to_string()), Ok(()));
    // Pool is 100, winning stake 40: shares are floor(100*10/40) and
    // floor(100*30/40), in bet order.
    let payouts = c.settle_market(id, "yes".to_string()).unwrap();
    assert_eq!(payouts, vec![("a".to_string(), 25u128), ("b".to_string(), 75u128)]);
    assert!(payouts.iter().map(|p| p.1).sum::<u128>() <= 100);
}

#[test]
fn truncation_leaves_a_residual() {
    let mut c = PredictionMarketContract::new();
    let id = c.create_market(&ctx("alice", 0), "m".to_string(), labels(&["yes", "no"]));
    for who in ["a", "b", "c"] {
        assert_eq!(c.place_bet(&ctx(who, 1), id, "yes".to_string()), Ok(()));
    }
    assert_eq!(c.place_bet(&ctx("loser", 97), id, "no".to_string()), Ok(()));
    // Pool is 100, winning stake 3: each winner gets floor(100*1/3) = 33,
    // and 1 unit stays behind for the creator.
    let payouts = c.settle_market(id, "yes".to_string()).unwrap();
    assert_eq!(payouts.len(), 3);
    assert!(payouts.iter().all(|p| p.1 == 33));
    assert_eq!(payouts.iter().map(|p| p.1).sum::<u128>(), 99);
}

#[test]
fn settlement_with_no_winning_stake_pays_nothing() {
    let mut c = PredictionMarketContract::new();
    let id = c.create_market(&ctx("alice", 0), "m".to_string(), labels(&["yes", "no"]));
    assert_eq!(c.place_bet(&ctx("bob", 40), id, "no".to_string()), Ok(()));
    let payouts = c.settle_market(id, "maybe".to_string()).unwrap();
    assert!(payouts.is_empty());
    let page = c.get_markets(0, 1);
    assert!(page[0].1.resolved);
    assert_eq!(page[0].1.winning_outcome.as_deref(), Some("maybe"));
    // The whole pool stays withdrawable by the creator.
    assert_eq!(c.withdraw_funds(&ctx("alice", 0), id), Ok(40));
}

#[test]
fn settlement_of_market_without_bets_pays_nothing() {
    let mut c = PredictionMarketContract::new();
    let id = c.create_market(&ctx("alice", 0), "m".to_string(), labels(&["yes", "no"]));
    let payouts = c.settle_market(id, "yes".to_string()).unwrap();
    assert!(payouts.is_empty());
    assert_eq!(c.get_total_staked(id), Ok(0));
}

#[test]
fn withdraw_before_resolution_fails() {
    let mut c = PredictionMarketContract::new();
    let id = c.create_market(&ctx("alice", 0), "m".to_string(), labels(&["yes", "no"]));
    assert_eq!(c.withdraw_funds(&ctx("alice", 0), id), Err(MarketError::NotResolved));
}

#[test]
fn withdraw_by_non_creator_fails() {
    let mut c = PredictionMarketContract::new();
    let id = c.create_market(&ctx("alice", 0), "m".to_string(), labels(&["yes", "no"]));
    c.settle_market(id, "yes".to_string()).unwrap();
    assert_eq!(c.withdraw_funds(&ctx("mallory", 0), id), Err(MarketError::Unauthorized));
}

#[test]
fn second_withdrawal_sweeps_zero() {
    let mut c = PredictionMarketContract::new();
    let id = c.create_market(&ctx("alice", 0), "m".to_string(), labels(&["yes", "no"]));
    assert_eq!(c.place_bet(&ctx("bob", 40), id, "no".to_string()), Ok(()));
    c.settle_market(id, "yes".to_string()).unwrap();
    assert_eq!(c.withdraw_funds(&ctx("alice", 0), id), Ok(40));
    assert_eq!(c.get_total_staked(id), Ok(0));
    assert_eq!(c.withdraw_funds(&ctx("alice", 0), id), Ok(0));
}

#[test]
fn withdraw_from_unknown_market_is_not_found() {
    let mut c = PredictionMarketContract::new();
    assert_eq!(c.withdraw_funds(&ctx("alice", 0), 2), Err(MarketError::NotFound));
}

#[test]
fn pagination_clamps_to_the_stored_range() {
    let mut c = PredictionMarketContract::new();
    let a = ctx("alice", 0);
    for d in ["m0", "m1", "m2"] {
        c.create_market(&a, d.to_string(), labels(&["yes"]));
    }
    let page = c.get_markets(1, 5);
    assert_eq!(page.len(), 2);
    assert_eq!(page[0].0, 1);
    assert_eq!(page[0].1.description, "m1");
    assert_eq!(page[1].0, 2);
    assert!(c.get_markets(7, 2).is_empty());
    assert!(c.get_markets(0, 0).is_empty());
}

#[test]
fn huge_stakes_settle_exactly() {
    let mut c = PredictionMarketContract::new();
    let id = c.create_market(&ctx("alice", 0), "m".to_string(), labels(&["yes", "no"]));
    let big: u128 = 1u128 << 100;
    assert_eq!(c.place_bet(&ctx("a", big), id, "yes".to_string()), Ok(()));
    assert_eq!(c.place_bet(&ctx("b", big), id, "yes".to_string()), Ok(()));
    assert_eq!(c.place_bet(&ctx("loser", 5), id, "no".to_string()), Ok(()));
    // Pool is 2^101 + 5, winning stake 2^101: each winner's share is
    // floor((2^101 + 5) / 2) = 2^100 + 2, though the product
    // pool * amount overflows 128 bits.
    let payouts = c.settle_market(id, "yes".to_string()).unwrap();
    assert_eq!(payouts.len(), 2);
    assert_eq!(payouts[0].1, big + 2);
    assert_eq!(payouts[1].1, big + 2);
}

#[test]
fn proportional_share_math() {
    assert_eq!(mul_div_floor(12345, 678, 1000), 8369);
    assert_eq!(mul_div_floor(u128::MAX, 1, u128::MAX), 1);
    assert_eq!(mul_div_floor(u128::MAX, u128::MAX, u128::MAX), u128::MAX);
    assert_eq!(mul_div_floor(u128::MAX - 1, u128::MAX - 1, u128::MAX), u128::MAX - 2);
    assert_eq!(mul_div_floor(100, 10, 40), 25);
    assert_eq!(mul_div_floor(100, 30, 40), 75);
    assert_eq!(mul_div_floor(0, 7, 9), 0);
}

#[test]
fn rain_scenario_end_to_end() {
    let mut c = PredictionMarketContract::new();
    let creator = ctx("creator", 0);
    let id = c.create_market(&creator, "Will it rain?".to_string(), labels(&["yes", "no"]));
    assert_eq!(c.place_bet(&ctx("a", 100), id, "yes".to_string()), Ok(()));
    assert_eq!(c.place_bet(&ctx("b", 50), id, "no".to_string()), Ok(()));
    assert_eq!(c.get_total_staked(id), Ok(150));
    // The whole pool of 150 goes to the only winning stake of 100:
    // bettor a receives floor(150*100/100) = 150, bettor b nothing.
    let payouts = c.settle_market(id, "yes".to_string()).unwrap();
    assert_eq!(payouts, vec![("a".to_string(), 150u128)]);
    // The accounting field is swept by the creator afterwards.
    let swept = c.withdraw_funds(&creator, id).unwrap();
    assert_eq!(swept, 150);
    assert_eq!(c.withdraw_funds(&creator, id), Ok(0));
}
