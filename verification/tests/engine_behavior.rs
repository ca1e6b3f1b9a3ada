//! Ledger invariants, settlement idempotence, vesting bounds, error
//! variants, and the exact shapes of claim batches.

use tro_staking::engine::{StakingEngine, TokenAmount, DEFAULT_NFT_SCORE};
use tro_staking::errors::Error;
use tro_staking::plan::{DistributionPlan, SCALE};

const NFT_1: u64 = 11;
const SFT_1: u64 = 21;
const PLAIN: u64 = 31;
const REWARD_TOKEN_1: u64 = 1;
const REWARD_TOKEN_2: u64 = 2;
const USER: u64 = 100;
const OWNER: u64 = 200;

fn setup_engine() -> StakingEngine {
    let mut engine = StakingEngine::new();
    engine.allow_asset(NFT_1, DEFAULT_NFT_SCORE);
    engine.allow_asset(SFT_1, DEFAULT_NFT_SCORE);
    engine.allow_asset(PLAIN, 1);
    engine
}

fn stake_one(engine: &mut StakingEngine, user: u64, asset: u64, quantity: u128, round: u64) {
    let payments = vec![TokenAmount { token: asset, amount: quantity }];
    engine.stake(user, round, &payments).unwrap();
}

#[test]
fn aggregate_score_is_the_sum_of_user_scores() {
    let mut engine = setup_engine();
    stake_one(&mut engine, USER, NFT_1, 2, 0);
    stake_one(&mut engine, OWNER, SFT_1, 3, 0);
    stake_one(&mut engine, OWNER, PLAIN, 7, 0);

    let total = engine.user_staking_score(USER) + engine.user_staking_score(OWNER);
    assert_eq!(engine.aggregated_staking_score(), total);
    assert_eq!(engine.aggregated_staking_score(), 507);
}

#[test]
fn settling_twice_at_the_same_round_changes_nothing_more() {
    let mut engine = setup_engine();
    stake_one(&mut engine, USER, NFT_1, 1, 0);
    engine.distribute_rewards(REWARD_TOKEN_1, 5, 3).unwrap();

    engine.settle(USER, REWARD_TOKEN_1, 3);
    let once = engine.pending_reward(USER, REWARD_TOKEN_1, 3);
    engine.settle(USER, REWARD_TOKEN_1, 3);
    let twice = engine.pending_reward(USER, REWARD_TOKEN_1, 3);

    assert_eq!(once, 5);
    assert_eq!(twice, 5);
}

#[test]
fn staking_after_a_distribution_earns_none_of_it() {
    let mut engine = setup_engine();
    stake_one(&mut engine, USER, NFT_1, 1, 0);
    engine.distribute_rewards(REWARD_TOKEN_1, 9, 0).unwrap();

    stake_one(&mut engine, OWNER, SFT_1, 5, 0);

    assert_eq!(engine.pending_reward(OWNER, REWARD_TOKEN_1, 0), 0);
    assert_eq!(engine.pending_reward(USER, REWARD_TOKEN_1, 0), 9);
}

#[test]
fn distributing_with_no_stakers_fails() {
    let mut engine = setup_engine();
    assert_eq!(
        engine.distribute_rewards(REWARD_TOKEN_1, 4, 0),
        Err(Error::NoStakersToDistributeTo)
    );
}

#[test]
fn staking_an_unlisted_asset_fails_wholesale() {
    let mut engine = setup_engine();
    let payments = vec![
        TokenAmount { token: NFT_1, amount: 1 },
        TokenAmount { token: 999, amount: 1 },
    ];
    assert_eq!(
        engine.stake(USER, 0, &payments),
        Err(Error::InvalidPaymentToken)
    );
    assert_eq!(engine.user_staking_score(USER), 0);
    assert_eq!(engine.aggregated_staking_score(), 0);
}

#[test]
fn unstaking_more_than_held_fails() {
    let mut engine = setup_engine();
    stake_one(&mut engine, USER, NFT_1, 2, 0);

    let requests = vec![TokenAmount { token: NFT_1, amount: 3 }];
    assert_eq!(
        engine.unstake(USER, 1, &requests, false),
        Err(Error::InsufficientStake)
    );
    assert_eq!(engine.user_staking_score(USER), 2 * DEFAULT_NFT_SCORE);
}

#[test]
fn unstaking_in_two_requests_past_the_holding_fails() {
    let mut engine = setup_engine();
    stake_one(&mut engine, USER, NFT_1, 3, 0);

    let requests = vec![
        TokenAmount { token: NFT_1, amount: 2 },
        TokenAmount { token: NFT_1, amount: 2 },
    ];
    assert_eq!(
        engine.unstake(USER, 1, &requests, false),
        Err(Error::InsufficientStake)
    );
    assert_eq!(engine.user_staking_score(USER), 3 * DEFAULT_NFT_SCORE);
}

#[test]
fn unstaking_an_unlisted_asset_fails() {
    let mut engine = setup_engine();
    stake_one(&mut engine, USER, NFT_1, 1, 0);

    let requests = vec![TokenAmount { token: 999, amount: 0 }];
    assert_eq!(
        engine.unstake(USER, 1, &requests, false),
        Err(Error::InvalidPaymentToken)
    );
}

#[test]
fn unstaking_during_a_proposal_fails() {
    let mut engine = setup_engine();
    stake_one(&mut engine, USER, NFT_1, 1, 0);

    let requests = vec![TokenAmount { token: NFT_1, amount: 1 }];
    assert_eq!(
        engine.unstake(USER, 1, &requests, true),
        Err(Error::ProposalOngoing)
    );
    assert_eq!(engine.user_staking_score(USER), DEFAULT_NFT_SCORE);
}

#[test]
fn unstaking_returns_the_assets_and_settles_first() {
    let mut engine = setup_engine();
    stake_one(&mut engine, USER, NFT_1, 2, 0);
    engine.distribute_rewards(REWARD_TOKEN_1, 2, 0).unwrap();

    let requests = vec![TokenAmount { token: NFT_1, amount: 1 }];
    let released = engine.unstake(USER, 0, &requests, false).unwrap();
    assert_eq!(released, requests);
    assert_eq!(engine.user_staking_score(USER), DEFAULT_NFT_SCORE);

    // The rewards earned at the old score were settled before the cut.
    engine.distribute_rewards(REWARD_TOKEN_1, 3, 0).unwrap();
    assert_eq!(engine.pending_reward(USER, REWARD_TOKEN_1, 0), 5);
}

#[test]
fn a_plan_never_vests_more_than_its_total() {
    let mut engine = setup_engine();
    engine.set_distribution_plan(REWARD_TOKEN_1, 0, 10, 10, 0);
    stake_one(&mut engine, USER, NFT_1, 1, 0);

    assert_eq!(engine.pending_reward(USER, REWARD_TOKEN_1, 50), 10);
}

#[test]
fn a_plan_vests_linearly_per_round() {
    let mut engine = setup_engine();
    engine.set_distribution_plan(REWARD_TOKEN_1, 0, 10, 10, 0);
    stake_one(&mut engine, USER, NFT_1, 1, 0);

    assert_eq!(engine.pending_reward(USER, REWARD_TOKEN_1, 3), 3);
}

#[test]
fn vested_amount_is_rate_times_rounds() {
    let plan = DistributionPlan { start_round: 0, end_round: 10, total_amount: 10 };
    assert_eq!(plan.vested_amount_scaled(2, 5), 3 * SCALE);
    assert_eq!(plan.vested_amount_scaled(5, 2), 0);
    assert_eq!(plan.vested_amount_scaled(8, 30), 2 * SCALE);
}

#[test]
fn a_disabled_claim_keeps_the_balance_claimable() {
    let mut engine = setup_engine();
    stake_one(&mut engine, USER, NFT_1, 1, 0);
    engine.distribute_rewards(REWARD_TOKEN_1, 1, 0).unwrap();
    engine.disable_staking();

    assert_eq!(engine.claim_rewards(USER, 0), Err(Error::StakingDisabled));
    assert_eq!(engine.pending_reward(USER, REWARD_TOKEN_1, 0), 1);

    engine.enable_staking();
    let payments = engine.claim_rewards(USER, 0).unwrap();
    assert_eq!(payments, vec![TokenAmount { token: REWARD_TOKEN_1, amount: 1 }]);
}

#[test]
fn flooring_never_overpays() {
    let mut engine = setup_engine();
    stake_one(&mut engine, USER, PLAIN, 3, 0);

    engine.distribute_rewards(REWARD_TOKEN_1, 1, 0).unwrap();
    assert_eq!(engine.pending_reward(USER, REWARD_TOKEN_1, 0), 0);

    engine.distribute_rewards(REWARD_TOKEN_1, 2, 0).unwrap();
    assert_eq!(engine.pending_reward(USER, REWARD_TOKEN_1, 0), 2);

    assert_eq!(engine.total_distributed_scaled(REWARD_TOKEN_1), 3 * SCALE);
}

#[test]
fn a_claim_pays_each_token_once_in_record_order() {
    let mut engine = setup_engine();
    stake_one(&mut engine, USER, NFT_1, 1, 0);
    engine.distribute_rewards(REWARD_TOKEN_1, 1, 0).unwrap();
    engine.distribute_rewards(REWARD_TOKEN_2, 5, 0).unwrap();

    let payments = engine.claim_rewards(USER, 0).unwrap();
    assert_eq!(
        payments,
        vec![
            TokenAmount { token: REWARD_TOKEN_1, amount: 1 },
            TokenAmount { token: REWARD_TOKEN_2, amount: 5 },
        ]
    );
    assert_eq!(engine.pending_reward(USER, REWARD_TOKEN_1, 0), 0);
    assert_eq!(engine.pending_reward(USER, REWARD_TOKEN_2, 0), 0);
}

#[test]
fn last_user_update_defaults_to_zero() {
    let engine = setup_engine();
    assert_eq!(engine.last_user_update(USER), 0);
}

#[test]
fn allowing_an_asset_twice_keeps_the_first_weight() {
    let mut engine = StakingEngine::new();
    assert!(engine.allow_asset(NFT_1, DEFAULT_NFT_SCORE));
    assert!(!engine.allow_asset(NFT_1, 7));

    stake_one(&mut engine, USER, NFT_1, 1, 0);
    assert_eq!(engine.user_staking_score(USER), DEFAULT_NFT_SCORE);
}

#[test]
fn pending_reward_for_an_unknown_token_is_zero() {
    let mut engine = setup_engine();
    stake_one(&mut engine, USER, NFT_1, 1, 0);
    assert_eq!(engine.pending_reward(USER, 777, 5), 0);
}

#[test]
fn replacing_a_plan_keeps_what_already_vested() {
    let mut engine = setup_engine();
    engine.set_distribution_plan(REWARD_TOKEN_1, 0, 100, 100, 0);
    stake_one(&mut engine, USER, NFT_1, 1, 0);

    // Four rounds vest under the old plan, then it is replaced.
    engine.set_distribution_plan(REWARD_TOKEN_1, 4, 50, 25, 4);

    // Two more rounds at the new rate of 2 per round.
    assert_eq!(engine.pending_reward(USER, REWARD_TOKEN_1, 6), 8);
}
