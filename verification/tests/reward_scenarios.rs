//! Reward accrual scenarios: manual drops, vesting plans, proportional
//! sharing, and the claim failure modes.

use tro_staking::engine::{StakingEngine, TokenAmount, DEFAULT_NFT_SCORE};
use tro_staking::errors::Error;

const NFT_1: u64 = 11;
const NFT_2: u64 = 12;
const SFT_1: u64 = 21;
const REWARD_TOKEN_1: u64 = 1;
const REWARD_TOKEN_2: u64 = 2;
const USER: u64 = 100;
const OWNER: u64 = 200;

fn setup_engine() -> StakingEngine {
    let mut engine = StakingEngine::new();
    engine.allow_asset(NFT_1, DEFAULT_NFT_SCORE);
    engine.allow_asset(NFT_2, DEFAULT_NFT_SCORE);
    engine.allow_asset(SFT_1, DEFAULT_NFT_SCORE);
    engine
}

fn stake_one(engine: &mut StakingEngine, user: u64, asset: u64, quantity: u128, round: u64) {
    let payments = vec![TokenAmount { token: asset, amount: quantity }];
    engine.stake(user, round, &payments).unwrap();
}

#[test]
fn pending_reward_is_properly_calculated_for_manually_distributed_rewards() {
    let mut engine = setup_engine();

    stake_one(&mut engine, USER, NFT_1, 1, 0);
    engine
        .distribute_rewards(REWARD_TOKEN_1, DEFAULT_NFT_SCORE, 0)
        .unwrap();

    assert_eq!(
        engine.pending_reward(USER, REWARD_TOKEN_1, 0),
        DEFAULT_NFT_SCORE
    );
}

#[test]
fn pending_reward_is_properly_calculated_for_planned_distributed_rewards() {
    let mut engine = setup_engine();

    // 1 token per round.
    engine.set_distribution_plan(REWARD_TOKEN_1, 0, 100, 100, 0);
    stake_one(&mut engine, USER, NFT_1, 1, 0);

    // Advance to the next round and stake a second asset.
    stake_one(&mut engine, USER, NFT_2, 1, 1);

    assert_eq!(engine.pending_reward(USER, REWARD_TOKEN_1, 1), 1);
}

#[test]
fn pending_reward_is_properly_calculated_for_combined_reward_sources() {
    let mut engine = setup_engine();

    // 1 token per round.
    engine.set_distribution_plan(REWARD_TOKEN_1, 0, 100, 100, 0);
    stake_one(&mut engine, USER, NFT_1, 1, 0);

    // Advance to the next round, then drop manual rewards.
    engine.distribute_rewards(REWARD_TOKEN_1, 1, 1).unwrap();
    engine.distribute_rewards(REWARD_TOKEN_2, 1, 1).unwrap();

    assert_eq!(engine.pending_reward(USER, REWARD_TOKEN_1, 1), 2);
    assert_eq!(engine.pending_reward(USER, REWARD_TOKEN_2, 1), 1);
}

#[test]
fn reward_should_be_distributed_proportionally_to_stake_score() {
    let mut engine = setup_engine();

    stake_one(&mut engine, USER, NFT_1, 1, 0); // 25%
    stake_one(&mut engine, OWNER, SFT_1, 3, 0); // 75%

    engine.distribute_rewards(REWARD_TOKEN_1, 4, 0).unwrap(); // 4 tokens in total

    assert_eq!(engine.pending_reward(USER, REWARD_TOKEN_1, 0), 1);
    assert_eq!(engine.pending_reward(OWNER, REWARD_TOKEN_1, 0), 3);
}

#[test]
fn existing_users_should_receive_new_rewards_with_no_state_update() {
    let mut engine = setup_engine();

    stake_one(&mut engine, USER, NFT_1, 1, 0);

    engine.distribute_rewards(REWARD_TOKEN_1, 1, 0).unwrap();
    engine.distribute_rewards(REWARD_TOKEN_2, 10, 0).unwrap();

    assert_eq!(engine.pending_reward(USER, REWARD_TOKEN_1, 0), 1);
    assert_eq!(engine.pending_reward(USER, REWARD_TOKEN_2, 0), 10);
}

#[test]
fn cannot_double_claim_rewards() {
    let mut engine = setup_engine();

    stake_one(&mut engine, USER, NFT_1, 1, 0);
    assert_eq!(engine.aggregated_staking_score(), DEFAULT_NFT_SCORE);
    assert_eq!(engine.user_staking_score(USER), DEFAULT_NFT_SCORE);

    engine.distribute_rewards(REWARD_TOKEN_1, 1, 0).unwrap();

    engine.claim_rewards(USER, 0).unwrap();
    assert_eq!(engine.claim_rewards(USER, 0), Err(Error::NoRewardsToClaim));
}

#[test]
fn cannot_claim_rewards_with_staking_disabled() {
    let mut engine = setup_engine();

    stake_one(&mut engine, USER, NFT_1, 1, 0);
    engine.distribute_rewards(REWARD_TOKEN_1, 1, 0).unwrap();
    engine.disable_staking();

    assert_eq!(engine.claim_rewards(USER, 0), Err(Error::StakingDisabled));
}

#[test]
fn cannot_claim_rewards_with_no_rewards_to_claim() {
    let mut engine = setup_engine();

    stake_one(&mut engine, USER, NFT_1, 1, 0);

    assert_eq!(engine.claim_rewards(USER, 0), Err(Error::NoRewardsToClaim));
}

#[test]
fn new_stake_should_not_have_pending_reward() {
    let mut engine = setup_engine();

    // 1 token per round.
    engine.set_distribution_plan(REWARD_TOKEN_1, 0, 100, 100, 0);
    stake_one(&mut engine, USER, NFT_1, 1, 0);

    // Advance to the next round and drop manual rewards.
    engine.distribute_rewards(REWARD_TOKEN_1, 1, 1).unwrap();
    engine.distribute_rewards(REWARD_TOKEN_2, 1, 1).unwrap();

    assert_eq!(engine.pending_reward(USER, REWARD_TOKEN_1, 1), 2);
    assert_eq!(engine.pending_reward(USER, REWARD_TOKEN_2, 1), 1);

    // A user who stakes afterwards owes nothing and is owed nothing.
    stake_one(&mut engine, OWNER, SFT_1, 1, 2);

    assert_eq!(engine.pending_reward(OWNER, REWARD_TOKEN_2, 2), 0);
}

#[test]
fn claiming_rewards_should_update_last_user_update_round() {
    let mut engine = setup_engine();

    stake_one(&mut engine, USER, NFT_1, 1, 0);
    engine.distribute_rewards(REWARD_TOKEN_1, 1, 0).unwrap();

    engine.claim_rewards(USER, 10).unwrap();

    assert_eq!(engine.last_user_update(USER), 10);
}
