//! The staking engine: score ledger, reward accumulators, checkpoints,
//! and the public staking / distribution / claim operations.
//!
//! All state is owned explicitly. The host supplies the caller identity
//! (`user`), the clock (`round`, non-decreasing), and performs the actual
//! token transfers that a successful `unstake` or `claim_rewards` returns.

use vstd::prelude::*;

use crate::errors::Error;
use crate::plan::DistributionPlan;
use crate::plan::SCALE;
use crate::seq_util::{
    has_key, key_idx, lemma_key_idx, lemma_key_idx_push, lemma_key_idx_unique,
    lemma_key_idx_update, lemma_sum_by_elem_le,
    lemma_sum_by_ext, lemma_sum_by_le, lemma_sum_by_nonneg, lemma_sum_by_push,
    lemma_sum_by_take_all, lemma_sum_by_take_le, lemma_sum_by_take_succ, lemma_sum_by_update,
    sum_by, unique_keys,
};

verus! {

/// The default score weight of a staked NFT class: one staked NFT
/// contributes this much score.
pub const DEFAULT_NFT_SCORE: u128 = 100;

/// An asset class on the allow-list, with its score weight. Every staked
/// unit of the class contributes `weight` to its owner's score.
#[derive(Clone, Copy, Debug, PartialEq, Eq, Structural)]
pub struct AssetClass {
    pub asset: u64,
    pub weight: u128,
}

/// One user's staked quantity of one asset class. An entry with a zero
/// amount is a valid, empty position.
#[derive(Clone, Copy, Debug, PartialEq, Eq, Structural)]
pub struct StakeEntry {
    pub user: u64,
    pub asset: u64,
    pub amount: u128,
}

/// A token identifier together with an amount: a stake payment, an
/// unstake request, or an outbound reward payment.
#[derive(Clone, Copy, Debug, PartialEq, Eq, Structural)]
pub struct TokenAmount {
    pub token: u64,
    pub amount: u128,
}

/// Per-reward-token accumulator state. `accumulated` is the cumulative
/// reward per unit of score since inception, scaled by `SCALE`, and never
/// decreases. `distributed_scaled` is the scaled total ever folded into
/// the accumulator, manual drops and vested plan amounts together.
#[derive(Clone, Copy, Debug)]
pub struct RewardState {
    pub token: u64,
    pub accumulated: u128,
    pub last_catch_up_round: u64,
    pub distributed_scaled: u128,
    pub plan: Option<DistributionPlan>,
}

/// Per-user, per-reward-token snapshot: the accumulator value at the last
/// settlement and the settled, unclaimed reward.
#[derive(Clone, Copy, Debug)]
pub struct Checkpoint {
    pub user: u64,
    pub token: u64,
    pub last_accumulated: u128,
    pub pending: u128,
}

/// The round of a user's last successful claim.
#[derive(Clone, Copy, Debug)]
pub struct UserRound {
    pub user: u64,
    pub round: u64,
}

/// The key of each keyed record list.
pub open spec fn asset_key() -> spec_fn(AssetClass) -> u64 {
    |a: AssetClass| a.asset
}

pub open spec fn stake_key() -> spec_fn(StakeEntry) -> (u64, u64) {
    |e: StakeEntry| (e.user, e.asset)
}

pub open spec fn reward_key() -> spec_fn(RewardState) -> u64 {
    |r: RewardState| r.token
}

pub open spec fn cp_key() -> spec_fn(Checkpoint) -> (u64, u64) {
    |c: Checkpoint| (c.user, c.token)
}

pub open spec fn round_key() -> spec_fn(UserRound) -> u64 {
    |x: UserRound| x.user
}

/// The weight of an asset class under an allow-list, zero when the class
/// is not listed.
pub open spec fn weight_in(assets: Seq<AssetClass>, asset: u64) -> int {
    let i = key_idx(assets, asset_key(), asset);
    if i >= 0 {
        assets[i].weight as int
    } else {
        0
    }
}

/// The score carried by one stake entry.
pub open spec fn entry_score_fn(assets: Seq<AssetClass>) -> spec_fn(StakeEntry) -> int {
    |e: StakeEntry| e.amount * weight_in(assets, e.asset)
}

/// The score carried by one stake entry when it belongs to `user`,
/// zero otherwise.
pub open spec fn user_score_fn(assets: Seq<AssetClass>, user: u64) -> spec_fn(StakeEntry) -> int {
    |e: StakeEntry| if e.user == user {
        e.amount * weight_in(assets, e.asset)
    } else {
        0
    }
}

/// The score carried by one payment under an allow-list.
pub open spec fn payment_score_fn(assets: Seq<AssetClass>) -> spec_fn(TokenAmount) -> int {
    |p: TokenAmount| p.amount * weight_in(assets, p.token)
}

/// The amount of one payment when it names `token`, zero otherwise.
pub open spec fn token_amount_fn(token: u64) -> spec_fn(TokenAmount) -> int {
    |p: TokenAmount| if p.token == token {
        p.amount as int
    } else {
        0
    }
}

/// The key of a token-amount list used as a running balance table.
pub open spec fn token_key() -> spec_fn(TokenAmount) -> u64 {
    |p: TokenAmount| p.token
}

/// Index of `token` in a token-amount list, or the list's length.
fn find_token_entry(v: &Vec<TokenAmount>, token: u64) -> (i: usize)
    requires
        unique_keys(v@, token_key()),
    ensures
        i <= v@.len(),
        i < v@.len() ==> i as int == key_idx(v@, token_key(), token),
        (i as int) == v@.len() as int ==> key_idx(v@, token_key(), token) == -1,
{
    let n = v.len();
    let mut k: usize = 0;
    while k < n
        invariant
            k <= n,
            n == v@.len(),
            unique_keys(v@, token_key()),
            forall|j: int| 0 <= j < k ==> (#[trigger] v@[j]).token != token,
        decreases n - k,
    {
        if v[k].token == token {
            proof {
                lemma_key_idx_unique(v@, token_key(), token, k as int);
            }
            return k;
        }
        k += 1;
    }
    proof {
        lemma_key_idx(v@, token_key(), token);
    }
    n
}

/// A reward record's own plan, if any, is well-formed.
pub open spec fn reward_rec_wf(r: RewardState) -> bool {
    match r.plan {
        Some(p) => p.wf(),
        None => true,
    }
}

/// The staking-and-reward engine. All operations take the current round
/// from the host; the clock must be non-decreasing.
pub struct StakingEngine {
    /// Allow-list of stakeable asset classes and their weights.
    pub assets: Vec<AssetClass>,
    /// Stake positions, keyed by (user, asset).
    pub stakes: Vec<StakeEntry>,
    /// Aggregate score: always the sum of every entry's score.
    pub total_score: u128,
    /// Reward accumulators, keyed by reward token.
    pub rewards: Vec<RewardState>,
    /// User reward checkpoints, keyed by (user, reward token).
    pub checkpoints: Vec<Checkpoint>,
    /// Round of each user's last claim.
    pub last_updates: Vec<UserRound>,
    /// When set, claims are rejected.
    pub staking_disabled: bool,
}

impl StakingEngine {
    // ----- the mathematical reading of the state -----

    pub open spec fn asset_registered(self, asset: u64) -> bool {
        has_key(self.assets@, asset_key(), asset)
    }

    pub open spec fn weight_of(self, asset: u64) -> int {
        weight_in(self.assets@, asset)
    }

    /// The quantity of `asset` staked by `user` (zero when no position exists).
    pub open spec fn stake_of(self, user: u64, asset: u64) -> u128 {
        let i = key_idx(self.stakes@, stake_key(), (user, asset));
        if i >= 0 {
            self.stakes@[i].amount
        } else {
            0
        }
    }

    /// A user's score: the sum of quantity times weight over their positions.
    pub open spec fn user_score(self, user: u64) -> int {
        sum_by(self.stakes@, user_score_fn(self.assets@, user))
    }

    /// The sum of every entry's score; `total_score` always equals it.
    pub open spec fn total_weighted(self) -> int {
        sum_by(self.stakes@, entry_score_fn(self.assets@))
    }

    pub open spec fn reward_idx(self, token: u64) -> int {
        key_idx(self.rewards@, reward_key(), token)
    }

    pub open spec fn has_reward(self, token: u64) -> bool {
        self.reward_idx(token) >= 0
    }

    pub open spec fn accumulated_of(self, token: u64) -> u128 {
        if self.has_reward(token) {
            self.rewards@[self.reward_idx(token)].accumulated
        } else {
            0
        }
    }

    pub open spec fn last_catch_up_of(self, token: u64) -> u64 {
        if self.has_reward(token) {
            self.rewards@[self.reward_idx(token)].last_catch_up_round
        } else {
            0
        }
    }

    pub open spec fn distributed_scaled_of(self, token: u64) -> u128 {
        if self.has_reward(token) {
            self.rewards@[self.reward_idx(token)].distributed_scaled
        } else {
            0
        }
    }

    pub open spec fn plan_of(self, token: u64) -> Option<DistributionPlan> {
        if self.has_reward(token) {
            self.rewards@[self.reward_idx(token)].plan
        } else {
            None
        }
    }

    pub open spec fn cp_idx(self, user: u64, token: u64) -> int {
        key_idx(self.checkpoints@, cp_key(), (user, token))
    }

    /// Settled, unclaimed reward of `user` for `token`. A missing
    /// checkpoint reads as zero.
    pub open spec fn pending_of(self, user: u64, token: u64) -> u128 {
        let i = self.cp_idx(user, token);
        if i >= 0 {
            self.checkpoints@[i].pending
        } else {
            0
        }
    }

    /// The accumulator value at `user`'s last settlement for `token`.
    /// A missing checkpoint reads as zero: a user who held score before
    /// the token's first distribution is entitled to it from inception.
    pub open spec fn last_acc_of(self, user: u64, token: u64) -> u128 {
        let i = self.cp_idx(user, token);
        if i >= 0 {
            self.checkpoints@[i].last_accumulated
        } else {
            0
        }
    }

    /// The round of `user`'s last claim, zero before the first.
    pub open spec fn last_update_of(self, user: u64) -> u64 {
        let i = key_idx(self.last_updates@, round_key(), user);
        if i >= 0 {
            self.last_updates@[i].round
        } else {
            0
        }
    }

    // ----- catch-up and settlement, as mathematics -----

    /// Scaled plan tokens that vest when `token` is caught up to `round`.
    pub open spec fn plan_delta_scaled(self, token: u64, round: u64) -> int {
        if self.has_reward(token) {
            let r = self.rewards@[self.reward_idx(token)];
            match r.plan {
                Some(p) => p.vested_scaled(r.last_catch_up_round, round),
                None => 0,
            }
        } else {
            0
        }
    }

    /// What catching `token` up to `round` adds to its accumulator.
    /// With zero aggregate score nothing is added: tokens vested while
    /// nobody stakes are lost, never retroactively distributed.
    pub open spec fn catch_up_inc(self, token: u64, round: u64) -> int {
        if self.total_score == 0 {
            0
        } else {
            self.plan_delta_scaled(token, round) / (self.total_score as int)
        }
    }

    /// The accumulator of `token` once caught up to `round`.
    pub open spec fn caught_up_acc(self, token: u64, round: u64) -> int {
        self.accumulated_of(token) + self.catch_up_inc(token, round)
    }

    /// The last-catch-up round after catching up to `round`: the clock
    /// never moves the record backwards.
    pub open spec fn caught_up_round(self, token: u64, round: u64) -> u64 {
        if round > self.last_catch_up_of(token) {
            round
        } else {
            self.last_catch_up_of(token)
        }
    }

    /// The scaled total ever distributed for `token` after catching up
    /// to `round`. Vested amounts count only while someone stakes.
    pub open spec fn caught_up_distributed(self, token: u64, round: u64) -> int {
        if self.total_score == 0 {
            self.distributed_scaled_of(token) as int
        } else {
            self.distributed_scaled_of(token) + self.plan_delta_scaled(token, round)
        }
    }

    /// What a settlement at `round` adds to `user`'s pending reward for
    /// `token`: their score times the accumulator growth since their last
    /// checkpoint, scaled back down.
    pub open spec fn owed_of(self, user: u64, token: u64, round: u64) -> int {
        self.user_score(user) * (self.caught_up_acc(token, round) - self.last_acc_of(
            user,
            token,
        )) / (SCALE as int)
    }

    /// `user`'s pending reward for `token` after a settlement at `round`.
    pub open spec fn settled_pending(self, user: u64, token: u64, round: u64) -> int {
        self.pending_of(user, token) + self.owed_of(user, token, round)
    }

    // ----- well-formedness -----

    pub open spec fn wf(self) -> bool {
        &&& unique_keys(self.assets@, asset_key())
        &&& unique_keys(self.stakes@, stake_key())
        &&& unique_keys(self.rewards@, reward_key())
        &&& unique_keys(self.checkpoints@, cp_key())
        &&& unique_keys(self.last_updates@, round_key())
        &&& forall|i: int|
            0 <= i < self.assets@.len() ==> (#[trigger] self.assets@[i]).weight >= 1
        &&& forall|i: int|
            0 <= i < self.stakes@.len() ==> has_key(
                self.assets@,
                asset_key(),
                (#[trigger] self.stakes@[i]).asset,
            )
        &&& self.total_score as int == self.total_weighted()
        &&& forall|i: int|
            0 <= i < self.rewards@.len() ==> reward_rec_wf(#[trigger] self.rewards@[i])
        &&& forall|i: int|
            0 <= i < self.checkpoints@.len() ==> {
                let c = #[trigger] self.checkpoints@[i];
                has_key(self.rewards@, reward_key(), c.token) && c.last_accumulated
                    <= self.accumulated_of(c.token)
            }
    }

    // ----- reward accounting -----

    /// The scaled claim `user` has on `token`: what is already pending,
    /// plus what a settlement would fold in before the final floor
    /// division by `SCALE`.
    pub open spec fn entitlement(self, user: u64, token: u64) -> int {
        self.pending_of(user, token) * SCALE + self.user_score(user) * (self.accumulated_of(
            token,
        ) - self.last_acc_of(user, token))
    }

    /// No over-distribution: no user's entitlement on any token exceeds
    /// the scaled total ever distributed for it. Every operation keeps
    /// this, so pending rewards can never outgrow what was put in.
    pub open spec fn conservative(self) -> bool {
        forall|u: u64, t: u64|
            #[trigger] self.entitlement(u, t) <= self.distributed_scaled_of(t)
    }

    // ----- basic consequences of well-formedness -----

    /// Entry scores are nonnegative, so every score is, and no user's
    /// score exceeds the aggregate.
    pub proof fn lemma_user_score_bounds(self, user: u64)
        requires
            self.wf(),
        ensures
            0 <= self.user_score(user),
            self.user_score(user) <= self.total_score,
    {
        let f = user_score_fn(self.assets@, user);
        let g = entry_score_fn(self.assets@);
        assert forall|i: int| 0 <= i < self.stakes@.len() implies f(self.stakes@[i]) >= 0 by {
            let e = self.stakes@[i];
            vstd::arithmetic::mul::lemma_mul_nonnegative(
                e.amount as int,
                weight_in(self.assets@, e.asset),
            );
        }
        assert forall|i: int| 0 <= i < self.stakes@.len() implies f(self.stakes@[i]) <= g(
            self.stakes@[i],
        ) by {
            let e = self.stakes@[i];
            vstd::arithmetic::mul::lemma_mul_nonnegative(
                e.amount as int,
                weight_in(self.assets@, e.asset),
            );
        }
        lemma_sum_by_nonneg(self.stakes@, f);
        lemma_sum_by_le(self.stakes@, f, g);
    }

    /// The record a reward index points at answers for its own token.
    pub proof fn lemma_reward_at(self, j: int)
        requires
            self.wf(),
            0 <= j < self.rewards@.len(),
        ensures
            self.reward_idx(self.rewards@[j].token) == j,
            self.has_reward(self.rewards@[j].token),
    {
        lemma_key_idx_unique(self.rewards@, reward_key(), self.rewards@[j].token, j);
    }

    /// Catch-up never shrinks the accumulator or the distributed total.
    pub proof fn lemma_catch_up_props(self, token: u64, round: u64)
        requires
            self.wf(),
        ensures
            0 <= self.plan_delta_scaled(token, round),
            0 <= self.catch_up_inc(token, round),
            self.caught_up_acc(token, round) >= self.accumulated_of(token),
            self.caught_up_distributed(token, round) >= self.distributed_scaled_of(token),
            self.total_score > 0 ==> self.catch_up_inc(token, round) * (
            self.total_score as int) <= self.plan_delta_scaled(token, round),
    {
        if self.has_reward(token) {
            let i = self.reward_idx(token);
            lemma_key_idx(self.rewards@, reward_key(), token);
            let r = self.rewards@[i];
            assert(reward_rec_wf(r));
            match r.plan {
                Some(p) => {
                    p.lemma_vested_scaled_bounds(r.last_catch_up_round, round);
                },
                None => {},
            }
        }
        if self.total_score > 0 {
            let d = self.plan_delta_scaled(token, round);
            let t = self.total_score as int;
            vstd::arithmetic::div_mod::lemma_div_pos_is_pos(d, t);
            vstd::arithmetic::div_mod::lemma_fundamental_div_mod(d, t);
            vstd::arithmetic::div_mod::lemma_mod_division_less_than_divisor(d, t);
            vstd::arithmetic::mul::lemma_mul_is_commutative(d / t, t);
        }
    }

    /// Nothing is owed backwards: a settlement can only grow a pending
    /// balance.
    pub proof fn lemma_settled_bounds(self, user: u64, token: u64, round: u64)
        requires
            self.wf(),
        ensures
            self.last_acc_of(user, token) <= self.caught_up_acc(token, round),
            0 <= self.owed_of(user, token, round),
            self.pending_of(user, token) <= self.settled_pending(user, token, round),
    {
        self.lemma_catch_up_props(token, round);
        self.lemma_user_score_bounds(user);
        let ci = self.cp_idx(user, token);
        if ci >= 0 {
            lemma_key_idx(self.checkpoints@, cp_key(), (user, token));
            assert(self.checkpoints@[ci].token == token);
            assert(self.checkpoints@[ci].last_accumulated <= self.accumulated_of(token));
        }
        let gap = self.caught_up_acc(token, round) - self.last_acc_of(user, token);
        vstd::arithmetic::mul::lemma_mul_nonnegative(self.user_score(user), gap);
        vstd::arithmetic::div_mod::lemma_div_pos_is_pos(
            self.user_score(user) * gap,
            SCALE as int,
        );
    }

    /// Without a reward record there is no checkpoint and nothing pending.
    pub proof fn lemma_no_reward_no_cp(self, user: u64, token: u64, round: u64)
        requires
            self.wf(),
            !self.has_reward(token),
        ensures
            self.cp_idx(user, token) == -1,
            self.pending_of(user, token) == 0,
            self.last_acc_of(user, token) == 0,
            self.settled_pending(user, token, round) == 0,
    {
        lemma_key_idx(self.checkpoints@, cp_key(), (user, token));
        let ci = self.cp_idx(user, token);
        if ci >= 0 {
            assert(self.checkpoints@[ci].token == token);
            assert(false);
        }
        assert(self.owed_of(user, token, round) == self.user_score(user) * 0 / (SCALE as int));
        vstd::arithmetic::mul::lemma_mul_by_zero_is_zero(self.user_score(user));
        vstd::arithmetic::div_mod::lemma_div_of0(SCALE as int);
    }

    // ----- arithmetic room -----

    /// Room for catching `token` up to `round` inside `u128`.
    pub open spec fn catch_up_fits(self, token: u64, round: u64) -> bool {
        &&& self.caught_up_acc(token, round) <= u128::MAX
        &&& self.caught_up_distributed(token, round) <= u128::MAX
    }

    /// Room for settling `user` on `token` at `round` inside `u128`.
    pub open spec fn settle_fits(self, user: u64, token: u64, round: u64) -> bool {
        &&& self.catch_up_fits(token, round)
        &&& self.user_score(user) * (self.caught_up_acc(token, round) - self.last_acc_of(
            user,
            token,
        )) <= u128::MAX
        &&& self.settled_pending(user, token, round) <= u128::MAX
    }

    /// Room for settling `user` on every reward token at `round`.
    pub open spec fn settle_all_fits(self, user: u64, round: u64) -> bool {
        forall|j: int|
            0 <= j < self.rewards@.len() ==> self.settle_fits(
                user,
                (#[trigger] self.rewards@[j]).token,
                round,
            )
    }

    // ----- record lookups -----

    /// Index of `asset` in the allow-list, or the list's length when absent.
    fn find_asset(&self, asset: u64) -> (i: usize)
        requires
            unique_keys(self.assets@, asset_key()),
        ensures
            i <= self.assets@.len(),
            i < self.assets@.len() ==> i as int == key_idx(self.assets@, asset_key(), asset),
            (i as int) == self.assets@.len() as int ==> !has_key(
                self.assets@,
                asset_key(),
                asset,
            ),
    {
        let n = self.assets.len();
        let mut k: usize = 0;
        while k < n
            invariant
                k <= n,
                n == self.assets@.len(),
                unique_keys(self.assets@, asset_key()),
                forall|j: int| 0 <= j < k ==> (#[trigger] self.assets@[j]).asset != asset,
            decreases n - k,
        {
            if self.assets[k].asset == asset {
                proof {
                    lemma_key_idx_unique(self.assets@, asset_key(), asset, k as int);
                }
                return k;
            }
            k += 1;
        }
        proof {
            lemma_key_idx(self.assets@, asset_key(), asset);
        }
        n
    }

    /// Index of `user`'s position in `asset`, or the list's length.
    fn find_stake(&self, user: u64, asset: u64) -> (i: usize)
        requires
            unique_keys(self.stakes@, stake_key()),
        ensures
            i <= self.stakes@.len(),
            i < self.stakes@.len() ==> i as int == key_idx(
                self.stakes@,
                stake_key(),
                (user, asset),
            ),
            (i as int) == self.stakes@.len() as int ==> !has_key(
                self.stakes@,
                stake_key(),
                (user, asset),
            ),
    {
        let n = self.stakes.len();
        let mut k: usize = 0;
        while k < n
            invariant
                k <= n,
                n == self.stakes@.len(),
                unique_keys(self.stakes@, stake_key()),
                forall|j: int|
                    0 <= j < k ==> ((#[trigger] self.stakes@[j]).user != user
                        || self.stakes@[j].asset != asset),
            decreases n - k,
        {
            let e = self.stakes[k];
            if e.user == user && e.asset == asset {
                proof {
                    lemma_key_idx_unique(self.stakes@, stake_key(), (user, asset), k as int);
                }
                return k;
            }
            k += 1;
        }
        proof {
            lemma_key_idx(self.stakes@, stake_key(), (user, asset));
        }
        n
    }

    /// Index of the reward record of `token`, or the list's length.
    fn find_reward(&self, token: u64) -> (i: usize)
        requires
            unique_keys(self.rewards@, reward_key()),
        ensures
            i <= self.rewards@.len(),
            i < self.rewards@.len() ==> i as int == self.reward_idx(token),
            (i as int) == self.rewards@.len() as int ==> !self.has_reward(token),
    {
        let n = self.rewards.len();
        let mut k: usize = 0;
        while k < n
            invariant
                k <= n,
                n == self.rewards@.len(),
                unique_keys(self.rewards@, reward_key()),
                forall|j: int| 0 <= j < k ==> (#[trigger] self.rewards@[j]).token != token,
            decreases n - k,
        {
            if self.rewards[k].token == token {
                proof {
                    lemma_key_idx_unique(self.rewards@, reward_key(), token, k as int);
                }
                return k;
            }
            k += 1;
        }
        proof {
            lemma_key_idx(self.rewards@, reward_key(), token);
        }
        n
    }

    /// Index of `user`'s checkpoint for `token`, or the list's length.
    fn find_checkpoint(&self, user: u64, token: u64) -> (i: usize)
        requires
            unique_keys(self.checkpoints@, cp_key()),
        ensures
            i <= self.checkpoints@.len(),
            i < self.checkpoints@.len() ==> i as int == self.cp_idx(user, token),
            (i as int) == self.checkpoints@.len() as int ==> self.cp_idx(user, token) == -1,
    {
        let n = self.checkpoints.len();
        let mut k: usize = 0;
        while k < n
            invariant
                k <= n,
                n == self.checkpoints@.len(),
                unique_keys(self.checkpoints@, cp_key()),
                forall|j: int|
                    0 <= j < k ==> ((#[trigger] self.checkpoints@[j]).user != user
                        || self.checkpoints@[j].token != token),
            decreases n - k,
        {
            let c = self.checkpoints[k];
            if c.user == user && c.token == token {
                proof {
                    lemma_key_idx_unique(self.checkpoints@, cp_key(), (user, token), k as int);
                }
                return k;
            }
            k += 1;
        }
        proof {
            lemma_key_idx(self.checkpoints@, cp_key(), (user, token));
        }
        n
    }

    /// Index of `user`'s last-claim record, or the list's length.
    fn find_last_update(&self, user: u64) -> (i: usize)
        requires
            unique_keys(self.last_updates@, round_key()),
        ensures
            i <= self.last_updates@.len(),
            i < self.last_updates@.len() ==> i as int == key_idx(
                self.last_updates@,
                round_key(),
                user,
            ),
            (i as int) == self.last_updates@.len() as int ==> key_idx(
                self.last_updates@,
                round_key(),
                user,
            ) == -1,
    {
        let n = self.last_updates.len();
        let mut k: usize = 0;
        while k < n
            invariant
                k <= n,
                n == self.last_updates@.len(),
                unique_keys(self.last_updates@, round_key()),
                forall|j: int| 0 <= j < k ==> (#[trigger] self.last_updates@[j]).user != user,
            decreases n - k,
        {
            if self.last_updates[k].user == user {
                proof {
                    lemma_key_idx_unique(self.last_updates@, round_key(), user, k as int);
                }
                return k;
            }
            k += 1;
        }
        proof {
            lemma_key_idx(self.last_updates@, round_key(), user);
        }
        n
    }

    // ----- construction and administration -----

    /// A fresh engine: nothing staked, nothing distributed, claims enabled.
    pub fn new() -> (r: StakingEngine)
        ensures
            r.wf(),
            r.assets@.len() == 0,
            r.stakes@.len() == 0,
            r.total_score == 0,
            r.rewards@.len() == 0,
            r.checkpoints@.len() == 0,
            r.last_updates@.len() == 0,
            !r.staking_disabled,
            r.conservative(),
    {
        let engine = StakingEngine {
            assets: Vec::new(),
            stakes: Vec::new(),
            total_score: 0,
            rewards: Vec::new(),
            checkpoints: Vec::new(),
            last_updates: Vec::new(),
            staking_disabled: false,
        };
        proof {
            assert forall|u: u64, t: u64| #[trigger] engine.entitlement(u, t)
                <= engine.distributed_scaled_of(t) by {
                assert(engine.pending_of(u, t) == 0);
                assert(engine.last_acc_of(u, t) == 0);
                assert(engine.user_score(u) == 0);
                assert(engine.accumulated_of(t) == 0);
                vstd::arithmetic::mul::lemma_mul_by_zero_is_zero(SCALE as int);
            }
        }
        engine
    }

    /// Puts an asset class on the allow-list with the given score weight.
    /// A class already listed keeps its original weight, so every class's
    /// score contribution is deterministic. Classes that should carry no
    /// score are simply never listed, so weights start at one.
    pub fn allow_asset(&mut self, asset: u64, weight: u128) -> (added: bool)
        requires
            old(self).wf(),
            weight >= 1,
        ensures
            final(self).wf(),
            added == !old(self).asset_registered(asset),
            final(self).asset_registered(asset),
            added ==> final(self).weight_of(asset) == weight,
            !added ==> *final(self) == *old(self),
            forall|a: u64|
                a != asset ==> final(self).weight_of(a) == old(self).weight_of(a)
                    && (final(self).asset_registered(a) == old(self).asset_registered(a)),
            final(self).stakes == old(self).stakes,
            final(self).total_score == old(self).total_score,
            final(self).rewards == old(self).rewards,
            final(self).checkpoints == old(self).checkpoints,
            final(self).last_updates == old(self).last_updates,
            final(self).staking_disabled == old(self).staking_disabled,
            forall|u: u64| final(self).user_score(u) == old(self).user_score(u),
            old(self).conservative() ==> final(self).conservative(),
    {
        let i = self.find_asset(asset);
        if i < self.assets.len() {
            return false;
        }
        let ghost old_assets = self.assets@;
        self.assets.push(AssetClass { asset, weight });
        proof {
            let new_assets = self.assets@;
            assert forall|a: u64|
                (weight_in(new_assets, a) == if a == asset {
                    weight as int
                } else {
                    weight_in(old_assets, a)
                }) && (a != asset ==> key_idx(new_assets, asset_key(), a) == key_idx(
                    old_assets,
                    asset_key(),
                    a,
                )) by {
                lemma_key_idx_push(old_assets, asset_key(), AssetClass { asset, weight }, a);
                lemma_key_idx(old_assets, asset_key(), a);
            }
            assert(unique_keys(new_assets, asset_key())) by {
                lemma_key_idx(old_assets, asset_key(), asset);
                assert forall|p: int, q: int| 0 <= p < q < new_assets.len() implies asset_key()(
                    new_assets[p],
                ) != asset_key()(new_assets[q]) by {
                    if q == new_assets.len() - 1 {
                        assert(new_assets[p] == old_assets[p]);
                    }
                }
            }
            // Weights of staked classes are unchanged, so every score is.
            lemma_sum_by_ext(
                self.stakes@,
                entry_score_fn(old_assets),
                entry_score_fn(new_assets),
            );
            assert forall|u: u64|
                sum_by(self.stakes@, user_score_fn(new_assets, u)) == sum_by(
                    self.stakes@,
                    user_score_fn(old_assets, u),
                ) by {
                lemma_sum_by_ext(
                    self.stakes@,
                    user_score_fn(old_assets, u),
                    user_score_fn(new_assets, u),
                );
            }
            assert forall|j: int| 0 <= j < self.stakes@.len() implies has_key(
                new_assets,
                asset_key(),
                (#[trigger] self.stakes@[j]).asset,
            ) by {
                lemma_key_idx_push(
                    old_assets,
                    asset_key(),
                    AssetClass { asset, weight },
                    self.stakes@[j].asset,
                );
            }
            if old(self).conservative() {
                assert forall|u: u64, t: u64| #[trigger] self.entitlement(u, t)
                    <= self.distributed_scaled_of(t) by {
                    assert(old(self).entitlement(u, t) <= old(self).distributed_scaled_of(t));
                    assert(self.user_score(u) == old(self).user_score(u));
                }
            }
        }
        true
    }

    /// Rejects claims until staking is enabled again.
    pub fn disable_staking(&mut self)
        ensures
            final(self).staking_disabled,
            final(self).assets == old(self).assets,
            final(self).stakes == old(self).stakes,
            final(self).total_score == old(self).total_score,
            final(self).rewards == old(self).rewards,
            final(self).checkpoints == old(self).checkpoints,
            final(self).last_updates == old(self).last_updates,
            old(self).wf() ==> final(self).wf(),
            old(self).conservative() ==> final(self).conservative(),
    {
        self.staking_disabled = true;
        proof {
            if old(self).conservative() {
                assert forall|u: u64, t: u64| #[trigger] self.entitlement(u, t)
                    <= self.distributed_scaled_of(t) by {
                    assert(old(self).entitlement(u, t) <= old(self).distributed_scaled_of(t));
                }
            }
        }
    }

    /// Allows claims again; pending balances were kept while disabled.
    pub fn enable_staking(&mut self)
        ensures
            !final(self).staking_disabled,
            final(self).assets == old(self).assets,
            final(self).stakes == old(self).stakes,
            final(self).total_score == old(self).total_score,
            final(self).rewards == old(self).rewards,
            final(self).checkpoints == old(self).checkpoints,
            final(self).last_updates == old(self).last_updates,
            old(self).wf() ==> final(self).wf(),
            old(self).conservative() ==> final(self).conservative(),
    {
        self.staking_disabled = false;
        proof {
            if old(self).conservative() {
                assert forall|u: u64, t: u64| #[trigger] self.entitlement(u, t)
                    <= self.distributed_scaled_of(t) by {
                    assert(old(self).entitlement(u, t) <= old(self).distributed_scaled_of(t));
                }
            }
        }
    }

    // ----- views -----

    /// The pool-wide aggregate score.
    pub fn aggregated_staking_score(&self) -> (r: u128)
        ensures
            r == self.total_score,
    {
        self.total_score
    }

    /// `user`'s current score.
    pub fn user_staking_score(&self, user: u64) -> (r: u128)
        requires
            self.wf(),
        ensures
            r as int == self.user_score(user),
    {
        proof {
            self.lemma_user_score_bounds(user);
        }
        let f = Ghost(user_score_fn(self.assets@, user));
        let n = self.stakes.len();
        let mut acc: u128 = 0;
        let mut k: usize = 0;
        while k < n
            invariant
                k <= n,
                n == self.stakes@.len(),
                self.wf(),
                f@ == user_score_fn(self.assets@, user),
                acc as int == sum_by(self.stakes@.take(k as int), f@),
                acc <= self.total_score,
            decreases n - k,
        {
            let e = self.stakes[k];
            proof {
                lemma_sum_by_take_succ(self.stakes@, f@, k as int);
                assert forall|i: int| 0 <= i < self.stakes@.len() implies f@(
                    self.stakes@[i],
                ) >= 0 by {
                    let x = self.stakes@[i];
                    vstd::arithmetic::mul::lemma_mul_nonnegative(
                        x.amount as int,
                        weight_in(self.assets@, x.asset),
                    );
                }
                lemma_sum_by_take_le(self.stakes@, f@, k + 1 as int);
                lemma_sum_by_le(self.stakes@, f@, entry_score_fn(self.assets@));
            }
            if e.user == user {
                let ai = self.find_asset(e.asset);
                assert(ai < self.assets@.len());
                let w = self.assets[ai].weight;
                assert(w as int == weight_in(self.assets@, e.asset));
                assert(acc + e.amount * w <= self.total_score);
                acc = acc + e.amount * w;
            }
            k += 1;
        }
        proof {
            lemma_sum_by_take_all(self.stakes@, f@);
        }
        acc
    }

    /// The round of `user`'s last claim, zero before the first.
    pub fn last_user_update(&self, user: u64) -> (r: u64)
        requires
            self.wf(),
        ensures
            r == self.last_update_of(user),
    {
        let i = self.find_last_update(user);
        if i < self.last_updates.len() {
            self.last_updates[i].round
        } else {
            0
        }
    }

    /// The scaled total ever distributed for `token`: manual drops plus
    /// vested plan amounts, both counted when folded into the accumulator.
    pub fn total_distributed_scaled(&self, token: u64) -> (r: u128)
        requires
            self.wf(),
        ensures
            r == self.distributed_scaled_of(token),
    {
        let i = self.find_reward(token);
        if i < self.rewards.len() {
            self.rewards[i].distributed_scaled
        } else {
            0
        }
    }

    // ----- the reward accumulator engine -----

    /// Folds the time elapsed since the last catch-up into `token`'s
    /// accumulator: scaled plan tokens vested over the interval, divided
    /// by the aggregate score. With zero aggregate score the interval is
    /// consumed without distributing: those tokens are lost by design.
    fn catch_up(&mut self, token: u64, round: u64)
        requires
            old(self).wf(),
            old(self).catch_up_fits(token, round),
        ensures
            final(self).wf(),
            final(self).assets@ == old(self).assets@,
            final(self).stakes@ == old(self).stakes@,
            final(self).total_score == old(self).total_score,
            final(self).checkpoints@ == old(self).checkpoints@,
            final(self).last_updates@ == old(self).last_updates@,
            final(self).staking_disabled == old(self).staking_disabled,
            final(self).rewards@.len() == old(self).rewards@.len(),
            !old(self).has_reward(token) ==> *final(self) == *old(self),
            old(self).has_reward(token) ==> {
                &&& final(self).accumulated_of(token) as int == old(self).caught_up_acc(
                    token,
                    round,
                )
                &&& final(self).last_catch_up_of(token) == old(self).caught_up_round(
                    token,
                    round,
                )
                &&& final(self).distributed_scaled_of(token) as int == old(self).caught_up_distributed(token, round)
                &&& final(self).plan_of(token) == old(self).plan_of(token)
            },
            forall|t: u64|
                final(self).reward_idx(t) == old(self).reward_idx(t) && final(self).has_reward(
                    t,
                ) == old(self).has_reward(t),
            forall|t: u64|
                t != token ==> final(self).accumulated_of(t) == old(self).accumulated_of(t)
                    && final(self).last_catch_up_of(t) == old(self).last_catch_up_of(t) && final(self).distributed_scaled_of(t) == old(self).distributed_scaled_of(t) && final(self).plan_of(t) == old(self).plan_of(t),
            forall|j: int|
                0 <= j < old(self).rewards@.len() && j != old(self).reward_idx(token) ==> final(self).rewards@[j] == old(self).rewards@[j],
            old(self).conservative() ==> final(self).conservative(),
    {
        proof {
            old(self).lemma_catch_up_props(token, round);
        }
        let i = self.find_reward(token);
        if i == self.rewards.len() {
            return ;
        }
        let r = self.rewards[i];
        let new_last = if round > r.last_catch_up_round {
            round
        } else {
            r.last_catch_up_round
        };
        let new_rec: RewardState;
        if self.total_score > 0 {
            let delta: u128 = match r.plan {
                Some(p) => {
                    proof {
                        assert(reward_rec_wf(r));
                    }
                    p.vested_amount_scaled(r.last_catch_up_round, round)
                },
                None => 0,
            };
            let inc: u128 = delta / self.total_score;
            new_rec = RewardState {
                accumulated: r.accumulated + inc,
                last_catch_up_round: new_last,
                distributed_scaled: r.distributed_scaled + delta,
                ..r
            };
        } else {
            new_rec = RewardState { last_catch_up_round: new_last, ..r };
        }
        let ghost old_rewards = self.rewards@;
        self.rewards[i] = new_rec;
        proof {
            assert(self.rewards@ == old_rewards.update(i as int, new_rec));
            assert forall|t: u64|
                key_idx(self.rewards@, reward_key(), t) == key_idx(
                    old_rewards,
                    reward_key(),
                    t,
                ) by {
                lemma_key_idx_update(old_rewards, reward_key(), i as int, new_rec, t);
            }
            assert forall|t: u64| t != token implies self.accumulated_of(t) == old(self).accumulated_of(t) && self.last_catch_up_of(t) == old(self).last_catch_up_of(t)
                && self.distributed_scaled_of(t) == old(self).distributed_scaled_of(t)
                && self.plan_of(t) == old(self).plan_of(t) by {
                lemma_key_idx(old_rewards, reward_key(), t);
                lemma_key_idx(old_rewards, reward_key(), token);
                let idx = key_idx(old_rewards, reward_key(), t);
                if idx >= 0 {
                    assert(reward_key()(old_rewards[idx]) == t);
                    assert(reward_key()(old_rewards[i as int]) == token);
                    assert(idx != i as int);
                    assert(self.rewards@[idx] == old_rewards[idx]);
                }
            }
            assert(self.reward_idx(token) == i as int);
            assert(self.rewards@[i as int] == new_rec);
            assert(self.accumulated_of(token) == new_rec.accumulated);
            assert forall|p: int, q: int| 0 <= p < q < self.rewards@.len() implies reward_key()(
                self.rewards@[p],
            ) != reward_key()(self.rewards@[q]) by {
                assert(reward_key()(self.rewards@[p]) == reward_key()(old_rewards[p]));
                assert(reward_key()(self.rewards@[q]) == reward_key()(old_rewards[q]));
            }
            assert forall|j: int| 0 <= j < self.checkpoints@.len() implies {
                let c = #[trigger] self.checkpoints@[j];
                has_key(self.rewards@, reward_key(), c.token) && c.last_accumulated
                    <= self.accumulated_of(c.token)
            } by {
                let c = self.checkpoints@[j];
                assert(has_key(old_rewards, reward_key(), c.token));
                assert(c.last_accumulated <= old(self).accumulated_of(c.token));
                if c.token == token {
                    assert(self.accumulated_of(token) >= old(self).accumulated_of(token));
                }
            }
            if old(self).conservative() {
                assert forall|u: u64, t: u64| #[trigger] self.entitlement(u, t)
                    <= self.distributed_scaled_of(t) by {
                    assert(old(self).entitlement(u, t) <= old(self).distributed_scaled_of(t));
                    assert(self.pending_of(u, t) == old(self).pending_of(u, t));
                    assert(self.last_acc_of(u, t) == old(self).last_acc_of(u, t));
                    assert(self.user_score(u) == old(self).user_score(u));
                    if t == token {
                        let inc = old(self).catch_up_inc(token, round);
                        let delta = old(self).plan_delta_scaled(token, round);
                        old(self).lemma_catch_up_props(token, round);
                        old(self).lemma_user_score_bounds(u);
                        assert(self.accumulated_of(t) as int == old(self).accumulated_of(t)
                            + inc);
                        vstd::arithmetic::mul::lemma_mul_is_distributive_add(
                            self.user_score(u),
                            old(self).accumulated_of(t) - old(self).last_acc_of(u, t),
                            inc,
                        );
                        if old(self).total_score > 0 {
                            vstd::arithmetic::mul::lemma_mul_inequality(
                                self.user_score(u),
                                old(self).total_score as int,
                                inc,
                            );
                            vstd::arithmetic::mul::lemma_mul_is_commutative(
                                old(self).total_score as int,
                                inc,
                            );
                            assert(self.distributed_scaled_of(t) as int == old(
                                self,
                            ).distributed_scaled_of(t) + delta);
                        } else {
                            assert(inc == 0);
                        }
                    }
                }
            }
        }
    }

    /// Settles `user` on `token` at `round`: catches the accumulator up,
    /// folds the growth since the user's checkpoint into their pending
    /// balance, and moves the checkpoint to the caught-up accumulator.
    /// A checkpoint is created on first contact, at the current
    /// accumulator value, so nothing distributed earlier is owed.
    /// Settling again at the same round changes nothing.
    pub fn settle(&mut self, user: u64, token: u64, round: u64)
        requires
            old(self).wf(),
            old(self).settle_fits(user, token, round),
        ensures
            final(self).wf(),
            final(self).assets@ == old(self).assets@,
            final(self).stakes@ == old(self).stakes@,
            final(self).total_score == old(self).total_score,
            final(self).last_updates@ == old(self).last_updates@,
            final(self).staking_disabled == old(self).staking_disabled,
            !old(self).has_reward(token) ==> *final(self) == *old(self),
            old(self).has_reward(token) ==> {
                &&& final(self).accumulated_of(token) as int == old(self).caught_up_acc(
                    token,
                    round,
                )
                &&& final(self).last_catch_up_of(token) == old(self).caught_up_round(
                    token,
                    round,
                )
                &&& final(self).distributed_scaled_of(token) as int == old(self).caught_up_distributed(token, round)
                &&& final(self).plan_of(token) == old(self).plan_of(token)
                &&& final(self).pending_of(user, token) as int == old(self).settled_pending(
                    user,
                    token,
                    round,
                )
                &&& final(self).last_acc_of(user, token) as int == old(self).caught_up_acc(
                    token,
                    round,
                )
            },
            forall|t: u64|
                final(self).reward_idx(t) == old(self).reward_idx(t) && final(self).has_reward(
                    t,
                ) == old(self).has_reward(t),
            forall|t: u64|
                t != token ==> final(self).accumulated_of(t) == old(self).accumulated_of(t)
                    && final(self).last_catch_up_of(t) == old(self).last_catch_up_of(t) && final(self).distributed_scaled_of(t) == old(self).distributed_scaled_of(t) && final(self).plan_of(t) == old(self).plan_of(t),
            forall|u2: u64, t2: u64|
                !(u2 == user && t2 == token) ==> final(self).pending_of(u2, t2) == old(self).pending_of(u2, t2) && final(self).last_acc_of(u2, t2) == old(self).last_acc_of(
                    u2,
                    t2,
                ),
            final(self).rewards@.len() == old(self).rewards@.len(),
            forall|j: int|
                0 <= j < old(self).rewards@.len() && j != old(self).reward_idx(token) ==> final(self).rewards@[j] == old(self).rewards@[j],
            final(self).settled_pending(user, token, round) == final(self).pending_of(
                user,
                token,
            ) as int,
            old(self).conservative() ==> final(self).conservative(),
    {
        proof {
            old(self).lemma_settled_bounds(user, token, round);
            old(self).lemma_user_score_bounds(user);
        }
        let ri = self.find_reward(token);
        if ri == self.rewards.len() {
            proof {
                self.lemma_no_reward_no_cp(user, token, round);
            }
            return ;
        }
        self.catch_up(token, round);
        let ghost mid = *self;
        let score = self.user_staking_score(user);
        let ri2 = self.find_reward(token);
        let acc = self.rewards[ri2].accumulated;
        proof {
            assert(acc == mid.accumulated_of(token));
            assert(score as int == old(self).user_score(user));
        }
        let ci = self.find_checkpoint(user, token);
        let ghost old_cps = self.checkpoints@;
        if ci < self.checkpoints.len() {
            let c = self.checkpoints[ci];
            proof {
                lemma_key_idx(old_cps, cp_key(), (user, token));
                assert(c.last_accumulated <= self.accumulated_of(c.token));
            }
            let owed: u128 = score * (acc - c.last_accumulated) / SCALE;
            let new_cp = Checkpoint { last_accumulated: acc, pending: c.pending + owed, ..c };
            self.checkpoints[ci] = new_cp;
            proof {
                assert(self.checkpoints@ == old_cps.update(ci as int, new_cp));
                assert forall|u2: u64, t2: u64| !(u2 == user && t2 == token) implies key_idx(
                    self.checkpoints@,
                    cp_key(),
                    (u2, t2),
                ) == key_idx(old_cps, cp_key(), (u2, t2)) && (key_idx(
                    old_cps,
                    cp_key(),
                    (u2, t2),
                ) >= 0 ==> self.checkpoints@[key_idx(old_cps, cp_key(), (u2, t2))] == old_cps[
                    key_idx(old_cps, cp_key(), (u2, t2))]) by {
                    lemma_key_idx_update(old_cps, cp_key(), ci as int, new_cp, (u2, t2));
                    lemma_key_idx(old_cps, cp_key(), (u2, t2));
                    let idx = key_idx(old_cps, cp_key(), (u2, t2));
                    if idx >= 0 {
                        assert(cp_key()(old_cps[idx]) == (u2, t2));
                        assert(cp_key()(old_cps[ci as int]) == (user, token));
                        assert(idx != ci as int);
                    }
                }
                lemma_key_idx_update(old_cps, cp_key(), ci as int, new_cp, (user, token));
                assert(self.cp_idx(user, token) == ci as int);
                assert(self.checkpoints@[ci as int] == new_cp);
                assert(c.pending == mid.pending_of(user, token));
                assert(c.last_accumulated == mid.last_acc_of(user, token));
                assert(self.pending_of(user, token) == new_cp.pending);
                assert(self.last_acc_of(user, token) == acc);
                assert forall|p: int, q: int|
                    0 <= p < q < self.checkpoints@.len() implies cp_key()(
                    self.checkpoints@[p],
                ) != cp_key()(self.checkpoints@[q]) by {
                    assert(cp_key()(self.checkpoints@[p]) == cp_key()(old_cps[p]));
                    assert(cp_key()(self.checkpoints@[q]) == cp_key()(old_cps[q]));
                }
                assert forall|j: int| 0 <= j < self.checkpoints@.len() implies {
                    let cc = #[trigger] self.checkpoints@[j];
                    has_key(self.rewards@, reward_key(), cc.token) && cc.last_accumulated
                        <= self.accumulated_of(cc.token)
                } by {
                    let cc = self.checkpoints@[j];
                    if j == ci as int {
                        assert(cc == new_cp);
                    } else {
                        assert(cc == mid.checkpoints@[j]);
                        assert(has_key(mid.rewards@, reward_key(), cc.token));
                        assert(cc.last_accumulated <= mid.accumulated_of(cc.token));
                        assert(mid.rewards@ == self.rewards@);
                    }
                }
            }
        } else {
            let owed: u128 = score * acc / SCALE;
            let new_cp = Checkpoint { user, token, last_accumulated: acc, pending: owed };
            self.checkpoints.push(new_cp);
            proof {
                assert(self.checkpoints@ == old_cps.push(new_cp));
                assert forall|u2: u64, t2: u64| !(u2 == user && t2 == token) implies key_idx(
                    self.checkpoints@,
                    cp_key(),
                    (u2, t2),
                ) == key_idx(old_cps, cp_key(), (u2, t2)) && (key_idx(
                    old_cps,
                    cp_key(),
                    (u2, t2),
                ) >= 0 ==> self.checkpoints@[key_idx(old_cps, cp_key(), (u2, t2))] == old_cps[
                    key_idx(old_cps, cp_key(), (u2, t2))]) by {
                    lemma_key_idx_push(old_cps, cp_key(), new_cp, (u2, t2));
                    lemma_key_idx(old_cps, cp_key(), (u2, t2));
                }
                lemma_key_idx_push(old_cps, cp_key(), new_cp, (user, token));
                assert(self.cp_idx(user, token) == old_cps.len() as int);
                assert(self.checkpoints@[old_cps.len() as int] == new_cp);
                assert(mid.cp_idx(user, token) == -1);
                assert(mid.pending_of(user, token) == 0);
                assert(mid.last_acc_of(user, token) == 0);
                assert(self.pending_of(user, token) == new_cp.pending);
                assert(self.last_acc_of(user, token) == acc);
                assert forall|p: int, q: int|
                    0 <= p < q < self.checkpoints@.len() implies cp_key()(
                    self.checkpoints@[p],
                ) != cp_key()(self.checkpoints@[q]) by {
                    if q == self.checkpoints@.len() - 1 {
                        lemma_key_idx(old_cps, cp_key(), (user, token));
                        assert(self.checkpoints@[p] == old_cps[p]);
                    } else {
                        assert(self.checkpoints@[p] == old_cps[p]);
                        assert(self.checkpoints@[q] == old_cps[q]);
                    }
                }
                assert forall|j: int| 0 <= j < self.checkpoints@.len() implies {
                    let cc = #[trigger] self.checkpoints@[j];
                    has_key(self.rewards@, reward_key(), cc.token) && cc.last_accumulated
                        <= self.accumulated_of(cc.token)
                } by {
                    let cc = self.checkpoints@[j];
                    if j == old_cps.len() as int {
                        assert(cc == new_cp);
                    } else {
                        assert(cc == mid.checkpoints@[j]);
                        assert(has_key(mid.rewards@, reward_key(), cc.token));
                        assert(cc.last_accumulated <= mid.accumulated_of(cc.token));
                        assert(mid.rewards@ == self.rewards@);
                    }
                }
            }
        }
        proof {
            assert forall|u2: u64, t2: u64| !(u2 == user && t2 == token) implies self.pending_of(
                u2,
                t2,
            ) == old(self).pending_of(u2, t2) && self.last_acc_of(u2, t2) == old(self).last_acc_of(u2, t2) by {
                assert(key_idx(self.checkpoints@, cp_key(), (u2, t2)) == key_idx(
                    old_cps,
                    cp_key(),
                    (u2, t2),
                ));
            }
            // Settling again at the same round finds nothing new: the plan
            // interval is consumed and the checkpoint sits at the caught-up
            // accumulator.
            assert(self.accumulated_of(token) as int == old(self).caught_up_acc(token, round));
            assert(self.last_acc_of(user, token) == self.accumulated_of(token));
            assert(self.last_catch_up_of(token) >= round);
            if self.total_score > 0 {
                vstd::arithmetic::div_mod::lemma_div_of0(self.total_score as int);
            }
            assert(self.catch_up_inc(token, round) == 0);
            assert(self.owed_of(user, token, round) == self.user_score(user) * 0 / (
            SCALE as int));
            vstd::arithmetic::mul::lemma_mul_by_zero_is_zero(self.user_score(user));
            vstd::arithmetic::div_mod::lemma_div_of0(SCALE as int);
            if old(self).conservative() {
                assert(mid.conservative());
                assert forall|u2: u64, t2: u64| #[trigger] self.entitlement(u2, t2)
                    <= self.distributed_scaled_of(t2) by {
                    assert(mid.entitlement(u2, t2) <= mid.distributed_scaled_of(t2));
                    assert(self.distributed_scaled_of(t2) == mid.distributed_scaled_of(t2));
                    assert(self.user_score(u2) == mid.user_score(u2));
                    assert(self.accumulated_of(t2) == mid.accumulated_of(t2));
                    if u2 == user && t2 == token {
                        let score = mid.user_score(user);
                        let acc0 = mid.accumulated_of(token) as int;
                        let last0 = mid.last_acc_of(user, token) as int;
                        let x = score * (acc0 - last0);
                        mid.lemma_user_score_bounds(user);
                        if mid.cp_idx(user, token) >= 0 {
                            lemma_key_idx(mid.checkpoints@, cp_key(), (user, token));
                            assert(mid.checkpoints@[mid.cp_idx(user, token)].token == token);
                        }
                        assert(last0 <= acc0);
                        vstd::arithmetic::mul::lemma_mul_nonnegative(score, acc0 - last0);
                        vstd::arithmetic::div_mod::lemma_fundamental_div_mod(x, SCALE as int);
                        vstd::arithmetic::div_mod::lemma_mod_division_less_than_divisor(
                            x,
                            SCALE as int,
                        );
                        vstd::arithmetic::mul::lemma_mul_is_commutative(
                            SCALE as int,
                            x / (SCALE as int),
                        );
                        assert(self.pending_of(user, token) as int == mid.pending_of(
                            user,
                            token,
                        ) + x / (SCALE as int));
                        assert(self.last_acc_of(user, token) as int == acc0);
                        vstd::arithmetic::mul::lemma_mul_is_distributive_add_other_way(
                            SCALE as int,
                            mid.pending_of(user, token) as int,
                            x / (SCALE as int),
                        );
                        vstd::arithmetic::mul::lemma_mul_by_zero_is_zero(score);
                    } else {
                        assert(self.pending_of(u2, t2) == mid.pending_of(u2, t2));
                        assert(self.last_acc_of(u2, t2) == mid.last_acc_of(u2, t2));
                    }
                }
            }
        }
    }

    /// `user`'s claimable amount for `token` as of `round`, computed
    /// without touching any state: what a settlement at `round` would
    /// leave pending.
    pub fn pending_reward(&self, user: u64, token: u64, round: u64) -> (r: u128)
        requires
            self.wf(),
            self.settle_fits(user, token, round),
        ensures
            r as int == self.settled_pending(user, token, round),
    {
        proof {
            self.lemma_settled_bounds(user, token, round);
            self.lemma_user_score_bounds(user);
        }
        let ri = self.find_reward(token);
        if ri == self.rewards.len() {
            proof {
                self.lemma_no_reward_no_cp(user, token, round);
            }
            return 0;
        }
        let rec = self.rewards[ri];
        let delta: u128 = if self.total_score > 0 {
            match rec.plan {
                Some(p) => {
                    proof {
                        assert(reward_rec_wf(rec));
                    }
                    p.vested_amount_scaled(rec.last_catch_up_round, round)
                },
                None => 0,
            }
        } else {
            0
        };
        proof {
            self.lemma_catch_up_props(token, round);
        }
        let inc: u128 = if self.total_score > 0 {
            delta / self.total_score
        } else {
            0
        };
        let acc: u128 = rec.accumulated + inc;
        let score = self.user_staking_score(user);
        let ci = self.find_checkpoint(user, token);
        let mut last: u128 = 0;
        let mut pending: u128 = 0;
        if ci < self.checkpoints.len() {
            let c = self.checkpoints[ci];
            proof {
                lemma_key_idx(self.checkpoints@, cp_key(), (user, token));
                assert(c.last_accumulated <= self.accumulated_of(c.token));
            }
            last = c.last_accumulated;
            pending = c.pending;
        }
        pending + score * (acc - last) / SCALE
    }

    /// Settles `user` at `round` on every reward token that has ever seen
    /// a distribution or a plan, so a following score change cannot mix
    /// weights across time.
    fn settle_all(&mut self, user: u64, round: u64)
        requires
            old(self).wf(),
            old(self).settle_all_fits(user, round),
        ensures
            final(self).wf(),
            final(self).assets@ == old(self).assets@,
            final(self).stakes@ == old(self).stakes@,
            final(self).total_score == old(self).total_score,
            final(self).last_updates@ == old(self).last_updates@,
            final(self).staking_disabled == old(self).staking_disabled,
            final(self).rewards@.len() == old(self).rewards@.len(),
            forall|t: u64|
                final(self).reward_idx(t) == old(self).reward_idx(t) && final(self).has_reward(
                    t,
                ) == old(self).has_reward(t),
            forall|t: u64|
                old(self).has_reward(t) ==> {
                    &&& final(self).accumulated_of(t) as int == old(self).caught_up_acc(t, round)
                    &&& final(self).last_catch_up_of(t) == old(self).caught_up_round(t, round)
                    &&& final(self).distributed_scaled_of(t) as int == old(self).caught_up_distributed(t, round)
                    &&& final(self).plan_of(t) == old(self).plan_of(t)
                    &&& final(self).pending_of(user, t) as int == old(self).settled_pending(
                        user,
                        t,
                        round,
                    )
                    &&& final(self).last_acc_of(user, t) as int == old(self).caught_up_acc(
                        t,
                        round,
                    )
                },
            forall|u2: u64, t2: u64|
                u2 != user ==> final(self).pending_of(u2, t2) == old(self).pending_of(u2, t2)
                    && final(self).last_acc_of(u2, t2) == old(self).last_acc_of(u2, t2),
            forall|t2: u64|
                !old(self).has_reward(t2) ==> final(self).pending_of(user, t2) == old(self).pending_of(user, t2) && final(self).last_acc_of(user, t2) == old(self).last_acc_of(user, t2),
            old(self).conservative() ==> final(self).conservative(),
    {
        let n = self.rewards.len();
        let mut k: usize = 0;
        while k < n
            invariant
                k <= n,
                n == self.rewards@.len(),
                n == old(self).rewards@.len(),
                old(self).conservative() ==> self.conservative(),
                self.wf(),
                self.assets@ == old(self).assets@,
                self.stakes@ == old(self).stakes@,
                self.total_score == old(self).total_score,
                self.last_updates@ == old(self).last_updates@,
                self.staking_disabled == old(self).staking_disabled,
                old(self).wf(),
                old(self).settle_all_fits(user, round),
                forall|t: u64|
                    self.reward_idx(t) == old(self).reward_idx(t) && self.has_reward(t) == old(self).has_reward(t),
                forall|j: int| k <= j < n ==> self.rewards@[j] == old(self).rewards@[j],
                forall|j: int|
                    0 <= j < k ==> {
                        let t = (#[trigger] old(self).rewards@[j]).token;
                        &&& self.accumulated_of(t) as int == old(self).caught_up_acc(t, round)
                        &&& self.last_catch_up_of(t) == old(self).caught_up_round(t, round)
                        &&& self.distributed_scaled_of(t) as int == old(self).caught_up_distributed(t, round)
                        &&& self.plan_of(t) == old(self).plan_of(t)
                        &&& self.pending_of(user, t) as int == old(self).settled_pending(
                            user,
                            t,
                            round,
                        )
                        &&& self.last_acc_of(user, t) as int == old(self).caught_up_acc(t, round)
                    },
                forall|j: int|
                    k <= j < n ==> {
                        let t = (#[trigger] old(self).rewards@[j]).token;
                        self.pending_of(user, t) == old(self).pending_of(user, t)
                            && self.last_acc_of(user, t) == old(self).last_acc_of(user, t)
                    },
                forall|u2: u64, t2: u64|
                    u2 != user ==> self.pending_of(u2, t2) == old(self).pending_of(u2, t2)
                        && self.last_acc_of(u2, t2) == old(self).last_acc_of(u2, t2),
                forall|t2: u64|
                    !old(self).has_reward(t2) ==> self.pending_of(user, t2) == old(self).pending_of(user, t2) && self.last_acc_of(user, t2) == old(self).last_acc_of(
                        user,
                        t2,
                    ),
            decreases n - k,
        {
            let token = self.rewards[k].token;
            proof {
                self.lemma_reward_at(k as int);
                old(self).lemma_reward_at(k as int);
                assert(self.rewards@[k as int] == old(self).rewards@[k as int]);
                assert(old(self).rewards@[k as int].token == token);
                assert(self.accumulated_of(token) == old(self).accumulated_of(token));
                assert(self.plan_delta_scaled(token, round) == old(self).plan_delta_scaled(
                    token,
                    round,
                ));
                assert(self.caught_up_acc(token, round) == old(self).caught_up_acc(
                    token,
                    round,
                ));
                assert(self.user_score(user) == old(self).user_score(user));
                assert(self.pending_of(user, token) == old(self).pending_of(user, token));
                assert(self.last_acc_of(user, token) == old(self).last_acc_of(user, token));
                assert(self.settled_pending(user, token, round) == old(self).settled_pending(
                    user,
                    token,
                    round,
                ));
                assert(self.caught_up_distributed(token, round) == old(self).caught_up_distributed(token, round));
                assert(self.caught_up_round(token, round) == old(self).caught_up_round(
                    token,
                    round,
                ));
                assert(old(self).settle_fits(user, token, round));
                assert(self.settle_fits(user, token, round));
            }
            let ghost prev = *self;
            self.settle(user, token, round);
            proof {
                assert forall|j: int| 0 <= j < k + 1 implies {
                    let t = (#[trigger] old(self).rewards@[j]).token;
                    &&& self.accumulated_of(t) as int == old(self).caught_up_acc(t, round)
                    &&& self.last_catch_up_of(t) == old(self).caught_up_round(t, round)
                    &&& self.distributed_scaled_of(t) as int == old(self).caught_up_distributed(
                        t,
                        round,
                    )
                    &&& self.plan_of(t) == old(self).plan_of(t)
                    &&& self.pending_of(user, t) as int == old(self).settled_pending(
                        user,
                        t,
                        round,
                    )
                    &&& self.last_acc_of(user, t) as int == old(self).caught_up_acc(t, round)
                } by {
                    let t = old(self).rewards@[j].token;
                    if j == k as int {
                    } else {
                        assert(reward_key()(old(self).rewards@[j]) != reward_key()(
                            old(self).rewards@[k as int],
                        ));
                        assert(t != token);
                    }
                }
                assert forall|j: int| k + 1 <= j < n implies self.rewards@[j] == old(self).rewards@[j] by {
                    assert(prev.rewards@[j] == old(self).rewards@[j]);
                    assert(prev.reward_idx(token) == k as int);
                }
                assert forall|j: int| k + 1 <= j < n implies {
                    let t = (#[trigger] old(self).rewards@[j]).token;
                    self.pending_of(user, t) == old(self).pending_of(user, t)
                        && self.last_acc_of(user, t) == old(self).last_acc_of(user, t)
                } by {
                    let t = old(self).rewards@[j].token;
                    assert(reward_key()(old(self).rewards@[j]) != reward_key()(
                        old(self).rewards@[k as int],
                    ));
                    assert(t != token);
                }
                assert forall|t2: u64| !old(self).has_reward(t2) implies self.pending_of(
                    user,
                    t2,
                ) == old(self).pending_of(user, t2) && self.last_acc_of(user, t2) == old(self).last_acc_of(user, t2) by {
                    assert(t2 != token);
                }
            }
            k += 1;
        }
        proof {
            assert forall|t: u64| old(self).has_reward(t) implies {
                &&& self.accumulated_of(t) as int == old(self).caught_up_acc(t, round)
                &&& self.last_catch_up_of(t) == old(self).caught_up_round(t, round)
                &&& self.distributed_scaled_of(t) as int == old(self).caught_up_distributed(
                    t,
                    round,
                )
                &&& self.plan_of(t) == old(self).plan_of(t)
                &&& self.pending_of(user, t) as int == old(self).settled_pending(user, t, round)
                &&& self.last_acc_of(user, t) as int == old(self).caught_up_acc(t, round)
            } by {
                lemma_key_idx(old(self).rewards@, reward_key(), t);
                let j = old(self).reward_idx(t);
                assert(old(self).rewards@[j].token == t);
            }
        }
    }

    /// Creates the reward record of `token` on first contact, with an
    /// empty accumulator, no plan, and the clock started at `round`.
    fn ensure_reward(&mut self, token: u64, round: u64)
        requires
            old(self).wf(),
        ensures
            final(self).wf(),
            final(self).assets@ == old(self).assets@,
            final(self).stakes@ == old(self).stakes@,
            final(self).total_score == old(self).total_score,
            final(self).checkpoints@ == old(self).checkpoints@,
            final(self).last_updates@ == old(self).last_updates@,
            final(self).staking_disabled == old(self).staking_disabled,
            old(self).has_reward(token) ==> *final(self) == *old(self),
            final(self).has_reward(token),
            final(self).accumulated_of(token) == old(self).accumulated_of(token),
            final(self).distributed_scaled_of(token) == old(self).distributed_scaled_of(token),
            final(self).plan_of(token) == old(self).plan_of(token),
            final(self).last_catch_up_of(token) == if old(self).has_reward(token) {
                old(self).last_catch_up_of(token)
            } else {
                round
            },
            forall|t: u64| t != token ==> final(self).reward_idx(t) == old(self).reward_idx(t),
            forall|t: u64|
                t != token ==> final(self).has_reward(t) == old(self).has_reward(t) && final(self).accumulated_of(t) == old(self).accumulated_of(t) && final(self).last_catch_up_of(t)
                    == old(self).last_catch_up_of(t) && final(self).distributed_scaled_of(t)
                    == old(self).distributed_scaled_of(t) && final(self).plan_of(t) == old(self).plan_of(t),
            forall|u2: u64, t2: u64|
                final(self).pending_of(u2, t2) == old(self).pending_of(u2, t2) && final(self).last_acc_of(u2, t2) == old(self).last_acc_of(u2, t2),
            old(self).conservative() ==> final(self).conservative(),
    {
        let i = self.find_reward(token);
        if i < self.rewards.len() {
            return ;
        }
        let new_rec = RewardState {
            token,
            accumulated: 0,
            last_catch_up_round: round,
            distributed_scaled: 0,
            plan: None,
        };
        let ghost old_rewards = self.rewards@;
        self.rewards.push(new_rec);
        proof {
            assert(self.rewards@ == old_rewards.push(new_rec));
            lemma_key_idx_push(old_rewards, reward_key(), new_rec, token);
            assert(self.reward_idx(token) == old_rewards.len() as int);
            assert(self.rewards@[old_rewards.len() as int] == new_rec);
            assert forall|t: u64| t != token implies self.reward_idx(t) == old(self).reward_idx(
                t,
            ) && self.accumulated_of(t) == old(self).accumulated_of(t) && self.last_catch_up_of(
                t,
            ) == old(self).last_catch_up_of(t) && self.distributed_scaled_of(t) == old(self).distributed_scaled_of(t) && self.plan_of(t) == old(self).plan_of(t) by {
                lemma_key_idx_push(old_rewards, reward_key(), new_rec, t);
                lemma_key_idx(old_rewards, reward_key(), t);
                let idx = key_idx(old_rewards, reward_key(), t);
                if idx >= 0 {
                    assert(self.rewards@[idx] == old_rewards[idx]);
                }
            }
            assert forall|p: int, q: int| 0 <= p < q < self.rewards@.len() implies reward_key()(
                self.rewards@[p],
            ) != reward_key()(self.rewards@[q]) by {
                if q == self.rewards@.len() - 1 {
                    lemma_key_idx(old_rewards, reward_key(), token);
                    assert(self.rewards@[p] == old_rewards[p]);
                } else {
                    assert(self.rewards@[p] == old_rewards[p]);
                    assert(self.rewards@[q] == old_rewards[q]);
                }
            }
            assert forall|j: int| 0 <= j < self.checkpoints@.len() implies {
                let c = #[trigger] self.checkpoints@[j];
                has_key(self.rewards@, reward_key(), c.token) && c.last_accumulated
                    <= self.accumulated_of(c.token)
            } by {
                let c = self.checkpoints@[j];
                assert(has_key(old_rewards, reward_key(), c.token));
                assert(c.token != token);
                assert(c.last_accumulated <= old(self).accumulated_of(c.token));
            }
            if old(self).conservative() {
                assert forall|u: u64, t: u64| #[trigger] self.entitlement(u, t)
                    <= self.distributed_scaled_of(t) by {
                    assert(old(self).entitlement(u, t) <= old(self).distributed_scaled_of(t));
                    assert(self.pending_of(u, t) == old(self).pending_of(u, t));
                    assert(self.last_acc_of(u, t) == old(self).last_acc_of(u, t));
                    assert(self.user_score(u) == old(self).user_score(u));
                    assert(self.accumulated_of(t) == old(self).accumulated_of(t));
                    assert(self.distributed_scaled_of(t) == old(self).distributed_scaled_of(
                        t,
                    ));
                }
            }
        }
    }

    /// A manual, instantaneous reward drop: catches `token` up to `round`,
    /// then folds `amount` reward tokens into the accumulator at the
    /// current aggregate score. Fails, changing nothing, when nobody
    /// stakes: an instantaneous drop has nobody to go to.
    pub fn distribute_rewards(&mut self, token: u64, amount: u128, round: u64) -> (r: Result<
        (),
        Error,
    >)
        requires
            old(self).wf(),
            old(self).total_score > 0 ==> {
                &&& old(self).catch_up_fits(token, round)
                &&& amount * SCALE <= u128::MAX
                &&& old(self).caught_up_acc(token, round) + amount * SCALE / (
                old(self).total_score as int) <= u128::MAX
                &&& old(self).caught_up_distributed(token, round) + amount * SCALE <= u128::MAX
            },
        ensures
            final(self).wf(),
            r is Err <==> old(self).total_score == 0,
            r is Err ==> r == Result::<(), Error>::Err(Error::NoStakersToDistributeTo) && *final(self) == *old(self),
            r is Ok ==> {
                &&& final(self).has_reward(token)
                &&& final(self).accumulated_of(token) as int == old(self).caught_up_acc(
                    token,
                    round,
                ) + amount * SCALE / (old(self).total_score as int)
                &&& final(self).last_catch_up_of(token) == old(self).caught_up_round(
                    token,
                    round,
                )
                &&& final(self).distributed_scaled_of(token) as int == old(self).caught_up_distributed(token, round) + amount * SCALE
                &&& final(self).plan_of(token) == old(self).plan_of(token)
            },
            final(self).assets@ == old(self).assets@,
            final(self).stakes@ == old(self).stakes@,
            final(self).total_score == old(self).total_score,
            final(self).last_updates@ == old(self).last_updates@,
            final(self).staking_disabled == old(self).staking_disabled,
            forall|t: u64|
                t != token ==> final(self).has_reward(t) == old(self).has_reward(t) && final(self).accumulated_of(t) == old(self).accumulated_of(t) && final(self).last_catch_up_of(t)
                    == old(self).last_catch_up_of(t) && final(self).distributed_scaled_of(t)
                    == old(self).distributed_scaled_of(t) && final(self).plan_of(t) == old(self).plan_of(t),
            forall|u2: u64, t2: u64|
                final(self).pending_of(u2, t2) == old(self).pending_of(u2, t2) && final(self).last_acc_of(u2, t2) == old(self).last_acc_of(u2, t2),
            old(self).conservative() ==> final(self).conservative(),
    {
        if self.total_score == 0 {
            return Err(Error::NoStakersToDistributeTo);
        }
        self.ensure_reward(token, round);
        let ghost m1 = *self;
        proof {
            assert(m1.plan_delta_scaled(token, round) == old(self).plan_delta_scaled(
                token,
                round,
            ));
            assert(m1.caught_up_acc(token, round) == old(self).caught_up_acc(token, round));
            assert(m1.caught_up_round(token, round) == old(self).caught_up_round(token, round));
            assert(m1.caught_up_distributed(token, round) == old(self).caught_up_distributed(
                token,
                round,
            ));
        }
        self.catch_up(token, round);
        let i = self.find_reward(token);
        let rec = self.rewards[i];
        let inc: u128 = amount * SCALE / self.total_score;
        let new_rec = RewardState {
            accumulated: rec.accumulated + inc,
            distributed_scaled: rec.distributed_scaled + amount * SCALE,
            ..rec
        };
        let ghost old_rewards = self.rewards@;
        let ghost m2 = *self;
        self.rewards[i] = new_rec;
        proof {
            vstd::arithmetic::div_mod::lemma_div_pos_is_pos(
                amount * SCALE,
                self.total_score as int,
            );
            assert(self.rewards@ == old_rewards.update(i as int, new_rec));
            assert forall|t: u64|
                key_idx(self.rewards@, reward_key(), t) == key_idx(
                    old_rewards,
                    reward_key(),
                    t,
                ) by {
                lemma_key_idx_update(old_rewards, reward_key(), i as int, new_rec, t);
            }
            assert forall|t: u64| t != token implies self.accumulated_of(t)
                == m2.accumulated_of(t) && self.last_catch_up_of(t) == m2.last_catch_up_of(t)
                && self.distributed_scaled_of(t) == m2.distributed_scaled_of(t) && self.plan_of(
                t,
            ) == m2.plan_of(t) by {
                lemma_key_idx(old_rewards, reward_key(), t);
                lemma_key_idx(old_rewards, reward_key(), token);
                let idx = key_idx(old_rewards, reward_key(), t);
                if idx >= 0 {
                    assert(reward_key()(old_rewards[idx]) == t);
                    assert(reward_key()(old_rewards[i as int]) == token);
                    assert(idx != i as int);
                    assert(self.rewards@[idx] == old_rewards[idx]);
                }
            }
            assert(self.reward_idx(token) == i as int);
            assert(self.rewards@[i as int] == new_rec);
            assert forall|p: int, q: int| 0 <= p < q < self.rewards@.len() implies reward_key()(
                self.rewards@[p],
            ) != reward_key()(self.rewards@[q]) by {
                assert(reward_key()(self.rewards@[p]) == reward_key()(old_rewards[p]));
                assert(reward_key()(self.rewards@[q]) == reward_key()(old_rewards[q]));
            }
            assert forall|j: int| 0 <= j < self.checkpoints@.len() implies {
                let c = #[trigger] self.checkpoints@[j];
                has_key(self.rewards@, reward_key(), c.token) && c.last_accumulated
                    <= self.accumulated_of(c.token)
            } by {
                let c = self.checkpoints@[j];
                assert(has_key(m2.rewards@, reward_key(), c.token));
                assert(c.last_accumulated <= m2.accumulated_of(c.token));
                if c.token == token {
                    assert(self.accumulated_of(token) >= m2.accumulated_of(token));
                }
            }
            if old(self).conservative() {
                assert(m2.conservative());
                assert forall|u: u64, t: u64| #[trigger] self.entitlement(u, t)
                    <= self.distributed_scaled_of(t) by {
                    assert(m2.entitlement(u, t) <= m2.distributed_scaled_of(t));
                    assert(self.pending_of(u, t) == m2.pending_of(u, t));
                    assert(self.last_acc_of(u, t) == m2.last_acc_of(u, t));
                    assert(self.user_score(u) == m2.user_score(u));
                    if t == token {
                        let total = self.total_score as int;
                        let inc2 = amount * SCALE / total;
                        m2.lemma_user_score_bounds(u);
                        assert(self.accumulated_of(t) as int == m2.accumulated_of(t) + inc2);
                        assert(self.distributed_scaled_of(t) as int == m2.distributed_scaled_of(
                            t,
                        ) + amount * SCALE);
                        vstd::arithmetic::mul::lemma_mul_is_distributive_add(
                            self.user_score(u),
                            m2.accumulated_of(t) - m2.last_acc_of(u, t),
                            inc2,
                        );
                        vstd::arithmetic::div_mod::lemma_div_pos_is_pos(amount * SCALE, total);
                        vstd::arithmetic::mul::lemma_mul_inequality(
                            self.user_score(u),
                            total,
                            inc2,
                        );
                        vstd::arithmetic::mul::lemma_mul_is_commutative(total, inc2);
                        vstd::arithmetic::div_mod::lemma_fundamental_div_mod(
                            amount * SCALE,
                            total,
                        );
                        vstd::arithmetic::div_mod::lemma_mod_division_less_than_divisor(
                            amount * SCALE,
                            total,
                        );
                    } else {
                        assert(self.accumulated_of(t) == m2.accumulated_of(t));
                        assert(self.distributed_scaled_of(t) == m2.distributed_scaled_of(t));
                    }
                }
            }
        }
        Ok(())
    }

    /// Declares (or replaces) the linear distribution plan of `token`:
    /// `total_amount` reward tokens vest evenly over `duration_rounds`
    /// rounds starting at `start_round`. The old plan, if any, is first
    /// caught up to `round`; what it had not vested by then is abandoned
    /// with it. No tokens move here: custody is the host's concern.
    pub fn set_distribution_plan(
        &mut self,
        token: u64,
        start_round: u64,
        total_amount: u128,
        duration_rounds: u64,
        round: u64,
    )
        requires
            old(self).wf(),
            duration_rounds >= 1,
            start_round + duration_rounds <= u64::MAX,
            total_amount * SCALE <= u128::MAX,
            old(self).catch_up_fits(token, round),
        ensures
            final(self).wf(),
            final(self).has_reward(token),
            final(self).plan_of(token) == Some(
                DistributionPlan {
                    start_round,
                    end_round: (start_round + duration_rounds) as u64,
                    total_amount,
                },
            ),
            final(self).accumulated_of(token) as int == old(self).caught_up_acc(token, round),
            final(self).last_catch_up_of(token) == old(self).caught_up_round(token, round),
            final(self).distributed_scaled_of(token) as int == old(self).caught_up_distributed(
                token,
                round,
            ),
            final(self).assets@ == old(self).assets@,
            final(self).stakes@ == old(self).stakes@,
            final(self).total_score == old(self).total_score,
            final(self).last_updates@ == old(self).last_updates@,
            final(self).staking_disabled == old(self).staking_disabled,
            forall|t: u64|
                t != token ==> final(self).has_reward(t) == old(self).has_reward(t) && final(self).accumulated_of(t) == old(self).accumulated_of(t) && final(self).last_catch_up_of(t)
                    == old(self).last_catch_up_of(t) && final(self).distributed_scaled_of(t)
                    == old(self).distributed_scaled_of(t) && final(self).plan_of(t) == old(self).plan_of(t),
            forall|u2: u64, t2: u64|
                final(self).pending_of(u2, t2) == old(self).pending_of(u2, t2) && final(self).last_acc_of(u2, t2) == old(self).last_acc_of(u2, t2),
            old(self).conservative() ==> final(self).conservative(),
    {
        self.ensure_reward(token, round);
        let ghost m1 = *self;
        proof {
            assert(m1.plan_delta_scaled(token, round) == old(self).plan_delta_scaled(
                token,
                round,
            ));
            assert(m1.caught_up_acc(token, round) == old(self).caught_up_acc(token, round));
            assert(m1.caught_up_round(token, round) == old(self).caught_up_round(token, round));
            assert(m1.caught_up_distributed(token, round) == old(self).caught_up_distributed(
                token,
                round,
            ));
        }
        self.catch_up(token, round);
        let i = self.find_reward(token);
        let rec = self.rewards[i];
        let new_plan = DistributionPlan {
            start_round,
            end_round: start_round + duration_rounds,
            total_amount,
        };
        let new_rec = RewardState { plan: Some(new_plan), ..rec };
        let ghost old_rewards = self.rewards@;
        let ghost m2 = *self;
        self.rewards[i] = new_rec;
        proof {
            assert(self.rewards@ == old_rewards.update(i as int, new_rec));
            assert forall|t: u64|
                key_idx(self.rewards@, reward_key(), t) == key_idx(
                    old_rewards,
                    reward_key(),
                    t,
                ) by {
                lemma_key_idx_update(old_rewards, reward_key(), i as int, new_rec, t);
            }
            assert forall|t: u64| t != token implies self.accumulated_of(t)
                == m2.accumulated_of(t) && self.last_catch_up_of(t) == m2.last_catch_up_of(t)
                && self.distributed_scaled_of(t) == m2.distributed_scaled_of(t) && self.plan_of(
                t,
            ) == m2.plan_of(t) by {
                lemma_key_idx(old_rewards, reward_key(), t);
                lemma_key_idx(old_rewards, reward_key(), token);
                let idx = key_idx(old_rewards, reward_key(), t);
                if idx >= 0 {
                    assert(reward_key()(old_rewards[idx]) == t);
                    assert(reward_key()(old_rewards[i as int]) == token);
                    assert(idx != i as int);
                    assert(self.rewards@[idx] == old_rewards[idx]);
                }
            }
            assert(self.reward_idx(token) == i as int);
            assert(self.rewards@[i as int] == new_rec);
            assert forall|p: int, q: int| 0 <= p < q < self.rewards@.len() implies reward_key()(
                self.rewards@[p],
            ) != reward_key()(self.rewards@[q]) by {
                assert(reward_key()(self.rewards@[p]) == reward_key()(old_rewards[p]));
                assert(reward_key()(self.rewards@[q]) == reward_key()(old_rewards[q]));
            }
            assert forall|j: int| 0 <= j < self.checkpoints@.len() implies {
                let c = #[trigger] self.checkpoints@[j];
                has_key(self.rewards@, reward_key(), c.token) && c.last_accumulated
                    <= self.accumulated_of(c.token)
            } by {
                let c = self.checkpoints@[j];
                assert(has_key(m2.rewards@, reward_key(), c.token));
                assert(c.last_accumulated <= m2.accumulated_of(c.token));
            }
            if old(self).conservative() {
                assert(m2.conservative());
                assert forall|u: u64, t: u64| #[trigger] self.entitlement(u, t)
                    <= self.distributed_scaled_of(t) by {
                    assert(m2.entitlement(u, t) <= m2.distributed_scaled_of(t));
                    assert(self.pending_of(u, t) == m2.pending_of(u, t));
                    assert(self.last_acc_of(u, t) == m2.last_acc_of(u, t));
                    assert(self.user_score(u) == m2.user_score(u));
                    assert(self.accumulated_of(t) == m2.accumulated_of(t));
                    assert(self.distributed_scaled_of(t) == m2.distributed_scaled_of(t));
                }
            }
        }
    }

    // ----- stake mutation handlers -----

    /// The score the allow-list assigns to a batch of payments.
    pub open spec fn added_score(self, payments: Seq<TokenAmount>) -> int {
        sum_by(payments, payment_score_fn(self.assets@))
    }

    /// Stakes a batch of payments for `user`: every reward token is
    /// settled first, at the pre-stake score, then each payment is added
    /// to the user's position and to the aggregate score. Rejected
    /// wholesale, changing nothing, when any payment's asset class is not
    /// on the allow-list.
    pub fn stake(&mut self, user: u64, round: u64, payments: &Vec<TokenAmount>) -> (r: Result<
        (),
        Error,
    >)
        requires
            old(self).wf(),
            forall|i: int| 0 <= i < payments@.len() ==> (#[trigger] payments@[i]).amount > 0,
            old(self).settle_all_fits(user, round),
            old(self).total_score + old(self).added_score(payments@) <= u128::MAX,
        ensures
            final(self).wf(),
            r is Err <==> exists|i: int|
                0 <= i < payments@.len() && !old(self).asset_registered(
                    (#[trigger] payments@[i]).token,
                ),
            r is Err ==> r == Result::<(), Error>::Err(Error::InvalidPaymentToken) && *final(self) == *old(self),
            final(self).assets@ == old(self).assets@,
            final(self).last_updates@ == old(self).last_updates@,
            final(self).staking_disabled == old(self).staking_disabled,
            r is Ok ==> {
                &&& forall|a: u64|
                    final(self).stake_of(user, a) as int == old(self).stake_of(user, a)
                        + sum_by(payments@, token_amount_fn(a))
                &&& forall|u2: u64, a: u64|
                    u2 != user ==> final(self).stake_of(u2, a) == old(self).stake_of(u2, a)
                &&& final(self).total_score as int == old(self).total_score + old(self).added_score(payments@)
                &&& final(self).user_score(user) == old(self).user_score(user) + old(self).added_score(payments@)
                &&& forall|u2: u64| u2 != user ==> final(self).user_score(u2) == old(self).user_score(u2)
                &&& forall|t: u64|
                    final(self).has_reward(t) == old(self).has_reward(t) && final(self).plan_of(t) == old(self).plan_of(t)
                &&& forall|t: u64|
                    old(self).has_reward(t) ==> final(self).accumulated_of(t) as int == old(self).caught_up_acc(t, round) && final(self).last_catch_up_of(t) == old(self).caught_up_round(t, round) && final(self).distributed_scaled_of(
                        t,
                    ) as int == old(self).caught_up_distributed(t, round) && final(self).pending_of(user, t) as int == old(self).settled_pending(user, t, round)
                        && final(self).last_acc_of(user, t) as int == old(self).caught_up_acc(
                        t,
                        round,
                    )
                &&& forall|u2: u64, t2: u64|
                    u2 != user ==> final(self).pending_of(u2, t2) == old(self).pending_of(
                        u2,
                        t2,
                    ) && final(self).last_acc_of(u2, t2) == old(self).last_acc_of(u2, t2)
                &&& forall|t2: u64|
                    !old(self).has_reward(t2) ==> final(self).pending_of(user, t2) == old(self).pending_of(user, t2) && final(self).last_acc_of(user, t2) == old(self).last_acc_of(user, t2)
            },
            old(self).conservative() ==> final(self).conservative(),
    {
        // Fail-fast validation: nothing moves unless every class is allowed.
        let n = payments.len();
        let mut k: usize = 0;
        while k < n
            invariant
                k <= n,
                n == payments@.len(),
                *self == *old(self),
                old(self).wf(),
                unique_keys(self.assets@, asset_key()),
                forall|j: int|
                    0 <= j < k ==> self.asset_registered((#[trigger] payments@[j]).token),
            decreases n - k,
        {
            let ai = self.find_asset(payments[k].token);
            if ai == self.assets.len() {
                return Err(Error::InvalidPaymentToken);
            }
            k += 1;
        }
        // Settle every reward token at the pre-stake score.
        self.settle_all(user, round);
        let ghost mid = *self;
        proof {
            assert forall|i: int| 0 <= i < payments@.len() implies payment_score_fn(
                self.assets@,
            )((#[trigger] payments@[i])) >= 0 by {
                let p = payments@[i];
                vstd::arithmetic::mul::lemma_mul_nonnegative(
                    p.amount as int,
                    weight_in(self.assets@, p.token),
                );
            }
        }
        // Add each payment to the ledger.
        let mut k2: usize = 0;
        while k2 < n
            invariant
                k2 <= n,
                n == payments@.len(),
                self.wf(),
                forall|j: int|
                    0 <= j < n ==> self.asset_registered((#[trigger] payments@[j]).token),
                forall|i: int| 0 <= i < payments@.len() ==> (#[trigger] payments@[i]).amount > 0,
                forall|i: int|
                    0 <= i < payments@.len() ==> payment_score_fn(self.assets@)(
                        #[trigger] payments@[i],
                    ) >= 0,
                self.assets@ == mid.assets@,
                self.rewards@ == mid.rewards@,
                self.checkpoints@ == mid.checkpoints@,
                self.last_updates@ == mid.last_updates@,
                self.staking_disabled == mid.staking_disabled,
                mid.assets@ == old(self).assets@,
                mid.total_score == old(self).total_score,
                mid.stakes@ == old(self).stakes@,
                old(self).total_score + old(self).added_score(payments@) <= u128::MAX,
                forall|a: u64|
                    self.stake_of(user, a) as int == old(self).stake_of(user, a) + sum_by(
                        payments@.take(k2 as int),
                        token_amount_fn(a),
                    ),
                forall|u2: u64, a: u64|
                    u2 != user ==> self.stake_of(u2, a) == old(self).stake_of(u2, a),
                self.total_score as int == old(self).total_score + sum_by(
                    payments@.take(k2 as int),
                    payment_score_fn(self.assets@),
                ),
                self.user_score(user) == old(self).user_score(user) + sum_by(
                    payments@.take(k2 as int),
                    payment_score_fn(self.assets@),
                ),
                forall|u2: u64| u2 != user ==> self.user_score(u2) == old(self).user_score(u2),
            decreases n - k2,
        {
            let p = payments[k2];
            let ai = self.find_asset(p.token);
            let w = self.assets[ai].weight;
            proof {
                assert(w as int == weight_in(self.assets@, p.token));
                lemma_sum_by_take_succ(payments@, payment_score_fn(self.assets@), k2 as int);
                lemma_sum_by_take_le(payments@, payment_score_fn(self.assets@), k2 as int + 1);
                assert(sum_by(payments@.take(k2 as int + 1), payment_score_fn(self.assets@))
                    <= old(self).added_score(payments@));
                vstd::arithmetic::mul::lemma_mul_nonnegative(
                    p.amount as int,
                    weight_in(self.assets@, p.token),
                );
            }
            let si = self.find_stake(user, p.token);
            let ghost old_stakes = self.stakes@;
            let ghost prev = *self;
            if si < self.stakes.len() {
                let e = self.stakes[si];
                proof {
                    lemma_key_idx(old_stakes, stake_key(), (user, p.token));
                    assert(e.user == user && e.asset == p.token);
                    // The entry's own score is part of the aggregate, so the
                    // grown amount still fits.
                    assert forall|j: int| 0 <= j < old_stakes.len() implies entry_score_fn(
                        self.assets@,
                    )(#[trigger] old_stakes[j]) >= 0 by {
                        let x = old_stakes[j];
                        vstd::arithmetic::mul::lemma_mul_nonnegative(
                            x.amount as int,
                            weight_in(self.assets@, x.asset),
                        );
                    }
                    lemma_sum_by_elem_le(old_stakes, entry_score_fn(self.assets@), si as int);
                    vstd::arithmetic::mul::lemma_mul_inequality(
                        1,
                        w as int,
                        e.amount as int + p.amount as int,
                    );
                    vstd::arithmetic::mul::lemma_mul_is_distributive_add_other_way(
                        w as int,
                        e.amount as int,
                        p.amount as int,
                    );
                    vstd::arithmetic::mul::lemma_mul_inequality(1, w as int, e.amount as int);
                    vstd::arithmetic::mul::lemma_mul_inequality(1, w as int, p.amount as int);
                }
                let new_e = StakeEntry { amount: e.amount + p.amount, ..e };
                self.stakes[si] = new_e;
                proof {
                    assert(self.stakes@ == old_stakes.update(si as int, new_e));
                    assert forall|u2: u64, a: u64|
                        key_idx(self.stakes@, stake_key(), (u2, a)) == key_idx(
                            old_stakes,
                            stake_key(),
                            (u2, a),
                        ) && (!(u2 == user && a == p.token) && key_idx(
                            old_stakes,
                            stake_key(),
                            (u2, a),
                        ) >= 0 ==> self.stakes@[key_idx(old_stakes, stake_key(), (u2, a))]
                            == old_stakes[key_idx(old_stakes, stake_key(), (u2, a))]) by {
                        lemma_key_idx_update(old_stakes, stake_key(), si as int, new_e, (u2, a));
                        lemma_key_idx(old_stakes, stake_key(), (u2, a));
                        let idx = key_idx(old_stakes, stake_key(), (u2, a));
                        if idx >= 0 && !(u2 == user && a == p.token) {
                            assert(stake_key()(old_stakes[idx]) == (u2, a));
                            assert(stake_key()(old_stakes[si as int]) == (user, p.token));
                            assert(idx != si as int);
                        }
                    }
                    assert forall|pq: int, q: int|
                        0 <= pq < q < self.stakes@.len() implies stake_key()(
                        self.stakes@[pq],
                    ) != stake_key()(self.stakes@[q]) by {
                        assert(stake_key()(self.stakes@[pq]) == stake_key()(old_stakes[pq]));
                        assert(stake_key()(self.stakes@[q]) == stake_key()(old_stakes[q]));
                    }
                    assert forall|j: int| 0 <= j < self.stakes@.len() implies has_key(
                        self.assets@,
                        asset_key(),
                        (#[trigger] self.stakes@[j]).asset,
                    ) by {
                        if j != si as int {
                            assert(self.stakes@[j] == old_stakes[j]);
                        }
                    }
                    lemma_sum_by_update(
                        old_stakes,
                        entry_score_fn(self.assets@),
                        si as int,
                        new_e,
                    );
                    lemma_sum_by_update(
                        old_stakes,
                        user_score_fn(self.assets@, user),
                        si as int,
                        new_e,
                    );
                    vstd::arithmetic::mul::lemma_mul_is_distributive_add_other_way(
                        weight_in(self.assets@, p.token),
                        e.amount as int,
                        p.amount as int,
                    );
                    assert forall|u2: u64| u2 != user implies self.user_score(u2)
                        == prev.user_score(u2) by {
                        lemma_sum_by_update(
                            old_stakes,
                            user_score_fn(self.assets@, u2),
                            si as int,
                            new_e,
                        );
                    }
                }
                self.total_score = self.total_score + p.amount * w;
            } else {
                let new_e = StakeEntry { user, asset: p.token, amount: p.amount };
                self.stakes.push(new_e);
                proof {
                    assert(self.stakes@ == old_stakes.push(new_e));
                    assert forall|u2: u64, a: u64| !(u2 == user && a == p.token) implies key_idx(
                        self.stakes@,
                        stake_key(),
                        (u2, a),
                    ) == key_idx(old_stakes, stake_key(), (u2, a)) && (key_idx(
                        old_stakes,
                        stake_key(),
                        (u2, a),
                    ) >= 0 ==> self.stakes@[key_idx(old_stakes, stake_key(), (u2, a))]
                        == old_stakes[key_idx(old_stakes, stake_key(), (u2, a))]) by {
                        lemma_key_idx_push(old_stakes, stake_key(), new_e, (u2, a));
                        lemma_key_idx(old_stakes, stake_key(), (u2, a));
                    }
                    lemma_key_idx_push(old_stakes, stake_key(), new_e, (user, p.token));
                    assert(key_idx(self.stakes@, stake_key(), (user, p.token))
                        == old_stakes.len() as int);
                    assert(self.stakes@[old_stakes.len() as int] == new_e);
                    assert forall|pq: int, q: int|
                        0 <= pq < q < self.stakes@.len() implies stake_key()(
                        self.stakes@[pq],
                    ) != stake_key()(self.stakes@[q]) by {
                        if q == self.stakes@.len() - 1 {
                            lemma_key_idx(old_stakes, stake_key(), (user, p.token));
                            assert(self.stakes@[pq] == old_stakes[pq]);
                        } else {
                            assert(self.stakes@[pq] == old_stakes[pq]);
                            assert(self.stakes@[q] == old_stakes[q]);
                        }
                    }
                    assert forall|j: int| 0 <= j < self.stakes@.len() implies has_key(
                        self.assets@,
                        asset_key(),
                        (#[trigger] self.stakes@[j]).asset,
                    ) by {
                        if j != old_stakes.len() as int {
                            assert(self.stakes@[j] == old_stakes[j]);
                        }
                    }
                    lemma_sum_by_push(old_stakes, entry_score_fn(self.assets@), new_e);
                    lemma_sum_by_push(old_stakes, user_score_fn(self.assets@, user), new_e);
                    assert forall|u2: u64| u2 != user implies self.user_score(u2)
                        == prev.user_score(u2) by {
                        lemma_sum_by_push(old_stakes, user_score_fn(self.assets@, u2), new_e);
                    }
                }
                self.total_score = self.total_score + p.amount * w;
            }
            proof {
                assert forall|a: u64|
                    self.stake_of(user, a) as int == old(self).stake_of(user, a) + sum_by(
                        payments@.take(k2 as int + 1),
                        token_amount_fn(a),
                    ) by {
                    lemma_sum_by_take_succ(payments@, token_amount_fn(a), k2 as int);
                    // Name the lookups so the stability facts above apply to `a`.
                    let i1 = key_idx(self.stakes@, stake_key(), (user, a));
                    let i0 = key_idx(old_stakes, stake_key(), (user, a));
                    assert(prev.stake_of(user, a) as int == old(self).stake_of(user, a)
                        + sum_by(payments@.take(k2 as int), token_amount_fn(a)));
                }
            }
            k2 += 1;
        }
        proof {
            assert(payments@.take(n as int) =~= payments@);
            if old(self).conservative() {
                assert(mid.conservative());
                assert forall|u: u64, t: u64| #[trigger] self.entitlement(u, t)
                    <= self.distributed_scaled_of(t) by {
                    assert(mid.entitlement(u, t) <= mid.distributed_scaled_of(t));
                    assert(self.distributed_scaled_of(t) == mid.distributed_scaled_of(t));
                    assert(self.pending_of(u, t) == mid.pending_of(u, t));
                    assert(self.last_acc_of(u, t) == mid.last_acc_of(u, t));
                    assert(self.accumulated_of(t) == mid.accumulated_of(t));
                    if u == user {
                        if old(self).has_reward(t) {
                            assert(mid.last_acc_of(user, t) as int == old(self).caught_up_acc(
                                t,
                                round,
                            ));
                            assert(mid.accumulated_of(t) as int == old(self).caught_up_acc(
                                t,
                                round,
                            ));
                        } else {
                            assert(mid.accumulated_of(t) == 0);
                            if mid.cp_idx(user, t) >= 0 {
                                lemma_key_idx(mid.checkpoints@, cp_key(), (user, t));
                                assert(mid.checkpoints@[mid.cp_idx(user, t)].token == t);
                                assert(false);
                            }
                            assert(mid.last_acc_of(user, t) == 0);
                        }
                        assert(mid.accumulated_of(t) == mid.last_acc_of(user, t));
                        vstd::arithmetic::mul::lemma_mul_by_zero_is_zero(self.user_score(u));
                        vstd::arithmetic::mul::lemma_mul_by_zero_is_zero(mid.user_score(u));
                    } else {
                        assert(self.user_score(u) == mid.user_score(u));
                    }
                }
            }
        }
        Ok(())
    }

    /// Whether the `i`-th unstake request fails: its asset class is not
    /// on the allow-list, or the amounts requested for that class up to
    /// and including it exceed the user's holding.
    pub open spec fn unstake_bad_at(self, user: u64, reqs: Seq<TokenAmount>, i: int) -> bool {
        let t = reqs[i].token;
        !self.asset_registered(t) || sum_by(reqs.take(i + 1), token_amount_fn(t))
            > self.stake_of(user, t) as int
    }

    /// The first failing request at or after `k`, or the batch length
    /// when every request can be honoured.
    pub open spec fn first_unstake_bad(self, user: u64, reqs: Seq<TokenAmount>, k: int) -> int
        decreases reqs.len() - k,
    {
        if k < 0 || k >= reqs.len() {
            reqs.len() as int
        } else if self.unstake_bad_at(user, reqs, k) {
            k
        } else {
            self.first_unstake_bad(user, reqs, k + 1)
        }
    }

    pub proof fn lemma_first_unstake_bad(self, user: u64, reqs: Seq<TokenAmount>, k: int)
        requires
            0 <= k <= reqs.len(),
        ensures
            k <= self.first_unstake_bad(user, reqs, k) <= reqs.len(),
            self.first_unstake_bad(user, reqs, k) < reqs.len() ==> self.unstake_bad_at(
                user,
                reqs,
                self.first_unstake_bad(user, reqs, k),
            ),
            forall|i: int|
                k <= i < self.first_unstake_bad(user, reqs, k) ==> !self.unstake_bad_at(
                    user,
                    reqs,
                    i,
                ),
        decreases reqs.len() - k,
    {
        if k < reqs.len() && !self.unstake_bad_at(user, reqs, k) {
            self.lemma_first_unstake_bad(user, reqs, k + 1);
        }
    }

    /// A failing request behind an all-good prefix is the first failure.
    pub proof fn lemma_first_unstake_bad_at(
        self,
        user: u64,
        reqs: Seq<TokenAmount>,
        j: int,
        k: int,
    )
        requires
            0 <= j <= k < reqs.len(),
            self.unstake_bad_at(user, reqs, k),
            forall|i: int| j <= i < k ==> !self.unstake_bad_at(user, reqs, i),
        ensures
            self.first_unstake_bad(user, reqs, j) == k,
        decreases k - j,
    {
        if j < k {
            self.lemma_first_unstake_bad_at(user, reqs, j + 1, k);
        }
    }

    /// With no failing request the first failure is the batch length.
    pub proof fn lemma_first_unstake_bad_none(self, user: u64, reqs: Seq<TokenAmount>, j: int)
        requires
            0 <= j <= reqs.len(),
            forall|i: int| j <= i < reqs.len() ==> !self.unstake_bad_at(user, reqs, i),
        ensures
            self.first_unstake_bad(user, reqs, j) == reqs.len(),
        decreases reqs.len() - j,
    {
        if j < reqs.len() {
            self.lemma_first_unstake_bad_none(user, reqs, j + 1);
        }
    }

    /// Unstakes a batch of requests for `user` and returns the released
    /// assets for the host to transfer back. Refused outright while a
    /// governance proposal is ongoing; otherwise validated request by
    /// request against the running balances before anything moves, then
    /// every reward token is settled at the pre-unstake score and the
    /// positions and aggregate score are reduced.
    pub fn unstake(
        &mut self,
        user: u64,
        round: u64,
        requests: &Vec<TokenAmount>,
        proposal_ongoing: bool,
    ) -> (r: Result<Vec<TokenAmount>, Error>)
        requires
            old(self).wf(),
            old(self).settle_all_fits(user, round),
        ensures
            final(self).wf(),
            proposal_ongoing ==> r == Result::<Vec<TokenAmount>, Error>::Err(
                Error::ProposalOngoing,
            ) && *final(self) == *old(self),
            !proposal_ongoing && old(self).first_unstake_bad(user, requests@, 0)
                < requests@.len() ==> {
                let b = old(self).first_unstake_bad(user, requests@, 0);
                &&& *final(self) == *old(self)
                &&& r == Result::<Vec<TokenAmount>, Error>::Err(
                    if !old(self).asset_registered(requests@[b].token) {
                        Error::InvalidPaymentToken
                    } else {
                        Error::InsufficientStake
                    },
                )
            },
            !proposal_ongoing && old(self).first_unstake_bad(user, requests@, 0)
                == requests@.len() ==> {
                &&& r matches Ok(v) && v@ == requests@
                &&& forall|a: u64|
                    final(self).stake_of(user, a) as int == old(self).stake_of(user, a) - sum_by(
                        requests@,
                        token_amount_fn(a),
                    )
                &&& forall|u2: u64, a: u64|
                    u2 != user ==> final(self).stake_of(u2, a) == old(self).stake_of(u2, a)
                &&& final(self).total_score as int == old(self).total_score - old(self).added_score(requests@)
                &&& final(self).user_score(user) == old(self).user_score(user) - old(self).added_score(requests@)
                &&& forall|u2: u64| u2 != user ==> final(self).user_score(u2) == old(self).user_score(u2)
                &&& forall|t: u64|
                    final(self).has_reward(t) == old(self).has_reward(t) && final(self).plan_of(
                        t,
                    ) == old(self).plan_of(t)
                &&& forall|t: u64|
                    old(self).has_reward(t) ==> final(self).accumulated_of(t) as int == old(self).caught_up_acc(t, round) && final(self).last_catch_up_of(t) == old(self).caught_up_round(t, round) && final(self).distributed_scaled_of(
                        t,
                    ) as int == old(self).caught_up_distributed(t, round) && final(self).pending_of(user, t) as int == old(self).settled_pending(user, t, round)
                        && final(self).last_acc_of(user, t) as int == old(self).caught_up_acc(
                        t,
                        round,
                    )
                &&& forall|u2: u64, t2: u64|
                    u2 != user ==> final(self).pending_of(u2, t2) == old(self).pending_of(
                        u2,
                        t2,
                    ) && final(self).last_acc_of(u2, t2) == old(self).last_acc_of(u2, t2)
                &&& forall|t2: u64|
                    !old(self).has_reward(t2) ==> final(self).pending_of(user, t2) == old(self).pending_of(user, t2) && final(self).last_acc_of(user, t2) == old(self).last_acc_of(user, t2)
            },
            final(self).assets@ == old(self).assets@,
            final(self).last_updates@ == old(self).last_updates@,
            final(self).staking_disabled == old(self).staking_disabled,
            old(self).conservative() ==> final(self).conservative(),
    {
        if proposal_ongoing {
            return Err(Error::ProposalOngoing);
        }
        // Fail-fast validation against running balances: nothing moves
        // unless the whole batch can be honoured.
        let n = requests.len();
        let mut remaining: Vec<TokenAmount> = Vec::new();
        let mut k: usize = 0;
        while k < n
            invariant
                k <= n,
                n == requests@.len(),
                !proposal_ongoing,
                *self == *old(self),
                old(self).wf(),
                unique_keys(remaining@, token_key()),
                forall|j: int|
                    0 <= j < remaining@.len() ==> (#[trigger] remaining@[j]).amount as int
                        == old(self).stake_of(user, remaining@[j].token) as int - sum_by(
                        requests@.take(k as int),
                        token_amount_fn(remaining@[j].token),
                    ),
                forall|t: u64|
                    key_idx(remaining@, token_key(), t) == -1 ==> sum_by(
                        requests@.take(k as int),
                        token_amount_fn(t),
                    ) == 0,
                forall|i: int| 0 <= i < k ==> !old(self).unstake_bad_at(user, requests@, i),
            decreases n - k,
        {
            let q = requests[k];
            let ai = self.find_asset(q.token);
            if ai == self.assets.len() {
                proof {
                    old(self).lemma_first_unstake_bad_at(user, requests@, 0, k as int);
                }
                return Err(Error::InvalidPaymentToken);
            }
            let mut ri = find_token_entry(&remaining, q.token);
            let ghost old_rem = remaining@;
            if ri == remaining.len() {
                let si = self.find_stake(user, q.token);
                let held: u128 = if si < self.stakes.len() {
                    self.stakes[si].amount
                } else {
                    0
                };
                let new_entry = TokenAmount { token: q.token, amount: held };
                remaining.push(new_entry);
                proof {
                    assert(remaining@ == old_rem.push(new_entry));
                    lemma_key_idx_push(old_rem, token_key(), new_entry, q.token);
                    assert forall|t: u64| t != q.token implies key_idx(
                        remaining@,
                        token_key(),
                        t,
                    ) == key_idx(old_rem, token_key(), t) by {
                        lemma_key_idx_push(old_rem, token_key(), new_entry, t);
                    }
                    assert forall|p2: int, q2: int|
                        0 <= p2 < q2 < remaining@.len() implies token_key()(
                        remaining@[p2],
                    ) != token_key()(remaining@[q2]) by {
                        if q2 == remaining@.len() - 1 {
                            lemma_key_idx(old_rem, token_key(), q.token);
                            assert(remaining@[p2] == old_rem[p2]);
                        } else {
                            assert(remaining@[p2] == old_rem[p2]);
                            assert(remaining@[q2] == old_rem[q2]);
                        }
                    }
                    assert(sum_by(requests@.take(k as int), token_amount_fn(q.token)) == 0);
                    assert forall|t: u64| key_idx(remaining@, token_key(), t) == -1 implies
                        key_idx(old_rem, token_key(), t) == -1 by {
                        lemma_key_idx_push(old_rem, token_key(), new_entry, t);
                    }
                    assert forall|j: int| 0 <= j < remaining@.len() implies (
                    #[trigger] remaining@[j]).amount as int == old(self).stake_of(
                        user,
                        remaining@[j].token,
                    ) as int - sum_by(
                        requests@.take(k as int),
                        token_amount_fn(remaining@[j].token),
                    ) by {
                        if j < old_rem.len() {
                            assert(remaining@[j] == old_rem[j]);
                        }
                    }
                }
            }
            let ri2 = find_token_entry(&remaining, q.token);
            let entry = remaining[ri2];
            proof {
                lemma_sum_by_take_succ(requests@, token_amount_fn(q.token), k as int);
                lemma_key_idx(remaining@, token_key(), q.token);
                assert(remaining@[ri2 as int] == entry);
                assert(entry.token == q.token);
                assert(entry.amount as int == old(self).stake_of(user, q.token) as int - sum_by(
                    requests@.take(k as int),
                    token_amount_fn(q.token),
                ));
            }
            if entry.amount < q.amount {
                proof {
                    assert(old(self).unstake_bad_at(user, requests@, k as int));
                    old(self).lemma_first_unstake_bad_at(user, requests@, 0, k as int);
                }
                return Err(Error::InsufficientStake);
            }
            let new_entry = TokenAmount { token: q.token, amount: entry.amount - q.amount };
            let ghost rem_before = remaining@;
            remaining[ri2] = new_entry;
            proof {
                assert(!old(self).unstake_bad_at(user, requests@, k as int));
                assert(remaining@ == rem_before.update(ri2 as int, new_entry));
                assert forall|t: u64|
                    key_idx(remaining@, token_key(), t) == key_idx(
                        rem_before,
                        token_key(),
                        t,
                    ) by {
                    lemma_key_idx_update(rem_before, token_key(), ri2 as int, new_entry, t);
                }
                assert forall|p2: int, q2: int|
                    0 <= p2 < q2 < remaining@.len() implies token_key()(
                    remaining@[p2],
                ) != token_key()(remaining@[q2]) by {
                    assert(token_key()(remaining@[p2]) == token_key()(rem_before[p2]));
                    assert(token_key()(remaining@[q2]) == token_key()(rem_before[q2]));
                }
                assert forall|j: int| 0 <= j < remaining@.len() implies (
                #[trigger] remaining@[j]).amount as int == old(self).stake_of(
                    user,
                    remaining@[j].token,
                ) as int - sum_by(
                    requests@.take(k as int + 1),
                    token_amount_fn(remaining@[j].token),
                ) by {
                    let t2 = remaining@[j].token;
                    lemma_sum_by_take_succ(requests@, token_amount_fn(t2), k as int);
                    if j != ri2 as int {
                        assert(remaining@[j] == rem_before[j]);
                        assert(token_key()(rem_before[j]) == t2);
                        assert(token_key()(rem_before[ri2 as int]) == q.token);
                        assert(t2 != q.token);
                    }
                }
                assert forall|t: u64| key_idx(remaining@, token_key(), t) == -1 implies sum_by(
                    requests@.take(k as int + 1),
                    token_amount_fn(t),
                ) == 0 by {
                    assert(key_idx(rem_before, token_key(), t) == key_idx(
                        remaining@,
                        token_key(),
                        t,
                    ));
                    assert(key_idx(rem_before, token_key(), t) == -1);
                    lemma_key_idx_unique(rem_before, token_key(), q.token, ri2 as int);
                    assert(key_idx(rem_before, token_key(), q.token) >= 0);
                    assert(t != q.token);
                    assert(key_idx(old_rem, token_key(), t) == -1);
                    assert(sum_by(requests@.take(k as int), token_amount_fn(t)) == 0);
                    lemma_sum_by_take_succ(requests@, token_amount_fn(t), k as int);
                    assert(token_amount_fn(t)(requests@[k as int]) == 0);
                }
            }
            k += 1;
        }
        proof {
            old(self).lemma_first_unstake_bad_none(user, requests@, 0);
        }
        // Settle every reward token at the pre-unstake score.
        self.settle_all(user, round);
        let ghost mid = *self;
        proof {
            assert forall|i: int| 0 <= i < requests@.len() implies payment_score_fn(
                self.assets@,
            )((#[trigger] requests@[i])) >= 0 by {
                let p = requests@[i];
                vstd::arithmetic::mul::lemma_mul_nonnegative(
                    p.amount as int,
                    weight_in(self.assets@, p.token),
                );
            }
        }
        // Reduce each position; entries may go to zero but are kept.
        let mut out: Vec<TokenAmount> = Vec::new();
        let mut k2: usize = 0;
        while k2 < n
            invariant
                k2 <= n,
                n == requests@.len(),
                self.wf(),
                old(self).wf(),
                forall|i: int| 0 <= i < n ==> !old(self).unstake_bad_at(user, requests@, i),
                forall|i: int|
                    0 <= i < requests@.len() ==> payment_score_fn(self.assets@)(
                        #[trigger] requests@[i],
                    ) >= 0,
                out@ == requests@.take(k2 as int),
                self.assets@ == mid.assets@,
                self.rewards@ == mid.rewards@,
                self.checkpoints@ == mid.checkpoints@,
                self.last_updates@ == mid.last_updates@,
                self.staking_disabled == mid.staking_disabled,
                mid.assets@ == old(self).assets@,
                mid.total_score == old(self).total_score,
                mid.stakes@ == old(self).stakes@,
                forall|a: u64|
                    self.stake_of(user, a) as int == old(self).stake_of(user, a) - sum_by(
                        requests@.take(k2 as int),
                        token_amount_fn(a),
                    ),
                forall|u2: u64, a: u64|
                    u2 != user ==> self.stake_of(u2, a) == old(self).stake_of(u2, a),
                self.total_score as int == old(self).total_score - sum_by(
                    requests@.take(k2 as int),
                    payment_score_fn(self.assets@),
                ),
                self.user_score(user) == old(self).user_score(user) - sum_by(
                    requests@.take(k2 as int),
                    payment_score_fn(self.assets@),
                ),
                forall|u2: u64| u2 != user ==> self.user_score(u2) == old(self).user_score(u2),
            decreases n - k2,
        {
            let q = requests[k2];
            let ai = self.find_asset(q.token);
            proof {
                assert(!old(self).unstake_bad_at(user, requests@, k2 as int));
                lemma_sum_by_take_succ(requests@, token_amount_fn(q.token), k2 as int);
                assert forall|i: int| 0 <= i < requests@.take(k2 as int).len() implies
                    token_amount_fn(q.token)(#[trigger] requests@.take(k2 as int)[i]) >= 0 by {
                }
                lemma_sum_by_nonneg(requests@.take(k2 as int), token_amount_fn(q.token));
            }
            let w = self.assets[ai].weight;
            proof {
                assert(w as int == weight_in(self.assets@, q.token));
                lemma_sum_by_take_succ(requests@, payment_score_fn(self.assets@), k2 as int);
            }
            let si = self.find_stake(user, q.token);
            let ghost old_stakes = self.stakes@;
            let ghost prev = *self;
            if si < self.stakes.len() {
                let e = self.stakes[si];
                proof {
                    lemma_key_idx(old_stakes, stake_key(), (user, q.token));
                    assert(e.user == user && e.asset == q.token);
                    assert(self.stake_of(user, q.token) == e.amount);
                    assert(self.stake_of(user, q.token) as int == old(self).stake_of(
                        user,
                        q.token,
                    ) - sum_by(requests@.take(k2 as int), token_amount_fn(q.token)));
                    assert(e.amount >= q.amount);
                    assert forall|j: int| 0 <= j < old_stakes.len() implies entry_score_fn(
                        self.assets@,
                    )(#[trigger] old_stakes[j]) >= 0 by {
                        let x = old_stakes[j];
                        vstd::arithmetic::mul::lemma_mul_nonnegative(
                            x.amount as int,
                            weight_in(self.assets@, x.asset),
                        );
                    }
                    lemma_sum_by_elem_le(old_stakes, entry_score_fn(self.assets@), si as int);
                    vstd::arithmetic::mul::lemma_mul_inequality(
                        q.amount as int,
                        e.amount as int,
                        w as int,
                    );
                    vstd::arithmetic::mul::lemma_mul_is_distributive_sub_other_way(
                        w as int,
                        e.amount as int,
                        q.amount as int,
                    );
                }
                let new_e = StakeEntry { amount: e.amount - q.amount, ..e };
                self.stakes[si] = new_e;
                proof {
                    assert(self.stakes@ == old_stakes.update(si as int, new_e));
                    assert forall|u2: u64, a: u64|
                        key_idx(self.stakes@, stake_key(), (u2, a)) == key_idx(
                            old_stakes,
                            stake_key(),
                            (u2, a),
                        ) && (!(u2 == user && a == q.token) && key_idx(
                            old_stakes,
                            stake_key(),
                            (u2, a),
                        ) >= 0 ==> self.stakes@[key_idx(old_stakes, stake_key(), (u2, a))]
                            == old_stakes[key_idx(old_stakes, stake_key(), (u2, a))]) by {
                        lemma_key_idx_update(old_stakes, stake_key(), si as int, new_e, (u2, a));
                        lemma_key_idx(old_stakes, stake_key(), (u2, a));
                        let idx = key_idx(old_stakes, stake_key(), (u2, a));
                        if idx >= 0 && !(u2 == user && a == q.token) {
                            assert(stake_key()(old_stakes[idx]) == (u2, a));
                            assert(stake_key()(old_stakes[si as int]) == (user, q.token));
                            assert(idx != si as int);
                        }
                    }
                    assert forall|pq: int, q2: int|
                        0 <= pq < q2 < self.stakes@.len() implies stake_key()(
                        self.stakes@[pq],
                    ) != stake_key()(self.stakes@[q2]) by {
                        assert(stake_key()(self.stakes@[pq]) == stake_key()(old_stakes[pq]));
                        assert(stake_key()(self.stakes@[q2]) == stake_key()(old_stakes[q2]));
                    }
                    assert forall|j: int| 0 <= j < self.stakes@.len() implies has_key(
                        self.assets@,
                        asset_key(),
                        (#[trigger] self.stakes@[j]).asset,
                    ) by {
                        if j != si as int {
                            assert(self.stakes@[j] == old_stakes[j]);
                        }
                    }
                    lemma_sum_by_update(
                        old_stakes,
                        entry_score_fn(self.assets@),
                        si as int,
                        new_e,
                    );
                    lemma_sum_by_update(
                        old_stakes,
                        user_score_fn(self.assets@, user),
                        si as int,
                        new_e,
                    );
                    assert forall|u2: u64| u2 != user implies self.user_score(u2)
                        == prev.user_score(u2) by {
                        lemma_sum_by_update(
                            old_stakes,
                            user_score_fn(self.assets@, u2),
                            si as int,
                            new_e,
                        );
                    }
                }
                self.total_score = self.total_score - q.amount * w;
            } else {
                proof {
                    assert(self.stake_of(user, q.token) == 0);
                    assert(self.stake_of(user, q.token) as int == old(self).stake_of(
                        user,
                        q.token,
                    ) - sum_by(requests@.take(k2 as int), token_amount_fn(q.token)));
                    assert(q.amount == 0);
                    vstd::arithmetic::mul::lemma_mul_by_zero_is_zero(w as int);
                }
            }
            out.push(q);
            proof {
                assert(out@ =~= requests@.take(k2 as int + 1));
                assert forall|a: u64|
                    self.stake_of(user, a) as int == old(self).stake_of(user, a) - sum_by(
                        requests@.take(k2 as int + 1),
                        token_amount_fn(a),
                    ) by {
                    lemma_sum_by_take_succ(requests@, token_amount_fn(a), k2 as int);
                    // Name the lookups so the stability facts above apply to `a`.
                    let i1 = key_idx(self.stakes@, stake_key(), (user, a));
                    let i0 = key_idx(old_stakes, stake_key(), (user, a));
                    assert(prev.stake_of(user, a) as int == old(self).stake_of(user, a)
                        - sum_by(requests@.take(k2 as int), token_amount_fn(a)));
                }
            }
            k2 += 1;
        }
        proof {
            assert(requests@.take(n as int) =~= requests@);
            assert(out@ == requests@);
            if old(self).conservative() {
                assert(mid.conservative());
                assert forall|u: u64, t: u64| #[trigger] self.entitlement(u, t)
                    <= self.distributed_scaled_of(t) by {
                    assert(mid.entitlement(u, t) <= mid.distributed_scaled_of(t));
                    assert(self.distributed_scaled_of(t) == mid.distributed_scaled_of(t));
                    assert(self.pending_of(u, t) == mid.pending_of(u, t));
                    assert(self.last_acc_of(u, t) == mid.last_acc_of(u, t));
                    assert(self.accumulated_of(t) == mid.accumulated_of(t));
                    if u == user {
                        if old(self).has_reward(t) {
                            assert(mid.last_acc_of(user, t) as int == old(self).caught_up_acc(
                                t,
                                round,
                            ));
                            assert(mid.accumulated_of(t) as int == old(self).caught_up_acc(
                                t,
                                round,
                            ));
                        } else {
                            assert(mid.accumulated_of(t) == 0);
                            if mid.cp_idx(user, t) >= 0 {
                                lemma_key_idx(mid.checkpoints@, cp_key(), (user, t));
                                assert(mid.checkpoints@[mid.cp_idx(user, t)].token == t);
                                assert(false);
                            }
                            assert(mid.last_acc_of(user, t) == 0);
                        }
                        assert(mid.accumulated_of(t) == mid.last_acc_of(user, t));
                        vstd::arithmetic::mul::lemma_mul_by_zero_is_zero(self.user_score(u));
                        vstd::arithmetic::mul::lemma_mul_by_zero_is_zero(mid.user_score(u));
                    } else {
                        assert(self.user_score(u) == mid.user_score(u));
                    }
                }
            }
        }
        Ok(out)
    }

    // ----- the claim processor -----

    /// The payment batch a claim at `round` issues, reading the first `k`
    /// reward records: one payment per record with something pending,
    /// in record order.
    pub open spec fn claim_list(self, user: u64, round: u64, k: int) -> Seq<TokenAmount>
        decreases k,
    {
        if k <= 0 {
            Seq::empty()
        } else {
            let rest = self.claim_list(user, round, k - 1);
            let t = self.rewards@[k - 1].token;
            let a = self.settled_pending(user, t, round);
            if a > 0 {
                rest.push(TokenAmount { token: t, amount: a as u128 })
            } else {
                rest
            }
        }
    }

    /// Claims every pending reward of `user` across all reward tokens:
    /// settles each token at `round`, zeroes the pending balances, records
    /// the claim round, and returns the payment batch for the host to
    /// transfer. Fails, changing nothing, while staking is disabled or
    /// when nothing is pending anywhere.
    pub fn claim_rewards(&mut self, user: u64, round: u64) -> (r: Result<
        Vec<TokenAmount>,
        Error,
    >)
        requires
            old(self).wf(),
            old(self).settle_all_fits(user, round),
        ensures
            final(self).wf(),
            old(self).staking_disabled ==> r == Result::<Vec<TokenAmount>, Error>::Err(
                Error::StakingDisabled,
            ) && *final(self) == *old(self),
            !old(self).staking_disabled && (forall|j: int|
                0 <= j < old(self).rewards@.len() ==> old(self).settled_pending(
                    user,
                    (#[trigger] old(self).rewards@[j]).token,
                    round,
                ) == 0) ==> r == Result::<Vec<TokenAmount>, Error>::Err(Error::NoRewardsToClaim)
                && *final(self) == *old(self),
            !old(self).staking_disabled && (exists|j: int|
                0 <= j < old(self).rewards@.len() && old(self).settled_pending(
                    user,
                    (#[trigger] old(self).rewards@[j]).token,
                    round,
                ) > 0) ==> {
                &&& r matches Ok(v) && v@ == old(self).claim_list(
                    user,
                    round,
                    old(self).rewards@.len() as int,
                )
                &&& forall|t: u64|
                    final(self).has_reward(t) == old(self).has_reward(t) && final(self).plan_of(
                        t,
                    ) == old(self).plan_of(t)
                &&& forall|t: u64|
                    old(self).has_reward(t) ==> final(self).pending_of(user, t) == 0 && final(self).last_acc_of(user, t) as int == old(self).caught_up_acc(t, round) && final(self).accumulated_of(t) as int == old(self).caught_up_acc(t, round) && final(self).last_catch_up_of(t) == old(self).caught_up_round(t, round) && final(self).distributed_scaled_of(t) as int == old(self).caught_up_distributed(
                        t,
                        round,
                    )
                &&& forall|u2: u64, t2: u64|
                    u2 != user ==> final(self).pending_of(u2, t2) == old(self).pending_of(
                        u2,
                        t2,
                    ) && final(self).last_acc_of(u2, t2) == old(self).last_acc_of(u2, t2)
                &&& forall|t2: u64|
                    !old(self).has_reward(t2) ==> final(self).pending_of(user, t2) == old(self).pending_of(user, t2) && final(self).last_acc_of(user, t2) == old(self).last_acc_of(user, t2)
                &&& final(self).last_update_of(user) == round
                &&& forall|u2: u64|
                    u2 != user ==> final(self).last_update_of(u2) == old(self).last_update_of(
                        u2,
                    )
                &&& final(self).assets@ == old(self).assets@
                &&& final(self).stakes@ == old(self).stakes@
                &&& final(self).total_score == old(self).total_score
                &&& final(self).staking_disabled == old(self).staking_disabled
            },
            old(self).conservative() ==> final(self).conservative(),
    {
        if self.staking_disabled {
            return Err(Error::StakingDisabled);
        }
        // Read-only pass: is anything claimable at all? Failure must leave
        // the engine untouched, so nothing is settled yet.
        let n = self.rewards.len();
        let mut any: bool = false;
        let mut k: usize = 0;
        while k < n
            invariant
                k <= n,
                n == self.rewards@.len(),
                *self == *old(self),
                old(self).wf(),
                !old(self).staking_disabled,
                old(self).settle_all_fits(user, round),
                any <==> exists|j: int|
                    0 <= j < k && old(self).settled_pending(
                        user,
                        (#[trigger] old(self).rewards@[j]).token,
                        round,
                    ) > 0,
            decreases n - k,
        {
            let t = self.rewards[k].token;
            proof {
                self.lemma_reward_at(k as int);
            }
            let sp = self.pending_reward(user, t, round);
            if sp > 0 {
                any = true;
            }
            proof {
                if sp == 0 {
                    assert(old(self).settled_pending(
                        user,
                        old(self).rewards@[k as int].token,
                        round,
                    ) == 0);
                }
            }
            k += 1;
        }
        if !any {
            proof {
                assert forall|j: int| 0 <= j < old(self).rewards@.len() implies old(self).settled_pending(user, (#[trigger] old(self).rewards@[j]).token, round)
                    == 0 by {
                    old(self).lemma_settled_bounds(
                        user,
                        old(self).rewards@[j].token,
                        round,
                    );
                    old(self).lemma_reward_at(j);
                    let ci = old(self).cp_idx(user, old(self).rewards@[j].token);
                    if old(self).settled_pending(user, old(self).rewards@[j].token, round)
                        != 0 {
                        assert(old(self).settled_pending(
                            user,
                            old(self).rewards@[j].token,
                            round,
                        ) > 0);
                    }
                }
            }
            return Err(Error::NoRewardsToClaim);
        }
        // Something is owed: settle everything, zero it out, and build the
        // payment batch.
        self.settle_all(user, round);
        let ghost mid = *self;
        proof {
            assert forall|j: int| 0 <= j < n implies (#[trigger] mid.rewards@[j]).token == old(
                self,
            ).rewards@[j].token by {
                old(self).lemma_reward_at(j);
                let t = old(self).rewards@[j].token;
                assert(mid.reward_idx(t) == j);
                lemma_key_idx(mid.rewards@, reward_key(), t);
            }
        }
        let mut out: Vec<TokenAmount> = Vec::new();
        let mut k2: usize = 0;
        while k2 < n
            invariant
                k2 <= n,
                n == self.rewards@.len(),
                self.wf(),
                old(self).wf(),
                mid.wf(),
                out@ == old(self).claim_list(user, round, k2 as int),
                self.assets@ == mid.assets@,
                self.stakes@ == mid.stakes@,
                self.total_score == mid.total_score,
                self.rewards@ == mid.rewards@,
                self.last_updates@ == mid.last_updates@,
                self.staking_disabled == mid.staking_disabled,
                mid.assets@ == old(self).assets@,
                mid.stakes@ == old(self).stakes@,
                mid.total_score == old(self).total_score,
                mid.last_updates@ == old(self).last_updates@,
                mid.staking_disabled == old(self).staking_disabled,
                mid.rewards@.len() == old(self).rewards@.len(),
                forall|t: u64|
                    mid.reward_idx(t) == old(self).reward_idx(t) && mid.has_reward(t) == old(self).has_reward(t),
                forall|t: u64|
                    old(self).has_reward(t) ==> mid.pending_of(user, t) as int == old(self).settled_pending(user, t, round),
                forall|j: int|
                    0 <= j < n ==> (#[trigger] mid.rewards@[j]).token == old(self).rewards@[j].token,
                forall|j: int|
                    0 <= j < k2 ==> self.pending_of(
                        user,
                        (#[trigger] mid.rewards@[j]).token,
                    ) == 0,
                forall|j: int|
                    k2 <= j < n ==> self.pending_of(
                        user,
                        (#[trigger] mid.rewards@[j]).token,
                    ) == mid.pending_of(user, mid.rewards@[j].token),
                forall|t: u64| self.last_acc_of(user, t) == mid.last_acc_of(user, t),
                forall|u2: u64, t2: u64|
                    u2 != user ==> self.pending_of(u2, t2) == mid.pending_of(u2, t2)
                        && self.last_acc_of(u2, t2) == mid.last_acc_of(u2, t2),
                forall|t2: u64|
                    !old(self).has_reward(t2) ==> self.pending_of(user, t2) == mid.pending_of(
                        user,
                        t2,
                    ) && self.last_acc_of(user, t2) == mid.last_acc_of(user, t2),
            decreases n - k2,
        {
            let t = self.rewards[k2].token;
            proof {
                self.lemma_reward_at(k2 as int);
                assert(mid.rewards@[k2 as int].token == t);
                assert(old(self).rewards@[k2 as int].token == t);
                old(self).lemma_reward_at(k2 as int);
                assert(old(self).has_reward(t));
                assert(mid.pending_of(user, t) as int == old(self).settled_pending(
                    user,
                    t,
                    round,
                ));
                old(self).lemma_settled_bounds(user, t, round);
            }
            let ci = self.find_checkpoint(user, t);
            let ghost cps_before = self.checkpoints@;
            if ci < self.checkpoints.len() {
                let c = self.checkpoints[ci];
                proof {
                    lemma_key_idx(cps_before, cp_key(), (user, t));
                    assert(c.pending == self.pending_of(user, t));
                    assert(c.pending == mid.pending_of(user, t));
                }
                if c.pending > 0 {
                    out.push(TokenAmount { token: t, amount: c.pending });
                    let new_cp = Checkpoint { pending: 0, ..c };
                    self.checkpoints[ci] = new_cp;
                    proof {
                        assert(self.checkpoints@ == cps_before.update(ci as int, new_cp));
                        assert forall|u2: u64, t2: u64|
                            key_idx(self.checkpoints@, cp_key(), (u2, t2)) == key_idx(
                                cps_before,
                                cp_key(),
                                (u2, t2),
                            ) && (!(u2 == user && t2 == t) && key_idx(
                                cps_before,
                                cp_key(),
                                (u2, t2),
                            ) >= 0 ==> self.checkpoints@[key_idx(cps_before, cp_key(), (u2, t2))]
                                == cps_before[key_idx(cps_before, cp_key(), (u2, t2))]) by {
                            lemma_key_idx_update(
                                cps_before,
                                cp_key(),
                                ci as int,
                                new_cp,
                                (u2, t2),
                            );
                            lemma_key_idx(cps_before, cp_key(), (u2, t2));
                            let idx = key_idx(cps_before, cp_key(), (u2, t2));
                            if idx >= 0 && !(u2 == user && t2 == t) {
                                assert(cp_key()(cps_before[idx]) == (u2, t2));
                                assert(cp_key()(cps_before[ci as int]) == (user, t));
                                assert(idx != ci as int);
                            }
                        }
                        assert(self.cp_idx(user, t) == ci as int);
                        assert(self.checkpoints@[ci as int] == new_cp);
                        assert(self.pending_of(user, t) == 0);
                        assert forall|p2: int, q2: int|
                            0 <= p2 < q2 < self.checkpoints@.len() implies cp_key()(
                            self.checkpoints@[p2],
                        ) != cp_key()(self.checkpoints@[q2]) by {
                            assert(cp_key()(self.checkpoints@[p2]) == cp_key()(
                                cps_before[p2],
                            ));
                            assert(cp_key()(self.checkpoints@[q2]) == cp_key()(
                                cps_before[q2],
                            ));
                        }
                        assert forall|j: int| 0 <= j < self.checkpoints@.len() implies {
                            let cc = #[trigger] self.checkpoints@[j];
                            has_key(self.rewards@, reward_key(), cc.token) && cc.last_accumulated
                                <= self.accumulated_of(cc.token)
                        } by {
                            let cc = self.checkpoints@[j];
                            if j == ci as int {
                                assert(cc.token == t);
                                assert(cc.last_accumulated == c.last_accumulated);
                            } else {
                                assert(cc == cps_before[j]);
                            }
                            assert(has_key(mid.rewards@, reward_key(), cc.token));
                            assert(cc.last_accumulated <= mid.accumulated_of(cc.token));
                        }
                        assert forall|t2: u64| self.last_acc_of(user, t2) == mid.last_acc_of(
                            user,
                            t2,
                        ) by {
                            lemma_key_idx(self.checkpoints@, cp_key(), (user, t2));
                            let idx = key_idx(self.checkpoints@, cp_key(), (user, t2));
                            if t2 != t && idx >= 0 {
                                assert(key_idx(cps_before, cp_key(), (user, t2)) == idx);
                                assert(self.checkpoints@[idx] == cps_before[idx]);
                            }
                        }
                    }
                }
            } else {
                proof {
                    assert(self.pending_of(user, t) == 0);
                }
            }
            proof {
                assert(out@ == old(self).claim_list(user, round, k2 as int + 1));
                assert forall|j: int| k2 + 1 <= j < n implies self.pending_of(
                    user,
                    (#[trigger] mid.rewards@[j]).token,
                ) == mid.pending_of(user, mid.rewards@[j].token) by {
                    let t2 = mid.rewards@[j].token;
                    assert(reward_key()(mid.rewards@[j]) != reward_key()(
                        mid.rewards@[k2 as int],
                    ));
                    assert(t2 != t);
                }
            }
            k2 += 1;
        }
        // Record the claim round.
        let li = self.find_last_update(user);
        let ghost lu_before = self.last_updates@;
        if li < self.last_updates.len() {
            let u = self.last_updates[li];
            proof {
                lemma_key_idx(lu_before, round_key(), user);
                assert(u.user == user);
            }
            let new_u = UserRound { round, ..u };
            self.last_updates[li] = new_u;
            proof {
                assert(self.last_updates@ == lu_before.update(li as int, new_u));
                assert forall|u2: u64|
                    key_idx(self.last_updates@, round_key(), u2) == key_idx(
                        lu_before,
                        round_key(),
                        u2,
                    ) && (u2 != user && key_idx(lu_before, round_key(), u2) >= 0
                        ==> self.last_updates@[key_idx(lu_before, round_key(), u2)] == lu_before[
                        key_idx(lu_before, round_key(), u2)]) by {
                    lemma_key_idx_update(lu_before, round_key(), li as int, new_u, u2);
                    lemma_key_idx(lu_before, round_key(), u2);
                    let idx = key_idx(lu_before, round_key(), u2);
                    if idx >= 0 && u2 != user {
                        assert(round_key()(lu_before[idx]) == u2);
                        assert(round_key()(lu_before[li as int]) == user);
                        assert(idx != li as int);
                    }
                }
                assert(self.last_updates@[li as int] == new_u);
                assert forall|p2: int, q2: int|
                    0 <= p2 < q2 < self.last_updates@.len() implies round_key()(
                    self.last_updates@[p2],
                ) != round_key()(self.last_updates@[q2]) by {
                    assert(round_key()(self.last_updates@[p2]) == round_key()(lu_before[p2]));
                    assert(round_key()(self.last_updates@[q2]) == round_key()(lu_before[q2]));
                }
            }
        } else {
            let new_u = UserRound { user, round };
            self.last_updates.push(new_u);
            proof {
                assert(self.last_updates@ == lu_before.push(new_u));
                assert forall|u2: u64| u2 != user implies key_idx(
                    self.last_updates@,
                    round_key(),
                    u2,
                ) == key_idx(lu_before, round_key(), u2) && (key_idx(
                    lu_before,
                    round_key(),
                    u2,
                ) >= 0 ==> self.last_updates@[key_idx(lu_before, round_key(), u2)] == lu_before[
                    key_idx(lu_before, round_key(), u2)]) by {
                    lemma_key_idx_push(lu_before, round_key(), new_u, u2);
                    lemma_key_idx(lu_before, round_key(), u2);
                }
                lemma_key_idx_push(lu_before, round_key(), new_u, user);
                assert(self.last_updates@[lu_before.len() as int] == new_u);
                assert forall|p2: int, q2: int|
                    0 <= p2 < q2 < self.last_updates@.len() implies round_key()(
                    self.last_updates@[p2],
                ) != round_key()(self.last_updates@[q2]) by {
                    if q2 == self.last_updates@.len() - 1 {
                        lemma_key_idx(lu_before, round_key(), user);
                        assert(self.last_updates@[p2] == lu_before[p2]);
                    } else {
                        assert(self.last_updates@[p2] == lu_before[p2]);
                        assert(self.last_updates@[q2] == lu_before[q2]);
                    }
                }
            }
        }
        proof {
            assert forall|t: u64| old(self).has_reward(t) implies self.pending_of(user, t)
                == 0 by {
                lemma_key_idx(old(self).rewards@, reward_key(), t);
                let j = old(self).reward_idx(t);
                assert(old(self).rewards@[j].token == t);
                assert(mid.rewards@[j].token == t);
            }
            if old(self).conservative() {
                assert(mid.conservative());
                assert forall|u: u64, t: u64| #[trigger] self.entitlement(u, t)
                    <= self.distributed_scaled_of(t) by {
                    assert(mid.entitlement(u, t) <= mid.distributed_scaled_of(t));
                    assert(self.distributed_scaled_of(t) == mid.distributed_scaled_of(t));
                    assert(self.accumulated_of(t) == mid.accumulated_of(t));
                    assert(self.user_score(u) == mid.user_score(u));
                    assert(self.last_acc_of(u, t) == mid.last_acc_of(u, t));
                    if u == user {
                        if old(self).has_reward(t) {
                            assert(self.pending_of(user, t) == 0);
                        } else {
                            assert(self.pending_of(user, t) == mid.pending_of(user, t));
                        }
                        vstd::arithmetic::mul::lemma_mul_inequality(
                            self.pending_of(user, t) as int,
                            mid.pending_of(user, t) as int,
                            SCALE as int,
                        );
                    } else {
                        assert(self.pending_of(u, t) == mid.pending_of(u, t));
                    }
                }
            }
        }
        Ok(out)
    }
}

} // verus!
