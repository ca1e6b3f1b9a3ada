//! Engine-wide laws, proved from the state's mathematical reading.

use vstd::prelude::*;

use crate::engine::{
    entry_score_fn, user_score_fn, AssetClass, StakeEntry, StakingEngine,
};
use crate::plan::SCALE;
use crate::seq_util::{lemma_sum_by_add, lemma_sum_by_all_zero, sum_by};

verus! {

/// One user's whole score under an allow-list and a stake ledger.
pub open spec fn user_total_fn(
    assets: Seq<AssetClass>,
    stakes: Seq<StakeEntry>,
) -> spec_fn(u64) -> int {
    |u: u64| sum_by(stakes, user_score_fn(assets, u))
}

/// `c` for the user `x`, zero for everyone else.
pub open spec fn indicator_fn(x: u64, c: int) -> spec_fn(u64) -> int {
    |u: u64| if u == x {
        c
    } else {
        0
    }
}

/// A list without repetitions.
pub open spec fn distinct(users: Seq<u64>) -> bool {
    forall|i: int, j: int| 0 <= i < j < users.len() ==> users[i] != users[j]
}

/// Summing an indicator over a list that names `x` once gives `c`.
proof fn lemma_sum_indicator_absent(users: Seq<u64>, x: u64, c: int)
    requires
        forall|i: int| 0 <= i < users.len() ==> users[i] != x,
    ensures
        sum_by(users, indicator_fn(x, c)) == 0,
{
    lemma_sum_by_all_zero(users, indicator_fn(x, c));
}

proof fn lemma_sum_indicator(users: Seq<u64>, x: u64, c: int)
    requires
        distinct(users),
        users.contains(x),
    ensures
        sum_by(users, indicator_fn(x, c)) == c,
    decreases users.len(),
{
    let last = users.len() - 1;
    if users.last() == x {
        assert(forall|i: int| 0 <= i < last ==> users[i] != x);
        assert(forall|i: int|
            0 <= i < users.drop_last().len() ==> users.drop_last()[i] == users[i]);
        lemma_sum_indicator_absent(users.drop_last(), x, c);
    } else {
        let w = choose|i: int| 0 <= i < users.len() && users[i] == x;
        assert(w < last);
        assert(users.drop_last()[w] == x);
        assert(users.drop_last().contains(x));
        lemma_sum_indicator(users.drop_last(), x, c);
    }
}

/// The per-user scores partition the per-entry scores: summing every
/// listed user's score equals summing every stake entry's score.
proof fn lemma_scores_partition(
    assets: Seq<AssetClass>,
    stakes: Seq<StakeEntry>,
    users: Seq<u64>,
)
    requires
        distinct(users),
        forall|j: int| 0 <= j < stakes.len() ==> users.contains((#[trigger] stakes[j]).user),
    ensures
        sum_by(users, user_total_fn(assets, stakes)) == sum_by(stakes, entry_score_fn(assets)),
    decreases stakes.len(),
{
    if stakes.len() == 0 {
        lemma_sum_by_all_zero(users, user_total_fn(assets, stakes));
    } else {
        let st0 = stakes.drop_last();
        let e = stakes.last();
        let c = entry_score_fn(assets)(e);
        assert(forall|i: int| 0 <= i < st0.len() ==> st0[i] == stakes[i]);
        lemma_scores_partition(assets, st0, users);
        assert forall|i: int| 0 <= i < users.len() implies user_total_fn(assets, stakes)(
            #[trigger] users[i],
        ) == user_total_fn(assets, st0)(users[i]) + indicator_fn(e.user, c)(users[i]) by {
            assert(user_score_fn(assets, users[i])(e) == indicator_fn(e.user, c)(users[i]));
        }
        lemma_sum_by_add(
            users,
            user_total_fn(assets, st0),
            indicator_fn(e.user, c),
            user_total_fn(assets, stakes),
        );
        assert(users.contains(stakes[stakes.len() - 1].user));
        lemma_sum_indicator(users, e.user, c);
    }
}

/// The aggregate score is exactly the sum of every user's score: for any
/// list of users without repetitions that names every staker, the user
/// scores add up to `total_score`. Users outside the ledger contribute
/// zero, so the list may also name anyone else.
pub proof fn lemma_aggregate_is_sum_of_user_scores(s: StakingEngine, users: Seq<u64>)
    requires
        s.wf(),
        distinct(users),
        forall|j: int|
            0 <= j < s.stakes@.len() ==> users.contains((#[trigger] s.stakes@[j]).user),
    ensures
        sum_by(users, user_total_fn(s.assets@, s.stakes@)) == s.total_score as int,
{
    lemma_scores_partition(s.assets@, s.stakes@, users);
}

/// One user's share of a per-score accumulator increment.
pub open spec fn share_fn(s: StakingEngine, inc: int) -> spec_fn(u64) -> int {
    |u: u64| s.user_score(u) * inc
}

/// A distribution event cannot hand out more than it put in, across all
/// users together. Every fold adds `inc` reward per unit of score, with
/// `inc * total_score` at most the folded amount (the floor division
/// guarantees it); since the user scores sum to the aggregate score, the
/// users' shares together stay within that amount.
pub proof fn lemma_shares_bounded(
    s: StakingEngine,
    users: Seq<u64>,
    inc: int,
    cap: int,
)
    requires
        s.wf(),
        distinct(users),
        forall|j: int|
            0 <= j < s.stakes@.len() ==> users.contains((#[trigger] s.stakes@[j]).user),
        0 <= inc,
        0 <= cap,
        inc * s.total_score <= cap,
    ensures
        sum_by(users, share_fn(s, inc)) <= cap,
{
    lemma_aggregate_is_sum_of_user_scores(s, users);
    crate::seq_util::lemma_sum_by_scale(
        users,
        user_total_fn(s.assets@, s.stakes@),
        share_fn(s, inc),
        inc,
    );
    vstd::arithmetic::mul::lemma_mul_is_commutative(s.total_score as int, inc);
}

/// No over-distribution: in a conservative engine — `new` builds one and
/// every operation keeps it so — a user's settled pending reward for a
/// token, scaled, never exceeds the scaled total ever distributed for it.
/// Rounding always floors, so no claim can outgrow what was put in.
pub proof fn lemma_pending_within_distribution(s: StakingEngine, user: u64, token: u64)
    requires
        s.wf(),
        s.conservative(),
    ensures
        s.pending_of(user, token) * SCALE <= s.distributed_scaled_of(token),
{
    assert(s.entitlement(user, token) <= s.distributed_scaled_of(token));
    s.lemma_user_score_bounds(user);
    let ci = s.cp_idx(user, token);
    if ci >= 0 {
        crate::seq_util::lemma_key_idx(s.checkpoints@, crate::engine::cp_key(), (user, token));
        assert(s.checkpoints@[ci].token == token);
        assert(s.checkpoints@[ci].last_accumulated <= s.accumulated_of(token));
    }
    vstd::arithmetic::mul::lemma_mul_nonnegative(
        s.user_score(user),
        s.accumulated_of(token) - s.last_acc_of(user, token),
    );
}

/// A user with no score and nothing pending is owed nothing by a
/// settlement, whatever has been distributed: rewards from before their
/// first stake never reach them.
pub proof fn lemma_new_staker_owes_nothing(s: StakingEngine, user: u64, token: u64, round: u64)
    requires
        s.wf(),
        s.user_score(user) == 0,
        s.pending_of(user, token) == 0,
    ensures
        s.settled_pending(user, token, round) == 0,
{
    vstd::arithmetic::mul::lemma_mul_by_zero_is_zero(
        s.caught_up_acc(token, round) - s.last_acc_of(user, token),
    );
    vstd::arithmetic::div_mod::lemma_div_of0(SCALE as int);
}

/// No retroactive dilution: once a user's checkpoint sits at the caught-up
/// accumulator — exactly where `stake` leaves it — a settlement at the
/// same round owes them nothing. A user who stakes after a distribution
/// therefore has no pending reward for it immediately afterwards.
pub proof fn lemma_no_retroactive_dilution(s: StakingEngine, user: u64, token: u64, round: u64)
    requires
        s.wf(),
        s.pending_of(user, token) == 0,
        s.last_acc_of(user, token) as int == s.caught_up_acc(token, round),
    ensures
        s.settled_pending(user, token, round) == 0,
{
    assert(s.caught_up_acc(token, round) - s.last_acc_of(user, token) == 0);
    vstd::arithmetic::mul::lemma_mul_by_zero_is_zero(s.user_score(user));
    vstd::arithmetic::div_mod::lemma_div_of0(SCALE as int);
}

} // verus!

