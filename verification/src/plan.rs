//! Distribution plans: scheduled linear releases of reward tokens.
//!
//! A plan is a stateless multiplier: it never tracks how much has vested.
//! The reward accumulator stores the round of its last catch-up and asks
//! the plan for the exact scaled amount released over the elapsed interval.

use vstd::prelude::*;

verus! {

/// Fixed-point scale of the reward-per-score accumulator. Accumulator
/// values and vested plan amounts are counted in units of `1 / SCALE`
/// of a reward token, so integer division by the aggregate score loses
/// almost no precision.
pub const SCALE: u128 = 1_000_000_000_000_000_000;

/// A scheduled linear release of `total_amount` reward tokens over the
/// rounds from `start_round` (inclusive) to `end_round` (exclusive).
#[derive(Clone, Copy, Debug, PartialEq, Eq, Structural)]
pub struct DistributionPlan {
    pub start_round: u64,
    pub end_round: u64,
    pub total_amount: u128,
}

impl DistributionPlan {
    /// A plan covers at least one round, and its total, scaled, stays
    /// inside `u128`.
    pub open spec fn wf(self) -> bool {
        &&& self.start_round < self.end_round
        &&& self.total_amount * SCALE <= u128::MAX
    }

    /// Scaled tokens released per round. The floor division is taken once,
    /// here, so vesting is exactly linear in the elapsed rounds and the
    /// whole schedule can never release more than `total_amount * SCALE`.
    pub open spec fn rate_scaled(self) -> int {
        self.total_amount * SCALE / ((self.end_round - self.start_round) as int)
    }

    /// Clamps a round into the plan's window.
    pub open spec fn clamp(self, round: u64) -> int {
        if round <= self.start_round {
            self.start_round as int
        } else if round >= self.end_round {
            self.end_round as int
        } else {
            round as int
        }
    }

    /// Scaled tokens vested between rounds `from` and `to`. Rounds outside
    /// the plan's window contribute nothing, and an empty or backwards
    /// interval vests nothing.
    pub open spec fn vested_scaled(self, from: u64, to: u64) -> int {
        if from >= to {
            0
        } else {
            (self.clamp(to) - self.clamp(from)) * self.rate_scaled()
        }
    }

    /// Vesting is nonnegative and bounded by the plan's scaled total.
    pub proof fn lemma_vested_scaled_bounds(self, from: u64, to: u64)
        requires
            self.wf(),
        ensures
            0 <= self.vested_scaled(from, to),
            self.vested_scaled(from, to) <= self.total_amount * SCALE,
    {
        let dur = (self.end_round - self.start_round) as int;
        let rate = self.rate_scaled();
        vstd::arithmetic::div_mod::lemma_div_pos_is_pos(self.total_amount * SCALE, dur);
        if from < to {
            let diff = self.clamp(to) - self.clamp(from);
            assert(0 <= diff <= dur);
            vstd::arithmetic::mul::lemma_mul_nonnegative(diff, rate);
            vstd::arithmetic::mul::lemma_mul_inequality(diff, dur, rate);
            vstd::arithmetic::div_mod::lemma_fundamental_div_mod(
                self.total_amount * SCALE,
                dur,
            );
            vstd::arithmetic::div_mod::lemma_mod_division_less_than_divisor(
                self.total_amount * SCALE,
                dur,
            );
            assert(dur * rate <= self.total_amount * SCALE);
        }
    }

    /// The scaled amount vested between `from` and `to`.
    pub fn vested_amount_scaled(&self, from: u64, to: u64) -> (r: u128)
        requires
            self.wf(),
        ensures
            r as int == self.vested_scaled(from, to),
    {
        proof {
            self.lemma_vested_scaled_bounds(from, to);
        }
        if from >= to {
            return 0;
        }
        let duration: u64 = self.end_round - self.start_round;
        let rate: u128 = self.total_amount * SCALE / (duration as u128);
        let from_clamped: u64 = self.clamp_round(from);
        let to_clamped: u64 = self.clamp_round(to);
        ((to_clamped - from_clamped) as u128) * rate
    }

    /// Clamps a round into the plan's window.
    fn clamp_round(&self, round: u64) -> (r: u64)
        ensures
            r as int == self.clamp(round),
    {
        if round <= self.start_round {
            self.start_round
        } else if round >= self.end_round {
            self.end_round
        } else {
            round
        }
    }
}

} // verus!
