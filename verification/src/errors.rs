use vstd::prelude::*;

verus! {

/// The rejected-transaction outcomes of the engine. A failing operation
/// reports one of these and leaves the engine unchanged.
#[derive(Clone, Copy, Debug, PartialEq, Eq, Structural)]
pub enum Error {
    /// A staked asset class is not on the allow-list.
    InvalidPaymentToken,
    /// An unstake asked for more than the held balance.
    InsufficientStake,
    /// A manual distribution was attempted with zero aggregate score.
    NoStakersToDistributeTo,
    /// A claim was attempted with nothing pending on any reward token.
    NoRewardsToClaim,
    /// A claim was attempted while staking is disabled.
    StakingDisabled,
    /// An unstake was attempted while a governance proposal is ongoing.
    ProposalOngoing,
}

} // verus!
