//! A staking-and-reward-accounting engine.
//!
//! Users stake asset classes to accrue a score, and reward tokens are
//! distributed to stakers proportionally to their share of the aggregate
//! score, either instantaneously or through linear vesting plans. The
//! engine owns all of its state explicitly and takes the current round
//! as an argument; the host supplies identities, the clock, and actual
//! token transfers.

pub mod engine;
pub mod errors;
pub mod laws;
pub mod plan;
pub mod seq_util;
