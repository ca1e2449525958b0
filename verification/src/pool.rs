//! Plain data types mirroring the on-chain pool state that the engine's
//! inputs are read from. Decoding raw account bytes happens outside the
//! engine; these types carry the decoded plain values.

use vstd::prelude::*;

verus! {

/// One initialized tick of the pool.
#[derive(Default, Clone, Debug)]
pub struct TickState {
    pub tick: i32,
    pub liquidity_net: i128,
    pub liquidity_gross: u128,
    pub fee_growth_outside0_x64: u128,
    pub fee_growth_outside1_x64: u128,
    pub reward_growths_outside_x64: [u128; 3],
    pub padding: [u32; 13],
}

/// Which capability a bit of the pool's status word governs.
#[derive(Clone, Debug)]
pub enum PoolStatusBitIndex {
    OpenPositionOrIncreaseLiquidity,
    DecreaseLiquidity,
    CollectFee,
    CollectReward,
    Swap,
}

/// Whether a status bit leaves its capability enabled or disabled.
#[derive(Clone, Debug)]
pub enum PoolStatusBitFlag {
    Enable,
    Disable,
}

/// Lifecycle of a reward schedule.
#[derive(Clone, Debug)]
pub enum RewardState {
    Uninitialized,
    Initialized,
    Opening,
    Ended,
}

} // verus!
