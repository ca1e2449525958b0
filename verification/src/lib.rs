//! A verified fixed-point arithmetic engine for one concentrated-liquidity
//! swap step.
//!
//! Given a pool's current square-root price (Q64.64 in a `u128`), its active
//! liquidity, a trade size, a fee rate and two direction flags, the engine
//! computes how far the price moves, the token amounts consumed and produced,
//! and the fee charged, with direction-dependent rounding that always favors
//! the protocol and with every intermediate product carried at full width so
//! that no bits are lost before a division.

pub mod big_num;
pub mod error;
pub mod full_math;
pub mod liquidity_math;
pub mod market;
pub mod pool;
pub mod sqrt_price_math;
pub mod swap_math;
