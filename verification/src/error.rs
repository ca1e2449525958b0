use vstd::prelude::*;

verus! {

/// Failure modes of the swap-step engine.
///
/// `MaxTokenOverflow` is the one recoverable condition: a liquidity-delta
/// result does not fit the 64-bit token-amount range, which the orchestrator's
/// reachability check reads as "the target price is not reachable by a
/// representable amount". Anywhere else, every variant is fatal to the call.
#[derive(Clone, Copy, Debug, PartialEq, Eq, Structural)]
pub enum ErrorCode {
    /// A multiply-divide was invoked with a zero denominator.
    DivisionByZero,
    /// A token-amount result exceeds the 64-bit amount range.
    MaxTokenOverflow,
    /// Any other arithmetic failure: zero liquidity with a nonzero amount, a
    /// price that leaves its 128-bit range, or a non-positive price result.
    SqrtPriceLimitOverflow,
}

} // verus!
