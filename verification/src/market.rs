//! Plain value types for the two market sides the engine's callers compare,
//! and the one decision that comparison makes: is there a spread worth
//! taking between the pool quote and the venue ask.

use vstd::prelude::*;

verus! {

/// The pool-side quote: what went in and what the step pays out. The output
/// is absent until a first pool update has been priced.
#[derive(Debug, Clone, PartialEq, Eq)]
pub struct DexStruct {
    pub token_in: u64,
    pub token_out: Option<u64>,
}

/// The venue-side book top.
#[derive(Debug)]
pub struct CexStruct {
    pub best_bid: u64,
    pub best_ask: u64,
}

/// The spread between the pool-side proceeds and the venue ask, in quote
/// units; a positive spread is the buy-there-sell-here opportunity.
pub fn arb_spread(token_out: u64, best_ask: u64) -> (r: i64)
    requires
        token_out <= i64::MAX,
        best_ask <= i64::MAX,
    ensures
        r == token_out - best_ask,
{
    (token_out as i64) - (best_ask as i64)
}

/// Whether the spread is worth taking: exactly when the pool pays more than
/// the venue asks.
pub fn is_arb_opportunity(token_out: u64, best_ask: u64) -> (r: bool)
    requires
        token_out <= i64::MAX,
        best_ask <= i64::MAX,
    ensures
        r <==> token_out > best_ask,
{
    arb_spread(token_out, best_ask) > 0
}

} // verus!
