use vstd::prelude::*;

verus! {

/// Every failure an operation of the two ledgers can surface to its caller.
/// All errors abort the operation with no partial effect: a function that
/// returns one of these leaves the ledger exactly as it found it.
#[derive(Clone, Copy, Debug, PartialEq, Eq, Structural)]
pub enum Error {
    /// A record or listing looked up by key is absent.
    NotFound,
    /// A caller-chosen listing id is already occupied.
    AlreadyExists,
    /// A non-positive price or bid amount was supplied.
    InvalidArgument,
    /// The operation is not valid in the listing's current lifecycle state.
    InvalidState,
    /// A bid failed the floor or strict-monotonicity check.
    BidTooLow,
    /// A lock was attempted on a listing with no accepted bid.
    NoValidBid,
    /// The caller is not the principal the operation requires.
    Unauthorized,
}

} // verus!
