use vstd::prelude::*;

verus! {

/// The failures that the scheme reports to its caller.
#[derive(Debug)]
pub enum Error {
    /// The threshold is zero or exceeds the number of shares.
    InvalidThreshold(String),
    /// The number of shares requested is not usable.
    InvalidShareCountS(String),
    /// A field operation could not be carried out (oversized secret, no inverse).
    FieldError(String),
    /// Fewer shares than the threshold were supplied.
    InsufficientShares,
    /// The randomness source failed.
    RngError,
}

} // verus!
