use vstd::prelude::*;

verus! {

/// Why an operation of the library could not proceed.
#[derive(Debug, Clone, Copy, PartialEq, Eq, Structural)]
pub enum FheError {
    /// A dimension does not match the declared parameters, or a Hamming
    /// weight exceeds the dimension.
    InvalidParameter,
    /// Multi-party shares disagree on the common reference seed or on the
    /// parameters.
    InconsistentShares,
    /// An automorphism key was looked up for an index that is not held.
    MissingKey,
}

} // verus!
