use vstd::prelude::*;

verus! {

/// Why an attempt to solve a system ended without a solution.
#[derive(Debug, Clone, Copy, PartialEq, Eq, Structural)]
pub enum SolveError {
    /// An input vector and the target differ in length.
    DimensionMismatch,
    /// No combination of the input vectors adds up to the target.
    Inconsistent,
    /// A combination that was handed out does not add up to the target.
    InternalVerificationFailure,
}

} // verus!
