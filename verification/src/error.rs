use vstd::prelude::*;

verus! {

/// Why a read, or the construction of a derived cell, did not produce a value.
#[derive(Debug, Clone, Copy, PartialEq, Eq, Structural)]
pub enum FateError {
    /// Recomputing the cell needs the value of a cell that is itself in the
    /// middle of being recomputed.
    CycleDetected,
    /// An expression was evaluated and reported that it has no value.
    ExpressionFailure,
}

} // verus!
