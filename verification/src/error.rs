//! The error kinds every fallible operation reports.

use vstd::prelude::*;

verus! {

/// Why an operation was refused.
#[derive(Debug, Clone, Copy, PartialEq, Eq, Structural)]
pub enum SimError {
    /// A qubit count or index is out of range, two-qubit indices coincide,
    /// or a permutation has the wrong shape; checked eagerly, nothing is
    /// mutated.
    InvalidArgument,
    /// An internal invariant was found broken: `G` singular, or an
    /// impossible branch pair in superposition resolution.
    InvalidState,
    /// A requested projection outcome conflicts with a determined qubit.
    MeasurementInconsistent,
    /// A discard was asked of a qubit that is still entangled or not in
    /// `|0>`.
    OperationInfeasible,
    /// The two states of an inner product have different qubit counts.
    DimensionMismatch,
}

} // verus!
