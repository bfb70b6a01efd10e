//! The ways a detection can fail.

use vstd::prelude::*;

verus! {

/// Why no breakpoints were returned.
#[derive(Clone, Copy, Debug, PartialEq, Eq, Structural)]
pub enum BreakpointError {
    /// A symbol of the sequence is neither 0 nor 1.
    InvalidInput,
    /// The output region has fewer slots than the maximum number of breakpoints.
    CapacityError,
    /// A posterior weight or a split score that had to be ranked cannot be compared.
    NumericDegeneracy,
}

} // verus!
