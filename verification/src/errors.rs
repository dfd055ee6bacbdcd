use vstd::prelude::*;

verus! {

/// A recoverable failure raised by a variant or by candidate propagation.
///
/// The solver treats it as "this branch cannot succeed" and backtracks; it is
/// surfaced to the caller only when it arises before any search step.
#[derive(Debug, PartialEq, Eq)]
pub enum VariantContradiction {
    /// A specific cell ended with no admissible digit.
    NoPossibilities { cell: (usize, usize), variant: &'static str, reason: String },
    /// A cross-cell invariant of the variant collapsed.
    Inconsistent { variant: &'static str, reason: String },
}

} // verus!
