use vstd::prelude::*;

verus! {

/// Completion state of a tracked identifier.
#[derive(Clone, Copy, PartialEq, Eq, Structural, Debug)]
pub enum Progress {
    /// Nothing has been done yet.
    NotStarted,
    /// Work has started and is not finished.
    Partial,
    /// Work is finished.
    Complete,
}

} // verus!
