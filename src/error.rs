use vstd::prelude::*;

verus! {

/// The failures that the segmentation pipeline can report.
#[derive(Debug, Clone, Copy, PartialEq, Eq, Structural)]
pub enum SplitMergeError {
    /// A cut offset outside `0 < offset < extent`, or a cut of a region
    /// that was already cut.
    InvalidSplit,
    /// A lookup of an identifier that is not present.
    NotFound,
    /// An insertion of an identifier that is already present.
    DuplicateId,
    /// The progress sink reported a failure.
    SinkFailure,
}

} // verus!
