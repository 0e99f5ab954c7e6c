use vstd::prelude::*;

use crate::area::{Area, Mask};
use crate::error::SplitMergeError;
use crate::image_container::{CutDirection, ImageContainerSplit};
use crate::merge_phase::MergeState;
use crate::split_phase::SplitState;

verus! {

/// A strategy that decides whether, and where, to cut a region.
pub trait SplitterTrait {
    fn split(&self, region: &ImageContainerSplit) -> Option<(CutDirection, i32)>;
}

/// A strategy that decides whether two adjacent regions, given as masks
/// over the image, should become one.
pub trait MergerTrait {
    fn merge(&self, mask_a: &Mask, mask_b: &Mask) -> bool;
}

/// A receiver of the progress of the segmentation.
pub trait LoggerTrait {
    fn log_split(&mut self, area_to_split_id: usize, splits: [Area; 2]) -> Result<(), SplitMergeError>;

    fn log_merge(&mut self, new_item_id: usize, to_merge: [usize; 2]) -> Result<(), SplitMergeError>;

    fn finalize_log(&mut self) -> Result<(), SplitMergeError>;
}

/// A marker for the phases of the pipeline.
pub trait SplitMergeState {

}

/// The phase after merging: nothing is left to decide.
pub struct CompleateState {}

impl SplitMergeState for SplitState {

}

impl SplitMergeState for MergeState {

}

impl SplitMergeState for CompleateState {

}

/// The cut of the blind strategy: the longer side is halved (the width on
/// a tie), unless it is shorter than `min_split_size`.
pub open spec fn blind_cut(height: int, width: int, min_split_size: int) -> Option<(CutDirection, i32)> {
    if height > width {
        if height < min_split_size {
            None
        } else {
            Some((CutDirection::CutParallelToX, (height / 2) as i32))
        }
    } else {
        if width < min_split_size {
            None
        } else {
            Some((CutDirection::CutParallelToY, (width / 2) as i32))
        }
    }
}

/// Cuts every region in half along its longer side, down to a minimum size.
pub struct BlindSplitter {
    min_split_size: i32,
}

impl BlindSplitter {
    /// The minimum size is at least 2, so that a cut of a side that long
    /// leaves both parts non-empty.
    #[verifier::type_invariant]
    spec fn min_at_least_two(&self) -> bool {
        self.min_split_size >= 2
    }

    pub closed spec fn min_size(&self) -> int {
        self.min_split_size as int
    }

    /// A splitter that stops below `min_split_size`, which must be at least 2.
    pub fn new(min_split_size: i32) -> (r: BlindSplitter)
        requires
            min_split_size >= 2,
        ensures
            r.min_size() == min_split_size,
    {
        BlindSplitter { min_split_size }
    }

    /// The cut of a region of `height` by `width` pixels; a region whose
    /// sides are both shorter than the minimum stays whole. A proposed cut
    /// is always valid.
    pub fn split_region(&self, height: i32, width: i32) -> (r: Option<(CutDirection, i32)>)
        ensures
            r == blind_cut(height as int, width as int, self.min_size()),
            height < self.min_size() && width < self.min_size() ==> r is None,
            forall|region: ImageContainerSplit|
                region.height == height && region.width == width && #[trigger] region.wf() && r is Some
                    ==> region.valid_cut(r.unwrap().0, r.unwrap().1 as int),
    {
        proof {
            use_type_invariant(self);
        }
        if height > width {
            if height < self.min_split_size {
                return None;
            }
            Some((CutDirection::CutParallelToX, height / 2))
        } else {
            if width < self.min_split_size {
                return None;
            }
            Some((CutDirection::CutParallelToY, width / 2))
        }
    }
}

impl SplitterTrait for BlindSplitter {
    fn split(&self, region: &ImageContainerSplit) -> (r: Option<(CutDirection, i32)>)
        ensures
            r == blind_cut(region.height as int, region.width as int, self.min_size()),
    {
        self.split_region(region.height, region.width)
    }
}

/// Merges every pair it is asked about.
pub struct BlindMerger {}

impl BlindMerger {
    pub fn new() -> (r: BlindMerger) {
        BlindMerger {  }
    }
}

impl MergerTrait for BlindMerger {
    /// Always `true`.
    fn merge(&self, _mask_a: &Mask, _mask_b: &Mask) -> (r: bool)
        ensures
            r,
    {
        true
    }
}

/// A progress receiver that discards every event.
pub struct NullLogger {}

impl NullLogger {
    pub fn new() -> (r: NullLogger) {
        NullLogger {  }
    }
}

impl LoggerTrait for NullLogger {
    fn log_split(&mut self, _area_to_split_id: usize, _splits: [Area; 2]) -> (r: Result<(), SplitMergeError>)
        ensures
            r is Ok,
    {
        Ok(())
    }

    fn log_merge(&mut self, _new_item_id: usize, _to_merge: [usize; 2]) -> (r: Result<(), SplitMergeError>)
        ensures
            r is Ok,
    {
        Ok(())
    }

    fn finalize_log(&mut self) -> (r: Result<(), SplitMergeError>)
        ensures
            r is Ok,
    {
        Ok(())
    }
}

/// A part of `height` by `width` pixels is lopsided when one side is more
/// than seven times the other.
pub open spec fn lopsided(height: int, width: int) -> bool {
    height > width * 7 || width > height * 7
}

/// Regions this small are left to the inner strategy of the gradient
/// splitter: their gradients are not worth measuring.
pub open spec fn small_for_gradients(height: int, width: int) -> bool {
    height <= 5 || width <= 5
}

/// Whether the gradient splitter measures gradients on a region of
/// `height` by `width` pixels, rather than keeping its inner strategy's cut.
pub fn uses_gradients(height: i32, width: i32) -> (r: bool)
    ensures
        r == !small_for_gradients(height as int, width as int),
{
    !(height <= 5 || width <= 5)
}

/// A cut is too lopsided when it touches the border, or when either part
/// of the region of `rows` by `cols` pixels would have one side more than
/// seven times the other.
pub open spec fn too_asymmetric(direction: CutDirection, cut_at: int, rows: int, cols: int) -> bool {
    if cut_at == 0 {
        true
    } else {
        match direction {
            CutDirection::CutParallelToX => cut_at == rows || lopsided(cut_at, cols) || lopsided(
                rows - cut_at,
                cols,
            ),
            CutDirection::CutParallelToY => cut_at == cols || lopsided(rows, cut_at) || lopsided(
                rows,
                cols - cut_at,
            ),
        }
    }
}

fn is_lopsided(height: i64, width: i64) -> (r: bool)
    requires
        -0x1_0000_0000 <= height <= 0x1_0000_0000,
        -0x1_0000_0000 <= width <= 0x1_0000_0000,
    ensures
        r == lopsided(height as int, width as int),
{
    height > width * 7 || width > height * 7
}

/// Whether a proposed cut of a region of `rows` by `cols` pixels is too
/// lopsided to keep (see `too_asymmetric`).
pub fn is_split_too_asymetric(cut_direction: CutDirection, cut_at: i32, rows: i32, cols: i32) -> (r: bool)
    ensures
        r == too_asymmetric(cut_direction, cut_at as int, rows as int, cols as int),
{
    if cut_at == 0 {
        return true;
    }
    let rows = rows as i64;
    let cols = cols as i64;
    let cut_at = cut_at as i64;
    match cut_direction {
        CutDirection::CutParallelToX => cut_at == rows || is_lopsided(cut_at, cols) || is_lopsided(
            rows - cut_at,
            cols,
        ),
        CutDirection::CutParallelToY => cut_at == cols || is_lopsided(rows, cut_at) || is_lopsided(
            rows,
            cols - cut_at,
        ),
    }
}

/// The cut the gradient strategy keeps. `proposed` is the inner strategy's
/// cut; when the gradients are flat it stays. Otherwise the candidate is the
/// horizontal cut below `best_row` when `rows_win`, else the vertical cut
/// right of `best_col`, and it replaces the proposal unless it is too
/// lopsided.
pub open spec fn refined_cut_spec(
    rows: int,
    cols: int,
    proposed: (CutDirection, i32),
    gradients_flat: bool,
    rows_win: bool,
    best_row: i32,
    best_col: i32,
) -> (CutDirection, i32) {
    if gradients_flat {
        proposed
    } else {
        let candidate = if rows_win {
            (CutDirection::CutParallelToX, best_row)
        } else {
            (CutDirection::CutParallelToY, best_col)
        };
        if too_asymmetric(candidate.0, candidate.1 as int, rows, cols) {
            proposed
        } else {
            candidate
        }
    }
}

/// Chooses between a proposed cut and the cut at the strongest gradient
/// (see `refined_cut_spec`). A kept candidate leaves both parts non-empty.
pub fn refined_cut(
    rows: i32,
    cols: i32,
    proposed: (CutDirection, i32),
    gradients_flat: bool,
    rows_win: bool,
    best_row: i32,
    best_col: i32,
) -> (r: (CutDirection, i32))
    ensures
        r == refined_cut_spec(rows as int, cols as int, proposed, gradients_flat, rows_win, best_row, best_col),
{
    if gradients_flat {
        return proposed;
    }
    let candidate = if rows_win {
        (CutDirection::CutParallelToX, best_row)
    } else {
        (CutDirection::CutParallelToY, best_col)
    };
    if is_split_too_asymetric(candidate.0, candidate.1, rows, cols) {
        proposed
    } else {
        candidate
    }
}

} // verus!
