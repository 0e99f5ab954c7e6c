use vstd::prelude::*;

use crate::error::SplitMergeError;

verus! {

/// The axis along which a rectangular region is cut.
#[derive(Debug, Clone, Copy, PartialEq, Eq, Structural)]
pub enum CutDirection {
    /// A horizontal cut: the region becomes a top and a bottom half.
    CutParallelToX,
    /// A vertical cut: the region becomes a left and a right half.
    CutParallelToY,
}

/// The dimensions of the image that is segmented.
#[derive(Debug, Clone, Copy, PartialEq, Eq, Structural)]
pub struct ImageContainer {
    pub height: i32,
    pub width: i32,
}

/// A rectangular region of the image plane: its origin and its extent.
#[derive(Debug, Clone, Copy, PartialEq, Eq, Structural)]
pub struct ImageContainerSplit {
    pub x_start: i32,
    pub y_start: i32,
    pub height: i32,
    pub width: i32,
}

impl ImageContainer {
    /// An image is valid when both of its dimensions are positive.
    pub open spec fn wf(&self) -> bool {
        self.height >= 1 && self.width >= 1
    }

    /// The region that covers the whole image.
    pub open spec fn root_region(&self) -> ImageContainerSplit {
        ImageContainerSplit { x_start: 0, y_start: 0, height: self.height, width: self.width }
    }

    pub fn new(height: i32, width: i32) -> (r: ImageContainer)
        ensures
            r.height == height,
            r.width == width,
    {
        ImageContainer { height, width }
    }

    /// The region that covers the whole image.
    pub fn to_image_container_split(&self) -> (r: ImageContainerSplit)
        ensures
            r == self.root_region(),
            self.wf() ==> r.wf(),
    {
        ImageContainerSplit { x_start: 0, y_start: 0, height: self.height, width: self.width }
    }
}

/// `true` when the ranges `[s1, s1 + l1]` and `[s2, s2 + l2]` meet.
pub open spec fn overlap(s1: int, l1: int, s2: int, l2: int) -> bool {
    !(s1 + l1 < s2 || s2 + l2 < s1)
}

/// `true` when one range ends where the other starts.
pub open spec fn touch(s1: int, l1: int, s2: int, l2: int) -> bool {
    s1 + l1 == s2 || s2 + l2 == s1
}

impl ImageContainerSplit {
    /// A region is valid when its extent is positive, its origin is not
    /// negative, and its far corner is representable.
    pub open spec fn wf(&self) -> bool {
        &&& self.x_start >= 0
        &&& self.y_start >= 0
        &&& self.height >= 1
        &&& self.width >= 1
        &&& self.x_start + self.width <= i32::MAX
        &&& self.y_start + self.height <= i32::MAX
    }

    /// The number of pixels of the region.
    pub open spec fn area(&self) -> int {
        self.width * self.height
    }

    /// The pixel `(x, y)` lies inside the region.
    pub open spec fn contains(&self, x: int, y: int) -> bool {
        self.x_start <= x < self.x_start + self.width && self.y_start <= y < self.y_start
            + self.height
    }

    /// The region lies inside an image of `rows` by `cols` pixels.
    pub open spec fn inside(&self, rows: int, cols: int) -> bool {
        self.x_start + self.width <= cols && self.y_start + self.height <= rows
    }

    /// The extent of the region along which a cut in `direction` is measured.
    pub open spec fn extent(&self, direction: CutDirection) -> int {
        match direction {
            CutDirection::CutParallelToX => self.height as int,
            CutDirection::CutParallelToY => self.width as int,
        }
    }

    /// A cut at `split_at` is accepted when it leaves both parts non-empty.
    pub open spec fn valid_cut(&self, direction: CutDirection, split_at: int) -> bool {
        0 < split_at < self.extent(direction)
    }

    /// The first part of a cut: the top or the left one.
    pub open spec fn first_part(&self, direction: CutDirection, split_at: int) -> ImageContainerSplit {
        match direction {
            CutDirection::CutParallelToX => ImageContainerSplit { height: split_at as i32, ..*self },
            CutDirection::CutParallelToY => ImageContainerSplit { width: split_at as i32, ..*self },
        }
    }

    /// The second part of a cut: the bottom or the right one.
    pub open spec fn second_part(&self, direction: CutDirection, split_at: int) -> ImageContainerSplit {
        match direction {
            CutDirection::CutParallelToX => ImageContainerSplit {
                y_start: (self.y_start + split_at) as i32,
                height: (self.height - split_at) as i32,
                ..*self
            },
            CutDirection::CutParallelToY => ImageContainerSplit {
                x_start: (self.x_start + split_at) as i32,
                width: (self.width - split_at) as i32,
                ..*self
            },
        }
    }

    /// `a` and `b` divide `self`: each pixel of `self` lies in exactly one of
    /// them, and neither holds a pixel outside `self`.
    pub open spec fn partitioned_by(&self, a: ImageContainerSplit, b: ImageContainerSplit) -> bool {
        &&& forall|x: int, y: int| #[trigger]
            self.contains(x, y) <==> (a.contains(x, y) || b.contains(x, y))
        &&& forall|x: int, y: int| !(#[trigger] a.contains(x, y) && #[trigger] b.contains(x, y))
    }

    /// Adjacency: the two rectangles share an edge.
    pub open spec fn neighbors_spec(a: ImageContainerSplit, b: ImageContainerSplit) -> bool {
        (touch(a.x_start as int, a.width as int, b.x_start as int, b.width as int) && overlap(
            a.y_start as int,
            a.height as int,
            b.y_start as int,
            b.height as int,
        )) || (touch(a.y_start as int, a.height as int, b.y_start as int, b.height as int)
            && overlap(a.x_start as int, a.width as int, b.x_start as int, b.width as int))
    }

    /// Cuts the region in two at `split_at` along `direction`.
    ///
    /// Fails with `InvalidSplit` unless `0 < split_at < extent`.
    pub fn split(&self, direction: CutDirection, split_at: i32) -> (r: Result<
        [ImageContainerSplit; 2],
        SplitMergeError,
    >)
        requires
            self.wf(),
        ensures
            self.valid_cut(direction, split_at as int) ==> r == Ok::<
                [ImageContainerSplit; 2],
                SplitMergeError,
            >([self.first_part(direction, split_at as int), self.second_part(direction, split_at as int)]),
            !self.valid_cut(direction, split_at as int) ==> r == Err::<
                [ImageContainerSplit; 2],
                SplitMergeError,
            >(SplitMergeError::InvalidSplit),
    {
        if split_at <= 0 {
            return Err(SplitMergeError::InvalidSplit);
        }
        match direction {
            CutDirection::CutParallelToX => {
                if split_at >= self.height {
                    return Err(SplitMergeError::InvalidSplit);
                }
                Ok(
                    [
                        ImageContainerSplit {
                            x_start: self.x_start,
                            y_start: self.y_start,
                            height: split_at,
                            width: self.width,
                        },
                        ImageContainerSplit {
                            x_start: self.x_start,
                            y_start: self.y_start + split_at,
                            height: self.height - split_at,
                            width: self.width,
                        },
                    ],
                )
            },
            CutDirection::CutParallelToY => {
                if split_at >= self.width {
                    return Err(SplitMergeError::InvalidSplit);
                }
                Ok(
                    [
                        ImageContainerSplit {
                            x_start: self.x_start,
                            y_start: self.y_start,
                            height: self.height,
                            width: split_at,
                        },
                        ImageContainerSplit {
                            x_start: self.x_start + split_at,
                            y_start: self.y_start,
                            height: self.height,
                            width: self.width - split_at,
                        },
                    ],
                )
            },
        }
    }

    /// `true` when the two regions share an edge: they touch along one axis
    /// and overlap along the other.
    pub fn are_neighbors(a: &Self, b: &Self) -> (r: bool)
        requires
            a.wf(),
            b.wf(),
        ensures
            r == Self::neighbors_spec(*a, *b),
    {
        let horizontal_overlap = overlap_exec(a.y_start, a.height, b.y_start, b.height);
        let horizontal_touch = touch_exec(a.x_start, a.width, b.x_start, b.width);
        let vertical_overlap = overlap_exec(a.x_start, a.width, b.x_start, b.width);
        let vertical_touch = touch_exec(a.y_start, a.height, b.y_start, b.height);
        (horizontal_touch && horizontal_overlap) || (vertical_touch && vertical_overlap)
    }
}

fn overlap_exec(a_start: i32, a_len: i32, b_start: i32, b_len: i32) -> (r: bool)
    requires
        0 <= a_start + a_len <= i32::MAX,
        0 <= b_start + b_len <= i32::MAX,
    ensures
        r == overlap(a_start as int, a_len as int, b_start as int, b_len as int),
{
    let a_end = a_start + a_len;
    let b_end = b_start + b_len;
    !(a_end < b_start || b_end < a_start)
}

fn touch_exec(a_start: i32, a_len: i32, b_start: i32, b_len: i32) -> (r: bool)
    requires
        0 <= a_start + a_len <= i32::MAX,
        0 <= b_start + b_len <= i32::MAX,
    ensures
        r == touch(a_start as int, a_len as int, b_start as int, b_len as int),
{
    let a_end = a_start + a_len;
    let b_end = b_start + b_len;
    a_start == b_end || b_start == a_end
}

/// A valid cut divides the region into two valid regions that together
/// cover exactly its pixels and share none.
pub proof fn lemma_split_partitions(r: ImageContainerSplit, direction: CutDirection, split_at: int)
    requires
        r.wf(),
        r.valid_cut(direction, split_at),
    ensures
        r.first_part(direction, split_at).wf(),
        r.second_part(direction, split_at).wf(),
        r.partitioned_by(r.first_part(direction, split_at), r.second_part(direction, split_at)),
        r.first_part(direction, split_at).area() + r.second_part(direction, split_at).area() == r.area(),
        forall|rows: int, cols: int|
            #[trigger] r.inside(rows, cols) ==> r.first_part(direction, split_at).inside(rows, cols)
                && r.second_part(direction, split_at).inside(rows, cols),
{
    let w = r.width as int;
    let h = r.height as int;
    match direction {
        CutDirection::CutParallelToX => {
            assert(w * split_at + w * (h - split_at) == w * h) by (nonlinear_arith);
        },
        CutDirection::CutParallelToY => {
            assert(split_at * h + (w - split_at) * h == w * h) by (nonlinear_arith);
        },
    }
}

} // verus!
