use vstd::prelude::*;

use crate::image_container::{ImageContainer, ImageContainerSplit};

verus! {

/// A binary mask with the image's dimensions, stored row by row; a pixel
/// belongs to the region when its byte is not zero.
#[derive(Debug)]
pub struct Mask {
    pub rows: i32,
    pub cols: i32,
    pub data: Vec<u8>,
}

/// The mask of a rectangle over an image of `rows` by `cols` pixels: 255
/// inside the rectangle, 0 elsewhere.
pub open spec fn rect_mask(r: ImageContainerSplit, rows: int, cols: int) -> Seq<u8> {
    Seq::new(
        (rows * cols) as nat,
        |i: int|
            if r.contains(i % cols, i / cols) {
                255u8
            } else {
                0u8
            },
    )
}

/// The number of pixels that belong to a mask.
pub open spec fn count_set(s: Seq<u8>) -> nat
    decreases s.len(),
{
    if s.len() == 0 {
        0
    } else {
        count_set(s.drop_last()) + if s.last() != 0 {
            1nat
        } else {
            0nat
        }
    }
}

/// A mask holds a pixel exactly when one of `a` or `b` does.
pub open spec fn is_union(u: Seq<u8>, a: Seq<u8>, b: Seq<u8>) -> bool {
    &&& u.len() == a.len()
    &&& u.len() == b.len()
    &&& forall|i: int| 0 <= i < u.len() ==> (#[trigger] u[i] != 0 <==> (a[i] != 0 || b[i] != 0))
}

/// No pixel belongs to both masks.
pub open spec fn disjoint_masks(a: Seq<u8>, b: Seq<u8>) -> bool {
    forall|i: int| 0 <= i < a.len() && i < b.len() ==> !(#[trigger] a[i] != 0 && #[trigger] b[i] != 0)
}

/// The union of two masks that share no pixel holds as many pixels as both.
pub proof fn lemma_count_disjoint_union(u: Seq<u8>, a: Seq<u8>, b: Seq<u8>)
    requires
        is_union(u, a, b),
        disjoint_masks(a, b),
    ensures
        count_set(u) == count_set(a) + count_set(b),
    decreases u.len(),
{
    if u.len() > 0 {
        let n = u.len() - 1;
        assert(u[n] != 0 <==> (a[n] != 0 || b[n] != 0));
        assert(!(a[n] != 0 && b[n] != 0));
        lemma_count_disjoint_union(u.drop_last(), a.drop_last(), b.drop_last());
    }
}

/// When two rectangles divide a third, their masks share no pixel,
/// together they form the mask of the third, and that holds as many pixels
/// as both.
pub proof fn lemma_partition_masks(
    p: ImageContainerSplit,
    a: ImageContainerSplit,
    b: ImageContainerSplit,
    rows: int,
    cols: int,
)
    requires
        p.partitioned_by(a, b),
        rows >= 1,
        cols >= 1,
    ensures
        disjoint_masks(rect_mask(a, rows, cols), rect_mask(b, rows, cols)),
        is_union(rect_mask(p, rows, cols), rect_mask(a, rows, cols), rect_mask(b, rows, cols)),
        count_set(rect_mask(p, rows, cols)) == count_set(rect_mask(a, rows, cols)) + count_set(
            rect_mask(b, rows, cols),
        ),
{
    let ma = rect_mask(a, rows, cols);
    let mb = rect_mask(b, rows, cols);
    let u = rect_mask(p, rows, cols);
    assert forall|i: int| 0 <= i < ma.len() && i < mb.len() implies !(#[trigger] ma[i] != 0
        && #[trigger] mb[i] != 0) by {
        assert(!(a.contains(i % cols, i / cols) && b.contains(i % cols, i / cols)));
    }
    assert forall|i: int| 0 <= i < u.len() implies (#[trigger] u[i] != 0 <==> (ma[i] != 0 || mb[i]
        != 0)) by {
        assert(p.contains(i % cols, i / cols) <==> (a.contains(i % cols, i / cols) || b.contains(
            i % cols,
            i / cols,
        )));
    }
    lemma_count_disjoint_union(u, ma, mb);
}

/// When a region lying inside the image is cut, the masks of its two parts
/// share no pixel, together they form the mask of the region (a rectangle,
/// hence its own convex hull), and that holds as many pixels as both parts.
pub proof fn lemma_split_masks(
    r: ImageContainerSplit,
    direction: crate::image_container::CutDirection,
    split_at: int,
    rows: int,
    cols: int,
)
    requires
        r.wf(),
        r.valid_cut(direction, split_at),
        r.inside(rows, cols),
        rows >= 1,
        cols >= 1,
    ensures
        disjoint_masks(
            rect_mask(r.first_part(direction, split_at), rows, cols),
            rect_mask(r.second_part(direction, split_at), rows, cols),
        ),
        is_union(
            rect_mask(r, rows, cols),
            rect_mask(r.first_part(direction, split_at), rows, cols),
            rect_mask(r.second_part(direction, split_at), rows, cols),
        ),
        count_set(rect_mask(r, rows, cols)) == count_set(
            rect_mask(r.first_part(direction, split_at), rows, cols),
        ) + count_set(rect_mask(r.second_part(direction, split_at), rows, cols)),
{
    crate::image_container::lemma_split_partitions(r, direction, split_at);
    let a = rect_mask(r.first_part(direction, split_at), rows, cols);
    let b = rect_mask(r.second_part(direction, split_at), rows, cols);
    let u = rect_mask(r, rows, cols);
    assert forall|i: int| 0 <= i < a.len() && i < b.len() implies !(#[trigger] a[i] != 0
        && #[trigger] b[i] != 0) by {
        assert(!(r.first_part(direction, split_at).contains(i % cols, i / cols) && r.second_part(
            direction,
            split_at,
        ).contains(i % cols, i / cols)));
    }
    assert forall|i: int| 0 <= i < u.len() implies (#[trigger] u[i] != 0 <==> (a[i] != 0 || b[i]
        != 0)) by {
        assert(r.contains(i % cols, i / cols) <==> (r.first_part(direction, split_at).contains(
            i % cols,
            i / cols,
        ) || r.second_part(direction, split_at).contains(i % cols, i / cols)));
    }
    lemma_count_disjoint_union(u, a, b);
}

/// Counting splits over concatenation.
pub proof fn lemma_count_concat(a: Seq<u8>, b: Seq<u8>)
    ensures
        count_set(a + b) == count_set(a) + count_set(b),
    decreases b.len(),
{
    if b.len() > 0 {
        assert((a + b).drop_last() =~= a + b.drop_last());
        lemma_count_concat(a, b.drop_last());
    }
}

/// A row of `n` pixels set exactly on the columns `lo .. hi`.
pub open spec fn band(n: int, lo: int, hi: int) -> Seq<u8> {
    Seq::new(n as nat, |x: int| if lo <= x < hi { 255u8 } else { 0u8 })
}

/// The number of columns of `lo .. hi` below `n`.
pub open spec fn clipped(n: int, lo: int, hi: int) -> int {
    if n <= lo {
        0
    } else if n <= hi {
        n - lo
    } else {
        hi - lo
    }
}

proof fn lemma_count_band(n: int, lo: int, hi: int)
    requires
        0 <= lo <= hi,
        n >= 0,
    ensures
        count_set(band(n, lo, hi)) == clipped(n, lo, hi),
    decreases n,
{
    if n > 0 {
        assert(band(n, lo, hi).drop_last() =~= band(n - 1, lo, hi));
        lemma_count_band(n - 1, lo, hi);
    }
}

proof fn lemma_count_rect_rows(r: ImageContainerSplit, rows: int, cols: int, y: int)
    requires
        r.wf(),
        r.inside(rows, cols),
        0 <= y <= rows,
        cols >= 1,
    ensures
        count_set(rect_mask(r, rows, cols).subrange(0, y * cols)) == clipped(
            y,
            r.y_start as int,
            r.y_start + r.height,
        ) * r.width,
    decreases y,
{
    let m = rect_mask(r, rows, cols);
    assert(0 <= y * cols <= rows * cols) by (nonlinear_arith)
        requires
            0 <= y <= rows,
            cols >= 1,
    ;
    if y == 0 {
        assert(y * cols == 0) by (nonlinear_arith)
            requires
                y == 0,
        ;
        assert(0 * r.width == 0) by (nonlinear_arith);
        assert(m.subrange(0, 0) =~= Seq::<u8>::empty());
        assert(count_set(Seq::<u8>::empty()) == 0);
        assert(clipped(0, r.y_start as int, r.y_start + r.height) == 0);
    } else {
        let p = y - 1;
        lemma_count_rect_rows(r, rows, cols, p);
        assert(y * cols == p * cols + cols) by (nonlinear_arith)
            requires
                p == y - 1,
        ;
        assert(0 <= p * cols) by (nonlinear_arith)
            requires
                0 <= p,
                cols >= 1,
        ;
        let row = m.subrange(p * cols, y * cols);
        assert(m.subrange(0, y * cols) =~= m.subrange(0, p * cols) + row);
        lemma_count_concat(m.subrange(0, p * cols), row);
        let in_band = r.y_start <= p < r.y_start + r.height;
        if in_band {
            assert forall|x: int| 0 <= x < cols implies #[trigger] row[x] == band(
                cols,
                r.x_start as int,
                r.x_start + r.width,
            )[x] by {
                vstd::arithmetic::div_mod::lemma_fundamental_div_mod_converse(p * cols + x, cols, p, x);
            }
            assert(row =~= band(cols, r.x_start as int, r.x_start + r.width));
            lemma_count_band(cols, r.x_start as int, r.x_start + r.width);
        } else {
            assert forall|x: int| 0 <= x < cols implies #[trigger] row[x] == band(cols, 0, 0)[x] by {
                vstd::arithmetic::div_mod::lemma_fundamental_div_mod_converse(p * cols + x, cols, p, x);
            }
            assert(row =~= band(cols, 0, 0));
            lemma_count_band(cols, 0, 0);
        }
        let c = clipped(p, r.y_start as int, r.y_start + r.height);
        assert(c * r.width + r.width == (c + 1) * r.width) by (nonlinear_arith);
        if in_band {
            assert(clipped(y, r.y_start as int, r.y_start + r.height) == c + 1);
            assert(count_set(row) == r.width);
        } else {
            assert(clipped(y, r.y_start as int, r.y_start + r.height) == c);
            assert(count_set(row) == 0);
        }
    }
}

/// The mask of a rectangle inside the image has as many pixels as the
/// rectangle's area.
pub proof fn lemma_rect_mask_count(r: ImageContainerSplit, rows: int, cols: int)
    requires
        r.wf(),
        r.inside(rows, cols),
        cols >= 1,
        rows >= 1,
    ensures
        count_set(rect_mask(r, rows, cols)) == r.width * r.height,
{
    lemma_count_rect_rows(r, rows, cols, rows);
    assert(rect_mask(r, rows, cols).subrange(0, rows * cols) =~= rect_mask(r, rows, cols));
    assert(r.height * r.width == r.width * r.height) by (nonlinear_arith);
}

impl Mask {
    /// The data holds one byte per pixel.
    pub open spec fn wf(&self) -> bool {
        self.rows >= 0 && self.cols >= 0 && self.data@.len() == self.rows * self.cols
    }

    /// The mask of rectangle `r` over an image of `rows` by `cols` pixels.
    pub fn from_rect(r: &ImageContainerSplit, rows: i32, cols: i32) -> (m: Mask)
        requires
            rows >= 1,
            cols >= 1,
            rows * cols <= usize::MAX,
        ensures
            m.wf(),
            m.rows == rows,
            m.cols == cols,
            m.data@ == rect_mask(*r, rows as int, cols as int),
            r.wf() && r.inside(rows as int, cols as int) ==> count_set(m.data@) == r.width * r.height,
    {
        let total: usize = (rows as usize) * (cols as usize);
        let mut data: Vec<u8> = Vec::new();
        let mut idx: usize = 0;
        let mut x: i32 = 0;
        let mut y: i32 = 0;
        while idx < total
            invariant
                total == rows * cols,
                rows >= 1,
                cols >= 1,
                0 <= x < cols,
                0 <= y,
                idx == y * cols + x,
                idx <= total,
                data@.len() == idx,
                forall|i: int| 0 <= i < idx ==> #[trigger] data@[i] == rect_mask(*r, rows as int, cols as int)[i],
            decreases total - idx,
        {
            proof {
                vstd::arithmetic::div_mod::lemma_fundamental_div_mod_converse(idx as int, cols as int, y as int, x as int);
                assert(y < rows) by (nonlinear_arith)
                    requires idx == y * cols + x, idx < rows * cols, 0 <= x < cols, cols >= 1;
            }
            let inside = r.x_start <= x && (x as i64) - (r.x_start as i64) < r.width as i64
                && r.y_start <= y && (y as i64) - (r.y_start as i64) < r.height as i64;
            if inside {
                data.push(255u8);
            } else {
                data.push(0u8);
            }
            idx = idx + 1;
            if x + 1 == cols {
                x = 0;
                y = y + 1;
                assert(idx == y * cols + x) by (nonlinear_arith)
                    requires idx == (y - 1) * cols + (cols - 1) + 1, x == 0;
            } else {
                x = x + 1;
            }
        }
        let m = Mask { rows, cols, data };
        assert(m.data@ =~= rect_mask(*r, rows as int, cols as int));
        proof {
            if r.wf() && r.inside(rows as int, cols as int) {
                lemma_rect_mask_count(*r, rows as int, cols as int);
            }
        }
        m
    }
}

/// A region: a rectangle, or a mask once it has been materialised or merged.
#[derive(Debug)]
pub enum AreaMarker {
    SquaredArea { height: i32, width: i32, y_start: i32, x_start: i32 },
    MaskedArea(Mask),
}

impl AreaMarker {
    /// The pixels of the region, as a mask over an image of `rows` by
    /// `cols` pixels.
    pub open spec fn mask_spec(&self, rows: int, cols: int) -> Seq<u8> {
        match self {
            AreaMarker::SquaredArea { height, width, y_start, x_start } => rect_mask(
                ImageContainerSplit { x_start: *x_start, y_start: *y_start, height: *height, width: *width },
                rows,
                cols,
            ),
            AreaMarker::MaskedArea(m) => m.data@,
        }
    }

    /// A stored mask, if any, has the image's dimensions.
    pub open spec fn fits(&self, rows: int, cols: int) -> bool {
        match self {
            AreaMarker::SquaredArea { .. } => true,
            AreaMarker::MaskedArea(m) => m.wf() && m.rows == rows && m.cols == cols,
        }
    }

    /// The region of a rectangle.
    pub fn from_split(value: &ImageContainerSplit) -> (r: AreaMarker)
        ensures
            r == (AreaMarker::SquaredArea {
                height: value.height,
                width: value.width,
                y_start: value.y_start,
                x_start: value.x_start,
            }),
    {
        AreaMarker::SquaredArea {
            height: value.height,
            width: value.width,
            y_start: value.y_start,
            x_start: value.x_start,
        }
    }

    /// Turns a rectangle into its mask over the reference image; a mask
    /// stays as it is.
    pub fn to_maks(&mut self, reference: &ImageContainer)
        requires
            reference.wf(),
            reference.height * reference.width <= usize::MAX,
            old(self).fits(reference.height as int, reference.width as int),
        ensures
            *final(self) is MaskedArea,
            final(self).fits(reference.height as int, reference.width as int),
            final(self).mask_spec(reference.height as int, reference.width as int) == old(
                self,
            ).mask_spec(reference.height as int, reference.width as int),
    {
        let rect = match self {
            AreaMarker::SquaredArea { height, width, y_start, x_start } => ImageContainerSplit {
                x_start: *x_start,
                y_start: *y_start,
                height: *height,
                width: *width,
            },
            AreaMarker::MaskedArea(_) => {
                return ;
            },
        };
        *self = AreaMarker::MaskedArea(Mask::from_rect(&rect, reference.height, reference.width));
    }

    /// The union of two masks of equal dimensions.
    pub fn merge(area_1: &Mask, area_2: &Mask) -> (r: AreaMarker)
        requires
            area_1.wf(),
            area_2.wf(),
            area_1.rows == area_2.rows,
            area_1.cols == area_2.cols,
        ensures
            r.fits(area_1.rows as int, area_1.cols as int),
            r is MaskedArea,
            is_union(r.mask_spec(area_1.rows as int, area_1.cols as int), area_1.data@, area_2.data@),
    {
        let mut data: Vec<u8> = Vec::new();
        let mut i: usize = 0;
        while i < area_1.data.len()
            invariant
                area_1.data@.len() == area_2.data@.len(),
                i <= area_1.data@.len(),
                data@.len() == i,
                forall|k: int| 0 <= k < i ==> (#[trigger] data@[k] != 0 <==> (area_1.data@[k] != 0
                    || area_2.data@[k] != 0)),
            decreases area_1.data@.len() - i,
        {
            let p = area_1.data[i];
            let q = area_2.data[i];
            let v = p | q;
            assert(v != 0 <==> (p != 0 || q != 0)) by (bit_vector)
                requires v == p | q;
            data.push(v);
            i = i + 1;
        }
        AreaMarker::MaskedArea(Mask { rows: area_1.rows, cols: area_1.cols, data })
    }
}

/// A region with its identifier.
#[derive(Debug)]
pub struct Area {
    pub id: usize,
    pub marker: AreaMarker,
}

impl Area {
    /// The region covering a whole image of `height` by `width` pixels.
    pub fn new(id: usize, height: i32, width: i32) -> (r: Area)
        ensures
            r.id == id,
            r.marker == (AreaMarker::SquaredArea { height, width, y_start: 0, x_start: 0 }),
    {
        Area { id, marker: AreaMarker::SquaredArea { height, width, y_start: 0, x_start: 0 } }
    }

    pub fn new_from_id_and_marker(id: usize, marker: AreaMarker) -> (r: Area)
        ensures
            r.id == id,
            r.marker == marker,
    {
        Area { id, marker }
    }

    /// The region of a rectangle produced by a cut.
    pub fn new_from_split(id: usize, split: &ImageContainerSplit) -> (r: Area)
        ensures
            r.id == id,
            r.marker == (AreaMarker::SquaredArea {
                height: split.height,
                width: split.width,
                y_start: split.y_start,
                x_start: split.x_start,
            }),
    {
        Area { id, marker: AreaMarker::from_split(split) }
    }

    /// The mask of the region over the reference image, materialised first
    /// if the region is still a rectangle.
    pub fn get_mat_area(&mut self, reference: &ImageContainer) -> (r: &Mask)
        requires
            reference.wf(),
            reference.height * reference.width <= usize::MAX,
            old(self).marker.fits(reference.height as int, reference.width as int),
        ensures
            final(self).id == old(self).id,
            final(self).marker == AreaMarker::MaskedArea(*r),
            r.wf(),
            r.rows == reference.height,
            r.cols == reference.width,
            r.data@ == old(self).marker.mask_spec(reference.height as int, reference.width as int),
    {
        self.marker.to_maks(reference);
        match &self.marker {
            AreaMarker::MaskedArea(m) => m,
            AreaMarker::SquaredArea { .. } => vstd::pervasive::unreached(),
        }
    }
}

} // verus!
