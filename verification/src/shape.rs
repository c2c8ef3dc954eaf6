//! Shapes: the layouts of arrays in flat buffers, and the regions of an array.
use vstd::prelude::*;

verus! {

/// The buffer in which a region does not fit.
#[derive(Clone, Copy, Debug, PartialEq, Eq)]
pub enum OutOfBounds {
    /// The region reaches beyond the source array or its buffer.
    Source,
    /// The region reaches beyond the destination array or its buffer.
    Destination,
}

/// The layout of a two-dimensional array in a flat buffer.
///
/// Axis 0 is the contiguous axis: neighbours along it are neighbours in the
/// buffer. No two cells share an offset.
pub trait Shape2: Sized {
    /// Whether `(x, y)` is the coordinate of a cell of the array.
    spec fn contains(&self, x: int, y: int) -> bool;

    /// The offset in the buffer of the cell at `(x, y)`.
    spec fn offset(&self, x: int, y: int) -> int;

    /// The coordinates of a cell and its offset fit in `u32`.
    proof fn lemma_in_range(&self, x: int, y: int)
        requires
            self.contains(x, y),
        ensures
            0 <= x <= u32::MAX,
            0 <= y <= u32::MAX,
            0 <= self.offset(x, y) <= u32::MAX,
    ;

    /// A step along axis 0 is a step of one element in the buffer.
    proof fn lemma_unit_stride(&self, x: int, y: int)
        requires
            self.contains(x, y),
            self.contains(x + 1, y),
        ensures
            self.offset(x + 1, y) == self.offset(x, y) + 1,
    ;

    /// Cells with the same offset are the same cell.
    proof fn lemma_injective(&self, a: (int, int), b: (int, int))
        requires
            self.contains(a.0, a.1),
            self.contains(b.0, b.1),
            self.offset(a.0, a.1) == self.offset(b.0, b.1),
        ensures
            a == b,
    ;

    /// The offset of the cell at `p`.
    fn linearize(&self, p: [u32; 2]) -> (i: u32)
        requires
            self.contains(p[0] as int, p[1] as int),
        ensures
            i == self.offset(p[0] as int, p[1] as int),
    ;
}

/// A two-dimensional shape that can tell whether a region lies within it.
pub trait Bounded2: Shape2 {
    /// Whether the region of `extent` cells that begins at `start` lies within
    /// the array, and within a buffer of `len` elements.
    fn fits(&self, start: [u32; 2], extent: [u32; 2], len: usize) -> (b: bool)
        ensures
            b == region_fits2(self, start, extent, len as int),
    ;
}

/// The offset of the cell `(i, j)` of the region that begins at `start`.
pub open spec fn cell2<S: Shape2>(shape: &S, start: [u32; 2], i: int, j: int) -> int {
    shape.offset(start[0] + i, start[1] + j)
}

/// Every cell of the region of `extent` cells that begins at `start` is a cell
/// of the array, at an offset below `len`.
pub open spec fn region_fits2<S: Shape2>(
    shape: &S,
    start: [u32; 2],
    extent: [u32; 2],
    len: int,
) -> bool {
    forall|i: int, j: int|
        0 <= i < extent[0] && 0 <= j < extent[1] ==> {
            &&& shape.contains(start[0] + i, start[1] + j)
            &&& 0 <= #[trigger] cell2(shape, start, i, j) < len
        }
}

/// `n` is the offset of a cell of the region of `extent` cells that begins at
/// `start`.
pub open spec fn addressed2<S: Shape2>(
    shape: &S,
    start: [u32; 2],
    extent: [u32; 2],
    n: int,
) -> bool {
    exists|i: int, j: int|
        0 <= i < extent[0] && 0 <= j < extent[1]
            && #[trigger] cell2(shape, start, i, j) == n
}

/// Along axis 0 the cells of a region that fits lie side by side.
pub proof fn lemma_row2<S: Shape2>(
    shape: &S,
    start: [u32; 2],
    extent: [u32; 2],
    len: int,
    i: int,
    j: int,
)
    requires
        region_fits2(shape, start, extent, len),
        0 <= i < extent[0],
        0 <= j < extent[1],
    ensures
        cell2(shape, start, i, j) == cell2(shape, start, 0, j) + i,
    decreases i,
{
    if i > 0 {
        lemma_row2(shape, start, extent, len, i - 1, j);
        assert(0 <= cell2(shape, start, i - 1, j));
        assert(0 <= cell2(shape, start, i, j));
        shape.lemma_unit_stride(start[0] + i - 1, start[1] + j);
    }
}

/// Two cells of a region that fits share an offset only if they are the same
/// cell.
pub proof fn lemma_apart2<S: Shape2>(
    shape: &S,
    start: [u32; 2],
    extent: [u32; 2],
    len: int,
    a: (int, int),
    b: (int, int),
)
    requires
        region_fits2(shape, start, extent, len),
        0 <= a.0 < extent[0],
        0 <= a.1 < extent[1],
        0 <= b.0 < extent[0],
        0 <= b.1 < extent[1],
        cell2(shape, start, a.0, a.1) == cell2(shape, start, b.0, b.1),
    ensures
        a == b,
{
    assert(0 <= cell2(shape, start, a.0, a.1));
    assert(0 <= cell2(shape, start, b.0, b.1));
    shape.lemma_injective(
        (start[0] + a.0, start[1] + a.1),
        (start[0] + b.0, start[1] + b.1),
    );
}

/// The layout of a three-dimensional array in a flat buffer.
///
/// Axis 0 is the contiguous axis: neighbours along it are neighbours in the
/// buffer. No two cells share an offset.
pub trait Shape3: Sized {
    /// Whether `(x, y, z)` is the coordinate of a cell of the array.
    spec fn contains(&self, x: int, y: int, z: int) -> bool;

    /// The offset in the buffer of the cell at `(x, y, z)`.
    spec fn offset(&self, x: int, y: int, z: int) -> int;

    /// The coordinates of a cell and its offset fit in `u32`.
    proof fn lemma_in_range(&self, x: int, y: int, z: int)
        requires
            self.contains(x, y, z),
        ensures
            0 <= x <= u32::MAX,
            0 <= y <= u32::MAX,
            0 <= z <= u32::MAX,
            0 <= self.offset(x, y, z) <= u32::MAX,
    ;

    /// A step along axis 0 is a step of one element in the buffer.
    proof fn lemma_unit_stride(&self, x: int, y: int, z: int)
        requires
            self.contains(x, y, z),
            self.contains(x + 1, y, z),
        ensures
            self.offset(x + 1, y, z) == self.offset(x, y, z) + 1,
    ;

    /// Cells with the same offset are the same cell.
    proof fn lemma_injective(&self, a: (int, int, int), b: (int, int, int))
        requires
            self.contains(a.0, a.1, a.2),
            self.contains(b.0, b.1, b.2),
            self.offset(a.0, a.1, a.2) == self.offset(b.0, b.1, b.2),
        ensures
            a == b,
    ;

    /// The offset of the cell at `p`.
    fn linearize(&self, p: [u32; 3]) -> (i: u32)
        requires
            self.contains(p[0] as int, p[1] as int, p[2] as int),
        ensures
            i == self.offset(p[0] as int, p[1] as int, p[2] as int),
    ;
}

/// A three-dimensional shape that can tell whether a region lies within it.
pub trait Bounded3: Shape3 {
    /// Whether the region of `extent` cells that begins at `start` lies within
    /// the array, and within a buffer of `len` elements.
    fn fits(&self, start: [u32; 3], extent: [u32; 3], len: usize) -> (b: bool)
        ensures
            b == region_fits3(self, start, extent, len as int),
    ;
}

/// The offset of the cell `(i, j, k)` of the region that begins at `start`.
pub open spec fn cell3<S: Shape3>(shape: &S, start: [u32; 3], i: int, j: int, k: int) -> int {
    shape.offset(start[0] + i, start[1] + j, start[2] + k)
}

/// Every cell of the region of `extent` cells that begins at `start` is a cell
/// of the array, at an offset below `len`.
pub open spec fn region_fits3<S: Shape3>(
    shape: &S,
    start: [u32; 3],
    extent: [u32; 3],
    len: int,
) -> bool {
    forall|i: int, j: int, k: int|
        0 <= i < extent[0] && 0 <= j < extent[1] && 0 <= k < extent[2] ==> {
            &&& shape.contains(start[0] + i, start[1] + j, start[2] + k)
            &&& 0 <= #[trigger] cell3(shape, start, i, j, k) < len
        }
}

/// `n` is the offset of a cell of the region of `extent` cells that begins at
/// `start`.
pub open spec fn addressed3<S: Shape3>(
    shape: &S,
    start: [u32; 3],
    extent: [u32; 3],
    n: int,
) -> bool {
    exists|i: int, j: int, k: int|
        0 <= i < extent[0] && 0 <= j < extent[1] && 0 <= k < extent[2]
            && #[trigger] cell3(shape, start, i, j, k) == n
}

/// Along axis 0 the cells of a region that fits lie side by side.
pub proof fn lemma_row3<S: Shape3>(
    shape: &S,
    start: [u32; 3],
    extent: [u32; 3],
    len: int,
    i: int,
    j: int,
    k: int,
)
    requires
        region_fits3(shape, start, extent, len),
        0 <= i < extent[0],
        0 <= j < extent[1],
        0 <= k < extent[2],
    ensures
        cell3(shape, start, i, j, k) == cell3(shape, start, 0, j, k) + i,
    decreases i,
{
    if i > 0 {
        lemma_row3(shape, start, extent, len, i - 1, j, k);
        assert(0 <= cell3(shape, start, i - 1, j, k));
        assert(0 <= cell3(shape, start, i, j, k));
        shape.lemma_unit_stride(start[0] + i - 1, start[1] + j, start[2] + k);
    }
}

/// Two cells of a region that fits share an offset only if they are the same
/// cell.
pub proof fn lemma_apart3<S: Shape3>(
    shape: &S,
    start: [u32; 3],
    extent: [u32; 3],
    len: int,
    a: (int, int, int),
    b: (int, int, int),
)
    requires
        region_fits3(shape, start, extent, len),
        0 <= a.0 < extent[0],
        0 <= a.1 < extent[1],
        0 <= a.2 < extent[2],
        0 <= b.0 < extent[0],
        0 <= b.1 < extent[1],
        0 <= b.2 < extent[2],
        cell3(shape, start, a.0, a.1, a.2) == cell3(shape, start, b.0, b.1, b.2),
    ensures
        a == b,
{
    assert(0 <= cell3(shape, start, a.0, a.1, a.2));
    assert(0 <= cell3(shape, start, b.0, b.1, b.2));
    shape.lemma_injective(
        (start[0] + a.0, start[1] + a.1, start[2] + a.2),
        (start[0] + b.0, start[1] + b.1, start[2] + b.2),
    );
}

/// The layout of a four-dimensional array in a flat buffer.
///
/// Axis 0 is the contiguous axis: neighbours along it are neighbours in the
/// buffer. No two cells share an offset.
pub trait Shape4: Sized {
    /// Whether `(x, y, z, w)` is the coordinate of a cell of the array.
    spec fn contains(&self, x: int, y: int, z: int, w: int) -> bool;

    /// The offset in the buffer of the cell at `(x, y, z, w)`.
    spec fn offset(&self, x: int, y: int, z: int, w: int) -> int;

    /// The coordinates of a cell and its offset fit in `u32`.
    proof fn lemma_in_range(&self, x: int, y: int, z: int, w: int)
        requires
            self.contains(x, y, z, w),
        ensures
            0 <= x <= u32::MAX,
            0 <= y <= u32::MAX,
            0 <= z <= u32::MAX,
            0 <= w <= u32::MAX,
            0 <= self.offset(x, y, z, w) <= u32::MAX,
    ;

    /// A step along axis 0 is a step of one element in the buffer.
    proof fn lemma_unit_stride(&self, x: int, y: int, z: int, w: int)
        requires
            self.contains(x, y, z, w),
            self.contains(x + 1, y, z, w),
        ensures
            self.offset(x + 1, y, z, w) == self.offset(x, y, z, w) + 1,
    ;

    /// Cells with the same offset are the same cell.
    proof fn lemma_injective(&self, a: (int, int, int, int), b: (int, int, int, int))
        requires
            self.contains(a.0, a.1, a.2, a.3),
            self.contains(b.0, b.1, b.2, b.3),
            self.offset(a.0, a.1, a.2, a.3) == self.offset(b.0, b.1, b.2, b.3),
        ensures
            a == b,
    ;

    /// The offset of the cell at `p`.
    fn linearize(&self, p: [u32; 4]) -> (i: u32)
        requires
            self.contains(p[0] as int, p[1] as int, p[2] as int, p[3] as int),
        ensures
            i == self.offset(p[0] as int, p[1] as int, p[2] as int, p[3] as int),
    ;
}

/// A four-dimensional shape that can tell whether a region lies within it.
pub trait Bounded4: Shape4 {
    /// Whether the region of `extent` cells that begins at `start` lies within
    /// the array, and within a buffer of `len` elements.
    fn fits(&self, start: [u32; 4], extent: [u32; 4], len: usize) -> (b: bool)
        ensures
            b == region_fits4(self, start, extent, len as int),
    ;
}

/// The offset of the cell `(i, j, k, l)` of the region that begins at `start`.
pub open spec fn cell4<S: Shape4>(
    shape: &S,
    start: [u32; 4],
    i: int,
    j: int,
    k: int,
    l: int,
) -> int {
    shape.offset(start[0] + i, start[1] + j, start[2] + k, start[3] + l)
}

/// Every cell of the region of `extent` cells that begins at `start` is a cell
/// of the array, at an offset below `len`.
pub open spec fn region_fits4<S: Shape4>(
    shape: &S,
    start: [u32; 4],
    extent: [u32; 4],
    len: int,
) -> bool {
    forall|i: int, j: int, k: int, l: int|
        0 <= i < extent[0] && 0 <= j < extent[1] && 0 <= k < extent[2] && 0 <= l < extent[3] ==> {
            &&& shape.contains(start[0] + i, start[1] + j, start[2] + k, start[3] + l)
            &&& 0 <= #[trigger] cell4(shape, start, i, j, k, l) < len
        }
}

/// `n` is the offset of a cell of the region of `extent` cells that begins at
/// `start`.
pub open spec fn addressed4<S: Shape4>(
    shape: &S,
    start: [u32; 4],
    extent: [u32; 4],
    n: int,
) -> bool {
    exists|i: int, j: int, k: int, l: int|
        0 <= i < extent[0] && 0 <= j < extent[1] && 0 <= k < extent[2] && 0 <= l < extent[3]
            && #[trigger] cell4(shape, start, i, j, k, l) == n
}

/// Along axis 0 the cells of a region that fits lie side by side.
pub proof fn lemma_row4<S: Shape4>(
    shape: &S,
    start: [u32; 4],
    extent: [u32; 4],
    len: int,
    i: int,
    j: int,
    k: int,
    l: int,
)
    requires
        region_fits4(shape, start, extent, len),
        0 <= i < extent[0],
        0 <= j < extent[1],
        0 <= k < extent[2],
        0 <= l < extent[3],
    ensures
        cell4(shape, start, i, j, k, l) == cell4(shape, start, 0, j, k, l) + i,
    decreases i,
{
    if i > 0 {
        lemma_row4(shape, start, extent, len, i - 1, j, k, l);
        assert(0 <= cell4(shape, start, i - 1, j, k, l));
        assert(0 <= cell4(shape, start, i, j, k, l));
        shape.lemma_unit_stride(start[0] + i - 1, start[1] + j, start[2] + k, start[3] + l);
    }
}

/// Two cells of a region that fits share an offset only if they are the same
/// cell.
pub proof fn lemma_apart4<S: Shape4>(
    shape: &S,
    start: [u32; 4],
    extent: [u32; 4],
    len: int,
    a: (int, int, int, int),
    b: (int, int, int, int),
)
    requires
        region_fits4(shape, start, extent, len),
        0 <= a.0 < extent[0],
        0 <= a.1 < extent[1],
        0 <= a.2 < extent[2],
        0 <= a.3 < extent[3],
        0 <= b.0 < extent[0],
        0 <= b.1 < extent[1],
        0 <= b.2 < extent[2],
        0 <= b.3 < extent[3],
        cell4(shape, start, a.0, a.1, a.2, a.3) == cell4(shape, start, b.0, b.1, b.2, b.3),
    ensures
        a == b,
{
    assert(0 <= cell4(shape, start, a.0, a.1, a.2, a.3));
    assert(0 <= cell4(shape, start, b.0, b.1, b.2, b.3));
    shape.lemma_injective(
        (start[0] + a.0, start[1] + a.1, start[2] + a.2, start[3] + a.3),
        (start[0] + b.0, start[1] + b.1, start[2] + b.2, start[3] + b.3),
    );
}

} // verus!
