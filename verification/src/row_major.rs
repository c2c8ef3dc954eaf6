//! The arithmetic of row-major layouts: axis 0 varies fastest, then axis 1, and
//! so on.
use crate::shape::{
    cell2, cell3, cell4, region_fits2, region_fits3, region_fits4, Shape2, Shape3, Shape4,
};
use vstd::prelude::*;

verus! {

/// The product of a stride and a coordinate as `u32::wrapping_mul` gives it.
pub open spec fn wrapped(stride: int, c: int) -> int {
    (stride * c) % 0x1_0000_0000
}

/// The offset of the cell `(x, y)` of an array whose rows are `dx` cells long.
pub open spec fn offset2(dx: int, x: int, y: int) -> int {
    x + dx * y
}

/// Whether `(x, y)` is a cell of the array whose axes are `dx` and `dy`
/// long, at an offset that fits in `u32`.
pub open spec fn contains2(dx: int, dy: int, x: int, y: int) -> bool {
    &&& 0 <= x < dx
    &&& 0 <= y < dy
    &&& offset2(dx, x, y) <= u32::MAX
}

/// Whether the cells from `lo` up to, and without, `hi` are all cells of the
/// array whose axes are `dx` and `dy` long, at offsets below `len`.
pub open spec fn box_fits2(dx: int, dy: int, lo: (int, int), hi: (int, int), len: int) -> bool {
    forall|x: int, y: int|
        lo.0 <= x < hi.0 && lo.1 <= y < hi.1 ==> {
            &&& #[trigger] contains2(dx, dy, x, y)
            &&& offset2(dx, x, y) < len
        }
}

/// Offsets grow with the coordinates.
pub proof fn lemma_offset2_monotone(dx: int, x: int, y: int, x_max: int, y_max: int)
    requires
        0 <= dx,
        0 <= x <= x_max,
        0 <= y <= y_max,
    ensures
        0 <= offset2(dx, x, y) <= offset2(dx, x_max, y_max),
{
    assert(0 <= dx * y <= dx * y_max) by (nonlinear_arith)
        requires
            0 <= dx,
            0 <= y <= y_max,
    ;
}

/// Within the array, offsets stay below the number of cells.
pub proof fn lemma_offset2_below(dx: int, dy: int, x: int, y: int)
    requires
        0 <= x < dx,
        0 <= y < dy,
    ensures
        0 <= offset2(dx, x, y) < dx * dy,
{
    assert(0 <= dx * y && dx * y + dx <= dx * dy) by (nonlinear_arith)
        requires
            0 <= dx,
            0 <= y < dy,
    ;
}

/// Within the array, cells with the same offset are the same cell.
pub proof fn lemma_offset2_injective(dx: int, a: (int, int), b: (int, int))
    requires
        0 <= a.0 < dx,
        0 <= b.0 < dx,
        offset2(dx, a.0, a.1) == offset2(dx, b.0, b.1),
    ensures
        a == b,
{
    assert(a.1 == b.1) by (nonlinear_arith)
        requires
            0 <= a.0 < dx,
            0 <= b.0 < dx,
            a.0 + dx * a.1 == b.0 + dx * b.1,
    ;
}

/// A box that is not empty fits just when its last cell does.
pub proof fn lemma_box_fits2(dx: int, dy: int, lo: (int, int), hi: (int, int), len: int)
    requires
        0 <= lo.0 < hi.0,
        0 <= lo.1 < hi.1,
    ensures
        box_fits2(dx, dy, lo, hi, len) <==> {
            &&& contains2(dx, dy, hi.0 - 1, hi.1 - 1)
            &&& offset2(dx, hi.0 - 1, hi.1 - 1) < len
        },
{
    if contains2(dx, dy, hi.0 - 1, hi.1 - 1)
        && offset2(dx, hi.0 - 1, hi.1 - 1) < len
    {
        assert forall|x: int, y: int|
            lo.0 <= x < hi.0 && lo.1 <= y < hi.1 implies {
            &&& #[trigger] contains2(dx, dy, x, y)
            &&& offset2(dx, x, y) < len
        } by {
            lemma_offset2_monotone(dx, x, y, hi.0 - 1, hi.1 - 1);
        }
    } else if box_fits2(dx, dy, lo, hi, len) {
        assert(contains2(dx, dy, hi.0 - 1, hi.1 - 1));
    }
}

/// Decides `box_fits2` for the region of `extent` cells that begins at `start`
/// by looking at its last cell.
pub fn fits2(dims: [u32; 2], start: [u32; 2], extent: [u32; 2], len: usize) -> (b: bool)
    ensures
        b == box_fits2(
            dims[0] as int,
            dims[1] as int,
            (start[0] as int, start[1] as int),
            (start[0] + extent[0], start[1] + extent[1]),
            len as int,
        ),
{
    if extent[0] == 0 || extent[1] == 0 {
        return true;
    }
    let x_max: u64 = start[0] as u64 + (extent[0] - 1) as u64;
    let y_max: u64 = start[1] as u64 + (extent[1] - 1) as u64;
    proof {
        lemma_box_fits2(
            dims[0] as int,
            dims[1] as int,
            (start[0] as int, start[1] as int),
            (start[0] + extent[0], start[1] + extent[1]),
            len as int,
        );
    }
    if x_max >= dims[0] as u64 || y_max >= dims[1] as u64 {
        return false;
    }
    proof {
        assert(0 <= dims[0] * y_max <= 0xffff_ffff * 0xffff_ffff) by (nonlinear_arith)
            requires
                0 <= dims[0] <= 0xffff_ffff,
                0 <= y_max <= 0xffff_ffff,
        ;
    }
    let last: u64 = x_max + dims[0] as u64 * y_max;
    last <= u32::MAX as u64 && last < len as u64
}

/// For a shape that is row-major, a region fits just when the box of its
/// coordinates does.
pub proof fn lemma_region_is_box2<S: Shape2>(
    shape: &S,
    dx: int,
    dy: int,
    start: [u32; 2],
    extent: [u32; 2],
    len: int,
)
    requires
        forall|x: int, y: int|
            #[trigger] shape.contains(x, y) == contains2(dx, dy, x, y),
        forall|x: int, y: int| #[trigger] shape.offset(x, y) == offset2(dx, x, y),
    ensures
        region_fits2(shape, start, extent, len) == box_fits2(
            dx,
            dy,
            (start[0] as int, start[1] as int),
            (start[0] + extent[0], start[1] + extent[1]),
            len,
        ),
{
    let lo = (start[0] as int, start[1] as int);
    let hi = (start[0] + extent[0], start[1] + extent[1]);
    if region_fits2(shape, start, extent, len) {
        assert forall|x: int, y: int|
            lo.0 <= x < hi.0 && lo.1 <= y < hi.1 implies {
            &&& #[trigger] contains2(dx, dy, x, y)
            &&& offset2(dx, x, y) < len
        } by {
            assert(0 <= cell2(shape, start, x - start[0], y - start[1]));
        }
        assert(box_fits2(dx, dy, lo, hi, len));
    }
    if box_fits2(dx, dy, lo, hi, len) {
        assert forall|i: int, j: int|
            0 <= i < extent[0] && 0 <= j < extent[1] implies {
            &&& shape.contains(start[0] + i, start[1] + j)
            &&& 0 <= #[trigger] cell2(shape, start, i, j) < len
        } by {
            assert(contains2(dx, dy, start[0] + i, start[1] + j));
            lemma_offset2_monotone(dx, start[0] + i, start[1] + j, start[0] + i, start[1] + j);
        }
        assert(region_fits2(shape, start, extent, len));
    }
}

/// The offset of the cell `(x, y, z)` of an array whose planes are `dx` by `dy`
/// cells: the offset in its plane, after `z` whole planes.
pub open spec fn offset3(dx: int, dy: int, x: int, y: int, z: int) -> int {
    offset2(dx, x, y) + (dx * dy) * z
}

/// Whether `(x, y, z)` is a cell of the array whose axes are `dx`, `dy` and `dz`
/// long, at an offset that fits in `u32`, as the size of a plane must.
pub open spec fn contains3(dx: int, dy: int, dz: int, x: int, y: int, z: int) -> bool {
    &&& 0 <= x < dx
    &&& 0 <= y < dy
    &&& 0 <= z < dz
    &&& dx * dy <= u32::MAX
    &&& offset3(dx, dy, x, y, z) <= u32::MAX
}

/// Whether the cells from `lo` up to, and without, `hi` are all cells of the
/// array whose axes are `dx`, `dy` and `dz` long, at offsets below `len`.
pub open spec fn box_fits3(
    dx: int,
    dy: int,
    dz: int,
    lo: (int, int, int),
    hi: (int, int, int),
    len: int,
) -> bool {
    forall|x: int, y: int, z: int|
        lo.0 <= x < hi.0 && lo.1 <= y < hi.1 && lo.2 <= z < hi.2 ==> {
            &&& #[trigger] contains3(dx, dy, dz, x, y, z)
            &&& offset3(dx, dy, x, y, z) < len
        }
}

/// Offsets grow with the coordinates.
pub proof fn lemma_offset3_monotone(
    dx: int,
    dy: int,
    x: int,
    y: int,
    z: int,
    x_max: int,
    y_max: int,
    z_max: int,
)
    requires
        0 <= dx,
        0 <= dy,
        0 <= x <= x_max,
        0 <= y <= y_max,
        0 <= z <= z_max,
    ensures
        0 <= offset3(dx, dy, x, y, z) <= offset3(dx, dy, x_max, y_max, z_max),
{
    lemma_offset2_monotone(dx, x, y, x_max, y_max);
    assert(0 <= dx * dy) by (nonlinear_arith)
        requires
            0 <= dx,
            0 <= dy,
    ;
    lemma_offset2_monotone(dx * dy, 0, z, 0, z_max);
}

/// Within the array, offsets stay below the number of cells.
pub proof fn lemma_offset3_below(dx: int, dy: int, dz: int, x: int, y: int, z: int)
    requires
        0 <= x < dx,
        0 <= y < dy,
        0 <= z < dz,
    ensures
        0 <= offset3(dx, dy, x, y, z) < dx * dy * dz,
{
    lemma_offset2_below(dx, dy, x, y);
    lemma_offset2_below(dx * dy, dz, offset2(dx, x, y), z);
}

/// Within the array, cells with the same offset are the same cell.
pub proof fn lemma_offset3_injective(dx: int, dy: int, a: (int, int, int), b: (int, int, int))
    requires
        0 <= a.0 < dx,
        0 <= b.0 < dx,
        0 <= a.1 < dy,
        0 <= b.1 < dy,
        offset3(dx, dy, a.0, a.1, a.2) == offset3(dx, dy, b.0, b.1, b.2),
    ensures
        a == b,
{
    lemma_offset2_below(dx, dy, a.0, a.1);
    lemma_offset2_below(dx, dy, b.0, b.1);
    lemma_offset2_injective(
        dx * dy,
        (offset2(dx, a.0, a.1), a.2),
        (offset2(dx, b.0, b.1), b.2),
    );
    lemma_offset2_injective(dx, (a.0, a.1), (b.0, b.1));
}

/// A box that is not empty fits just when its last cell does.
pub proof fn lemma_box_fits3(
    dx: int,
    dy: int,
    dz: int,
    lo: (int, int, int),
    hi: (int, int, int),
    len: int,
)
    requires
        0 <= lo.0 < hi.0,
        0 <= lo.1 < hi.1,
        0 <= lo.2 < hi.2,
    ensures
        box_fits3(dx, dy, dz, lo, hi, len) <==> {
            &&& contains3(dx, dy, dz, hi.0 - 1, hi.1 - 1, hi.2 - 1)
            &&& offset3(dx, dy, hi.0 - 1, hi.1 - 1, hi.2 - 1) < len
        },
{
    if contains3(dx, dy, dz, hi.0 - 1, hi.1 - 1, hi.2 - 1)
        && offset3(dx, dy, hi.0 - 1, hi.1 - 1, hi.2 - 1) < len
    {
        assert forall|x: int, y: int, z: int|
            lo.0 <= x < hi.0 && lo.1 <= y < hi.1 && lo.2 <= z < hi.2 implies {
            &&& #[trigger] contains3(dx, dy, dz, x, y, z)
            &&& offset3(dx, dy, x, y, z) < len
        } by {
            lemma_offset3_monotone(dx, dy, x, y, z, hi.0 - 1, hi.1 - 1, hi.2 - 1);
        }
    } else if box_fits3(dx, dy, dz, lo, hi, len) {
        assert(contains3(dx, dy, dz, hi.0 - 1, hi.1 - 1, hi.2 - 1));
    }
}

/// Decides `box_fits3` for the region of `extent` cells that begins at `start`
/// by looking at its last cell.
pub fn fits3(dims: [u32; 3], start: [u32; 3], extent: [u32; 3], len: usize) -> (b: bool)
    ensures
        b == box_fits3(
            dims[0] as int,
            dims[1] as int,
            dims[2] as int,
            (start[0] as int, start[1] as int, start[2] as int),
            (start[0] + extent[0], start[1] + extent[1], start[2] + extent[2]),
            len as int,
        ),
{
    if extent[0] == 0 || extent[1] == 0 || extent[2] == 0 {
        return true;
    }
    let x_max: u64 = start[0] as u64 + (extent[0] - 1) as u64;
    let y_max: u64 = start[1] as u64 + (extent[1] - 1) as u64;
    let z_max: u64 = start[2] as u64 + (extent[2] - 1) as u64;
    proof {
        lemma_box_fits3(
            dims[0] as int,
            dims[1] as int,
            dims[2] as int,
            (start[0] as int, start[1] as int, start[2] as int),
            (start[0] + extent[0], start[1] + extent[1], start[2] + extent[2]),
            len as int,
        );
    }
    if x_max >= dims[0] as u64 || y_max >= dims[1] as u64 || z_max >= dims[2] as u64 {
        return false;
    }
    proof {
        assert(0 <= dims[0] * dims[1] <= 0xffff_ffff * 0xffff_ffff) by (nonlinear_arith)
            requires
                0 <= dims[0] <= 0xffff_ffff,
                0 <= dims[1] <= 0xffff_ffff,
        ;
    }
    let plane: u64 = dims[0] as u64 * dims[1] as u64;
    if plane > u32::MAX as u64 {
        return false;
    }
    proof {
        lemma_offset2_below(dims[0] as int, dims[1] as int, x_max as int, y_max as int);
        assert(0 <= dims[0] * y_max) by (nonlinear_arith)
            requires
                0 <= dims[0],
                0 <= y_max,
        ;
        assert(0 <= plane * z_max <= 0xffff_ffff * 0xffff_ffff) by (nonlinear_arith)
            requires
                0 <= plane <= 0xffff_ffff,
                0 <= z_max <= 0xffff_ffff,
        ;
    }
    let last: u64 = x_max + dims[0] as u64 * y_max + plane * z_max;
    last <= u32::MAX as u64 && last < len as u64
}

/// For a shape that is row-major, a region fits just when the box of its
/// coordinates does.
pub proof fn lemma_region_is_box3<S: Shape3>(
    shape: &S,
    dx: int,
    dy: int,
    dz: int,
    start: [u32; 3],
    extent: [u32; 3],
    len: int,
)
    requires
        forall|x: int, y: int, z: int|
            #[trigger] shape.contains(x, y, z) == contains3(dx, dy, dz, x, y, z),
        forall|x: int, y: int, z: int| #[trigger] shape.offset(x, y, z) == offset3(dx, dy, x, y, z),
    ensures
        region_fits3(shape, start, extent, len) == box_fits3(
            dx,
            dy,
            dz,
            (start[0] as int, start[1] as int, start[2] as int),
            (start[0] + extent[0], start[1] + extent[1], start[2] + extent[2]),
            len,
        ),
{
    let lo = (start[0] as int, start[1] as int, start[2] as int);
    let hi = (start[0] + extent[0], start[1] + extent[1], start[2] + extent[2]);
    if region_fits3(shape, start, extent, len) {
        assert forall|x: int, y: int, z: int|
            lo.0 <= x < hi.0 && lo.1 <= y < hi.1 && lo.2 <= z < hi.2 implies {
            &&& #[trigger] contains3(dx, dy, dz, x, y, z)
            &&& offset3(dx, dy, x, y, z) < len
        } by {
            assert(0 <= cell3(shape, start, x - start[0], y - start[1], z - start[2]));
        }
        assert(box_fits3(dx, dy, dz, lo, hi, len));
    }
    if box_fits3(dx, dy, dz, lo, hi, len) {
        assert forall|i: int, j: int, k: int|
            0 <= i < extent[0] && 0 <= j < extent[1] && 0 <= k < extent[2] implies {
            &&& shape.contains(start[0] + i, start[1] + j, start[2] + k)
            &&& 0 <= #[trigger] cell3(shape, start, i, j, k) < len
        } by {
            assert(contains3(dx, dy, dz, start[0] + i, start[1] + j, start[2] + k));
            lemma_offset3_monotone(
                dx,
                dy,
                start[0] + i,
                start[1] + j,
                start[2] + k,
                start[0] + i,
                start[1] + j,
                start[2] + k,
            );
        }
        assert(region_fits3(shape, start, extent, len));
    }
}

/// The offset of the cell `(x, y, z, w)` of an array whose cubes are `dx` by `dy`
/// by `dz` cells: the offset in its cube, after `w` whole cubes.
pub open spec fn offset4(dx: int, dy: int, dz: int, x: int, y: int, z: int, w: int) -> int {
    offset3(dx, dy, x, y, z) + (dx * dy * dz) * w
}

/// Whether `(x, y, z, w)` is a cell of the array whose axes are `dx`, `dy`, `dz` and `dw`
/// long, at an offset that fits in `u32`, as the sizes of a plane and of a cube must.
pub open spec fn contains4(
    dx: int,
    dy: int,
    dz: int,
    dw: int,
    x: int,
    y: int,
    z: int,
    w: int,
) -> bool {
    &&& 0 <= x < dx
    &&& 0 <= y < dy
    &&& 0 <= z < dz
    &&& 0 <= w < dw
    &&& dx * dy <= u32::MAX
    &&& dx * dy * dz <= u32::MAX
    &&& offset4(dx, dy, dz, x, y, z, w) <= u32::MAX
}

/// Whether the cells from `lo` up to, and without, `hi` are all cells of the
/// array whose axes are `dx`, `dy`, `dz` and `dw` long, at offsets below `len`.
pub open spec fn box_fits4(
    dx: int,
    dy: int,
    dz: int,
    dw: int,
    lo: (int, int, int, int),
    hi: (int, int, int, int),
    len: int,
) -> bool {
    forall|x: int, y: int, z: int, w: int|
        lo.0 <= x < hi.0 && lo.1 <= y < hi.1 && lo.2 <= z < hi.2 && lo.3 <= w < hi.3 ==> {
            &&& #[trigger] contains4(dx, dy, dz, dw, x, y, z, w)
            &&& offset4(dx, dy, dz, x, y, z, w) < len
        }
}

/// Offsets grow with the coordinates.
pub proof fn lemma_offset4_monotone(
    dx: int,
    dy: int,
    dz: int,
    x: int,
    y: int,
    z: int,
    w: int,
    x_max: int,
    y_max: int,
    z_max: int,
    w_max: int,
)
    requires
        0 <= dx,
        0 <= dy,
        0 <= dz,
        0 <= x <= x_max,
        0 <= y <= y_max,
        0 <= z <= z_max,
        0 <= w <= w_max,
    ensures
        0 <= offset4(dx, dy, dz, x, y, z, w) <= offset4(dx, dy, dz, x_max, y_max, z_max, w_max),
{
    lemma_offset3_monotone(dx, dy, x, y, z, x_max, y_max, z_max);
    assert(0 <= dx * dy * dz) by (nonlinear_arith)
        requires
            0 <= dx,
            0 <= dy,
            0 <= dz,
    ;
    lemma_offset2_monotone(dx * dy * dz, 0, w, 0, w_max);
}

/// Within the array, cells with the same offset are the same cell.
pub proof fn lemma_offset4_injective(
    dx: int,
    dy: int,
    dz: int,
    a: (int, int, int, int),
    b: (int, int, int, int),
)
    requires
        0 <= a.0 < dx,
        0 <= b.0 < dx,
        0 <= a.1 < dy,
        0 <= b.1 < dy,
        0 <= a.2 < dz,
        0 <= b.2 < dz,
        offset4(dx, dy, dz, a.0, a.1, a.2, a.3) == offset4(dx, dy, dz, b.0, b.1, b.2, b.3),
    ensures
        a == b,
{
    lemma_offset3_below(dx, dy, dz, a.0, a.1, a.2);
    lemma_offset3_below(dx, dy, dz, b.0, b.1, b.2);
    lemma_offset2_injective(
        dx * dy * dz,
        (offset3(dx, dy, a.0, a.1, a.2), a.3),
        (offset3(dx, dy, b.0, b.1, b.2), b.3),
    );
    lemma_offset3_injective(dx, dy, (a.0, a.1, a.2), (b.0, b.1, b.2));
}

/// A box that is not empty fits just when its last cell does.
pub proof fn lemma_box_fits4(
    dx: int,
    dy: int,
    dz: int,
    dw: int,
    lo: (int, int, int, int),
    hi: (int, int, int, int),
    len: int,
)
    requires
        0 <= lo.0 < hi.0,
        0 <= lo.1 < hi.1,
        0 <= lo.2 < hi.2,
        0 <= lo.3 < hi.3,
    ensures
        box_fits4(dx, dy, dz, dw, lo, hi, len) <==> {
            &&& contains4(dx, dy, dz, dw, hi.0 - 1, hi.1 - 1, hi.2 - 1, hi.3 - 1)
            &&& offset4(dx, dy, dz, hi.0 - 1, hi.1 - 1, hi.2 - 1, hi.3 - 1) < len
        },
{
    if contains4(dx, dy, dz, dw, hi.0 - 1, hi.1 - 1, hi.2 - 1, hi.3 - 1)
        && offset4(dx, dy, dz, hi.0 - 1, hi.1 - 1, hi.2 - 1, hi.3 - 1) < len
    {
        assert forall|x: int, y: int, z: int, w: int|
            lo.0 <= x < hi.0 && lo.1 <= y < hi.1 && lo.2 <= z < hi.2 && lo.3 <= w < hi.3 implies {
            &&& #[trigger] contains4(dx, dy, dz, dw, x, y, z, w)
            &&& offset4(dx, dy, dz, x, y, z, w) < len
        } by {
            lemma_offset4_monotone(dx, dy, dz, x, y, z, w, hi.0 - 1, hi.1 - 1, hi.2 - 1, hi.3 - 1);
        }
    } else if box_fits4(dx, dy, dz, dw, lo, hi, len) {
        assert(contains4(dx, dy, dz, dw, hi.0 - 1, hi.1 - 1, hi.2 - 1, hi.3 - 1));
    }
}

/// Decides `box_fits4` for the region of `extent` cells that begins at `start`
/// by looking at its last cell.
pub fn fits4(dims: [u32; 4], start: [u32; 4], extent: [u32; 4], len: usize) -> (b: bool)
    ensures
        b == box_fits4(
            dims[0] as int,
            dims[1] as int,
            dims[2] as int,
            dims[3] as int,
            (start[0] as int, start[1] as int, start[2] as int, start[3] as int),
            (
                start[0] + extent[0],
                start[1] + extent[1],
                start[2] + extent[2],
                start[3] + extent[3],
            ),
            len as int,
        ),
{
    if extent[0] == 0 || extent[1] == 0 || extent[2] == 0 || extent[3] == 0 {
        return true;
    }
    let x_max: u64 = start[0] as u64 + (extent[0] - 1) as u64;
    let y_max: u64 = start[1] as u64 + (extent[1] - 1) as u64;
    let z_max: u64 = start[2] as u64 + (extent[2] - 1) as u64;
    let w_max: u64 = start[3] as u64 + (extent[3] - 1) as u64;
    proof {
        lemma_box_fits4(
            dims[0] as int,
            dims[1] as int,
            dims[2] as int,
            dims[3] as int,
            (start[0] as int, start[1] as int, start[2] as int, start[3] as int),
            (
                start[0] + extent[0],
                start[1] + extent[1],
                start[2] + extent[2],
                start[3] + extent[3],
            ),
            len as int,
        );
    }
    if x_max >= dims[0] as u64
        || y_max >= dims[1] as u64
        || z_max >= dims[2] as u64
        || w_max >= dims[3] as u64 {
        return false;
    }
    proof {
        assert(0 <= dims[0] * dims[1] <= 0xffff_ffff * 0xffff_ffff) by (nonlinear_arith)
            requires
                0 <= dims[0] <= 0xffff_ffff,
                0 <= dims[1] <= 0xffff_ffff,
        ;
    }
    let plane: u64 = dims[0] as u64 * dims[1] as u64;
    if plane > u32::MAX as u64 {
        return false;
    }
    proof {
        assert(0 <= plane * dims[2] <= 0xffff_ffff * 0xffff_ffff) by (nonlinear_arith)
            requires
                0 <= plane <= 0xffff_ffff,
                0 <= dims[2] <= 0xffff_ffff,
        ;
    }
    let cube: u64 = plane * dims[2] as u64;
    if cube > u32::MAX as u64 {
        return false;
    }
    proof {
        lemma_offset2_below(dims[0] as int, dims[1] as int, x_max as int, y_max as int);
        lemma_offset3_below(
            dims[0] as int,
            dims[1] as int,
            dims[2] as int,
            x_max as int,
            y_max as int,
            z_max as int,
        );
        assert(0 <= dims[0] * y_max) by (nonlinear_arith)
            requires
                0 <= dims[0],
                0 <= y_max,
        ;
        assert(0 <= plane * z_max) by (nonlinear_arith)
            requires
                0 <= plane,
                0 <= z_max,
        ;
        assert(0 <= cube * w_max <= 0xffff_ffff * 0xffff_ffff) by (nonlinear_arith)
            requires
                0 <= cube <= 0xffff_ffff,
                0 <= w_max <= 0xffff_ffff,
        ;
    }
    let last: u64 = x_max + dims[0] as u64 * y_max + plane * z_max + cube * w_max;
    last <= u32::MAX as u64 && last < len as u64
}

/// For a shape that is row-major, a region fits just when the box of its
/// coordinates does.
pub proof fn lemma_region_is_box4<S: Shape4>(
    shape: &S,
    dx: int,
    dy: int,
    dz: int,
    dw: int,
    start: [u32; 4],
    extent: [u32; 4],
    len: int,
)
    requires
        forall|x: int, y: int, z: int, w: int|
            #[trigger] shape.contains(x, y, z, w) == contains4(dx, dy, dz, dw, x, y, z, w),
        forall|x: int, y: int, z: int, w: int| #[trigger] shape.offset(x, y, z, w)
            == offset4(dx, dy, dz, x, y, z, w),
    ensures
        region_fits4(shape, start, extent, len) == box_fits4(
            dx,
            dy,
            dz,
            dw,
            (start[0] as int, start[1] as int, start[2] as int, start[3] as int),
            (
                start[0] + extent[0],
                start[1] + extent[1],
                start[2] + extent[2],
                start[3] + extent[3],
            ),
            len,
        ),
{
    let lo = (start[0] as int, start[1] as int, start[2] as int, start[3] as int);
    let hi = (
        start[0] + extent[0],
        start[1] + extent[1],
        start[2] + extent[2],
        start[3] + extent[3],
    );
    if region_fits4(shape, start, extent, len) {
        assert forall|x: int, y: int, z: int, w: int|
            lo.0 <= x < hi.0 && lo.1 <= y < hi.1 && lo.2 <= z < hi.2 && lo.3 <= w < hi.3 implies {
            &&& #[trigger] contains4(dx, dy, dz, dw, x, y, z, w)
            &&& offset4(dx, dy, dz, x, y, z, w) < len
        } by {
            assert(
                0 <= cell4(shape, start, x - start[0], y - start[1], z - start[2], w - start[3])
            );
        }
        assert(box_fits4(dx, dy, dz, dw, lo, hi, len));
    }
    if box_fits4(dx, dy, dz, dw, lo, hi, len) {
        assert forall|i: int, j: int, k: int, l: int|
            0 <= i < extent[0]
                && 0 <= j < extent[1]
                && 0 <= k < extent[2]
                && 0 <= l < extent[3] implies {
            &&& shape.contains(start[0] + i, start[1] + j, start[2] + k, start[3] + l)
            &&& 0 <= #[trigger] cell4(shape, start, i, j, k, l) < len
        } by {
            assert(
                contains4(dx, dy, dz, dw, start[0] + i, start[1] + j, start[2] + k, start[3] + l)
            );
            lemma_offset4_monotone(
                dx,
                dy,
                dz,
                start[0] + i,
                start[1] + j,
                start[2] + k,
                start[3] + l,
                start[0] + i,
                start[1] + j,
                start[2] + k,
                start[3] + l,
            );
        }
        assert(region_fits4(shape, start, extent, len));
    }
}

} // verus!
