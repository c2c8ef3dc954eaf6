//! Regions of four-dimensional arrays.
use crate::run::{
    clones_are_equal, copy_run, duplicated, fill_run, in_run, run_copied, run_filled,
};
use crate::shape::{
    addressed4, cell4, lemma_apart4, lemma_row4, region_fits4, Bounded4, OutOfBounds, Shape4,
};
use vstd::prelude::*;

verus! {

/// What a copy of a region of `extent` cells makes of a destination: every cell
/// of the region holds a clone of the cell of `src` with the same coordinate in
/// the region, and every other element is what it was.
pub open spec fn copied4<T: Clone, Src: Shape4, Dst: Shape4>(
    extent: [u32; 4],
    src: Seq<T>,
    src_shape: &Src,
    src_start: [u32; 4],
    before: Seq<T>,
    after: Seq<T>,
    dst_shape: &Dst,
    dst_start: [u32; 4],
) -> bool {
    &&& after.len() == before.len()
    &&& forall|i: int, j: int, k: int, l: int|
        0 <= i < extent[0] && 0 <= j < extent[1] && 0 <= k < extent[2] && 0 <= l < extent[3]
            ==> cloned::<T>(
                src[cell4(src_shape, src_start, i, j, k, l)],
                after[#[trigger] cell4(dst_shape, dst_start, i, j, k, l)],
            )
    &&& forall|n: int|
        0 <= n < before.len() && !addressed4(dst_shape, dst_start, extent, n)
            ==> #[trigger] after[n] == before[n]
}

/// What a fill of a region of `extent` cells makes of a destination: every cell
/// of the region holds a duplicate of `value`, and every other element is what
/// it was.
pub open spec fn filled4<T: Clone, Dst: Shape4>(
    extent: [u32; 4],
    value: T,
    before: Seq<T>,
    after: Seq<T>,
    dst_shape: &Dst,
    dst_start: [u32; 4],
) -> bool {
    &&& after.len() == before.len()
    &&& forall|i: int, j: int, k: int, l: int|
        0 <= i < extent[0] && 0 <= j < extent[1] && 0 <= k < extent[2] && 0 <= l < extent[3]
            ==> duplicated::<T>(value, after[#[trigger] cell4(dst_shape, dst_start, i, j, k, l)])
    &&& forall|n: int|
        0 <= n < before.len() && !addressed4(dst_shape, dst_start, extent, n)
            ==> #[trigger] after[n] == before[n]
}

/// Whether row `(j, k, l)` of a region is done when the traversal stands at row
/// `y` of plane `z` of cube `w`: cubes are taken from the first to the last, and
/// so are the planes of each cube and the rows of each plane.
spec fn row_done4(extent: [u32; 4], y: int, z: int, w: int, j: int, k: int, l: int) -> bool {
    0 <= j < extent[1]
        && 0 <= k < extent[2]
        && 0 <= l < extent[3]
        && (l < w || (l == w && (k < z || (k == z && j < y))))
}

/// `n` is the offset of a cell of a row that is done when the traversal stands
/// at row `y` of plane `z` of cube `w`.
spec fn written4<S: Shape4>(
    shape: &S,
    start: [u32; 4],
    extent: [u32; 4],
    y: int,
    z: int,
    w: int,
    n: int,
) -> bool {
    exists|i: int, j: int, k: int, l: int|
        0 <= i < extent[0] && row_done4(extent, y, z, w, j, k, l)
            && #[trigger] cell4(shape, start, i, j, k, l) == n
}

/// The row at which the traversal stands lies in the buffer, and its first cell
/// is a cell of the array.
proof fn lemma_row_in_buffer4<S: Shape4>(
    shape: &S,
    start: [u32; 4],
    extent: [u32; 4],
    len: int,
    y: int,
    z: int,
    w: int,
)
    requires
        region_fits4(shape, start, extent, len),
        0 < extent[0],
        0 <= y < extent[1],
        0 <= z < extent[2],
        0 <= w < extent[3],
    ensures
        shape.contains(start[0] as int, start[1] + y, start[2] + z, start[3] + w),
        start[1] + y <= u32::MAX,
        start[2] + z <= u32::MAX,
        start[3] + w <= u32::MAX,
        0 <= cell4(shape, start, 0, y, z, w),
        cell4(shape, start, 0, y, z, w) + extent[0] <= len,
{
    let last = extent[0] - 1;
    assert(0 <= cell4(shape, start, 0, y, z, w));
    assert(0 <= cell4(shape, start, last, y, z, w));
    shape.lemma_in_range(start[0] as int, start[1] + y, start[2] + z, start[3] + w);
    lemma_row4(shape, start, extent, len, last, y, z, w);
}

/// The cells of the row at which the traversal stands make up one run, which
/// holds no cell of a row that is done. With that row, the rows done are those
/// of the traversal one row on.
proof fn lemma_next_row4<S: Shape4>(
    shape: &S,
    start: [u32; 4],
    extent: [u32; 4],
    len: int,
    y: int,
    z: int,
    w: int,
)
    requires
        region_fits4(shape, start, extent, len),
        0 <= y < extent[1],
        0 <= z < extent[2],
        0 <= w < extent[3],
    ensures
        forall|i: int|
            0 <= i < extent[0] ==> #[trigger] cell4(shape, start, i, y, z, w)
                == cell4(shape, start, 0, y, z, w) + i,
        forall|i: int, j: int, k: int, l: int|
            0 <= i < extent[0] && row_done4(extent, y, z, w, j, k, l) ==> !in_run(
                cell4(shape, start, 0, y, z, w),
                extent[0] as int,
                #[trigger] cell4(shape, start, i, j, k, l),
            ),
        forall|n: int|
            #[trigger] written4(shape, start, extent, y + 1, z, w, n) <==> {
                ||| written4(shape, start, extent, y, z, w, n)
                ||| in_run(cell4(shape, start, 0, y, z, w), extent[0] as int, n)
            },
{
    let base = cell4(shape, start, 0, y, z, w);
    let width = extent[0] as int;
    assert forall|i: int| 0 <= i < width implies #[trigger] cell4(shape, start, i, y, z, w)
        == base + i by {
        lemma_row4(shape, start, extent, len, i, y, z, w);
    }
    assert forall|i: int, j: int, k: int, l: int|
        0 <= i < width && row_done4(extent, y, z, w, j, k, l) implies !in_run(
        base,
        width,
        #[trigger] cell4(shape, start, i, j, k, l),
    ) by {
        let n = cell4(shape, start, i, j, k, l);
        if in_run(base, width, n) {
            assert(cell4(shape, start, n - base, y, z, w) == n);
            lemma_apart4(shape, start, extent, len, (i, j, k, l), (n - base, y, z, w));
        }
    }
    assert forall|n: int|
        #[trigger] written4(shape, start, extent, y + 1, z, w, n) <==> {
            ||| written4(shape, start, extent, y, z, w, n)
            ||| in_run(base, width, n)
        } by {
        if written4(shape, start, extent, y, z, w, n) {
            let (i, j, k, l) = choose|i: int, j: int, k: int, l: int|
                0 <= i < width && row_done4(extent, y, z, w, j, k, l)
                    && #[trigger] cell4(shape, start, i, j, k, l) == n;
            assert(row_done4(extent, y + 1, z, w, j, k, l));
        }
        if in_run(base, width, n) {
            assert(cell4(shape, start, n - base, y, z, w) == n);
            assert(row_done4(extent, y + 1, z, w, y, z, w));
        }
        if written4(shape, start, extent, y + 1, z, w, n) {
            let (i, j, k, l) = choose|i: int, j: int, k: int, l: int|
                0 <= i < width && row_done4(extent, y + 1, z, w, j, k, l)
                    && #[trigger] cell4(shape, start, i, j, k, l) == n;
            if !row_done4(extent, y, z, w, j, k, l) {
                assert(cell4(shape, start, i, y, z, w) == n);
            }
        }
    }
}

/// Past the last row of a plane the traversal stands at the first row of the
/// next plane: the same rows are done.
proof fn lemma_next_plane4<S: Shape4>(shape: &S, start: [u32; 4], extent: [u32; 4], z: int, w: int)
    ensures
        forall|j: int, k: int, l: int|
            #[trigger] row_done4(extent, extent[1] as int, z, w, j, k, l)
                == row_done4(extent, 0, z + 1, w, j, k, l),
        forall|n: int|
            #[trigger] written4(shape, start, extent, extent[1] as int, z, w, n)
                == written4(shape, start, extent, 0, z + 1, w, n),
{
    assert forall|n: int|
        #[trigger] written4(shape, start, extent, extent[1] as int, z, w, n)
            == written4(shape, start, extent, 0, z + 1, w, n) by {
        if written4(shape, start, extent, extent[1] as int, z, w, n) {
            let (i, j, k, l) = choose|i: int, j: int, k: int, l: int|
                0 <= i < extent[0] && row_done4(extent, extent[1] as int, z, w, j, k, l)
                    && #[trigger] cell4(shape, start, i, j, k, l) == n;
            assert(row_done4(extent, 0, z + 1, w, j, k, l));
        }
        if written4(shape, start, extent, 0, z + 1, w, n) {
            let (i, j, k, l) = choose|i: int, j: int, k: int, l: int|
                0 <= i < extent[0] && row_done4(extent, 0, z + 1, w, j, k, l)
                    && #[trigger] cell4(shape, start, i, j, k, l) == n;
            assert(row_done4(extent, extent[1] as int, z, w, j, k, l));
        }
    }
}

/// Past the last plane of a cube the traversal stands at the first plane of the
/// next cube: the same rows are done.
proof fn lemma_next_cube4<S: Shape4>(shape: &S, start: [u32; 4], extent: [u32; 4], w: int)
    ensures
        forall|j: int, k: int, l: int|
            #[trigger] row_done4(extent, 0, extent[2] as int, w, j, k, l)
                == row_done4(extent, 0, 0, w + 1, j, k, l),
        forall|n: int|
            #[trigger] written4(shape, start, extent, 0, extent[2] as int, w, n)
                == written4(shape, start, extent, 0, 0, w + 1, n),
{
    assert forall|n: int|
        #[trigger] written4(shape, start, extent, 0, extent[2] as int, w, n)
            == written4(shape, start, extent, 0, 0, w + 1, n) by {
        if written4(shape, start, extent, 0, extent[2] as int, w, n) {
            let (i, j, k, l) = choose|i: int, j: int, k: int, l: int|
                0 <= i < extent[0] && row_done4(extent, 0, extent[2] as int, w, j, k, l)
                    && #[trigger] cell4(shape, start, i, j, k, l) == n;
            assert(row_done4(extent, 0, 0, w + 1, j, k, l));
        }
        if written4(shape, start, extent, 0, 0, w + 1, n) {
            let (i, j, k, l) = choose|i: int, j: int, k: int, l: int|
                0 <= i < extent[0] && row_done4(extent, 0, 0, w + 1, j, k, l)
                    && #[trigger] cell4(shape, start, i, j, k, l) == n;
            assert(row_done4(extent, 0, extent[2] as int, w, j, k, l));
        }
    }
}

/// The state of a destination when a copy stands at row `y` of plane `z` of
/// cube `w`.
spec fn copy_progress4<T: Clone, Src: Shape4, Dst: Shape4>(
    extent: [u32; 4],
    y: int,
    z: int,
    w: int,
    src: Seq<T>,
    src_shape: &Src,
    src_start: [u32; 4],
    before: Seq<T>,
    now: Seq<T>,
    dst_shape: &Dst,
    dst_start: [u32; 4],
) -> bool {
    &&& now.len() == before.len()
    &&& forall|i: int, j: int, k: int, l: int|
        0 <= i < extent[0] && row_done4(extent, y, z, w, j, k, l)
            ==> cloned::<T>(
                src[cell4(src_shape, src_start, i, j, k, l)],
                now[#[trigger] cell4(dst_shape, dst_start, i, j, k, l)],
            )
    &&& forall|n: int|
        0 <= n < before.len() && !written4(dst_shape, dst_start, extent, y, z, w, n)
            ==> #[trigger] now[n] == before[n]
}

/// Copying the row at which the traversal stands carries the state on to the
/// next row.
proof fn lemma_copy_row4<T: Clone, Src: Shape4, Dst: Shape4>(
    extent: [u32; 4],
    y: int,
    z: int,
    w: int,
    src: Seq<T>,
    src_shape: &Src,
    src_start: [u32; 4],
    before: Seq<T>,
    now: Seq<T>,
    next: Seq<T>,
    dst_shape: &Dst,
    dst_start: [u32; 4],
)
    requires
        region_fits4(src_shape, src_start, extent, src.len() as int),
        region_fits4(dst_shape, dst_start, extent, before.len() as int),
        0 <= y < extent[1],
        0 <= z < extent[2],
        0 <= w < extent[3],
        copy_progress4(
            extent,
            y,
            z,
            w,
            src,
            src_shape,
            src_start,
            before,
            now,
            dst_shape,
            dst_start,
        ),
        run_copied(
            src,
            cell4(src_shape, src_start, 0, y, z, w),
            now,
            next,
            cell4(dst_shape, dst_start, 0, y, z, w),
            extent[0] as int,
        ),
    ensures
        copy_progress4(
            extent,
            y + 1,
            z,
            w,
            src,
            src_shape,
            src_start,
            before,
            next,
            dst_shape,
            dst_start,
        ),
{
    lemma_next_row4(dst_shape, dst_start, extent, before.len() as int, y, z, w);
    assert forall|i: int, j: int, k: int, l: int|
        0 <= i < extent[0] && row_done4(extent, y + 1, z, w, j, k, l) implies cloned::<T>(
        src[cell4(src_shape, src_start, i, j, k, l)],
        next[#[trigger] cell4(dst_shape, dst_start, i, j, k, l)],
    ) by {
        lemma_row4(src_shape, src_start, extent, src.len() as int, i, j, k, l);
    }
}

/// The state of a destination when a fill stands at row `y` of plane `z` of
/// cube `w`.
spec fn fill_progress4<T: Clone, Dst: Shape4>(
    extent: [u32; 4],
    y: int,
    z: int,
    w: int,
    value: T,
    before: Seq<T>,
    now: Seq<T>,
    dst_shape: &Dst,
    dst_start: [u32; 4],
) -> bool {
    &&& now.len() == before.len()
    &&& forall|i: int, j: int, k: int, l: int|
        0 <= i < extent[0] && row_done4(extent, y, z, w, j, k, l)
            ==> duplicated::<T>(value, now[#[trigger] cell4(dst_shape, dst_start, i, j, k, l)])
    &&& forall|n: int|
        0 <= n < before.len() && !written4(dst_shape, dst_start, extent, y, z, w, n)
            ==> #[trigger] now[n] == before[n]
}

/// Filling the row at which the traversal stands carries the state on to the
/// next row.
proof fn lemma_fill_row4<T: Clone, Dst: Shape4>(
    extent: [u32; 4],
    y: int,
    z: int,
    w: int,
    value: T,
    before: Seq<T>,
    now: Seq<T>,
    next: Seq<T>,
    dst_shape: &Dst,
    dst_start: [u32; 4],
)
    requires
        region_fits4(dst_shape, dst_start, extent, before.len() as int),
        0 <= y < extent[1],
        0 <= z < extent[2],
        0 <= w < extent[3],
        fill_progress4(extent, y, z, w, value, before, now, dst_shape, dst_start),
        exists|v: T|
            cloned::<T>(value, v)
                && #[trigger] run_filled(
                    v,
                    now,
                    next,
                    cell4(dst_shape, dst_start, 0, y, z, w),
                    extent[0] as int,
                ),
    ensures
        fill_progress4(extent, y + 1, z, w, value, before, next, dst_shape, dst_start),
{
    lemma_next_row4(dst_shape, dst_start, extent, before.len() as int, y, z, w);
}

/// Copy 4-dimensional data from `src` to `dst`.
///
/// - `copy_shape`: Dimensions of the extent to be copied.
/// - `src`: The source slice.
/// - `src_shape`: The shape of the entire `src` slice.
/// - `src_start`: The starting 4D offset to copy from `src`.
/// - `dst`: The destination slice.
/// - `dst_shape`: The shape of the entire `dst` slice.
/// - `dst_start`: The starting 4D offset to copy into `dst`.
///
/// The region must fit in both buffers. Every cell of the region of `dst` then
/// holds a clone of the cell of `src` with the same coordinate in the region, and
/// the rest of `dst` is unchanged. A region with an axis of length 0 leaves `dst`
/// as it was.
#[verifier::loop_isolation(false)]
pub fn copy4<T, Src, Dst>(
    copy_shape: [u32; 4],
    src: &[T],
    src_shape: &Src,
    src_start: [u32; 4],
    dst: &mut [T],
    dst_shape: &Dst,
    dst_start: [u32; 4],
) where T: Clone, Src: Shape4, Dst: Shape4
    requires
        region_fits4(src_shape, src_start, copy_shape, src@.len() as int),
        region_fits4(dst_shape, dst_start, copy_shape, old(dst)@.len() as int),
    ensures
        copied4(
            copy_shape,
            src@,
            src_shape,
            src_start,
            old(dst)@,
            final(dst)@,
            dst_shape,
            dst_start,
        ),
        copy_shape[0] == 0 || copy_shape[1] == 0 || copy_shape[2] == 0 || copy_shape[3] == 0
            ==> final(dst)@ == old(dst)@,
        clones_are_equal::<T>() ==> forall|i: int, j: int, k: int, l: int|
            0 <= i < copy_shape[0]
                && 0 <= j < copy_shape[1]
                && 0 <= k < copy_shape[2]
                && 0 <= l < copy_shape[3]
                ==> final(dst)@[#[trigger] cell4(dst_shape, dst_start, i, j, k, l)]
                == src@[cell4(src_shape, src_start, i, j, k, l)],
{
    let row_length = copy_shape[0];
    if row_length == 0 {
        return;
    }
    let rows = copy_shape[1];
    let planes = copy_shape[2];
    let cubes = copy_shape[3];
    for w in 0..cubes
        invariant
            copy_progress4(
                copy_shape,
                0,
                0,
                w as int,
                src@,
                src_shape,
                src_start,
                old(dst)@,
                dst@,
                dst_shape,
                dst_start,
            ),
    {
        for z in 0..planes
            invariant
                copy_progress4(
                    copy_shape,
                    0,
                    z as int,
                    w as int,
                    src@,
                    src_shape,
                    src_start,
                    old(dst)@,
                    dst@,
                    dst_shape,
                    dst_start,
                ),
        {
            for y in 0..rows
                invariant
                    copy_progress4(
                        copy_shape,
                        y as int,
                        z as int,
                        w as int,
                        src@,
                        src_shape,
                        src_start,
                        old(dst)@,
                        dst@,
                        dst_shape,
                        dst_start,
                    ),
            {
                proof {
                    lemma_row_in_buffer4(
                        src_shape,
                        src_start,
                        copy_shape,
                        src@.len() as int,
                        y as int,
                        z as int,
                        w as int,
                    );
                    lemma_row_in_buffer4(
                        dst_shape,
                        dst_start,
                        copy_shape,
                        old(dst)@.len() as int,
                        y as int,
                        z as int,
                        w as int,
                    );
                }
                let src_row_start = src_shape.linearize(
                    [src_start[0], src_start[1] + y, src_start[2] + z, src_start[3] + w],
                ) as usize;
                let dst_row_start = dst_shape.linearize(
                    [dst_start[0], dst_start[1] + y, dst_start[2] + z, dst_start[3] + w],
                ) as usize;
                let ghost now = dst@;
                copy_run(dst, dst_row_start, src, src_row_start, row_length as usize);
                proof {
                    lemma_copy_row4(
                        copy_shape,
                        y as int,
                        z as int,
                        w as int,
                        src@,
                        src_shape,
                        src_start,
                        old(dst)@,
                        now,
                        dst@,
                        dst_shape,
                        dst_start,
                    );
                }
            }
            proof {
                lemma_next_plane4(dst_shape, dst_start, copy_shape, z as int, w as int);
            }
        }
        proof {
            lemma_next_cube4(dst_shape, dst_start, copy_shape, w as int);
        }
    }
}

/// Fill a 4-dimensional extent of `dst` with `value`.
///
/// - `fill_shape`: Dimensions of the extent to be filled.
/// - `value`: The value to write.
/// - `dst`: The destination slice.
/// - `dst_shape`: The shape of the entire `dst` slice.
/// - `dst_start`: The starting 4D offset to fill in `dst`.
///
/// The region must fit in the buffer. Every cell of the region then holds a
/// duplicate of `value`, and the rest of `dst` is unchanged. A region with an
/// axis of length 0 leaves `dst` as it was.
#[verifier::loop_isolation(false)]
pub fn fill4<T, Dst>(
    fill_shape: [u32; 4],
    value: T,
    dst: &mut [T],
    dst_shape: &Dst,
    dst_start: [u32; 4],
) where T: Clone, Dst: Shape4
    requires
        region_fits4(dst_shape, dst_start, fill_shape, old(dst)@.len() as int),
    ensures
        filled4(fill_shape, value, old(dst)@, final(dst)@, dst_shape, dst_start),
        fill_shape[0] == 0 || fill_shape[1] == 0 || fill_shape[2] == 0 || fill_shape[3] == 0
            ==> final(dst)@ == old(dst)@,
        clones_are_equal::<T>() ==> forall|i: int, j: int, k: int, l: int|
            0 <= i < fill_shape[0]
                && 0 <= j < fill_shape[1]
                && 0 <= k < fill_shape[2]
                && 0 <= l < fill_shape[3]
                ==> final(dst)@[#[trigger] cell4(dst_shape, dst_start, i, j, k, l)] == value,
{
    let row_length = fill_shape[0];
    if row_length == 0 {
        return;
    }
    let rows = fill_shape[1];
    let planes = fill_shape[2];
    let cubes = fill_shape[3];
    for w in 0..cubes
        invariant
            fill_progress4(
                fill_shape,
                0,
                0,
                w as int,
                value,
                old(dst)@,
                dst@,
                dst_shape,
                dst_start,
            ),
    {
        for z in 0..planes
            invariant
                fill_progress4(
                    fill_shape,
                    0,
                    z as int,
                    w as int,
                    value,
                    old(dst)@,
                    dst@,
                    dst_shape,
                    dst_start,
                ),
        {
            for y in 0..rows
                invariant
                    fill_progress4(
                        fill_shape,
                        y as int,
                        z as int,
                        w as int,
                        value,
                        old(dst)@,
                        dst@,
                        dst_shape,
                        dst_start,
                    ),
            {
                proof {
                    lemma_row_in_buffer4(
                        dst_shape,
                        dst_start,
                        fill_shape,
                        old(dst)@.len() as int,
                        y as int,
                        z as int,
                        w as int,
                    );
                }
                let dst_row_start = dst_shape.linearize(
                    [dst_start[0], dst_start[1] + y, dst_start[2] + z, dst_start[3] + w],
                ) as usize;
                let ghost now = dst@;
                fill_run(dst, dst_row_start, row_length as usize, value.clone());
                proof {
                    lemma_fill_row4(
                        fill_shape,
                        y as int,
                        z as int,
                        w as int,
                        value,
                        old(dst)@,
                        now,
                        dst@,
                        dst_shape,
                        dst_start,
                    );
                }
            }
            proof {
                lemma_next_plane4(dst_shape, dst_start, fill_shape, z as int, w as int);
            }
        }
        proof {
            lemma_next_cube4(dst_shape, dst_start, fill_shape, w as int);
        }
    }
}

/// Copy 4-dimensional data from `src` to `dst` as `copy4` does, if the region
/// fits in both buffers. If it does not, leave `dst` as it is and name the buffer
/// in which the region does not fit: the source, if it is not in that one.
pub fn checked_copy4<T, Src, Dst>(
    copy_shape: [u32; 4],
    src: &[T],
    src_shape: &Src,
    src_start: [u32; 4],
    dst: &mut [T],
    dst_shape: &Dst,
    dst_start: [u32; 4],
) -> (r: Result<(), OutOfBounds>) where T: Clone, Src: Bounded4, Dst: Bounded4
    ensures
        (match r {
            Ok(()) => {
                &&& region_fits4(src_shape, src_start, copy_shape, src@.len() as int)
                &&& region_fits4(dst_shape, dst_start, copy_shape, old(dst)@.len() as int)
                &&& copied4(
                    copy_shape,
                    src@,
                    src_shape,
                    src_start,
                    old(dst)@,
                    final(dst)@,
                    dst_shape,
                    dst_start,
                )
            },
            Err(OutOfBounds::Source) => {
                &&& !region_fits4(src_shape, src_start, copy_shape, src@.len() as int)
                &&& final(dst)@ == old(dst)@
            },
            Err(OutOfBounds::Destination) => {
                &&& region_fits4(src_shape, src_start, copy_shape, src@.len() as int)
                &&& !region_fits4(dst_shape, dst_start, copy_shape, old(dst)@.len() as int)
                &&& final(dst)@ == old(dst)@
            },
        }),
{
    if !src_shape.fits(src_start, copy_shape, src.len()) {
        return Err(OutOfBounds::Source);
    }
    if !dst_shape.fits(dst_start, copy_shape, dst.len()) {
        return Err(OutOfBounds::Destination);
    }
    copy4(copy_shape, src, src_shape, src_start, dst, dst_shape, dst_start);
    Ok(())
}

/// Fill a 4-dimensional extent of `dst` with `value` as `fill4` does, if the
/// region fits in the buffer. If it does not, leave `dst` as it is.
pub fn checked_fill4<T, Dst>(
    fill_shape: [u32; 4],
    value: T,
    dst: &mut [T],
    dst_shape: &Dst,
    dst_start: [u32; 4],
) -> (r: Result<(), OutOfBounds>) where T: Clone, Dst: Bounded4
    ensures
        (match r {
            Ok(()) => {
                &&& region_fits4(dst_shape, dst_start, fill_shape, old(dst)@.len() as int)
                &&& filled4(fill_shape, value, old(dst)@, final(dst)@, dst_shape, dst_start)
            },
            Err(OutOfBounds::Source) => false,
            Err(OutOfBounds::Destination) => {
                &&& !region_fits4(dst_shape, dst_start, fill_shape, old(dst)@.len() as int)
                &&& final(dst)@ == old(dst)@
            },
        }),
{
    if !dst_shape.fits(dst_start, fill_shape, dst.len()) {
        return Err(OutOfBounds::Destination);
    }
    fill4(fill_shape, value, dst, dst_shape, dst_start);
    Ok(())
}

} // verus!
