//! Regions of three-dimensional arrays.
use crate::run::{
    clones_are_equal, copy_run, duplicated, fill_run, in_run, run_copied, run_filled,
};
use crate::shape::{
    addressed3, cell3, lemma_apart3, lemma_row3, region_fits3, Bounded3, OutOfBounds, Shape3,
};
use vstd::prelude::*;

verus! {

/// What a copy of a region of `extent` cells makes of a destination: every cell
/// of the region holds a clone of the cell of `src` with the same coordinate in
/// the region, and every other element is what it was.
pub open spec fn copied3<T: Clone, Src: Shape3, Dst: Shape3>(
    extent: [u32; 3],
    src: Seq<T>,
    src_shape: &Src,
    src_start: [u32; 3],
    before: Seq<T>,
    after: Seq<T>,
    dst_shape: &Dst,
    dst_start: [u32; 3],
) -> bool {
    &&& after.len() == before.len()
    &&& forall|i: int, j: int, k: int|
        0 <= i < extent[0] && 0 <= j < extent[1] && 0 <= k < extent[2]
            ==> cloned::<T>(
                src[cell3(src_shape, src_start, i, j, k)],
                after[#[trigger] cell3(dst_shape, dst_start, i, j, k)],
            )
    &&& forall|n: int|
        0 <= n < before.len() && !addressed3(dst_shape, dst_start, extent, n)
            ==> #[trigger] after[n] == before[n]
}

/// What a fill of a region of `extent` cells makes of a destination: every cell
/// of the region holds a duplicate of `value`, and every other element is what
/// it was.
pub open spec fn filled3<T: Clone, Dst: Shape3>(
    extent: [u32; 3],
    value: T,
    before: Seq<T>,
    after: Seq<T>,
    dst_shape: &Dst,
    dst_start: [u32; 3],
) -> bool {
    &&& after.len() == before.len()
    &&& forall|i: int, j: int, k: int|
        0 <= i < extent[0] && 0 <= j < extent[1] && 0 <= k < extent[2]
            ==> duplicated::<T>(value, after[#[trigger] cell3(dst_shape, dst_start, i, j, k)])
    &&& forall|n: int|
        0 <= n < before.len() && !addressed3(dst_shape, dst_start, extent, n)
            ==> #[trigger] after[n] == before[n]
}

/// Whether row `(j, k)` of a region is done when the traversal stands at row `y`
/// of plane `z`: planes are taken from the first to the last, and so are the rows
/// of each plane.
spec fn row_done3(extent: [u32; 3], y: int, z: int, j: int, k: int) -> bool {
    0 <= j < extent[1] && 0 <= k < extent[2] && (k < z || (k == z && j < y))
}

/// `n` is the offset of a cell of a row that is done when the traversal stands
/// at row `y` of plane `z`.
spec fn written3<S: Shape3>(
    shape: &S,
    start: [u32; 3],
    extent: [u32; 3],
    y: int,
    z: int,
    n: int,
) -> bool {
    exists|i: int, j: int, k: int|
        0 <= i < extent[0] && row_done3(extent, y, z, j, k)
            && #[trigger] cell3(shape, start, i, j, k) == n
}

/// The row at which the traversal stands lies in the buffer, and its first cell
/// is a cell of the array.
proof fn lemma_row_in_buffer3<S: Shape3>(
    shape: &S,
    start: [u32; 3],
    extent: [u32; 3],
    len: int,
    y: int,
    z: int,
)
    requires
        region_fits3(shape, start, extent, len),
        0 < extent[0],
        0 <= y < extent[1],
        0 <= z < extent[2],
    ensures
        shape.contains(start[0] as int, start[1] + y, start[2] + z),
        start[1] + y <= u32::MAX,
        start[2] + z <= u32::MAX,
        0 <= cell3(shape, start, 0, y, z),
        cell3(shape, start, 0, y, z) + extent[0] <= len,
{
    let last = extent[0] - 1;
    assert(0 <= cell3(shape, start, 0, y, z));
    assert(0 <= cell3(shape, start, last, y, z));
    shape.lemma_in_range(start[0] as int, start[1] + y, start[2] + z);
    lemma_row3(shape, start, extent, len, last, y, z);
}

/// The cells of the row at which the traversal stands make up one run, which
/// holds no cell of a row that is done. With that row, the rows done are those
/// of the traversal one row on.
proof fn lemma_next_row3<S: Shape3>(
    shape: &S,
    start: [u32; 3],
    extent: [u32; 3],
    len: int,
    y: int,
    z: int,
)
    requires
        region_fits3(shape, start, extent, len),
        0 <= y < extent[1],
        0 <= z < extent[2],
    ensures
        forall|i: int|
            0 <= i < extent[0] ==> #[trigger] cell3(shape, start, i, y, z)
                == cell3(shape, start, 0, y, z) + i,
        forall|i: int, j: int, k: int|
            0 <= i < extent[0] && row_done3(extent, y, z, j, k) ==> !in_run(
                cell3(shape, start, 0, y, z),
                extent[0] as int,
                #[trigger] cell3(shape, start, i, j, k),
            ),
        forall|n: int|
            #[trigger] written3(shape, start, extent, y + 1, z, n) <==> {
                ||| written3(shape, start, extent, y, z, n)
                ||| in_run(cell3(shape, start, 0, y, z), extent[0] as int, n)
            },
{
    let base = cell3(shape, start, 0, y, z);
    let width = extent[0] as int;
    assert forall|i: int| 0 <= i < width implies #[trigger] cell3(shape, start, i, y, z)
        == base + i by {
        lemma_row3(shape, start, extent, len, i, y, z);
    }
    assert forall|i: int, j: int, k: int|
        0 <= i < width && row_done3(extent, y, z, j, k) implies !in_run(
        base,
        width,
        #[trigger] cell3(shape, start, i, j, k),
    ) by {
        let n = cell3(shape, start, i, j, k);
        if in_run(base, width, n) {
            assert(cell3(shape, start, n - base, y, z) == n);
            lemma_apart3(shape, start, extent, len, (i, j, k), (n - base, y, z));
        }
    }
    assert forall|n: int|
        #[trigger] written3(shape, start, extent, y + 1, z, n) <==> {
            ||| written3(shape, start, extent, y, z, n)
            ||| in_run(base, width, n)
        } by {
        if written3(shape, start, extent, y, z, n) {
            let (i, j, k) = choose|i: int, j: int, k: int|
                0 <= i < width && row_done3(extent, y, z, j, k)
                    && #[trigger] cell3(shape, start, i, j, k) == n;
            assert(row_done3(extent, y + 1, z, j, k));
        }
        if in_run(base, width, n) {
            assert(cell3(shape, start, n - base, y, z) == n);
            assert(row_done3(extent, y + 1, z, y, z));
        }
        if written3(shape, start, extent, y + 1, z, n) {
            let (i, j, k) = choose|i: int, j: int, k: int|
                0 <= i < width && row_done3(extent, y + 1, z, j, k)
                    && #[trigger] cell3(shape, start, i, j, k) == n;
            if !row_done3(extent, y, z, j, k) {
                assert(cell3(shape, start, i, y, z) == n);
            }
        }
    }
}

/// Past the last row of a plane the traversal stands at the first row of the
/// next plane: the same rows are done.
proof fn lemma_next_plane3<S: Shape3>(shape: &S, start: [u32; 3], extent: [u32; 3], z: int)
    ensures
        forall|j: int, k: int|
            #[trigger] row_done3(extent, extent[1] as int, z, j, k)
                == row_done3(extent, 0, z + 1, j, k),
        forall|n: int|
            #[trigger] written3(shape, start, extent, extent[1] as int, z, n)
                == written3(shape, start, extent, 0, z + 1, n),
{
    assert forall|n: int|
        #[trigger] written3(shape, start, extent, extent[1] as int, z, n)
            == written3(shape, start, extent, 0, z + 1, n) by {
        if written3(shape, start, extent, extent[1] as int, z, n) {
            let (i, j, k) = choose|i: int, j: int, k: int|
                0 <= i < extent[0] && row_done3(extent, extent[1] as int, z, j, k)
                    && #[trigger] cell3(shape, start, i, j, k) == n;
            assert(row_done3(extent, 0, z + 1, j, k));
        }
        if written3(shape, start, extent, 0, z + 1, n) {
            let (i, j, k) = choose|i: int, j: int, k: int|
                0 <= i < extent[0] && row_done3(extent, 0, z + 1, j, k)
                    && #[trigger] cell3(shape, start, i, j, k) == n;
            assert(row_done3(extent, extent[1] as int, z, j, k));
        }
    }
}

/// The state of a destination when a copy stands at row `y` of plane `z`.
spec fn copy_progress3<T: Clone, Src: Shape3, Dst: Shape3>(
    extent: [u32; 3],
    y: int,
    z: int,
    src: Seq<T>,
    src_shape: &Src,
    src_start: [u32; 3],
    before: Seq<T>,
    now: Seq<T>,
    dst_shape: &Dst,
    dst_start: [u32; 3],
) -> bool {
    &&& now.len() == before.len()
    &&& forall|i: int, j: int, k: int|
        0 <= i < extent[0] && row_done3(extent, y, z, j, k)
            ==> cloned::<T>(
                src[cell3(src_shape, src_start, i, j, k)],
                now[#[trigger] cell3(dst_shape, dst_start, i, j, k)],
            )
    &&& forall|n: int|
        0 <= n < before.len() && !written3(dst_shape, dst_start, extent, y, z, n)
            ==> #[trigger] now[n] == before[n]
}

/// Copying the row at which the traversal stands carries the state on to the
/// next row.
proof fn lemma_copy_row3<T: Clone, Src: Shape3, Dst: Shape3>(
    extent: [u32; 3],
    y: int,
    z: int,
    src: Seq<T>,
    src_shape: &Src,
    src_start: [u32; 3],
    before: Seq<T>,
    now: Seq<T>,
    next: Seq<T>,
    dst_shape: &Dst,
    dst_start: [u32; 3],
)
    requires
        region_fits3(src_shape, src_start, extent, src.len() as int),
        region_fits3(dst_shape, dst_start, extent, before.len() as int),
        0 <= y < extent[1],
        0 <= z < extent[2],
        copy_progress3(extent, y, z, src, src_shape, src_start, before, now, dst_shape, dst_start),
        run_copied(
            src,
            cell3(src_shape, src_start, 0, y, z),
            now,
            next,
            cell3(dst_shape, dst_start, 0, y, z),
            extent[0] as int,
        ),
    ensures
        copy_progress3(
            extent,
            y + 1,
            z,
            src,
            src_shape,
            src_start,
            before,
            next,
            dst_shape,
            dst_start,
        ),
{
    lemma_next_row3(dst_shape, dst_start, extent, before.len() as int, y, z);
    assert forall|i: int, j: int, k: int|
        0 <= i < extent[0] && row_done3(extent, y + 1, z, j, k) implies cloned::<T>(
        src[cell3(src_shape, src_start, i, j, k)],
        next[#[trigger] cell3(dst_shape, dst_start, i, j, k)],
    ) by {
        lemma_row3(src_shape, src_start, extent, src.len() as int, i, j, k);
    }
}

/// The state of a destination when a fill stands at row `y` of plane `z`.
spec fn fill_progress3<T: Clone, Dst: Shape3>(
    extent: [u32; 3],
    y: int,
    z: int,
    value: T,
    before: Seq<T>,
    now: Seq<T>,
    dst_shape: &Dst,
    dst_start: [u32; 3],
) -> bool {
    &&& now.len() == before.len()
    &&& forall|i: int, j: int, k: int|
        0 <= i < extent[0] && row_done3(extent, y, z, j, k)
            ==> duplicated::<T>(value, now[#[trigger] cell3(dst_shape, dst_start, i, j, k)])
    &&& forall|n: int|
        0 <= n < before.len() && !written3(dst_shape, dst_start, extent, y, z, n)
            ==> #[trigger] now[n] == before[n]
}

/// Filling the row at which the traversal stands carries the state on to the
/// next row.
proof fn lemma_fill_row3<T: Clone, Dst: Shape3>(
    extent: [u32; 3],
    y: int,
    z: int,
    value: T,
    before: Seq<T>,
    now: Seq<T>,
    next: Seq<T>,
    dst_shape: &Dst,
    dst_start: [u32; 3],
)
    requires
        region_fits3(dst_shape, dst_start, extent, before.len() as int),
        0 <= y < extent[1],
        0 <= z < extent[2],
        fill_progress3(extent, y, z, value, before, now, dst_shape, dst_start),
        exists|v: T|
            cloned::<T>(value, v)
                && #[trigger] run_filled(
                    v,
                    now,
                    next,
                    cell3(dst_shape, dst_start, 0, y, z),
                    extent[0] as int,
                ),
    ensures
        fill_progress3(extent, y + 1, z, value, before, next, dst_shape, dst_start),
{
    lemma_next_row3(dst_shape, dst_start, extent, before.len() as int, y, z);
}

/// Copy 3-dimensional data from `src` to `dst`.
///
/// - `copy_shape`: Dimensions of the extent to be copied.
/// - `src`: The source slice.
/// - `src_shape`: The shape of the entire `src` slice.
/// - `src_start`: The starting 3D offset to copy from `src`.
/// - `dst`: The destination slice.
/// - `dst_shape`: The shape of the entire `dst` slice.
/// - `dst_start`: The starting 3D offset to copy into `dst`.
///
/// The region must fit in both buffers. Every cell of the region of `dst` then
/// holds a clone of the cell of `src` with the same coordinate in the region, and
/// the rest of `dst` is unchanged. A region with an axis of length 0 leaves `dst`
/// as it was.
#[verifier::loop_isolation(false)]
pub fn copy3<T, Src, Dst>(
    copy_shape: [u32; 3],
    src: &[T],
    src_shape: &Src,
    src_start: [u32; 3],
    dst: &mut [T],
    dst_shape: &Dst,
    dst_start: [u32; 3],
) where T: Clone, Src: Shape3, Dst: Shape3
    requires
        region_fits3(src_shape, src_start, copy_shape, src@.len() as int),
        region_fits3(dst_shape, dst_start, copy_shape, old(dst)@.len() as int),
    ensures
        copied3(
            copy_shape,
            src@,
            src_shape,
            src_start,
            old(dst)@,
            final(dst)@,
            dst_shape,
            dst_start,
        ),
        copy_shape[0] == 0 || copy_shape[1] == 0 || copy_shape[2] == 0 ==> final(dst)@ == old(dst)@,
        clones_are_equal::<T>() ==> forall|i: int, j: int, k: int|
            0 <= i < copy_shape[0] && 0 <= j < copy_shape[1] && 0 <= k < copy_shape[2]
                ==> final(dst)@[#[trigger] cell3(dst_shape, dst_start, i, j, k)]
                == src@[cell3(src_shape, src_start, i, j, k)],
{
    let row_length = copy_shape[0];
    if row_length == 0 {
        return;
    }
    let rows = copy_shape[1];
    let planes = copy_shape[2];
    for z in 0..planes
        invariant
            copy_progress3(
                copy_shape,
                0,
                z as int,
                src@,
                src_shape,
                src_start,
                old(dst)@,
                dst@,
                dst_shape,
                dst_start,
            ),
    {
        for y in 0..rows
            invariant
                copy_progress3(
                    copy_shape,
                    y as int,
                    z as int,
                    src@,
                    src_shape,
                    src_start,
                    old(dst)@,
                    dst@,
                    dst_shape,
                    dst_start,
                ),
        {
            proof {
                lemma_row_in_buffer3(
                    src_shape,
                    src_start,
                    copy_shape,
                    src@.len() as int,
                    y as int,
                    z as int,
                );
                lemma_row_in_buffer3(
                    dst_shape,
                    dst_start,
                    copy_shape,
                    old(dst)@.len() as int,
                    y as int,
                    z as int,
                );
            }
            let src_row_start = src_shape.linearize(
                [src_start[0], src_start[1] + y, src_start[2] + z],
            ) as usize;
            let dst_row_start = dst_shape.linearize(
                [dst_start[0], dst_start[1] + y, dst_start[2] + z],
            ) as usize;
            let ghost now = dst@;
            copy_run(dst, dst_row_start, src, src_row_start, row_length as usize);
            proof {
                lemma_copy_row3(
                    copy_shape,
                    y as int,
                    z as int,
                    src@,
                    src_shape,
                    src_start,
                    old(dst)@,
                    now,
                    dst@,
                    dst_shape,
                    dst_start,
                );
            }
        }
        proof {
            lemma_next_plane3(dst_shape, dst_start, copy_shape, z as int);
        }
    }
}

/// Fill a 3-dimensional extent of `dst` with `value`.
///
/// - `fill_shape`: Dimensions of the extent to be filled.
/// - `value`: The value to write.
/// - `dst`: The destination slice.
/// - `dst_shape`: The shape of the entire `dst` slice.
/// - `dst_start`: The starting 3D offset to fill in `dst`.
///
/// The region must fit in the buffer. Every cell of the region then holds a
/// duplicate of `value`, and the rest of `dst` is unchanged. A region with an
/// axis of length 0 leaves `dst` as it was.
#[verifier::loop_isolation(false)]
pub fn fill3<T, Dst>(
    fill_shape: [u32; 3],
    value: T,
    dst: &mut [T],
    dst_shape: &Dst,
    dst_start: [u32; 3],
) where T: Clone, Dst: Shape3
    requires
        region_fits3(dst_shape, dst_start, fill_shape, old(dst)@.len() as int),
    ensures
        filled3(fill_shape, value, old(dst)@, final(dst)@, dst_shape, dst_start),
        fill_shape[0] == 0 || fill_shape[1] == 0 || fill_shape[2] == 0 ==> final(dst)@ == old(dst)@,
        clones_are_equal::<T>() ==> forall|i: int, j: int, k: int|
            0 <= i < fill_shape[0] && 0 <= j < fill_shape[1] && 0 <= k < fill_shape[2]
                ==> final(dst)@[#[trigger] cell3(dst_shape, dst_start, i, j, k)] == value,
{
    let row_length = fill_shape[0];
    if row_length == 0 {
        return;
    }
    let rows = fill_shape[1];
    let planes = fill_shape[2];
    for z in 0..planes
        invariant
            fill_progress3(fill_shape, 0, z as int, value, old(dst)@, dst@, dst_shape, dst_start),
    {
        for y in 0..rows
            invariant
                fill_progress3(
                    fill_shape,
                    y as int,
                    z as int,
                    value,
                    old(dst)@,
                    dst@,
                    dst_shape,
                    dst_start,
                ),
        {
            proof {
                lemma_row_in_buffer3(
                    dst_shape,
                    dst_start,
                    fill_shape,
                    old(dst)@.len() as int,
                    y as int,
                    z as int,
                );
            }
            let dst_row_start = dst_shape.linearize(
                [dst_start[0], dst_start[1] + y, dst_start[2] + z],
            ) as usize;
            let ghost now = dst@;
            fill_run(dst, dst_row_start, row_length as usize, value.clone());
            proof {
                lemma_fill_row3(
                    fill_shape,
                    y as int,
                    z as int,
                    value,
                    old(dst)@,
                    now,
                    dst@,
                    dst_shape,
                    dst_start,
                );
            }
        }
        proof {
            lemma_next_plane3(dst_shape, dst_start, fill_shape, z as int);
        }
    }
}

/// Copy 3-dimensional data from `src` to `dst` as `copy3` does, if the region
/// fits in both buffers. If it does not, leave `dst` as it is and name the buffer
/// in which the region does not fit: the source, if it is not in that one.
pub fn checked_copy3<T, Src, Dst>(
    copy_shape: [u32; 3],
    src: &[T],
    src_shape: &Src,
    src_start: [u32; 3],
    dst: &mut [T],
    dst_shape: &Dst,
    dst_start: [u32; 3],
) -> (r: Result<(), OutOfBounds>) where T: Clone, Src: Bounded3, Dst: Bounded3
    ensures
        (match r {
            Ok(()) => {
                &&& region_fits3(src_shape, src_start, copy_shape, src@.len() as int)
                &&& region_fits3(dst_shape, dst_start, copy_shape, old(dst)@.len() as int)
                &&& copied3(
                    copy_shape,
                    src@,
                    src_shape,
                    src_start,
                    old(dst)@,
                    final(dst)@,
                    dst_shape,
                    dst_start,
                )
            },
            Err(OutOfBounds::Source) => {
                &&& !region_fits3(src_shape, src_start, copy_shape, src@.len() as int)
                &&& final(dst)@ == old(dst)@
            },
            Err(OutOfBounds::Destination) => {
                &&& region_fits3(src_shape, src_start, copy_shape, src@.len() as int)
                &&& !region_fits3(dst_shape, dst_start, copy_shape, old(dst)@.len() as int)
                &&& final(dst)@ == old(dst)@
            },
        }),
{
    if !src_shape.fits(src_start, copy_shape, src.len()) {
        return Err(OutOfBounds::Source);
    }
    if !dst_shape.fits(dst_start, copy_shape, dst.len()) {
        return Err(OutOfBounds::Destination);
    }
    copy3(copy_shape, src, src_shape, src_start, dst, dst_shape, dst_start);
    Ok(())
}

/// Fill a 3-dimensional extent of `dst` with `value` as `fill3` does, if the
/// region fits in the buffer. If it does not, leave `dst` as it is.
pub fn checked_fill3<T, Dst>(
    fill_shape: [u32; 3],
    value: T,
    dst: &mut [T],
    dst_shape: &Dst,
    dst_start: [u32; 3],
) -> (r: Result<(), OutOfBounds>) where T: Clone, Dst: Bounded3
    ensures
        (match r {
            Ok(()) => {
                &&& region_fits3(dst_shape, dst_start, fill_shape, old(dst)@.len() as int)
                &&& filled3(fill_shape, value, old(dst)@, final(dst)@, dst_shape, dst_start)
            },
            Err(OutOfBounds::Source) => false,
            Err(OutOfBounds::Destination) => {
                &&& !region_fits3(dst_shape, dst_start, fill_shape, old(dst)@.len() as int)
                &&& final(dst)@ == old(dst)@
            },
        }),
{
    if !dst_shape.fits(dst_start, fill_shape, dst.len()) {
        return Err(OutOfBounds::Destination);
    }
    fill3(fill_shape, value, dst, dst_shape, dst_start);
    Ok(())
}

} // verus!
