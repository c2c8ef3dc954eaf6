//! Regions of two-dimensional arrays.
use crate::run::{
    clones_are_equal, copy_run, duplicated, fill_run, in_run, run_copied, run_filled,
};
use crate::shape::{
    addressed2, cell2, lemma_apart2, lemma_row2, region_fits2, Bounded2, OutOfBounds, Shape2,
};
use vstd::prelude::*;

verus! {

/// What a copy of a region of `extent` cells makes of a destination: every cell
/// of the region holds a clone of the cell of `src` with the same coordinate in
/// the region, and every other element is what it was.
pub open spec fn copied2<T: Clone, Src: Shape2, Dst: Shape2>(
    extent: [u32; 2],
    src: Seq<T>,
    src_shape: &Src,
    src_start: [u32; 2],
    before: Seq<T>,
    after: Seq<T>,
    dst_shape: &Dst,
    dst_start: [u32; 2],
) -> bool {
    &&& after.len() == before.len()
    &&& forall|i: int, j: int|
        0 <= i < extent[0] && 0 <= j < extent[1]
            ==> cloned::<T>(
                src[cell2(src_shape, src_start, i, j)],
                after[#[trigger] cell2(dst_shape, dst_start, i, j)],
            )
    &&& forall|n: int|
        0 <= n < before.len() && !addressed2(dst_shape, dst_start, extent, n)
            ==> #[trigger] after[n] == before[n]
}

/// What a fill of a region of `extent` cells makes of a destination: every cell
/// of the region holds a duplicate of `value`, and every other element is what
/// it was.
pub open spec fn filled2<T: Clone, Dst: Shape2>(
    extent: [u32; 2],
    value: T,
    before: Seq<T>,
    after: Seq<T>,
    dst_shape: &Dst,
    dst_start: [u32; 2],
) -> bool {
    &&& after.len() == before.len()
    &&& forall|i: int, j: int|
        0 <= i < extent[0] && 0 <= j < extent[1]
            ==> duplicated::<T>(value, after[#[trigger] cell2(dst_shape, dst_start, i, j)])
    &&& forall|n: int|
        0 <= n < before.len() && !addressed2(dst_shape, dst_start, extent, n)
            ==> #[trigger] after[n] == before[n]
}

/// Whether row `j` of a region is done when the traversal stands at row `y`:
/// rows are taken from the first to the last.
spec fn row_done2(extent: [u32; 2], y: int, j: int) -> bool {
    0 <= j < extent[1] && j < y
}

/// `n` is the offset of a cell of a row that is done when the traversal stands
/// at row `y`.
spec fn written2<S: Shape2>(shape: &S, start: [u32; 2], extent: [u32; 2], y: int, n: int) -> bool {
    exists|i: int, j: int|
        0 <= i < extent[0] && row_done2(extent, y, j)
            && #[trigger] cell2(shape, start, i, j) == n
}

/// The row at which the traversal stands lies in the buffer, and its first cell
/// is a cell of the array.
proof fn lemma_row_in_buffer2<S: Shape2>(
    shape: &S,
    start: [u32; 2],
    extent: [u32; 2],
    len: int,
    y: int,
)
    requires
        region_fits2(shape, start, extent, len),
        0 < extent[0],
        0 <= y < extent[1],
    ensures
        shape.contains(start[0] as int, start[1] + y),
        start[1] + y <= u32::MAX,
        0 <= cell2(shape, start, 0, y),
        cell2(shape, start, 0, y) + extent[0] <= len,
{
    let last = extent[0] - 1;
    assert(0 <= cell2(shape, start, 0, y));
    assert(0 <= cell2(shape, start, last, y));
    shape.lemma_in_range(start[0] as int, start[1] + y);
    lemma_row2(shape, start, extent, len, last, y);
}

/// The cells of the row at which the traversal stands make up one run, which
/// holds no cell of a row that is done. With that row, the rows done are those
/// of the traversal one row on.
proof fn lemma_next_row2<S: Shape2>(
    shape: &S,
    start: [u32; 2],
    extent: [u32; 2],
    len: int,
    y: int,
)
    requires
        region_fits2(shape, start, extent, len),
        0 <= y < extent[1],
    ensures
        forall|i: int|
            0 <= i < extent[0] ==> #[trigger] cell2(shape, start, i, y)
                == cell2(shape, start, 0, y) + i,
        forall|i: int, j: int|
            0 <= i < extent[0] && row_done2(extent, y, j) ==> !in_run(
                cell2(shape, start, 0, y),
                extent[0] as int,
                #[trigger] cell2(shape, start, i, j),
            ),
        forall|n: int|
            #[trigger] written2(shape, start, extent, y + 1, n) <==> {
                ||| written2(shape, start, extent, y, n)
                ||| in_run(cell2(shape, start, 0, y), extent[0] as int, n)
            },
{
    let base = cell2(shape, start, 0, y);
    let width = extent[0] as int;
    assert forall|i: int| 0 <= i < width implies #[trigger] cell2(shape, start, i, y)
        == base + i by {
        lemma_row2(shape, start, extent, len, i, y);
    }
    assert forall|i: int, j: int|
        0 <= i < width && row_done2(extent, y, j) implies !in_run(
        base,
        width,
        #[trigger] cell2(shape, start, i, j),
    ) by {
        let n = cell2(shape, start, i, j);
        if in_run(base, width, n) {
            assert(cell2(shape, start, n - base, y) == n);
            lemma_apart2(shape, start, extent, len, (i, j), (n - base, y));
        }
    }
    assert forall|n: int|
        #[trigger] written2(shape, start, extent, y + 1, n) <==> {
            ||| written2(shape, start, extent, y, n)
            ||| in_run(base, width, n)
        } by {
        if written2(shape, start, extent, y, n) {
            let (i, j) = choose|i: int, j: int|
                0 <= i < width && row_done2(extent, y, j)
                    && #[trigger] cell2(shape, start, i, j) == n;
            assert(row_done2(extent, y + 1, j));
        }
        if in_run(base, width, n) {
            assert(cell2(shape, start, n - base, y) == n);
            assert(row_done2(extent, y + 1, y));
        }
        if written2(shape, start, extent, y + 1, n) {
            let (i, j) = choose|i: int, j: int|
                0 <= i < width && row_done2(extent, y + 1, j)
                    && #[trigger] cell2(shape, start, i, j) == n;
            if !row_done2(extent, y, j) {
                assert(cell2(shape, start, i, y) == n);
            }
        }
    }
}

/// The state of a destination when a copy stands at row `y`.
spec fn copy_progress2<T: Clone, Src: Shape2, Dst: Shape2>(
    extent: [u32; 2],
    y: int,
    src: Seq<T>,
    src_shape: &Src,
    src_start: [u32; 2],
    before: Seq<T>,
    now: Seq<T>,
    dst_shape: &Dst,
    dst_start: [u32; 2],
) -> bool {
    &&& now.len() == before.len()
    &&& forall|i: int, j: int|
        0 <= i < extent[0] && row_done2(extent, y, j)
            ==> cloned::<T>(
                src[cell2(src_shape, src_start, i, j)],
                now[#[trigger] cell2(dst_shape, dst_start, i, j)],
            )
    &&& forall|n: int|
        0 <= n < before.len() && !written2(dst_shape, dst_start, extent, y, n)
            ==> #[trigger] now[n] == before[n]
}

/// Copying the row at which the traversal stands carries the state on to the
/// next row.
proof fn lemma_copy_row2<T: Clone, Src: Shape2, Dst: Shape2>(
    extent: [u32; 2],
    y: int,
    src: Seq<T>,
    src_shape: &Src,
    src_start: [u32; 2],
    before: Seq<T>,
    now: Seq<T>,
    next: Seq<T>,
    dst_shape: &Dst,
    dst_start: [u32; 2],
)
    requires
        region_fits2(src_shape, src_start, extent, src.len() as int),
        region_fits2(dst_shape, dst_start, extent, before.len() as int),
        0 <= y < extent[1],
        copy_progress2(extent, y, src, src_shape, src_start, before, now, dst_shape, dst_start),
        run_copied(
            src,
            cell2(src_shape, src_start, 0, y),
            now,
            next,
            cell2(dst_shape, dst_start, 0, y),
            extent[0] as int,
        ),
    ensures
        copy_progress2(
            extent,
            y + 1,
            src,
            src_shape,
            src_start,
            before,
            next,
            dst_shape,
            dst_start,
        ),
{
    lemma_next_row2(dst_shape, dst_start, extent, before.len() as int, y);
    assert forall|i: int, j: int|
        0 <= i < extent[0] && row_done2(extent, y + 1, j) implies cloned::<T>(
        src[cell2(src_shape, src_start, i, j)],
        next[#[trigger] cell2(dst_shape, dst_start, i, j)],
    ) by {
        lemma_row2(src_shape, src_start, extent, src.len() as int, i, j);
    }
}

/// The state of a destination when a fill stands at row `y`.
spec fn fill_progress2<T: Clone, Dst: Shape2>(
    extent: [u32; 2],
    y: int,
    value: T,
    before: Seq<T>,
    now: Seq<T>,
    dst_shape: &Dst,
    dst_start: [u32; 2],
) -> bool {
    &&& now.len() == before.len()
    &&& forall|i: int, j: int|
        0 <= i < extent[0] && row_done2(extent, y, j)
            ==> duplicated::<T>(value, now[#[trigger] cell2(dst_shape, dst_start, i, j)])
    &&& forall|n: int|
        0 <= n < before.len() && !written2(dst_shape, dst_start, extent, y, n)
            ==> #[trigger] now[n] == before[n]
}

/// Filling the row at which the traversal stands carries the state on to the
/// next row.
proof fn lemma_fill_row2<T: Clone, Dst: Shape2>(
    extent: [u32; 2],
    y: int,
    value: T,
    before: Seq<T>,
    now: Seq<T>,
    next: Seq<T>,
    dst_shape: &Dst,
    dst_start: [u32; 2],
)
    requires
        region_fits2(dst_shape, dst_start, extent, before.len() as int),
        0 <= y < extent[1],
        fill_progress2(extent, y, value, before, now, dst_shape, dst_start),
        exists|v: T|
            cloned::<T>(value, v)
                && #[trigger] run_filled(
                    v,
                    now,
                    next,
                    cell2(dst_shape, dst_start, 0, y),
                    extent[0] as int,
                ),
    ensures
        fill_progress2(extent, y + 1, value, before, next, dst_shape, dst_start),
{
    lemma_next_row2(dst_shape, dst_start, extent, before.len() as int, y);
}

/// Copy 2-dimensional data from `src` to `dst`.
///
/// - `copy_shape`: Dimensions of the extent to be copied.
/// - `src`: The source slice.
/// - `src_shape`: The shape of the entire `src` slice.
/// - `src_start`: The starting 2D offset to copy from `src`.
/// - `dst`: The destination slice.
/// - `dst_shape`: The shape of the entire `dst` slice.
/// - `dst_start`: The starting 2D offset to copy into `dst`.
///
/// The region must fit in both buffers. Every cell of the region of `dst` then
/// holds a clone of the cell of `src` with the same coordinate in the region, and
/// the rest of `dst` is unchanged. A region with an axis of length 0 leaves `dst`
/// as it was.
#[verifier::loop_isolation(false)]
pub fn copy2<T, Src, Dst>(
    copy_shape: [u32; 2],
    src: &[T],
    src_shape: &Src,
    src_start: [u32; 2],
    dst: &mut [T],
    dst_shape: &Dst,
    dst_start: [u32; 2],
) where T: Clone, Src: Shape2, Dst: Shape2
    requires
        region_fits2(src_shape, src_start, copy_shape, src@.len() as int),
        region_fits2(dst_shape, dst_start, copy_shape, old(dst)@.len() as int),
    ensures
        copied2(
            copy_shape,
            src@,
            src_shape,
            src_start,
            old(dst)@,
            final(dst)@,
            dst_shape,
            dst_start,
        ),
        copy_shape[0] == 0 || copy_shape[1] == 0 ==> final(dst)@ == old(dst)@,
        clones_are_equal::<T>() ==> forall|i: int, j: int|
            0 <= i < copy_shape[0] && 0 <= j < copy_shape[1]
                ==> final(dst)@[#[trigger] cell2(dst_shape, dst_start, i, j)]
                == src@[cell2(src_shape, src_start, i, j)],
{
    let row_length = copy_shape[0];
    if row_length == 0 {
        return;
    }
    let rows = copy_shape[1];
    for y in 0..rows
        invariant
            copy_progress2(
                copy_shape,
                y as int,
                src@,
                src_shape,
                src_start,
                old(dst)@,
                dst@,
                dst_shape,
                dst_start,
            ),
    {
        proof {
            lemma_row_in_buffer2(src_shape, src_start, copy_shape, src@.len() as int, y as int);
            lemma_row_in_buffer2(
                dst_shape,
                dst_start,
                copy_shape,
                old(dst)@.len() as int,
                y as int,
            );
        }
        let src_row_start = src_shape.linearize([src_start[0], src_start[1] + y]) as usize;
        let dst_row_start = dst_shape.linearize([dst_start[0], dst_start[1] + y]) as usize;
        let ghost now = dst@;
        copy_run(dst, dst_row_start, src, src_row_start, row_length as usize);
        proof {
            lemma_copy_row2(
                copy_shape,
                y as int,
                src@,
                src_shape,
                src_start,
                old(dst)@,
                now,
                dst@,
                dst_shape,
                dst_start,
            );
        }
    }
}

/// Fill a 2-dimensional extent of `dst` with `value`.
///
/// - `fill_shape`: Dimensions of the extent to be filled.
/// - `value`: The value to write.
/// - `dst`: The destination slice.
/// - `dst_shape`: The shape of the entire `dst` slice.
/// - `dst_start`: The starting 2D offset to fill in `dst`.
///
/// The region must fit in the buffer. Every cell of the region then holds a
/// duplicate of `value`, and the rest of `dst` is unchanged. A region with an
/// axis of length 0 leaves `dst` as it was.
#[verifier::loop_isolation(false)]
pub fn fill2<T, Dst>(
    fill_shape: [u32; 2],
    value: T,
    dst: &mut [T],
    dst_shape: &Dst,
    dst_start: [u32; 2],
) where T: Clone, Dst: Shape2
    requires
        region_fits2(dst_shape, dst_start, fill_shape, old(dst)@.len() as int),
    ensures
        filled2(fill_shape, value, old(dst)@, final(dst)@, dst_shape, dst_start),
        fill_shape[0] == 0 || fill_shape[1] == 0 ==> final(dst)@ == old(dst)@,
        clones_are_equal::<T>() ==> forall|i: int, j: int|
            0 <= i < fill_shape[0] && 0 <= j < fill_shape[1]
                ==> final(dst)@[#[trigger] cell2(dst_shape, dst_start, i, j)] == value,
{
    let row_length = fill_shape[0];
    if row_length == 0 {
        return;
    }
    let rows = fill_shape[1];
    for y in 0..rows
        invariant
            fill_progress2(fill_shape, y as int, value, old(dst)@, dst@, dst_shape, dst_start),
    {
        proof {
            lemma_row_in_buffer2(
                dst_shape,
                dst_start,
                fill_shape,
                old(dst)@.len() as int,
                y as int,
            );
        }
        let dst_row_start = dst_shape.linearize([dst_start[0], dst_start[1] + y]) as usize;
        let ghost now = dst@;
        fill_run(dst, dst_row_start, row_length as usize, value.clone());
        proof {
            lemma_fill_row2(
                fill_shape,
                y as int,
                value,
                old(dst)@,
                now,
                dst@,
                dst_shape,
                dst_start,
            );
        }
    }
}

/// Copy 2-dimensional data from `src` to `dst` as `copy2` does, if the region
/// fits in both buffers. If it does not, leave `dst` as it is and name the buffer
/// in which the region does not fit: the source, if it is not in that one.
pub fn checked_copy2<T, Src, Dst>(
    copy_shape: [u32; 2],
    src: &[T],
    src_shape: &Src,
    src_start: [u32; 2],
    dst: &mut [T],
    dst_shape: &Dst,
    dst_start: [u32; 2],
) -> (r: Result<(), OutOfBounds>) where T: Clone, Src: Bounded2, Dst: Bounded2
    ensures
        (match r {
            Ok(()) => {
                &&& region_fits2(src_shape, src_start, copy_shape, src@.len() as int)
                &&& region_fits2(dst_shape, dst_start, copy_shape, old(dst)@.len() as int)
                &&& copied2(
                    copy_shape,
                    src@,
                    src_shape,
                    src_start,
                    old(dst)@,
                    final(dst)@,
                    dst_shape,
                    dst_start,
                )
            },
            Err(OutOfBounds::Source) => {
                &&& !region_fits2(src_shape, src_start, copy_shape, src@.len() as int)
                &&& final(dst)@ == old(dst)@
            },
            Err(OutOfBounds::Destination) => {
                &&& region_fits2(src_shape, src_start, copy_shape, src@.len() as int)
                &&& !region_fits2(dst_shape, dst_start, copy_shape, old(dst)@.len() as int)
                &&& final(dst)@ == old(dst)@
            },
        }),
{
    if !src_shape.fits(src_start, copy_shape, src.len()) {
        return Err(OutOfBounds::Source);
    }
    if !dst_shape.fits(dst_start, copy_shape, dst.len()) {
        return Err(OutOfBounds::Destination);
    }
    copy2(copy_shape, src, src_shape, src_start, dst, dst_shape, dst_start);
    Ok(())
}

/// Fill a 2-dimensional extent of `dst` with `value` as `fill2` does, if the
/// region fits in the buffer. If it does not, leave `dst` as it is.
pub fn checked_fill2<T, Dst>(
    fill_shape: [u32; 2],
    value: T,
    dst: &mut [T],
    dst_shape: &Dst,
    dst_start: [u32; 2],
) -> (r: Result<(), OutOfBounds>) where T: Clone, Dst: Bounded2
    ensures
        (match r {
            Ok(()) => {
                &&& region_fits2(dst_shape, dst_start, fill_shape, old(dst)@.len() as int)
                &&& filled2(fill_shape, value, old(dst)@, final(dst)@, dst_shape, dst_start)
            },
            Err(OutOfBounds::Source) => false,
            Err(OutOfBounds::Destination) => {
                &&& !region_fits2(dst_shape, dst_start, fill_shape, old(dst)@.len() as int)
                &&& final(dst)@ == old(dst)@
            },
        }),
{
    if !dst_shape.fits(dst_start, fill_shape, dst.len()) {
        return Err(OutOfBounds::Destination);
    }
    fill2(fill_shape, value, dst, dst_shape, dst_start);
    Ok(())
}

} // verus!
