//! Runs: stretches of consecutive elements of a slice, copied or filled in one
//! bulk operation.
use vstd::prelude::*;

verus! {

/// A clone of an element of type `T` is equal to the element.
///
/// This holds of the primitive types and of every type whose `clone` is known to
/// return its argument. Where it holds, "is a clone of" in the contracts of this
/// crate reads "is equal to".
pub open spec fn clones_are_equal<T: Clone>() -> bool {
    forall|a: T, b: T| #[trigger] cloned::<T>(a, b) ==> a == b
}

/// `e` is what a slot holds after `value` was duplicated into it: a clone of a
/// clone of `value`. A fill takes one clone of `value` for each run, and has the
/// run filled with clones of that one.
pub open spec fn duplicated<T: Clone>(value: T, e: T) -> bool {
    exists|v: T| cloned::<T>(value, v) && #[trigger] cloned::<T>(v, e)
}

/// `n` is the position of an element of the run of `len` elements that begins at
/// `at`.
pub open spec fn in_run(at: int, len: int, n: int) -> bool {
    at <= n < at + len
}

/// `after` is `before` with the `len` elements from `dst_at` on replaced by
/// clones of the `len` elements of `src` from `src_at` on, in their order.
pub open spec fn run_copied<T: Clone>(
    src: Seq<T>,
    src_at: int,
    before: Seq<T>,
    after: Seq<T>,
    dst_at: int,
    len: int,
) -> bool {
    &&& after.len() == before.len()
    &&& forall|n: int|
        in_run(dst_at, len, n) ==> cloned::<T>(src[src_at + (n - dst_at)], #[trigger] after[n])
    &&& forall|n: int|
        0 <= n < before.len() && !in_run(dst_at, len, n) ==> #[trigger] after[n] == before[n]
}

/// `after` is `before` with the `len` elements from `dst_at` on replaced by
/// clones of `value`.
pub open spec fn run_filled<T: Clone>(
    value: T,
    before: Seq<T>,
    after: Seq<T>,
    dst_at: int,
    len: int,
) -> bool {
    &&& after.len() == before.len()
    &&& forall|n: int| in_run(dst_at, len, n) ==> cloned::<T>(value, #[trigger] after[n])
    &&& forall|n: int|
        0 <= n < before.len() && !in_run(dst_at, len, n) ==> #[trigger] after[n] == before[n]
}

/// `<[U]>::clone_from_slice` of std: the two slices must be equally long (it
/// panics otherwise); afterwards every slot holds a clone of the element at the
/// same position of the other slice.
pub assume_specification<U>[ <[U]>::clone_from_slice ](this: &mut [U], from: &[U]) where U: Clone
    requires
        old(this)@.len() == from@.len(),
    ensures
        final(this)@.len() == from@.len(),
        forall|n: int| 0 <= n < from@.len() ==> cloned::<U>(from@[n], #[trigger] final(this)@[n]),
;

/// `<[U]>::fill` of std: the length stays, and afterwards every slot holds a
/// clone of the given element.
pub assume_specification<U>[ <[U]>::fill ](this: &mut [U], with: U) where U: Clone
    ensures
        final(this)@.len() == old(this)@.len(),
        forall|n: int| 0 <= n < old(this)@.len() ==> cloned::<U>(with, #[trigger] final(this)@[n]),
;

/// Copies the run of `len` elements of `src` that begins at `src_at` over the
/// run of `dst` that begins at `dst_at`.
pub fn copy_run<T: Clone>(dst: &mut [T], dst_at: usize, src: &[T], src_at: usize, len: usize)
    requires
        dst_at + len <= old(dst)@.len(),
        src_at + len <= src@.len(),
    ensures
        run_copied(src@, src_at as int, old(dst)@, final(dst)@, dst_at as int, len as int),
{
    let (_, src_tail) = src.split_at(src_at);
    let (from, _) = src_tail.split_at(len);
    let (_, dst_tail) = dst.split_at_mut(dst_at);
    let (into, _) = dst_tail.split_at_mut(len);
    into.clone_from_slice(from);
}

/// Writes a clone of `value` into each of the `len` slots of `dst` that begin
/// at `dst_at`.
pub fn fill_run<T: Clone>(dst: &mut [T], dst_at: usize, len: usize, value: T)
    requires
        dst_at + len <= old(dst)@.len(),
    ensures
        run_filled(value, old(dst)@, final(dst)@, dst_at as int, len as int),
{
    let (_, dst_tail) = dst.split_at_mut(dst_at);
    let (into, _) = dst_tail.split_at_mut(len);
    into.fill(value);
}

} // verus!
