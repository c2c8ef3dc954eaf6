//! Laws of copying that relate one copy to another.
use crate::dim2::copied2;
use crate::dim3::copied3;
use crate::dim4::copied4;
use crate::run::clones_are_equal;
use crate::shape::{cell2, cell3, cell4, Shape2, Shape3, Shape4};
use vstd::prelude::*;

verus! {

/// What a copy leaves in the cells of a region does not depend on the shapes of
/// the buffers. Take two copies of regions of the same extent, between buffers of
/// any four shapes and from any four starts. If the two sources hold equal values
/// at equal coordinates of the region, so do the two destinations afterwards,
/// provided a clone of an element is equal to the element.
pub proof fn lemma_copy2_shape_independent<
    T: Clone,
    S1: Shape2,
    D1: Shape2,
    S2: Shape2,
    D2: Shape2,
>(
    extent: [u32; 2],
    src1: Seq<T>,
    src_shape1: &S1,
    src_start1: [u32; 2],
    before1: Seq<T>,
    after1: Seq<T>,
    dst_shape1: &D1,
    dst_start1: [u32; 2],
    src2: Seq<T>,
    src_shape2: &S2,
    src_start2: [u32; 2],
    before2: Seq<T>,
    after2: Seq<T>,
    dst_shape2: &D2,
    dst_start2: [u32; 2],
)
    requires
        clones_are_equal::<T>(),
        copied2(
            extent,
            src1,
            src_shape1,
            src_start1,
            before1,
            after1,
            dst_shape1,
            dst_start1,
        ),
        copied2(
            extent,
            src2,
            src_shape2,
            src_start2,
            before2,
            after2,
            dst_shape2,
            dst_start2,
        ),
        forall|i: int, j: int|
            0 <= i < extent[0] && 0 <= j < extent[1]
                ==> src1[#[trigger] cell2(src_shape1, src_start1, i, j)]
                == src2[cell2(src_shape2, src_start2, i, j)],
    ensures
        forall|i: int, j: int|
            0 <= i < extent[0] && 0 <= j < extent[1]
                ==> after1[#[trigger] cell2(dst_shape1, dst_start1, i, j)]
                == after2[cell2(dst_shape2, dst_start2, i, j)],
{
    assert forall|i: int, j: int|
        0 <= i < extent[0] && 0 <= j < extent[1] implies
        after1[#[trigger] cell2(dst_shape1, dst_start1, i, j)]
        == after2[cell2(dst_shape2, dst_start2, i, j)] by {
        let from1 = src1[cell2(src_shape1, src_start1, i, j)];
        let from2 = src2[cell2(src_shape2, src_start2, i, j)];
        assert(cloned::<T>(from1, after1[cell2(dst_shape1, dst_start1, i, j)]));
        assert(cloned::<T>(from2, after2[cell2(dst_shape2, dst_start2, i, j)]));
    }
}

/// What a copy leaves in the cells of a region does not depend on the shapes of
/// the buffers. Take two copies of regions of the same extent, between buffers of
/// any four shapes and from any four starts. If the two sources hold equal values
/// at equal coordinates of the region, so do the two destinations afterwards,
/// provided a clone of an element is equal to the element.
pub proof fn lemma_copy3_shape_independent<
    T: Clone,
    S1: Shape3,
    D1: Shape3,
    S2: Shape3,
    D2: Shape3,
>(
    extent: [u32; 3],
    src1: Seq<T>,
    src_shape1: &S1,
    src_start1: [u32; 3],
    before1: Seq<T>,
    after1: Seq<T>,
    dst_shape1: &D1,
    dst_start1: [u32; 3],
    src2: Seq<T>,
    src_shape2: &S2,
    src_start2: [u32; 3],
    before2: Seq<T>,
    after2: Seq<T>,
    dst_shape2: &D2,
    dst_start2: [u32; 3],
)
    requires
        clones_are_equal::<T>(),
        copied3(
            extent,
            src1,
            src_shape1,
            src_start1,
            before1,
            after1,
            dst_shape1,
            dst_start1,
        ),
        copied3(
            extent,
            src2,
            src_shape2,
            src_start2,
            before2,
            after2,
            dst_shape2,
            dst_start2,
        ),
        forall|i: int, j: int, k: int|
            0 <= i < extent[0] && 0 <= j < extent[1] && 0 <= k < extent[2]
                ==> src1[#[trigger] cell3(src_shape1, src_start1, i, j, k)]
                == src2[cell3(src_shape2, src_start2, i, j, k)],
    ensures
        forall|i: int, j: int, k: int|
            0 <= i < extent[0] && 0 <= j < extent[1] && 0 <= k < extent[2]
                ==> after1[#[trigger] cell3(dst_shape1, dst_start1, i, j, k)]
                == after2[cell3(dst_shape2, dst_start2, i, j, k)],
{
    assert forall|i: int, j: int, k: int|
        0 <= i < extent[0] && 0 <= j < extent[1] && 0 <= k < extent[2] implies
        after1[#[trigger] cell3(dst_shape1, dst_start1, i, j, k)]
        == after2[cell3(dst_shape2, dst_start2, i, j, k)] by {
        let from1 = src1[cell3(src_shape1, src_start1, i, j, k)];
        let from2 = src2[cell3(src_shape2, src_start2, i, j, k)];
        assert(cloned::<T>(from1, after1[cell3(dst_shape1, dst_start1, i, j, k)]));
        assert(cloned::<T>(from2, after2[cell3(dst_shape2, dst_start2, i, j, k)]));
    }
}

/// What a copy leaves in the cells of a region does not depend on the shapes of
/// the buffers. Take two copies of regions of the same extent, between buffers of
/// any four shapes and from any four starts. If the two sources hold equal values
/// at equal coordinates of the region, so do the two destinations afterwards,
/// provided a clone of an element is equal to the element.
pub proof fn lemma_copy4_shape_independent<
    T: Clone,
    S1: Shape4,
    D1: Shape4,
    S2: Shape4,
    D2: Shape4,
>(
    extent: [u32; 4],
    src1: Seq<T>,
    src_shape1: &S1,
    src_start1: [u32; 4],
    before1: Seq<T>,
    after1: Seq<T>,
    dst_shape1: &D1,
    dst_start1: [u32; 4],
    src2: Seq<T>,
    src_shape2: &S2,
    src_start2: [u32; 4],
    before2: Seq<T>,
    after2: Seq<T>,
    dst_shape2: &D2,
    dst_start2: [u32; 4],
)
    requires
        clones_are_equal::<T>(),
        copied4(
            extent,
            src1,
            src_shape1,
            src_start1,
            before1,
            after1,
            dst_shape1,
            dst_start1,
        ),
        copied4(
            extent,
            src2,
            src_shape2,
            src_start2,
            before2,
            after2,
            dst_shape2,
            dst_start2,
        ),
        forall|i: int, j: int, k: int, l: int|
            0 <= i < extent[0] && 0 <= j < extent[1] && 0 <= k < extent[2] && 0 <= l < extent[3]
                ==> src1[#[trigger] cell4(src_shape1, src_start1, i, j, k, l)]
                == src2[cell4(src_shape2, src_start2, i, j, k, l)],
    ensures
        forall|i: int, j: int, k: int, l: int|
            0 <= i < extent[0] && 0 <= j < extent[1] && 0 <= k < extent[2] && 0 <= l < extent[3]
                ==> after1[#[trigger] cell4(dst_shape1, dst_start1, i, j, k, l)]
                == after2[cell4(dst_shape2, dst_start2, i, j, k, l)],
{
    assert forall|i: int, j: int, k: int, l: int|
        0 <= i < extent[0] && 0 <= j < extent[1] && 0 <= k < extent[2] && 0 <= l < extent[3] implies
        after1[#[trigger] cell4(dst_shape1, dst_start1, i, j, k, l)]
        == after2[cell4(dst_shape2, dst_start2, i, j, k, l)] by {
        let from1 = src1[cell4(src_shape1, src_start1, i, j, k, l)];
        let from2 = src2[cell4(src_shape2, src_start2, i, j, k, l)];
        assert(cloned::<T>(from1, after1[cell4(dst_shape1, dst_start1, i, j, k, l)]));
        assert(cloned::<T>(from2, after2[cell4(dst_shape2, dst_start2, i, j, k, l)]));
    }
}

} // verus!
