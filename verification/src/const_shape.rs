//! The shapes of ndshape whose dimensions are known at compile time. They are
//! row-major.
use crate::row_major::{
    contains2, contains3, contains4, fits2, fits3, fits4, lemma_offset2_injective,
    lemma_offset2_monotone, lemma_offset3_injective, lemma_offset3_monotone,
    lemma_offset4_injective, lemma_offset4_monotone, lemma_region_is_box2, lemma_region_is_box3,
    lemma_region_is_box4, offset2, offset3, offset4, wrapped,
};
use crate::shape::{Bounded2, Bounded3, Bounded4, Shape2, Shape3, Shape4};
use vstd::prelude::*;

verus! {

/// `ConstShape2u32` of ndshape: a value without content, whose type holds the
/// lengths of the axes.
#[verifier::external_type_specification]
#[verifier::external_body]
pub struct ExConstShape2u32<const X: u32, const Y: u32>(ndshape::ConstShape2u32<X, Y>);

/// `Shape::linearize` of ndshape on a `ConstShape2u32<X, Y>`: `p[0]` plus the
/// product of `X` and `p[1]`. The product wraps at 2^32; the sum must not pass
/// `u32::MAX`.
#[verifier::external_body]
fn const_linearize2<const X: u32, const Y: u32>(
    shape: &ndshape::ConstShape2u32<X, Y>,
    p: [u32; 2],
) -> (i: u32)
    requires
        p[0] + wrapped(X as int, p[1] as int) <= u32::MAX,
    ensures
        i == p[0] + wrapped(X as int, p[1] as int),
{
    ndshape::Shape::linearize(shape, p)
}

impl<const X: u32, const Y: u32> Shape2 for ndshape::ConstShape2u32<X, Y> {
    open spec fn contains(&self, x: int, y: int) -> bool {
        contains2(X as int, Y as int, x, y)
    }

    open spec fn offset(&self, x: int, y: int) -> int {
        offset2(X as int, x, y)
    }

    proof fn lemma_in_range(&self, x: int, y: int) {
        lemma_offset2_monotone(X as int, x, y, x, y);
    }

    proof fn lemma_unit_stride(&self, x: int, y: int) {
    }

    proof fn lemma_injective(&self, a: (int, int), b: (int, int)) {
        lemma_offset2_injective(X as int, a, b);
    }

    fn linearize(&self, p: [u32; 2]) -> (i: u32) {
        proof {
            assert(0 <= X * p[1]) by (nonlinear_arith)
                requires
                    0 <= X,
                    0 <= p[1],
            ;
        }
        const_linearize2(self, p)
    }
}

impl<const X: u32, const Y: u32> Bounded2 for ndshape::ConstShape2u32<X, Y> {
    fn fits(&self, start: [u32; 2], extent: [u32; 2], len: usize) -> (b: bool) {
        proof {
            lemma_region_is_box2(self, X as int, Y as int, start, extent, len as int);
        }
        fits2([X, Y], start, extent, len)
    }
}

/// `ConstShape3u32` of ndshape: a value without content, whose type holds the
/// lengths of the axes.
#[verifier::external_type_specification]
#[verifier::external_body]
pub struct ExConstShape3u32<const X: u32, const Y: u32, const Z: u32>(
    ndshape::ConstShape3u32<X, Y, Z>,
);

/// `Shape::linearize` of ndshape on a `ConstShape3u32<X, Y, Z>`: `p[0]` plus the
/// products of `X` and `p[1]` and of `X * Y` and `p[2]`. The stride `X * Y` must
/// fit in `u32`; a product with a coordinate wraps at 2^32; the sum must not pass
/// `u32::MAX`.
#[verifier::external_body]
fn const_linearize3<const X: u32, const Y: u32, const Z: u32>(
    shape: &ndshape::ConstShape3u32<X, Y, Z>,
    p: [u32; 3],
) -> (i: u32)
    requires
        X * Y <= u32::MAX,
        p[0] + wrapped(X as int, p[1] as int) + wrapped(X * Y, p[2] as int) <= u32::MAX,
    ensures
        i == p[0] + wrapped(X as int, p[1] as int) + wrapped(X * Y, p[2] as int),
{
    ndshape::Shape::linearize(shape, p)
}

impl<const X: u32, const Y: u32, const Z: u32> Shape3 for ndshape::ConstShape3u32<X, Y, Z> {
    open spec fn contains(&self, x: int, y: int, z: int) -> bool {
        contains3(X as int, Y as int, Z as int, x, y, z)
    }

    open spec fn offset(&self, x: int, y: int, z: int) -> int {
        offset3(X as int, Y as int, x, y, z)
    }

    proof fn lemma_in_range(&self, x: int, y: int, z: int) {
        lemma_offset3_monotone(X as int, Y as int, x, y, z, x, y, z);
    }

    proof fn lemma_unit_stride(&self, x: int, y: int, z: int) {
    }

    proof fn lemma_injective(&self, a: (int, int, int), b: (int, int, int)) {
        lemma_offset3_injective(X as int, Y as int, a, b);
    }

    fn linearize(&self, p: [u32; 3]) -> (i: u32) {
        proof {
            assert(0 <= X * p[1]) by (nonlinear_arith)
                requires
                    0 <= X,
                    0 <= p[1],
            ;
            assert(0 <= (X * Y) * p[2]) by (nonlinear_arith)
                requires
                    0 <= X * Y,
                    0 <= p[2],
            ;
        }
        const_linearize3(self, p)
    }
}

impl<const X: u32, const Y: u32, const Z: u32> Bounded3 for ndshape::ConstShape3u32<X, Y, Z> {
    fn fits(&self, start: [u32; 3], extent: [u32; 3], len: usize) -> (b: bool) {
        proof {
            lemma_region_is_box3(self, X as int, Y as int, Z as int, start, extent, len as int);
        }
        fits3([X, Y, Z], start, extent, len)
    }
}

/// `ConstShape4u32` of ndshape: a value without content, whose type holds the
/// lengths of the axes.
#[verifier::external_type_specification]
#[verifier::external_body]
pub struct ExConstShape4u32<const X: u32, const Y: u32, const Z: u32, const W: u32>(
    ndshape::ConstShape4u32<X, Y, Z, W>,
);

/// `Shape::linearize` of ndshape on a `ConstShape4u32<X, Y, Z, W>`: `p[0]` plus
/// the products of `X` and `p[1]`, of `X * Y` and `p[2]`, and of `X * Y * Z` and
/// `p[3]`. The strides `X * Y` and `X * Y * Z` must fit in `u32`; a product with
/// a coordinate wraps at 2^32; the sum must not pass `u32::MAX`.
#[verifier::external_body]
fn const_linearize4<const X: u32, const Y: u32, const Z: u32, const W: u32>(
    shape: &ndshape::ConstShape4u32<X, Y, Z, W>,
    p: [u32; 4],
) -> (i: u32)
    requires
        X * Y <= u32::MAX,
        X * Y * Z <= u32::MAX,
        p[0]
            + wrapped(X as int, p[1] as int)
            + wrapped(X * Y, p[2] as int)
            + wrapped(X * Y * Z, p[3] as int) <= u32::MAX,
    ensures
        i == p[0]
            + wrapped(X as int, p[1] as int)
            + wrapped(X * Y, p[2] as int)
            + wrapped(X * Y * Z, p[3] as int),
{
    ndshape::Shape::linearize(shape, p)
}

impl<const X: u32, const Y: u32, const Z: u32, const W: u32> Shape4
    for ndshape::ConstShape4u32<X, Y, Z, W>
{
    open spec fn contains(&self, x: int, y: int, z: int, w: int) -> bool {
        contains4(X as int, Y as int, Z as int, W as int, x, y, z, w)
    }

    open spec fn offset(&self, x: int, y: int, z: int, w: int) -> int {
        offset4(X as int, Y as int, Z as int, x, y, z, w)
    }

    proof fn lemma_in_range(&self, x: int, y: int, z: int, w: int) {
        lemma_offset4_monotone(X as int, Y as int, Z as int, x, y, z, w, x, y, z, w);
    }

    proof fn lemma_unit_stride(&self, x: int, y: int, z: int, w: int) {
    }

    proof fn lemma_injective(&self, a: (int, int, int, int), b: (int, int, int, int)) {
        lemma_offset4_injective(X as int, Y as int, Z as int, a, b);
    }

    fn linearize(&self, p: [u32; 4]) -> (i: u32) {
        proof {
            assert(0 <= X * p[1]) by (nonlinear_arith)
                requires
                    0 <= X,
                    0 <= p[1],
            ;
            assert(0 <= (X * Y) * p[2]) by (nonlinear_arith)
                requires
                    0 <= X * Y,
                    0 <= p[2],
            ;
            assert(0 <= (X * Y * Z) * p[3]) by (nonlinear_arith)
                requires
                    0 <= X * Y * Z,
                    0 <= p[3],
            ;
        }
        const_linearize4(self, p)
    }
}

impl<const X: u32, const Y: u32, const Z: u32, const W: u32> Bounded4
    for ndshape::ConstShape4u32<X, Y, Z, W>
{
    fn fits(&self, start: [u32; 4], extent: [u32; 4], len: usize) -> (b: bool) {
        proof {
            lemma_region_is_box4(
                self,
                X as int,
                Y as int,
                Z as int,
                W as int,
                start,
                extent,
                len as int,
            );
        }
        fits4([X, Y, Z, W], start, extent, len)
    }
}

} // verus!
