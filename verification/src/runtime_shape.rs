//! Row-major shapes whose dimensions are known at run time. Offsets are computed
//! by the runtime shapes of ndshape.
use crate::row_major::{
    contains2, contains3, contains4, fits2, fits3, fits4, lemma_offset2_injective,
    lemma_offset2_monotone, lemma_offset3_injective, lemma_offset3_monotone,
    lemma_offset4_injective, lemma_offset4_monotone, lemma_region_is_box2, lemma_region_is_box3,
    lemma_region_is_box4, offset2, offset3, offset4, wrapped,
};
use crate::shape::{Bounded2, Bounded3, Bounded4, Shape2, Shape3, Shape4};
use vstd::prelude::*;

verus! {

/// `Shape2u32::new` of ndshape on `dims`, then `Shape::linearize` on `p`: `p[0]`
/// plus the product of `dims[0]` and `p[1]`. Building the shape multiplies the two
/// dimensions, which must not pass `u32::MAX`; the product with `p[1]` wraps at
/// 2^32; the sum must not pass `u32::MAX`.
#[verifier::external_body]
fn runtime_linearize2(dims: [u32; 2], p: [u32; 2]) -> (i: u32)
    requires
        dims[0] * dims[1] <= u32::MAX,
        p[0] + wrapped(dims[0] as int, p[1] as int) <= u32::MAX,
    ensures
        i == p[0] + wrapped(dims[0] as int, p[1] as int),
{
    ndshape::Shape::linearize(&ndshape::Shape2u32::new(dims), p)
}

/// Whether an array whose axes are as long as `dims` says can be given a shape:
/// the number of its cells, counted axis after axis, never passes `u32::MAX`.
pub open spec fn countable2(dims: [u32; 2]) -> bool {
    &&& dims[0] * dims[1] <= u32::MAX
}

/// The row-major shape of an array of two dimensions that are known at run
/// time.
#[derive(Clone, Copy, Debug)]
pub struct RuntimeShape2 {
    dims: [u32; 2],
}

impl RuntimeShape2 {
    #[verifier::type_invariant]
    spec fn counted(&self) -> bool {
        countable2(self.dims)
    }

    /// The lengths of the axes.
    pub closed spec fn dims(&self) -> [u32; 2] {
        self.dims
    }

    /// The shape of the array whose axes are as long as `dims` says, if it has
    /// one.
    pub fn new(dims: [u32; 2]) -> (shape: Option<Self>)
        ensures
            shape is Some <==> countable2(dims),
            shape is Some ==> shape.unwrap().dims() == dims,
    {
        match dims[0].checked_mul(dims[1]) {
            Some(_) => Some(RuntimeShape2 { dims }),
            None => None,
        }
    }

    /// The lengths of the axes, which are those of a countable array.
    pub fn as_array(&self) -> (dims: [u32; 2])
        ensures
            dims == self.dims(),
            countable2(dims),
    {
        proof {
            use_type_invariant(self);
        }
        self.dims
    }
}

impl Shape2 for RuntimeShape2 {
    open spec fn contains(&self, x: int, y: int) -> bool {
        contains2(self.dims()[0] as int, self.dims()[1] as int, x, y)
    }

    open spec fn offset(&self, x: int, y: int) -> int {
        offset2(self.dims()[0] as int, x, y)
    }

    proof fn lemma_in_range(&self, x: int, y: int) {
        lemma_offset2_monotone(self.dims()[0] as int, x, y, x, y);
    }

    proof fn lemma_unit_stride(&self, x: int, y: int) {
    }

    proof fn lemma_injective(&self, a: (int, int), b: (int, int)) {
        lemma_offset2_injective(self.dims()[0] as int, a, b);
    }

    fn linearize(&self, p: [u32; 2]) -> (i: u32) {
        proof {
            use_type_invariant(self);
            assert(0 <= self.dims[0] * p[1]) by (nonlinear_arith)
                requires
                    0 <= self.dims[0],
                    0 <= p[1],
            ;
        }
        runtime_linearize2(self.dims, p)
    }
}

impl Bounded2 for RuntimeShape2 {
    fn fits(&self, start: [u32; 2], extent: [u32; 2], len: usize) -> (b: bool) {
        proof {
            lemma_region_is_box2(
                self,
                self.dims[0] as int,
                self.dims[1] as int,
                start,
                extent,
                len as int,
            );
        }
        fits2(self.dims, start, extent, len)
    }
}

/// `Shape3u32::new` of ndshape on `dims`, then `Shape::linearize` on `p`: `p[0]`
/// plus the products of `dims[0]` and `p[1]` and of `dims[0] * dims[1]` and
/// `p[2]`. Building the shape multiplies the dimensions one after the other, and
/// no product may pass `u32::MAX`; a product with a coordinate wraps at 2^32; the
/// sum must not pass `u32::MAX`.
#[verifier::external_body]
fn runtime_linearize3(dims: [u32; 3], p: [u32; 3]) -> (i: u32)
    requires
        dims[0] * dims[1] <= u32::MAX,
        dims[0] * dims[1] * dims[2] <= u32::MAX,
        p[0]
            + wrapped(dims[0] as int, p[1] as int)
            + wrapped(dims[0] * dims[1], p[2] as int) <= u32::MAX,
    ensures
        i == p[0]
            + wrapped(dims[0] as int, p[1] as int)
            + wrapped(dims[0] * dims[1], p[2] as int),
{
    ndshape::Shape::linearize(&ndshape::Shape3u32::new(dims), p)
}

/// Whether an array whose axes are as long as `dims` says can be given a shape:
/// the number of its cells, counted axis after axis, never passes `u32::MAX`.
pub open spec fn countable3(dims: [u32; 3]) -> bool {
    &&& dims[0] * dims[1] <= u32::MAX
    &&& dims[0] * dims[1] * dims[2] <= u32::MAX
}

/// The row-major shape of an array of three dimensions that are known at run
/// time.
#[derive(Clone, Copy, Debug)]
pub struct RuntimeShape3 {
    dims: [u32; 3],
}

impl RuntimeShape3 {
    #[verifier::type_invariant]
    spec fn counted(&self) -> bool {
        countable3(self.dims)
    }

    /// The lengths of the axes.
    pub closed spec fn dims(&self) -> [u32; 3] {
        self.dims
    }

    /// The shape of the array whose axes are as long as `dims` says, if it has
    /// one.
    pub fn new(dims: [u32; 3]) -> (shape: Option<Self>)
        ensures
            shape is Some <==> countable3(dims),
            shape is Some ==> shape.unwrap().dims() == dims,
    {
        let plane = match dims[0].checked_mul(dims[1]) {
            Some(plane) => plane,
            None => return None,
        };
        match plane.checked_mul(dims[2]) {
            Some(_) => Some(RuntimeShape3 { dims }),
            None => None,
        }
    }

    /// The lengths of the axes, which are those of a countable array.
    pub fn as_array(&self) -> (dims: [u32; 3])
        ensures
            dims == self.dims(),
            countable3(dims),
    {
        proof {
            use_type_invariant(self);
        }
        self.dims
    }
}

impl Shape3 for RuntimeShape3 {
    open spec fn contains(&self, x: int, y: int, z: int) -> bool {
        contains3(self.dims()[0] as int, self.dims()[1] as int, self.dims()[2] as int, x, y, z)
    }

    open spec fn offset(&self, x: int, y: int, z: int) -> int {
        offset3(self.dims()[0] as int, self.dims()[1] as int, x, y, z)
    }

    proof fn lemma_in_range(&self, x: int, y: int, z: int) {
        lemma_offset3_monotone(self.dims()[0] as int, self.dims()[1] as int, x, y, z, x, y, z);
    }

    proof fn lemma_unit_stride(&self, x: int, y: int, z: int) {
    }

    proof fn lemma_injective(&self, a: (int, int, int), b: (int, int, int)) {
        lemma_offset3_injective(self.dims()[0] as int, self.dims()[1] as int, a, b);
    }

    fn linearize(&self, p: [u32; 3]) -> (i: u32) {
        proof {
            use_type_invariant(self);
            assert(0 <= self.dims[0] * p[1]) by (nonlinear_arith)
                requires
                    0 <= self.dims[0],
                    0 <= p[1],
            ;
            assert(0 <= (self.dims[0] * self.dims[1]) * p[2]) by (nonlinear_arith)
                requires
                    0 <= self.dims[0] * self.dims[1],
                    0 <= p[2],
            ;
        }
        runtime_linearize3(self.dims, p)
    }
}

impl Bounded3 for RuntimeShape3 {
    fn fits(&self, start: [u32; 3], extent: [u32; 3], len: usize) -> (b: bool) {
        proof {
            lemma_region_is_box3(
                self,
                self.dims[0] as int,
                self.dims[1] as int,
                self.dims[2] as int,
                start,
                extent,
                len as int,
            );
        }
        fits3(self.dims, start, extent, len)
    }
}

/// `Shape4u32::new` of ndshape on `dims`, then `Shape::linearize` on `p`: `p[0]`
/// plus the products of `dims[0]` and `p[1]`, of `dims[0] * dims[1]` and `p[2]`,
/// and of `dims[0] * dims[1] * dims[2]` and `p[3]`. Building the shape multiplies
/// the dimensions one after the other, and no product may pass `u32::MAX`; a
/// product with a coordinate wraps at 2^32; the sum must not pass `u32::MAX`.
#[verifier::external_body]
fn runtime_linearize4(dims: [u32; 4], p: [u32; 4]) -> (i: u32)
    requires
        dims[0] * dims[1] <= u32::MAX,
        dims[0] * dims[1] * dims[2] <= u32::MAX,
        dims[0] * dims[1] * dims[2] * dims[3] <= u32::MAX,
        p[0]
            + wrapped(dims[0] as int, p[1] as int)
            + wrapped(dims[0] * dims[1], p[2] as int)
            + wrapped(dims[0] * dims[1] * dims[2], p[3] as int) <= u32::MAX,
    ensures
        i == p[0]
            + wrapped(dims[0] as int, p[1] as int)
            + wrapped(dims[0] * dims[1], p[2] as int)
            + wrapped(dims[0] * dims[1] * dims[2], p[3] as int),
{
    ndshape::Shape::linearize(&ndshape::Shape4u32::new(dims), p)
}

/// Whether an array whose axes are as long as `dims` says can be given a shape:
/// the number of its cells, counted axis after axis, never passes `u32::MAX`.
pub open spec fn countable4(dims: [u32; 4]) -> bool {
    &&& dims[0] * dims[1] <= u32::MAX
    &&& dims[0] * dims[1] * dims[2] <= u32::MAX
    &&& dims[0] * dims[1] * dims[2] * dims[3] <= u32::MAX
}

/// The row-major shape of an array of four dimensions that are known at run
/// time.
#[derive(Clone, Copy, Debug)]
pub struct RuntimeShape4 {
    dims: [u32; 4],
}

impl RuntimeShape4 {
    #[verifier::type_invariant]
    spec fn counted(&self) -> bool {
        countable4(self.dims)
    }

    /// The lengths of the axes.
    pub closed spec fn dims(&self) -> [u32; 4] {
        self.dims
    }

    /// The shape of the array whose axes are as long as `dims` says, if it has
    /// one.
    pub fn new(dims: [u32; 4]) -> (shape: Option<Self>)
        ensures
            shape is Some <==> countable4(dims),
            shape is Some ==> shape.unwrap().dims() == dims,
    {
        let plane = match dims[0].checked_mul(dims[1]) {
            Some(plane) => plane,
            None => return None,
        };
        let cube = match plane.checked_mul(dims[2]) {
            Some(cube) => cube,
            None => return None,
        };
        match cube.checked_mul(dims[3]) {
            Some(_) => Some(RuntimeShape4 { dims }),
            None => None,
        }
    }

    /// The lengths of the axes, which are those of a countable array.
    pub fn as_array(&self) -> (dims: [u32; 4])
        ensures
            dims == self.dims(),
            countable4(dims),
    {
        proof {
            use_type_invariant(self);
        }
        self.dims
    }
}

impl Shape4 for RuntimeShape4 {
    open spec fn contains(&self, x: int, y: int, z: int, w: int) -> bool {
        contains4(
            self.dims()[0] as int,
            self.dims()[1] as int,
            self.dims()[2] as int,
            self.dims()[3] as int,
            x,
            y,
            z,
            w,
        )
    }

    open spec fn offset(&self, x: int, y: int, z: int, w: int) -> int {
        offset4(self.dims()[0] as int, self.dims()[1] as int, self.dims()[2] as int, x, y, z, w)
    }

    proof fn lemma_in_range(&self, x: int, y: int, z: int, w: int) {
        lemma_offset4_monotone(
            self.dims()[0] as int,
            self.dims()[1] as int,
            self.dims()[2] as int,
            x,
            y,
            z,
            w,
            x,
            y,
            z,
            w,
        );
    }

    proof fn lemma_unit_stride(&self, x: int, y: int, z: int, w: int) {
    }

    proof fn lemma_injective(&self, a: (int, int, int, int), b: (int, int, int, int)) {
        lemma_offset4_injective(
            self.dims()[0] as int,
            self.dims()[1] as int,
            self.dims()[2] as int,
            a,
            b,
        );
    }

    fn linearize(&self, p: [u32; 4]) -> (i: u32) {
        proof {
            use_type_invariant(self);
            assert(0 <= self.dims[0] * p[1]) by (nonlinear_arith)
                requires
                    0 <= self.dims[0],
                    0 <= p[1],
            ;
            assert(0 <= (self.dims[0] * self.dims[1]) * p[2]) by (nonlinear_arith)
                requires
                    0 <= self.dims[0] * self.dims[1],
                    0 <= p[2],
            ;
            assert(0 <= (self.dims[0] * self.dims[1] * self.dims[2]) * p[3]) by (nonlinear_arith)
                requires
                    0 <= self.dims[0] * self.dims[1] * self.dims[2],
                    0 <= p[3],
            ;
        }
        runtime_linearize4(self.dims, p)
    }
}

impl Bounded4 for RuntimeShape4 {
    fn fits(&self, start: [u32; 4], extent: [u32; 4], len: usize) -> (b: bool) {
        proof {
            lemma_region_is_box4(
                self,
                self.dims[0] as int,
                self.dims[1] as int,
                self.dims[2] as int,
                self.dims[3] as int,
                start,
                extent,
                len as int,
            );
        }
        fits4(self.dims, start, extent, len)
    }
}

} // verus!
