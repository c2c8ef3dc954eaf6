//! Fast copying and filling of rectangular regions between flat buffers that hold
//! 2-, 3- and 4-dimensional arrays.
//!
//! A buffer is a slice. A shape maps the coordinates of a cell of the array to
//! the offset of the cell in the slice; axis 0 is the axis along which cells lie
//! side by side. A region is given by its extent and by the coordinates of its
//! first cell. The source and the destination of a copy have a shape and a first
//! cell each.
//!
//! Speed comes from moving a region one run along axis 0 at a time: slices are
//! copied and filled much faster than cells are found by their coordinates.
//!
//! `copy2`, `copy3`, `copy4`, `fill2`, `fill3` and `fill4` take it from the caller
//! that the region fits in the buffers. The `checked_` functions test that first.
//!
//! # Example
//!
//! ```
//! use ndcopy::ndshape::ConstShape3u32;
//! use ndcopy::copy3;
//!
//! let src_shape = ConstShape3u32::<100, 100, 100>;
//! let dst_shape = ConstShape3u32::<50, 50, 50>;
//! let src = vec![1u8; 100 * 100 * 100];
//! let mut dst = vec![0u8; 50 * 50 * 50];
//!
//! let copy_shape = [20; 3];
//! let src_min = [1, 2, 3];
//! let dst_min = [2, 3, 4];
//! copy3(
//!     copy_shape,
//!     &src,
//!     &src_shape,
//!     src_min,
//!     &mut dst,
//!     &dst_shape,
//!     dst_min,
//! );
//! ```
pub mod const_shape;
pub mod dim2;
pub mod dim3;
pub mod dim4;
pub mod laws;
pub mod row_major;
pub mod run;
pub mod runtime_shape;
pub mod shape;

pub use ndshape;

pub use dim2::{checked_copy2, checked_fill2, copied2, copy2, fill2, filled2};
pub use dim3::{checked_copy3, checked_fill3, copied3, copy3, fill3, filled3};
pub use dim4::{checked_copy4, checked_fill4, copied4, copy4, fill4, filled4};
pub use run::{clones_are_equal, duplicated};
pub use runtime_shape::{RuntimeShape2, RuntimeShape3, RuntimeShape4};
pub use shape::{Bounded2, Bounded3, Bounded4, OutOfBounds, Shape2, Shape3, Shape4};
