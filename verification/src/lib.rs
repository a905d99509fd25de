//! An in-memory N-dimensional array engine with shared, copy-on-write
//! storage and strided views: slicing, reshaping, iteration and
//! elementwise/linear-algebra operations over arbitrary-rank arrays
//! without unnecessary copying.

use vstd::prelude::*;

pub mod array;
pub mod dim;
pub mod laws;
pub mod slice;


verus! {

/// The ways an array operation can be refused.
#[derive(Clone, Copy, Debug, PartialEq, Eq, Structural)]
pub enum ArrayError {
    /// A slice descriptor list whose length differs from the view's rank.
    RankMismatch,
    /// Binary-operation or equality operands whose shapes differ.
    ShapeMismatch,
    /// A reshape target whose total element count differs from the source's.
    SizeMismatch,
    /// An index with an axis value at or beyond the corresponding extent.
    IndexOutOfBounds,
    /// A slice descriptor whose step is zero.
    InvalidStep,
}

} // verus!
