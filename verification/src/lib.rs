//! Cayley-Dickson construction and algebra for hypercomplex numbers built
//! through a recursive pair type.  Nesting a `Complex<T>` inside itself yields
//! quaternions, octonions, sedenions and deeper algebras, all sharing one set
//! of capability traits and one family of arithmetic operators.
//!
//! The base scalar is the 64-bit signed integer.  Every value is specified by
//! the flat sequence of its scalar leaves, and every operation carries a
//! contract over that sequence.
use vstd::prelude::*;

pub mod fmt;
pub mod fns;
pub mod laws;
pub mod model;
pub mod ops;
pub mod scalar;
pub mod traits;

pub use fmt::{ComplexParseError, Text};
pub use ops::{product_of, sum_of};
pub use fns::Functions;
pub use traits::{
    AbsSq, Algebra, Conjugate, Fill, Identity, ImaginaryConstants, InvReal, Leaves, LengthError,
    Real, Rounding,
};

verus! {

/// Base struct that all complex and hypercomplex types are built from, by
/// recursively nesting `Complex<T>` within itself.  The leaf type at the root
/// of the nesting is the `i64` scalar.
#[derive(Debug, PartialEq, Eq, Structural, Clone, Copy)]
pub struct Complex<T> {
    pub re: T,
    pub im: T,
}

impl<T> Complex<T> {
    /// Creates a new `Complex<T>` from its two halves.
    pub fn new(re: T, im: T) -> (z: Self)
        ensures
            z == (Complex { re, im }),
    {
        Complex { re, im }
    }
}

} // verus!
