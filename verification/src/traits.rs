//! Capability traits of the algebra, one implementation for the `i64` scalar
//! base case and one inductive implementation for `Complex<T>`.  Each exec
//! method carries a contract over the flat sequence of integer leaves given
//! by the `Leaves` view trait.
use vstd::prelude::*;

use crate::model::{
    cd_abs_sq, cd_add, cd_add_real, cd_basis, cd_conj, cd_div, cd_div_real, cd_fill, cd_inv_real,
    cd_mul,
    cd_mul_real, cd_neg, cd_one, cd_rdiv_real, cd_rem, cd_rem_real, cd_rrem_real, cd_rsub_real,
    cd_sub, cd_sub_real, cd_zero, div_ok, fits, hi, in_i64, is_po2, leaf_count,
    lemma_halves, lemma_leaf_count_po2, lemma_leaf_count_pos, lo, mul_ok, rdiv_ok, recip, rem_ok,
    rem_real_ok, rrem_ok, tdiv,
};
use crate::scalar::tdiv64;
use crate::Complex;

verus! {

/// The view of a hypercomplex value: its nesting depth and the flat sequence
/// of its scalar leaves, ordered with the `re` half before the `im` half.
pub trait Leaves: Sized {
    /// Nesting depth: 0 for the scalar, 1 for complex, 2 for quaternions, ...
    spec fn depth() -> nat;

    /// The flat sequence of scalar leaves.
    spec fn leaves(&self) -> Seq<int>;

    /// A value has `2^depth` leaves, a power of two, and every leaf fits in
    /// the scalar.
    proof fn lemma_wf(&self)
        ensures
            self.leaves().len() == leaf_count(Self::depth()),
            is_po2(self.leaves().len()),
            fits(self.leaves()),
    ;

    /// Two values with the same leaves are the same value.
    proof fn lemma_leaves_inj(&self, other: &Self)
        requires
            self.leaves() == other.leaves(),
        ensures
            self == other,
    ;
}

impl Leaves for i64 {
    open spec fn depth() -> nat {
        0
    }

    open spec fn leaves(&self) -> Seq<int> {
        seq![*self as int]
    }

    proof fn lemma_wf(&self) {
        lemma_leaf_count_po2(Self::depth());
    }

    proof fn lemma_leaves_inj(&self, other: &Self) {
        assert(self.leaves()[0] == *self as int);
        assert(other.leaves()[0] == *other as int);
        assert(*self == *other);
    }
}

impl<T: Leaves> Leaves for Complex<T> {
    open spec fn depth() -> nat {
        T::depth() + 1
    }

    open spec fn leaves(&self) -> Seq<int> {
        self.re.leaves() + self.im.leaves()
    }

    proof fn lemma_wf(&self) {
        self.re.lemma_wf();
        self.im.lemma_wf();
        lemma_leaf_count_po2(Self::depth());
    }

    proof fn lemma_leaves_inj(&self, other: &Self) {
        self.re.lemma_wf();
        self.im.lemma_wf();
        other.re.lemma_wf();
        other.im.lemma_wf();
        lemma_halves(self.re.leaves(), self.im.leaves());
        lemma_halves(other.re.leaves(), other.im.leaves());
        assert(self.re.leaves() == lo(self.leaves()));
        assert(other.re.leaves() == lo(other.leaves()));
        assert(self.im.leaves() == hi(self.leaves()));
        assert(other.im.leaves() == hi(other.leaves()));
        self.re.lemma_leaves_inj(&other.re);
        self.im.lemma_leaves_inj(&other.im);
    }
}

/// Gives the additive (zero) and multiplicative (one) identity of the
/// respective complex and hypercomplex types.
pub trait Identity: Leaves {
    fn zero() -> (r: Self)
        ensures
            r.leaves() == cd_zero(leaf_count(Self::depth())),
    ;

    fn one() -> (r: Self)
        ensures
            r.leaves() == cd_one(leaf_count(Self::depth())),
    ;
}

impl Identity for i64 {
    fn zero() -> (r: Self) {
        proof {
            assert(0i64.leaves() =~= cd_zero(1));
        }
        0
    }

    fn one() -> (r: Self) {
        proof {
            assert(1i64.leaves() =~= cd_one(1));
        }
        1
    }
}

impl<T: Identity> Identity for Complex<T> {
    fn zero() -> (r: Self) {
        let r = Complex { re: T::zero(), im: T::zero() };
        proof {
            assert(r.leaves() =~= cd_zero(leaf_count(Self::depth())));
        }
        r
    }

    fn one() -> (r: Self) {
        let r = Complex { re: T::one(), im: T::zero() };
        proof {
            lemma_leaf_count_pos(T::depth());
            assert(r.leaves() =~= cd_one(leaf_count(Self::depth())));
        }
        r
    }
}

/// Conjugates any complex or hypercomplex number: the real leaf is kept and
/// every other leaf is negated.
pub trait Conjugate: Leaves {
    fn conj(&self) -> (r: Self)
        requires
            fits(cd_conj(self.leaves())),
        ensures
            r.leaves() == cd_conj(self.leaves()),
    ;
}

impl Conjugate for i64 {
    fn conj(&self) -> (r: Self) {
        proof {
            assert(self.leaves() =~= cd_conj(self.leaves()));
        }
        *self
    }
}

/// Returns the modulus square of an instance of a complex or hypercomplex
/// type: the sum of the squares of all leaves, always a scalar.
pub trait AbsSq<U: Leaves>: Leaves {
    fn abs_sq(&self) -> (r: U)
        requires
            in_i64(cd_abs_sq(self.leaves())),
        ensures
            r.leaves() == seq![cd_abs_sq(self.leaves())],
    ;
}

impl AbsSq<i64> for i64 {
    fn abs_sq(&self) -> (r: i64) {
        proof {
            assert(cd_abs_sq(self.leaves()) == (*self as int) * (*self as int));
        }
        let r = *self * *self;
        proof {
            assert(r.leaves() =~= seq![cd_abs_sq(self.leaves())]);
        }
        r
    }
}

/// Returns the real part of any complex and hypercomplex type: the single
/// leaf reached by always following `re`.
pub trait Real<U: Leaves>: Leaves {
    fn real_part(&self) -> (r: U)
        ensures
            r.leaves() == seq![self.leaves()[0]],
    ;
}

impl Real<i64> for i64 {
    fn real_part(&self) -> (r: i64) {
        proof {
            assert(self.leaves() =~= seq![self.leaves()[0]]);
        }
        *self
    }
}

/// Elementwise rounding and truncation.  On integer leaves every rounding is
/// the identity and the fractional part is zero.
pub trait Rounding: Leaves {
    fn floor(&self) -> (r: Self)
        ensures
            r.leaves() == self.leaves(),
    ;

    fn ceil(&self) -> (r: Self)
        ensures
            r.leaves() == self.leaves(),
    ;

    fn round(&self) -> (r: Self)
        ensures
            r.leaves() == self.leaves(),
    ;

    fn trunc(&self) -> (r: Self)
        ensures
            r.leaves() == self.leaves(),
    ;

    fn fract(&self) -> (r: Self)
        ensures
            r.leaves() == cd_zero(leaf_count(Self::depth())),
    ;
}

impl Rounding for i64 {
    fn floor(&self) -> (r: Self) {
        *self
    }

    fn ceil(&self) -> (r: Self) {
        *self
    }

    fn round(&self) -> (r: Self) {
        *self
    }

    fn trunc(&self) -> (r: Self) {
        *self
    }

    fn fract(&self) -> (r: Self) {
        proof {
            assert(0i64.leaves() =~= cd_zero(1));
        }
        0
    }
}

/// Replaces the real leaf by its reciprocal, truncated toward zero, and keeps
/// every other leaf.  This is the scaling step of the quotient.
pub trait InvReal: Leaves {
    fn inv_real(&self) -> (r: Self)
        requires
            self.leaves()[0] != 0,
        ensures
            r.leaves() == cd_inv_real(self.leaves()),
    ;
}

impl InvReal for i64 {
    fn inv_real(&self) -> (r: Self) {
        let r: i64 = if *self == 1 {
            1
        } else if *self == -1 {
            -1
        } else {
            0
        };
        proof {
            assert(r.leaves() =~= cd_inv_real(self.leaves()));
        }
        r
    }
}

/// The failure raised when a value is built from a flat sequence whose length
/// is not the power of two that the nesting depth asks for.
#[derive(Debug, Clone, Copy, PartialEq, Eq, Structural)]
pub struct LengthError;

/// The flat leaf sequence of a sequence of scalars.
pub open spec fn flat<U: Leaves>(s: Seq<U>) -> Seq<int> {
    s.map_values(|u: U| u.leaves()[0])
}

/// Gives static methods for creating complex and hypercomplex types from
/// slices and vectors as well as simply filling all leaves with one number.
/// A slice builds a value by recursive bisection: the first half becomes
/// `re`, the second half `im`; a length that is not exactly the leaf count is
/// a `LengthError`.
pub trait Fill<U: Leaves + Copy>: Identity {
    fn fill(num: U) -> (r: Self)
        ensures
            r.leaves() == cd_fill(leaf_count(Self::depth()), num.leaves()[0]),
    ;

    fn from_slice(v: &[U]) -> (r: Result<Self, LengthError>)
        ensures
            match r {
                Ok(z) => v@.len() == leaf_count(Self::depth()) && z.leaves() == flat(v@),
                Err(_) => v@.len() != leaf_count(Self::depth()),
            },
    ;

    fn from_vec(v: Vec<U>) -> (r: Result<Self, LengthError>)
        ensures
            match r {
                Ok(z) => v@.len() == leaf_count(Self::depth()) && z.leaves() == flat(v@),
                Err(_) => v@.len() != leaf_count(Self::depth()),
            },
    ;
}

impl Fill<i64> for i64 {
    fn fill(num: i64) -> (r: Self) {
        proof {
            assert(num.leaves() =~= cd_fill(1, num.leaves()[0]));
        }
        num
    }

    fn from_slice(v: &[i64]) -> (r: Result<Self, LengthError>) {
        if v.len() == 1 {
            let z = v[0];
            proof {
                assert(z.leaves() =~= flat(v@));
            }
            Ok(z)
        } else {
            Err(LengthError)
        }
    }

    fn from_vec(v: Vec<i64>) -> (r: Result<Self, LengthError>) {
        if v.len() == 1 {
            let z = v[0];
            proof {
                assert(z.leaves() =~= flat(v@));
            }
            Ok(z)
        } else {
            Err(LengthError)
        }
    }
}

/// Generates the canonical imaginary basis elements `i`, `j`, `k` for the
/// respective hypercomplex type.  The scalar returns zero for all three; `i`
/// exists from depth one on; `j` and `k` only exist from depth two on and are
/// restricted to those depths.
pub trait ImaginaryConstants: Identity {
    fn i() -> (r: Self)
        ensures
            r.leaves() == if Self::depth() >= 1 {
                cd_basis(leaf_count(Self::depth()), 1)
            } else {
                cd_zero(1)
            },
    ;

    fn j() -> (r: Self)
        requires
            Self::depth() != 1,
        ensures
            r.leaves() == if Self::depth() >= 2 {
                cd_basis(leaf_count(Self::depth()), 2)
            } else {
                cd_zero(1)
            },
    ;

    fn k() -> (r: Self)
        requires
            Self::depth() != 1,
        ensures
            r.leaves() == if Self::depth() >= 2 {
                cd_basis(leaf_count(Self::depth()), 3)
            } else {
                cd_zero(1)
            },
    ;
}

impl ImaginaryConstants for i64 {
    fn i() -> (r: Self) {
        proof {
            assert(0i64.leaves() =~= cd_zero(1));
        }
        0
    }

    fn j() -> (r: Self) {
        proof {
            assert(0i64.leaves() =~= cd_zero(1));
        }
        0
    }

    fn k() -> (r: Self) {
        proof {
            assert(0i64.leaves() =~= cd_zero(1));
        }
        0
    }
}

/// The arithmetic bundle: the Cayley-Dickson operators together with the
/// mixed operators that combine a value with a bare scalar.
pub trait Algebra: Identity + Conjugate + Copy {
    /// Componentwise sum.
    fn add(&self, other: &Self) -> (r: Self)
        requires
            self.leaves().len() == other.leaves().len(),
            fits(cd_add(self.leaves(), other.leaves())),
        ensures
            r.leaves() == cd_add(self.leaves(), other.leaves()),
    ;

    /// Componentwise difference.
    fn sub(&self, other: &Self) -> (r: Self)
        requires
            self.leaves().len() == other.leaves().len(),
            fits(cd_sub(self.leaves(), other.leaves())),
        ensures
            r.leaves() == cd_sub(self.leaves(), other.leaves()),
    ;

    /// Componentwise negation.
    fn neg(&self) -> (r: Self)
        requires
            fits(cd_neg(self.leaves())),
        ensures
            r.leaves() == cd_neg(self.leaves()),
    ;

    /// The Cayley-Dickson product
    /// `(a0, a1) * (b0, b1) = (a0 b0 - conj(b1) a1, b1 a0 + a1 conj(b0))`.
    /// It is commutative only at depth one and below, and associative only at
    /// depth two and below.
    fn mul(&self, other: &Self) -> (r: Self)
        requires
            mul_ok(self.leaves(), other.leaves()),
        ensures
            r.leaves() == cd_mul(self.leaves(), other.leaves()),
    ;

    /// The quotient: multiply by the conjugate of the divisor and scale by
    /// the truncated reciprocal of its norm squared.  A divisor of norm
    /// squared zero is excluded, as the integer scalar has no infinities.
    fn div(&self, other: &Self) -> (r: Self)
        requires
            self.leaves().len() == other.leaves().len(),
            div_ok(self.leaves(), other.leaves()),
        ensures
            r.leaves() == cd_div(self.leaves(), other.leaves()),
    ;

    /// The remainder convention `a % b = a - b * trunc(a / b)`; it has no
    /// further mathematical meaning beyond this definition.
    fn rem(&self, other: &Self) -> (r: Self)
        requires
            self.leaves().len() == other.leaves().len(),
            rem_ok(self.leaves(), other.leaves()),
        ensures
            r.leaves() == cd_rem(self.leaves(), other.leaves()),
    ;

    /// Value plus scalar: only the real leaf moves.
    fn add_real(&self, x: i64) -> (r: Self)
        requires
            in_i64(self.leaves()[0] + x),
        ensures
            r.leaves() == cd_add_real(self.leaves(), x as int),
    ;

    /// Value minus scalar: only the real leaf moves.
    fn sub_real(&self, x: i64) -> (r: Self)
        requires
            in_i64(self.leaves()[0] - x),
        ensures
            r.leaves() == cd_sub_real(self.leaves(), x as int),
    ;

    /// Scalar minus value: the negation with the scalar added at the real
    /// leaf.
    fn rsub_real(&self, x: i64) -> (r: Self)
        requires
            fits(cd_rsub_real(self.leaves(), x as int)),
        ensures
            r.leaves() == cd_rsub_real(self.leaves(), x as int),
    ;

    /// Value times scalar: every leaf scales.
    fn mul_real(&self, x: i64) -> (r: Self)
        requires
            fits(cd_mul_real(self.leaves(), x as int)),
        ensures
            r.leaves() == cd_mul_real(self.leaves(), x as int),
    ;

    /// Value divided by scalar: every leaf divides, truncated toward zero.
    fn div_real(&self, x: i64) -> (r: Self)
        requires
            x != 0,
            fits(cd_div_real(self.leaves(), x as int)),
        ensures
            r.leaves() == cd_div_real(self.leaves(), x as int),
    ;

    /// Scalar divided by value: the conjugate scaled by the scalar over the
    /// norm squared.
    fn rdiv_real(&self, x: i64) -> (r: Self)
        requires
            rdiv_ok(self.leaves(), x as int),
        ensures
            r.leaves() == cd_rdiv_real(self.leaves(), x as int),
    ;

    /// Value modulo scalar, by the same remainder convention.
    fn rem_real(&self, x: i64) -> (r: Self)
        requires
            rem_real_ok(self.leaves(), x as int),
        ensures
            r.leaves() == cd_rem_real(self.leaves(), x as int),
    ;

    /// Scalar modulo value, by the same remainder convention.
    fn rrem_real(&self, x: i64) -> (r: Self)
        requires
            rrem_ok(self.leaves(), x as int),
        ensures
            r.leaves() == cd_rrem_real(self.leaves(), x as int),
    ;
}

impl Algebra for i64 {
    fn add(&self, other: &Self) -> (r: Self) {
        proof {
            assert(cd_add(self.leaves(), other.leaves())[0] == *self as int + *other as int);
        }
        let r = *self + *other;
        proof {
            assert(r.leaves() =~= cd_add(self.leaves(), other.leaves()));
        }
        r
    }

    fn sub(&self, other: &Self) -> (r: Self) {
        proof {
            assert(cd_sub(self.leaves(), other.leaves())[0] == *self as int - *other as int);
        }
        let r = *self - *other;
        proof {
            assert(r.leaves() =~= cd_sub(self.leaves(), other.leaves()));
        }
        r
    }

    fn neg(&self) -> (r: Self) {
        proof {
            assert(cd_neg(self.leaves())[0] == -(*self as int));
        }
        let r = -*self;
        proof {
            assert(r.leaves() =~= cd_neg(self.leaves()));
        }
        r
    }

    fn mul(&self, other: &Self) -> (r: Self) {
        proof {
            assert(cd_mul(self.leaves(), other.leaves())[0] == (*self as int) * (*other as int));
        }
        let r = *self * *other;
        proof {
            assert(r.leaves() =~= cd_mul(self.leaves(), other.leaves()));
        }
        r
    }

    fn div(&self, other: &Self) -> (r: Self) {
        let r = tdiv64(*self, *other);
        proof {
            assert(r.leaves() =~= cd_div(self.leaves(), other.leaves()));
        }
        r
    }

    fn rem(&self, other: &Self) -> (r: Self) {
        proof {
            assert(cd_div(self.leaves(), other.leaves())[0] == tdiv(*self as int, *other as int));
            assert(in_i64((*other as int) * tdiv(*self as int, *other as int)));
            assert(cd_mul(other.leaves(), cd_div(self.leaves(), other.leaves()))[0] == (
            *other as int) * tdiv(*self as int, *other as int));
            assert(cd_sub(self.leaves(), cd_mul(other.leaves(), cd_div(self.leaves(),
            other.leaves())))[0] == *self as int - (*other as int) * tdiv(*self as int,
            *other as int));
            assert(in_i64(*self as int - (*other as int) * tdiv(*self as int, *other as int)));
        }
        let q = tdiv64(*self, *other);
        let r = *self - *other * q;
        proof {
            assert(r.leaves() =~= cd_rem(self.leaves(), other.leaves()));
        }
        r
    }

    fn add_real(&self, x: i64) -> (r: Self) {
        let r = *self + x;
        proof {
            assert(r.leaves() =~= cd_add_real(self.leaves(), x as int));
        }
        r
    }

    fn sub_real(&self, x: i64) -> (r: Self) {
        let r = *self - x;
        proof {
            assert(r.leaves() =~= cd_sub_real(self.leaves(), x as int));
        }
        r
    }

    fn rsub_real(&self, x: i64) -> (r: Self) {
        proof {
            assert(cd_rsub_real(self.leaves(), x as int)[0] == x as int - *self as int);
        }
        let r = x - *self;
        proof {
            assert(r.leaves() =~= cd_rsub_real(self.leaves(), x as int));
        }
        r
    }

    fn mul_real(&self, x: i64) -> (r: Self) {
        proof {
            assert(cd_mul_real(self.leaves(), x as int)[0] == (*self as int) * (x as int));
        }
        let r = *self * x;
        proof {
            assert(r.leaves() =~= cd_mul_real(self.leaves(), x as int));
        }
        r
    }

    fn div_real(&self, x: i64) -> (r: Self) {
        proof {
            assert(cd_div_real(self.leaves(), x as int)[0] == tdiv(*self as int, x as int));
        }
        let r = tdiv64(*self, x);
        proof {
            assert(r.leaves() =~= cd_div_real(self.leaves(), x as int));
        }
        r
    }

    fn rdiv_real(&self, x: i64) -> (r: Self) {
        let r = tdiv64(x, *self);
        proof {
            assert(r.leaves() =~= cd_rdiv_real(self.leaves(), x as int));
        }
        r
    }

    fn rem_real(&self, x: i64) -> (r: Self) {
        proof {
            assert(cd_div_real(self.leaves(), x as int)[0] == tdiv(*self as int, x as int));
            assert(cd_mul_real(cd_div_real(self.leaves(), x as int), x as int)[0] == tdiv(
            *self as int, x as int) * (x as int));
            assert(in_i64(tdiv(*self as int, x as int) * (x as int)));
            assert(cd_sub(self.leaves(), cd_mul_real(cd_div_real(self.leaves(), x as int),
            x as int))[0] == *self as int - tdiv(*self as int, x as int) * (x as int));
            assert(in_i64(*self as int - tdiv(*self as int, x as int) * (x as int)));
        }
        let q = tdiv64(*self, x);
        let r = *self - q * x;
        proof {
            assert(r.leaves() =~= cd_rem_real(self.leaves(), x as int));
        }
        r
    }

    fn rrem_real(&self, x: i64) -> (r: Self) {
        proof {
            assert(cd_rdiv_real(self.leaves(), x as int)[0] == tdiv(x as int, *self as int));
            assert(in_i64((*self as int) * tdiv(x as int, *self as int)));
            assert(cd_mul(self.leaves(), cd_rdiv_real(self.leaves(), x as int))[0] == (
            *self as int) * tdiv(x as int, *self as int));
            assert(cd_rsub_real(cd_mul(self.leaves(), cd_rdiv_real(self.leaves(), x as int)),
            x as int)[0] == x as int - (*self as int) * tdiv(x as int, *self as int));
            assert(in_i64(x as int - (*self as int) * tdiv(x as int, *self as int)));
        }
        let q = tdiv64(x, *self);
        let r = x - *self * q;
        proof {
            assert(r.leaves() =~= cd_rrem_real(self.leaves(), x as int));
        }
        r
    }
}

} // verus!
