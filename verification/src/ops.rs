//! The inductive implementations for `Complex<T>`: all algebraic operations
//! are built from the operations of the component type `T` by the
//! Cayley-Dickson construction, and each body is verified against the leaf
//! model.
use vstd::prelude::*;

use crate::model::{
    cd_abs_sq, cd_add, cd_add_real, cd_basis, cd_conj, cd_div, cd_div_real, cd_fill, cd_inv_real,
    cd_mul, cd_mul_real, cd_neg, cd_one, cd_rdiv_real, cd_rem, cd_rem_real, cd_rrem_real,
    cd_rsub_real, cd_sub, cd_sub_real, cd_zero, div_ok, fits, hi, in_i64, leaf_count,
    lemma_abs_sq_nonneg, lemma_fits_parts, lemma_halves, lemma_leaf_count_pos, lemma_tdiv_bound,
    lo, mul_ok, tdiv,
};
use crate::scalar::tdiv64;
use crate::traits::{
    flat, AbsSq, Algebra, Conjugate, Fill, Identity, ImaginaryConstants, InvReal, Leaves,
    LengthError, Real, Rounding,
};
use crate::Complex;

verus! {

/// Relates the leaves of a pair to the leaves of its halves.
pub proof fn split_view<T: Leaves>(z: &Complex<T>)
    ensures
        z.leaves().len() == leaf_count(T::depth() + 1),
        z.re.leaves().len() == leaf_count(T::depth()),
        z.im.leaves().len() == leaf_count(T::depth()),
        z.re.leaves() == lo(z.leaves()),
        z.im.leaves() == hi(z.leaves()),
        fits(z.leaves()),
        z.leaves().len() >= 2,
        z.leaves().len() % 2 == 0,
{
    z.re.lemma_wf();
    z.im.lemma_wf();
    lemma_leaf_count_pos(T::depth());
    lemma_halves(z.re.leaves(), z.im.leaves());
    assert forall|i: int| 0 <= i < z.leaves().len() implies in_i64(#[trigger] z.leaves()[i]) by {
        if i < z.re.leaves().len() {
            assert(z.leaves()[i] == z.re.leaves()[i]);
        } else {
            assert(z.leaves()[i] == z.im.leaves()[i - z.re.leaves().len()]);
        }
    }
}

impl<T: Algebra> Conjugate for Complex<T> {
    fn conj(&self) -> (r: Self) {
        proof {
            split_view(self);
            assert(cd_conj(self.re.leaves()) =~= lo(cd_conj(self.leaves())));
            assert(cd_neg(self.im.leaves()) =~= hi(cd_conj(self.leaves())));
            lemma_fits_parts(cd_conj(self.leaves()));
        }
        let r = Complex { re: self.re.conj(), im: self.im.neg() };
        proof {
            assert(r.leaves() =~= cd_conj(self.leaves()));
        }
        r
    }
}

impl<T: AbsSq<i64> + Leaves> AbsSq<i64> for Complex<T> {
    fn abs_sq(&self) -> (r: i64) {
        proof {
            split_view(self);
            lemma_abs_sq_nonneg(self.re.leaves());
            lemma_abs_sq_nonneg(self.im.leaves());
            assert(cd_abs_sq(self.leaves()) == cd_abs_sq(self.re.leaves()) + cd_abs_sq(
                self.im.leaves(),
            ));
        }
        let x = self.re.abs_sq();
        let y = self.im.abs_sq();
        proof {
            assert(x.leaves()[0] == x as int);
            assert(y.leaves()[0] == y as int);
            assert(x as int == cd_abs_sq(self.re.leaves()));
            assert(y as int == cd_abs_sq(self.im.leaves()));
        }
        let r = x + y;
        proof {
            assert(r.leaves() =~= seq![cd_abs_sq(self.leaves())]);
        }
        r
    }
}

impl<T: Real<i64> + Leaves> Real<i64> for Complex<T> {
    fn real_part(&self) -> (r: i64) {
        proof {
            split_view(self);
            assert(self.re.leaves()[0] == self.leaves()[0]);
        }
        self.re.real_part()
    }
}

impl<T: Rounding> Rounding for Complex<T> {
    fn floor(&self) -> (r: Self) {
        let r = Complex { re: self.re.floor(), im: self.im.floor() };
        proof {
            assert(r.leaves() =~= self.leaves());
        }
        r
    }

    fn ceil(&self) -> (r: Self) {
        let r = Complex { re: self.re.ceil(), im: self.im.ceil() };
        proof {
            assert(r.leaves() =~= self.leaves());
        }
        r
    }

    fn round(&self) -> (r: Self) {
        let r = Complex { re: self.re.round(), im: self.im.round() };
        proof {
            assert(r.leaves() =~= self.leaves());
        }
        r
    }

    fn trunc(&self) -> (r: Self) {
        let r = Complex { re: self.re.trunc(), im: self.im.trunc() };
        proof {
            assert(r.leaves() =~= self.leaves());
        }
        r
    }

    fn fract(&self) -> (r: Self) {
        let r = Complex { re: self.re.fract(), im: self.im.fract() };
        proof {
            lemma_leaf_count_pos(T::depth());
            assert(r.leaves() =~= cd_zero(leaf_count(Self::depth())));
        }
        r
    }
}

impl<T: InvReal + Copy> InvReal for Complex<T> {
    fn inv_real(&self) -> (r: Self) {
        proof {
            split_view(self);
            assert(self.re.leaves()[0] == self.leaves()[0]);
        }
        let r = Complex { re: self.re.inv_real(), im: self.im };
        proof {
            assert(r.leaves() =~= cd_inv_real(self.leaves()));
        }
        r
    }
}

impl<T: Fill<i64>> Fill<i64> for Complex<T> {
    fn fill(num: i64) -> (r: Self) {
        let r = Complex { re: T::fill(num), im: T::fill(num) };
        proof {
            lemma_leaf_count_pos(T::depth());
            assert(r.leaves() =~= cd_fill(leaf_count(Self::depth()), num.leaves()[0]));
        }
        r
    }

    fn from_slice(v: &[i64]) -> (r: Result<Self, LengthError>) {
        proof {
            lemma_leaf_count_pos(T::depth());
        }
        let n = v.len();
        if n < 2 || n % 2 != 0 {
            return Err(LengthError);
        }
        let half = n / 2;
        let first = vstd::slice::slice_subrange(v, 0, half);
        let second = vstd::slice::slice_subrange(v, half, n);
        let re = match T::from_slice(first) {
            Ok(z) => z,
            Err(e) => {
                return Err(e);
            },
        };
        let im = match T::from_slice(second) {
            Ok(z) => z,
            Err(e) => {
                return Err(e);
            },
        };
        let r = Complex { re, im };
        proof {
            assert(flat(v@) =~= flat(first@) + flat(second@));
            assert(r.leaves() =~= flat(v@));
        }
        Ok(r)
    }

    fn from_vec(v: Vec<i64>) -> (r: Result<Self, LengthError>) {
        Self::from_slice(v.as_slice())
    }
}

impl<T: Algebra + InvReal + Rounding + AbsSq<i64>> Algebra for Complex<T> {
    fn add(&self, other: &Self) -> (r: Self) {
        proof {
            split_view(self);
            split_view(other);
            assert(cd_add(self.re.leaves(), other.re.leaves()) =~= lo(
                cd_add(self.leaves(), other.leaves()),
            ));
            assert(cd_add(self.im.leaves(), other.im.leaves()) =~= hi(
                cd_add(self.leaves(), other.leaves()),
            ));
            lemma_fits_parts(cd_add(self.leaves(), other.leaves()));
        }
        let r = Complex { re: self.re.add(&other.re), im: self.im.add(&other.im) };
        proof {
            assert(r.leaves() =~= cd_add(self.leaves(), other.leaves()));
        }
        r
    }

    fn sub(&self, other: &Self) -> (r: Self) {
        proof {
            split_view(self);
            split_view(other);
            assert(cd_sub(self.re.leaves(), other.re.leaves()) =~= lo(
                cd_sub(self.leaves(), other.leaves()),
            ));
            assert(cd_sub(self.im.leaves(), other.im.leaves()) =~= hi(
                cd_sub(self.leaves(), other.leaves()),
            ));
            lemma_fits_parts(cd_sub(self.leaves(), other.leaves()));
        }
        let r = Complex { re: self.re.sub(&other.re), im: self.im.sub(&other.im) };
        proof {
            assert(r.leaves() =~= cd_sub(self.leaves(), other.leaves()));
        }
        r
    }

    fn neg(&self) -> (r: Self) {
        proof {
            split_view(self);
            assert(cd_neg(self.re.leaves()) =~= lo(cd_neg(self.leaves())));
            assert(cd_neg(self.im.leaves()) =~= hi(cd_neg(self.leaves())));
            lemma_fits_parts(cd_neg(self.leaves()));
        }
        let r = Complex { re: self.re.neg(), im: self.im.neg() };
        proof {
            assert(r.leaves() =~= cd_neg(self.leaves()));
        }
        r
    }

    fn mul(&self, other: &Self) -> (r: Self) {
        proof {
            split_view(self);
            split_view(other);
        }
        let a0b0 = self.re.mul(&other.re);
        let cb1 = other.im.conj();
        let t2 = cb1.mul(&self.im);
        proof {
            a0b0.lemma_wf();
            t2.lemma_wf();
        }
        let re = a0b0.sub(&t2);
        let b1a0 = other.im.mul(&self.re);
        let cb0 = other.re.conj();
        let t4 = self.im.mul(&cb0);
        proof {
            b1a0.lemma_wf();
            t4.lemma_wf();
        }
        let im = b1a0.add(&t4);
        let r = Complex { re, im };
        proof {
            assert(r.leaves() == cd_mul(self.leaves(), other.leaves()));
        }
        r
    }

    fn div(&self, other: &Self) -> (r: Self) {
        proof {
            split_view(self);
            split_view(other);
        }
        let cb = other.conj();
        let num = self.mul(&cb);
        let den = other.mul(&cb);
        let d = den.inv_real();
        let r = num.mul(&d);
        proof {
            assert(r.leaves() == cd_div(self.leaves(), other.leaves()));
        }
        r
    }

    fn rem(&self, other: &Self) -> (r: Self) {
        proof {
            split_view(self);
            split_view(other);
        }
        let q = self.div(other);
        let t = q.trunc();
        let p = other.mul(&t);
        proof {
            p.lemma_wf();
        }
        let r = self.sub(&p);
        proof {
            assert(r.leaves() == cd_rem(self.leaves(), other.leaves()));
        }
        r
    }

    fn add_real(&self, x: i64) -> (r: Self) {
        proof {
            split_view(self);
            assert(self.re.leaves()[0] == self.leaves()[0]);
        }
        let r = Complex { re: self.re.add_real(x), im: self.im };
        proof {
            assert(r.leaves() =~= cd_add_real(self.leaves(), x as int));
        }
        r
    }

    fn sub_real(&self, x: i64) -> (r: Self) {
        proof {
            split_view(self);
            assert(self.re.leaves()[0] == self.leaves()[0]);
        }
        let r = Complex { re: self.re.sub_real(x), im: self.im };
        proof {
            assert(r.leaves() =~= cd_sub_real(self.leaves(), x as int));
        }
        r
    }

    fn rsub_real(&self, x: i64) -> (r: Self) {
        proof {
            split_view(self);
            assert(cd_rsub_real(self.re.leaves(), x as int) =~= lo(
                cd_rsub_real(self.leaves(), x as int),
            ));
            assert(cd_neg(self.im.leaves()) =~= hi(cd_rsub_real(self.leaves(), x as int)));
            lemma_fits_parts(cd_rsub_real(self.leaves(), x as int));
        }
        let r = Complex { re: self.re.rsub_real(x), im: self.im.neg() };
        proof {
            assert(r.leaves() =~= cd_rsub_real(self.leaves(), x as int));
        }
        r
    }

    fn mul_real(&self, x: i64) -> (r: Self) {
        proof {
            split_view(self);
            assert(cd_mul_real(self.re.leaves(), x as int) =~= lo(
                cd_mul_real(self.leaves(), x as int),
            ));
            assert(cd_mul_real(self.im.leaves(), x as int) =~= hi(
                cd_mul_real(self.leaves(), x as int),
            ));
            lemma_fits_parts(cd_mul_real(self.leaves(), x as int));
        }
        let r = Complex { re: self.re.mul_real(x), im: self.im.mul_real(x) };
        proof {
            assert(r.leaves() =~= cd_mul_real(self.leaves(), x as int));
        }
        r
    }

    fn div_real(&self, x: i64) -> (r: Self) {
        proof {
            split_view(self);
            assert(cd_div_real(self.re.leaves(), x as int) =~= lo(
                cd_div_real(self.leaves(), x as int),
            ));
            assert(cd_div_real(self.im.leaves(), x as int) =~= hi(
                cd_div_real(self.leaves(), x as int),
            ));
            lemma_fits_parts(cd_div_real(self.leaves(), x as int));
        }
        let r = Complex { re: self.re.div_real(x), im: self.im.div_real(x) };
        proof {
            assert(r.leaves() =~= cd_div_real(self.leaves(), x as int));
        }
        r
    }

    fn rdiv_real(&self, x: i64) -> (r: Self) {
        proof {
            split_view(self);
            lemma_abs_sq_nonneg(self.leaves());
        }
        let s = self.abs_sq();
        proof {
            assert(s.leaves()[0] == s as int);
            assert(s as int == cd_abs_sq(self.leaves()));
            lemma_tdiv_bound(x as int, s as int);
        }
        let q = tdiv64(x, s);
        let c = self.conj();
        let r = c.mul_real(q);
        proof {
            assert(r.leaves() == cd_rdiv_real(self.leaves(), x as int));
        }
        r
    }

    fn rem_real(&self, x: i64) -> (r: Self) {
        proof {
            split_view(self);
        }
        let q = self.div_real(x);
        let t = q.trunc();
        let p = t.mul_real(x);
        proof {
            p.lemma_wf();
        }
        let r = self.sub(&p);
        proof {
            assert(r.leaves() == cd_rem_real(self.leaves(), x as int));
        }
        r
    }

    fn rrem_real(&self, x: i64) -> (r: Self) {
        proof {
            split_view(self);
        }
        let q = self.rdiv_real(x);
        let p = self.mul(&q);
        let r = p.rsub_real(x);
        proof {
            assert(r.leaves() == cd_rrem_real(self.leaves(), x as int));
        }
        r
    }
}

impl<T: Algebra + InvReal + Rounding + AbsSq<i64>> Complex<Complex<T>> {
    /// Adds a value one nesting level shallower by embedding it into the real
    /// half; the imaginary half is untouched.  Both operand orders agree.
    pub fn add_low(&self, other: &Complex<T>) -> (r: Self)
        requires
            fits(cd_add(lo(self.leaves()), other.leaves())),
            other.leaves().len() == lo(self.leaves()).len(),
        ensures
            r.leaves() == cd_add(lo(self.leaves()), other.leaves()) + hi(self.leaves()),
    {
        proof {
            split_view(self);
        }
        let r = Complex { re: self.re.add(other), im: self.im };
        proof {
            assert(r.leaves() =~= cd_add(lo(self.leaves()), other.leaves()) + hi(self.leaves()));
        }
        r
    }

    /// Subtracts a value one nesting level shallower from this value; only
    /// the real half is affected.
    pub fn sub_low(&self, other: &Complex<T>) -> (r: Self)
        requires
            fits(cd_sub(lo(self.leaves()), other.leaves())),
            other.leaves().len() == lo(self.leaves()).len(),
        ensures
            r.leaves() == cd_sub(lo(self.leaves()), other.leaves()) + hi(self.leaves()),
    {
        proof {
            split_view(self);
        }
        let r = Complex { re: self.re.sub(other), im: self.im };
        proof {
            assert(r.leaves() =~= cd_sub(lo(self.leaves()), other.leaves()) + hi(self.leaves()));
        }
        r
    }

    /// Subtracts this value from a value one nesting level shallower; as the
    /// embedding affects only the real side, the imaginary half is kept.
    pub fn rsub_low(&self, other: &Complex<T>) -> (r: Self)
        requires
            fits(cd_sub(other.leaves(), lo(self.leaves()))),
            other.leaves().len() == lo(self.leaves()).len(),
        ensures
            r.leaves() == cd_sub(other.leaves(), lo(self.leaves())) + hi(self.leaves()),
    {
        proof {
            split_view(self);
        }
        let r = Complex { re: other.sub(&self.re), im: self.im };
        proof {
            assert(r.leaves() =~= cd_sub(other.leaves(), lo(self.leaves())) + hi(self.leaves()));
        }
        r
    }
}

/// The left fold of the leaf rows under the componentwise sum, from zero.
pub open spec fn cd_sum(rows: Seq<Seq<int>>, n: nat, k: int) -> Seq<int>
    decreases k,
{
    if k <= 0 {
        cd_zero(n)
    } else {
        cd_add(cd_sum(rows, n, k - 1), rows[k - 1])
    }
}

/// `true` iff every step of the running sum stays in the scalar range.
pub open spec fn sum_ok(rows: Seq<Seq<int>>, n: nat, k: int) -> bool
    decreases k,
{
    if k <= 0 {
        true
    } else {
        &&& sum_ok(rows, n, k - 1)
        &&& rows[k - 1].len() == n
        &&& fits(cd_add(cd_sum(rows, n, k - 1), rows[k - 1]))
    }
}

/// The left fold of the leaf rows under the Cayley-Dickson product, from one.
pub open spec fn cd_product(rows: Seq<Seq<int>>, n: nat, k: int) -> Seq<int>
    decreases k,
{
    if k <= 0 {
        cd_one(n)
    } else {
        cd_mul(cd_product(rows, n, k - 1), rows[k - 1])
    }
}

/// `true` iff every step of the running product stays in the scalar range.
pub open spec fn product_ok(rows: Seq<Seq<int>>, n: nat, k: int) -> bool
    decreases k,
{
    if k <= 0 {
        true
    } else {
        product_ok(rows, n, k - 1) && mul_ok(cd_product(rows, n, k - 1), rows[k - 1])
    }
}

/// The flat leaf rows of a sequence of values.
pub open spec fn rows_of<T: Leaves>(s: Seq<T>) -> Seq<Seq<int>> {
    s.map_values(|z: T| z.leaves())
}

/// Summation folds the values over zero with the componentwise sum.
pub fn sum_of<T: Algebra>(v: &Vec<T>) -> (r: T)
    requires
        sum_ok(rows_of(v@), leaf_count(T::depth()), v@.len() as int),
    ensures
        r.leaves() == cd_sum(rows_of(v@), leaf_count(T::depth()), v@.len() as int),
{
    let mut acc = T::zero();
    let mut k: usize = 0;
    while k < v.len()
        invariant
            k <= v@.len(),
            sum_ok(rows_of(v@), leaf_count(T::depth()), v@.len() as int),
            acc.leaves() == cd_sum(rows_of(v@), leaf_count(T::depth()), k as int),
        decreases v@.len() - k,
    {
        proof {
            lemma_sum_ok_prefix(rows_of(v@), leaf_count(T::depth()), k as int + 1, v@.len() as int);
            acc.lemma_wf();
            v@[k as int].lemma_wf();
            assert(rows_of(v@)[k as int] == v@[k as int].leaves());
        }
        acc = acc.add(&v[k]);
        k = k + 1;
    }
    acc
}

/// Product folds the values over one with the Cayley-Dickson product.
pub fn product_of<T: Algebra>(v: &Vec<T>) -> (r: T)
    requires
        product_ok(rows_of(v@), leaf_count(T::depth()), v@.len() as int),
    ensures
        r.leaves() == cd_product(rows_of(v@), leaf_count(T::depth()), v@.len() as int),
{
    let mut acc = T::one();
    let mut k: usize = 0;
    while k < v.len()
        invariant
            k <= v@.len(),
            product_ok(rows_of(v@), leaf_count(T::depth()), v@.len() as int),
            acc.leaves() == cd_product(rows_of(v@), leaf_count(T::depth()), k as int),
        decreases v@.len() - k,
    {
        proof {
            lemma_product_ok_prefix(
                rows_of(v@),
                leaf_count(T::depth()),
                k as int + 1,
                v@.len() as int,
            );
            assert(rows_of(v@)[k as int] == v@[k as int].leaves());
        }
        acc = acc.mul(&v[k]);
        k = k + 1;
    }
    acc
}

/// A prefix of an in-range running sum is in range.
proof fn lemma_sum_ok_prefix(rows: Seq<Seq<int>>, n: nat, k: int, m: int)
    requires
        k <= m,
        sum_ok(rows, n, m),
    ensures
        sum_ok(rows, n, k),
    decreases m,
{
    if k < m && m > 0 {
        lemma_sum_ok_prefix(rows, n, k, m - 1);
    }
}

/// A prefix of an in-range running product is in range.
proof fn lemma_product_ok_prefix(rows: Seq<Seq<int>>, n: nat, k: int, m: int)
    requires
        k <= m,
        product_ok(rows, n, m),
    ensures
        product_ok(rows, n, k),
    decreases m,
{
    if k < m && m > 0 {
        lemma_product_ok_prefix(rows, n, k, m - 1);
    }
}

impl ImaginaryConstants for Complex<i64> {
    fn i() -> (r: Self) {
        let r = Complex { re: 0i64, im: 1i64 };
        proof {
            assert(leaf_count(1) == 2 * leaf_count(0));
            assert(r.leaves() =~= cd_basis(2, 1));
        }
        r
    }

    fn j() -> (r: Self) {
        Complex { re: 0i64, im: 0i64 }
    }

    fn k() -> (r: Self) {
        Complex { re: 0i64, im: 0i64 }
    }
}

impl ImaginaryConstants for Complex<Complex<i64>> {
    fn i() -> (r: Self) {
        let r = Complex { re: Complex::<i64>::i(), im: Complex::<i64>::zero() };
        proof {
            assert(leaf_count(1) == 2 * leaf_count(0));
            assert(leaf_count(2) == 2 * leaf_count(1));
            assert(r.leaves() =~= cd_basis(4, 1));
        }
        r
    }

    fn j() -> (r: Self) {
        let r = Complex { re: Complex::<i64>::zero(), im: Complex::<i64>::one() };
        proof {
            assert(leaf_count(1) == 2 * leaf_count(0));
            assert(leaf_count(2) == 2 * leaf_count(1));
            assert(r.leaves() =~= cd_basis(4, 2));
        }
        r
    }

    fn k() -> (r: Self) {
        let r = Complex { re: Complex::<i64>::zero(), im: Complex::<i64>::i() };
        proof {
            assert(leaf_count(1) == 2 * leaf_count(0));
            assert(leaf_count(2) == 2 * leaf_count(1));
            assert(r.leaves() =~= cd_basis(4, 3));
        }
        r
    }
}

impl<T: Leaves> ImaginaryConstants for Complex<Complex<Complex<T>>> where
    Complex<Complex<T>>: ImaginaryConstants,
{
    fn i() -> (r: Self) {
        let r = Complex {
            re: <Complex<Complex<T>> as ImaginaryConstants>::i(),
            im: <Complex<Complex<T>> as Identity>::zero(),
        };
        proof {
            split_view(&r);
            lemma_leaf_count_pos(T::depth());
            assert(leaf_count(T::depth() + 1) == 2 * leaf_count(T::depth()));
            assert(leaf_count(T::depth() + 2) == 2 * leaf_count(T::depth() + 1));
            assert(leaf_count(T::depth() + 3) == 2 * leaf_count(T::depth() + 2));
            assert(r.leaves() =~= cd_basis(leaf_count(Self::depth()), 1));
        }
        r
    }

    fn j() -> (r: Self) {
        let r = Complex {
            re: <Complex<Complex<T>> as ImaginaryConstants>::j(),
            im: <Complex<Complex<T>> as Identity>::zero(),
        };
        proof {
            split_view(&r);
            lemma_leaf_count_pos(T::depth());
            assert(leaf_count(T::depth() + 1) == 2 * leaf_count(T::depth()));
            assert(leaf_count(T::depth() + 2) == 2 * leaf_count(T::depth() + 1));
            assert(leaf_count(T::depth() + 3) == 2 * leaf_count(T::depth() + 2));
            assert(r.leaves() =~= cd_basis(leaf_count(Self::depth()), 2));
        }
        r
    }

    fn k() -> (r: Self) {
        let r = Complex {
            re: <Complex<Complex<T>> as ImaginaryConstants>::k(),
            im: <Complex<Complex<T>> as Identity>::zero(),
        };
        proof {
            split_view(&r);
            lemma_leaf_count_pos(T::depth());
            assert(leaf_count(T::depth() + 1) == 2 * leaf_count(T::depth()));
            assert(leaf_count(T::depth() + 2) == 2 * leaf_count(T::depth() + 1));
            assert(leaf_count(T::depth() + 3) == 2 * leaf_count(T::depth() + 2));
            assert(r.leaves() =~= cd_basis(leaf_count(Self::depth()), 3));
        }
        r
    }
}

} // verus!
