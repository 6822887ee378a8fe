//! The elementary functions, defined uniformly across all nesting depths
//! through the polar-style decomposition: a value is its real part plus a
//! non-real remainder with a magnitude and a unit direction.  The integer
//! scalar's surrogates are the base-two exponential and logarithm, the floor
//! square root, and quarter-turn trigonometry.
use vstd::prelude::*;

use crate::model::{
    cd_abs_sq, cd_add_real, cd_basis, cd_cos, cd_cosh, cd_div_real, cd_exp, cd_im, cd_ln, cd_mul,
    cd_mul_real, cd_mulm, cd_one, cd_powf, cd_powi, cd_powu, cd_powu_tail, cd_powz, cd_rdiv_real,
    cd_sin, cd_sinh, cd_sub, cd_sub_real, cd_tan, cd_tanh, cd_zero, cos_ok, cosh_ok, exp_ok,
    fits, in_i64, leaf_count, lemma_abs_sq_nonneg, lemma_div_real_fits, lemma_leaf_count_pos,
    lemma_sqrt_floor, ln_ok, mul_ok, mulm_ok, powf_ok, powi_ok, powu_ok, powu_tail_ok, powz_ok,
    rdiv_ok, s_acos, s_cos, s_exp, s_sin, sin_ok, sinh_ok, sqrt_floor, tan_ok, tanh_ok,
};
use crate::ops::split_view;
use crate::scalar::{acos3, cos4, exp2i, isqrt, log2i, sin4};
use crate::traits::{
    AbsSq, Algebra, Conjugate, Fill, Identity, ImaginaryConstants, InvReal, Leaves, Real,
    Rounding,
};
use crate::Complex;

verus! {

/// Implements the common elementary functions for complex and hypercomplex
/// types, and for the scalar base case.
pub trait Functions<U: Leaves, V: Leaves>: Leaves {
    /// The exponential of a hypercomplex number, by the polar decomposition
    /// `exp(z) = exp(real(z)) * (cos t + u sin t)`.
    fn exp(&self) -> (r: Self)
        requires
            exp_ok(self.leaves()),
        ensures
            r.leaves() == cd_exp(self.leaves()),
    ;

    /// The natural logarithm surrogate of a nonzero hypercomplex number: the
    /// base-two logarithm of the magnitude plus the angle along the non-real
    /// unit direction.  It is one branch of a multi-valued logarithm.
    fn ln(&self) -> (r: Self)
        requires
            ln_ok(self.leaves()),
        ensures
            r.leaves() == cd_ln(self.leaves()),
    ;

    /// A hypercomplex number raised to the power of a scalar:
    /// `exp(num * ln(z))`.
    fn powf(&self, num: U) -> (r: Self)
        requires
            powf_ok(self.leaves(), num.leaves()[0]),
        ensures
            r.leaves() == cd_powf(self.leaves(), num.leaves()[0]),
    ;

    /// This value raised to a hypercomplex power: `exp(num * ln(z))`, with
    /// the product taken at the power's own depth.
    fn powz(&self, num: V) -> (r: V)
        requires
            powz_ok(self.leaves(), num.leaves()),
        ensures
            r.leaves() == cd_powz(self.leaves(), num.leaves()),
    ;

    /// Tail-recursive binary exponentiation: squares the base and gathers the
    /// product in the accumulator.
    fn powu_tail(&self, num: u32, acc: Self) -> (r: Self)
        requires
            powu_tail_ok(self.leaves(), num as nat, acc.leaves()),
        ensures
            r.leaves() == cd_powu_tail(self.leaves(), num as nat, acc.leaves()),
    ;

    /// The power of a hypercomplex number to an unsigned integer, in a
    /// logarithmic number of multiplications; the zeroth power is one.
    fn powu(&self, num: u32) -> (r: Self)
        requires
            powu_ok(self.leaves(), num as nat),
        ensures
            r.leaves() == cd_powu(self.leaves(), num as nat),
    ;

    /// The power of a hypercomplex number to a signed integer.  The zeroth
    /// power is the additive identity by this library's convention; a
    /// negative power is the reciprocal of the positive one.
    fn powi(&self, num: i32) -> (r: Self)
        requires
            powi_ok(self.leaves(), num as int),
        ensures
            r.leaves() == cd_powi(self.leaves(), num as int),
    ;

    /// The hyperbolic sine `(exp(z) - 1/exp(z)) / 2`.
    fn sinh(&self) -> (r: Self)
        requires
            sinh_ok(self.leaves()),
        ensures
            r.leaves() == cd_sinh(self.leaves()),
    ;

    /// The hyperbolic cosine `(exp(z) + 1/exp(z)) / 2`.
    fn cosh(&self) -> (r: Self)
        requires
            cosh_ok(self.leaves()),
        ensures
            r.leaves() == cd_cosh(self.leaves()),
    ;

    /// The hyperbolic tangent `(exp(z)^2 - 1) / (exp(z)^2 + 1)`.
    fn tanh(&self) -> (r: Self)
        requires
            tanh_ok(self.leaves()),
        ensures
            r.leaves() == cd_tanh(self.leaves()),
    ;

    /// The sine, through the exponential of `i * z` with `i` taken at the
    /// value's own depth.
    fn sin(&self) -> (r: Self)
        requires
            sin_ok(self.leaves()),
        ensures
            r.leaves() == cd_sin(self.leaves()),
    ;

    /// The cosine, through the exponential of `i * z` with `i` taken at the
    /// value's own depth.
    fn cos(&self) -> (r: Self)
        requires
            cos_ok(self.leaves()),
        ensures
            r.leaves() == cd_cos(self.leaves()),
    ;

    /// The tangent `(exp(iz)^2 - 1) / (i * exp(iz)^2 + i)`.
    fn tan(&self) -> (r: Self)
        requires
            tan_ok(self.leaves()),
        ensures
            r.leaves() == cd_tan(self.leaves()),
    ;
}

/// At the scalar the exponential degenerates to the base-two power: the
/// non-real remainder is empty, so the angle is zero.
proof fn lemma_exp_scalar(x: int)
    ensures
        cd_exp(seq![x]) == seq![s_exp(x)],
{
    let a: Seq<int> = seq![x];
    let z: Seq<int> = seq![0int];
    assert(z.len() == 1 && z[0] == 0);
    assert(cd_im(a) =~= z);
    assert(cd_abs_sq(z) == z[0] * z[0]);
    assert(z[0] * z[0] == 0) by (nonlinear_arith)
        requires
            z[0] == 0,
    ;
    assert(sqrt_floor(0) == 0);
    let u = cd_zero(1);
    assert(cd_mul_real(u, s_sin(0)) =~= z);
    assert(s_cos(0) == 1);
    assert(cd_add_real(z, 1) =~= seq![1int]);
    assert(cd_mul_real(seq![1int], s_exp(x)) =~= seq![s_exp(x)]) by {
        assert(cd_mul_real(seq![1int], s_exp(x))[0] == 1 * s_exp(x));
        assert(1 * s_exp(x) == s_exp(x)) by (nonlinear_arith);
    }
}

/// At the scalar the logarithm degenerates to the base-two logarithm of the
/// magnitude: the non-real remainder of the normalized value is empty.
proof fn lemma_ln_scalar(x: int)
    ensures
        cd_ln(seq![x]) == seq![crate::model::log2_floor(sqrt_floor((x * x) as nat) as int)],
{
    let a: Seq<int> = seq![x];
    assert(cd_abs_sq(a) == x * x);
    assert(x * x >= 0) by (nonlinear_arith);
    let r = sqrt_floor((x * x) as nat) as int;
    let nrm = cd_div_real(a, r);
    assert(nrm.len() == 1);
    let z: Seq<int> = seq![0int];
    assert(z.len() == 1 && z[0] == 0);
    assert(cd_im(nrm) =~= z);
    assert(cd_abs_sq(z) == z[0] * z[0]);
    assert(z[0] * z[0] == 0) by (nonlinear_arith)
        requires
            z[0] == 0,
    ;
    assert(sqrt_floor(0) == 0);
    assert(cd_add_real(cd_zero(1), crate::model::log2_floor(r)) =~= seq![
        crate::model::log2_floor(r),
    ]);
}

/// The scalar base case.  The exponential and the logarithm are the base-two
/// surrogates; everything else follows the same formulas as the pair case,
/// which degenerate soundly because the scalar has no non-real remainder.
impl<T: Algebra + InvReal + Rounding + AbsSq<i64> + Real<i64>> Functions<i64, Complex<T>> for i64 where
    Complex<T>: Functions<i64, Complex<T>> + Algebra,
 {
    fn exp(&self) -> (r: Self) {
        proof {
            lemma_exp_scalar(*self as int);
            assert(self.leaves() =~= seq![*self as int]);
            assert(self.leaves()[0] == *self as int);
        }
        let r = exp2i(*self);
        proof {
            assert(r.leaves() =~= cd_exp(self.leaves()));
        }
        r
    }

    fn ln(&self) -> (r: Self) {
        proof {
            lemma_ln_scalar(*self as int);
            assert(self.leaves() =~= seq![*self as int]);
            assert(cd_abs_sq(self.leaves()) == (*self as int) * (*self as int));
        }
        let s = *self * *self;
        let r0 = isqrt(s);
        proof {
            lemma_sqrt_floor(s as nat);
            assert(r0 >= 1) by {
                if r0 == 0 {
                    assert(sqrt_floor(s as nat) == 0);
                    assert((sqrt_floor(s as nat) + 1) * (sqrt_floor(s as nat) + 1) == 1) by (
                    nonlinear_arith)
                        requires
                            sqrt_floor(s as nat) == 0,
                    ;
                }
            }
        }
        let r = log2i(r0);
        proof {
            assert(r.leaves() =~= cd_ln(self.leaves()));
        }
        r
    }

    fn powf(&self, num: i64) -> (r: Self) {
        proof {
            assert(num.leaves()[0] == num as int);
        }
        let l = <i64 as Functions<i64, Complex<T>>>::ln(self);
        proof {
            assert(cd_mul_real(cd_ln(self.leaves()), num as int)[0] == cd_ln(self.leaves())[0] * (
            num as int));
            assert(l.leaves()[0] == l as int);
        }
        let p = l * num;
        proof {
            assert(p.leaves() =~= cd_mul_real(cd_ln(self.leaves()), num as int));
        }
        let r = <i64 as Functions<i64, Complex<T>>>::exp(&p);
        proof {
            assert(r.leaves() == cd_powf(self.leaves(), num.leaves()[0]));
        }
        r
    }

    fn powz(&self, num: Complex<T>) -> (r: Complex<T>) {
        let l = <i64 as Functions<i64, Complex<T>>>::ln(self);
        proof {
            split_view(&num);
            assert(l.leaves()[0] == l as int);
            assert(l.leaves() == cd_ln(self.leaves()));
            assert(cd_mulm(num.leaves(), cd_ln(self.leaves())) == cd_mul_real(
                num.leaves(),
                cd_ln(self.leaves())[0],
            ));
        }
        let p = num.mul_real(l);
        let r = p.exp();
        proof {
            assert(r.leaves() == cd_powz(self.leaves(), num.leaves()));
        }
        r
    }

    fn powu_tail(&self, num: u32, acc: Self) -> (r: Self)
        decreases num,
    {
        if num == 0 {
            return acc;
        }
        let sq = self.mul(self);
        if num % 2 == 0 {
            <i64 as Functions<i64, Complex<T>>>::powu_tail(&sq, num / 2, acc)
        } else {
            let na = self.mul(&acc);
            <i64 as Functions<i64, Complex<T>>>::powu_tail(&sq, (num - 1) / 2, na)
        }
    }

    fn powu(&self, num: u32) -> (r: Self) {
        let one = <i64 as Identity>::one();
        <i64 as Functions<i64, Complex<T>>>::powu_tail(self, num, one)
    }

    fn powi(&self, num: i32) -> (r: Self) {
        if num == 0 {
            let r = <i64 as Identity>::zero();
            proof {
                assert(r.leaves() =~= cd_powi(self.leaves(), num as int));
            }
            r
        } else if num < 0 {
            let m = (-(num as i64)) as u32;
            proof {
                assert(m as nat == (-(num as int)) as nat);
            }
            let p = <i64 as Functions<i64, Complex<T>>>::powu(self, m);
            let r = p.rdiv_real(1);
            proof {
                assert(r.leaves() == cd_powi(self.leaves(), num as int));
            }
            r
        } else {
            let r = <i64 as Functions<i64, Complex<T>>>::powu(self, num as u32);
            proof {
                assert(r.leaves() == cd_powi(self.leaves(), num as int));
            }
            r
        }
    }

    fn sinh(&self) -> (r: Self) {
        let e = <i64 as Functions<i64, Complex<T>>>::exp(self);
        let r1 = e.rdiv_real(1);
        proof {
            e.lemma_wf();
            r1.lemma_wf();
            lemma_div_real_fits(cd_sub(e.leaves(), r1.leaves()), 2);
        }
        let d = e.sub(&r1);
        let r = d.div_real(2);
        proof {
            assert(r.leaves() == cd_sinh(self.leaves()));
        }
        r
    }

    fn cosh(&self) -> (r: Self) {
        let e = <i64 as Functions<i64, Complex<T>>>::exp(self);
        let r1 = e.rdiv_real(1);
        proof {
            e.lemma_wf();
            r1.lemma_wf();
            lemma_div_real_fits(crate::model::cd_add(e.leaves(), r1.leaves()), 2);
        }
        let d = e.add(&r1);
        let r = d.div_real(2);
        proof {
            assert(r.leaves() == cd_cosh(self.leaves()));
        }
        r
    }

    fn tanh(&self) -> (r: Self) {
        let e = <i64 as Functions<i64, Complex<T>>>::exp(self);
        let e2 = e.mul(&e);
        proof {
            e2.lemma_wf();
        }
        let numer = e2.sub_real(1);
        let denom = e2.add_real(1);
        proof {
            numer.lemma_wf();
            denom.lemma_wf();
        }
        let r = numer.div(&denom);
        proof {
            assert(r.leaves() == cd_tanh(self.leaves()));
        }
        r
    }

    fn sin(&self) -> (r: Self) {
        let b = <i64 as ImaginaryConstants>::i();
        proof {
            b.lemma_wf();
            assert(b.leaves() =~= cd_basis(1, 1));
            assert(self.leaves().len() == 1);
        }
        let iz = b.mul(self);
        let e = <i64 as Functions<i64, Complex<T>>>::exp(&iz);
        let r1 = e.rdiv_real(1);
        proof {
            e.lemma_wf();
            r1.lemma_wf();
            lemma_div_real_fits(cd_sub(e.leaves(), r1.leaves()), 2);
        }
        let d = e.sub(&r1);
        let h = d.div_real(2);
        let nb = b.neg();
        let r = h.mul(&nb);
        proof {
            assert(r.leaves() == cd_sin(self.leaves()));
        }
        r
    }

    fn cos(&self) -> (r: Self) {
        let b = <i64 as ImaginaryConstants>::i();
        proof {
            b.lemma_wf();
            assert(b.leaves() =~= cd_basis(1, 1));
            assert(self.leaves().len() == 1);
        }
        let iz = b.mul(self);
        let e = <i64 as Functions<i64, Complex<T>>>::exp(&iz);
        let r1 = e.rdiv_real(1);
        proof {
            e.lemma_wf();
            r1.lemma_wf();
            lemma_div_real_fits(crate::model::cd_add(e.leaves(), r1.leaves()), 2);
        }
        let d = e.add(&r1);
        let r = d.div_real(2);
        proof {
            assert(r.leaves() == cd_cos(self.leaves()));
        }
        r
    }

    fn tan(&self) -> (r: Self) {
        let b = <i64 as ImaginaryConstants>::i();
        proof {
            b.lemma_wf();
            assert(b.leaves() =~= cd_basis(1, 1));
            assert(self.leaves().len() == 1);
        }
        let iz = b.mul(self);
        let e = <i64 as Functions<i64, Complex<T>>>::exp(&iz);
        let e2 = e.mul(&e);
        proof {
            e2.lemma_wf();
        }
        let numer = e2.sub_real(1);
        let be = b.mul(&e);
        let be2 = be.mul(&e);
        proof {
            numer.lemma_wf();
            be2.lemma_wf();
            b.lemma_wf();
        }
        let denom = be2.add(&b);
        proof {
            denom.lemma_wf();
        }
        let r = numer.div(&denom);
        proof {
            assert(r.leaves() == cd_tan(self.leaves()));
        }
        r
    }
}

/// The inductive case: every function is the polar-style decomposition built
/// from the component operations, uniformly at every nesting depth.
impl<T: Algebra + InvReal + Rounding + AbsSq<i64> + Real<i64>> Functions<
    i64,
    Complex<T>,
> for Complex<T> where Complex<T>: ImaginaryConstants {
    fn exp(&self) -> (r: Self) {
        proof {
            split_view(self);
            assert(self.leaves()[0] - self.leaves()[0] == 0);
        }
        let re0 = self.real_part();
        proof {
            assert(re0.leaves()[0] == re0 as int);
        }
        let w = self.sub_real(re0);
        proof {
            w.lemma_wf();
            assert(w.leaves() =~= cd_im(self.leaves()));
            lemma_abs_sq_nonneg(w.leaves());
        }
        let s = w.abs_sq();
        proof {
            assert(s.leaves()[0] == s as int);
        }
        let t = isqrt(s);
        let u = if t == 0 {
            Self::zero()
        } else {
            proof {
                lemma_div_real_fits(w.leaves(), t as int);
            }
            w.div_real(t)
        };
        proof {
            u.lemma_wf();
            assert(u.leaves() == (if t as int == 0 {
                cd_zero(self.leaves().len())
            } else {
                cd_div_real(cd_im(self.leaves()), t as int)
            }));
        }
        let si = sin4(t);
        let c = cos4(t);
        let e = exp2i(re0);
        let part = u.mul_real(si);
        proof {
            part.lemma_wf();
        }
        let part2 = part.add_real(c);
        let r = part2.mul_real(e);
        proof {
            assert(r.leaves() == cd_exp(self.leaves()));
        }
        r
    }

    fn ln(&self) -> (r: Self) {
        proof {
            split_view(self);
            lemma_abs_sq_nonneg(self.leaves());
        }
        let s = self.abs_sq();
        proof {
            assert(s.leaves()[0] == s as int);
        }
        let r0 = isqrt(s);
        proof {
            lemma_sqrt_floor(s as nat);
            assert(r0 >= 1) by {
                if r0 == 0 {
                    assert(sqrt_floor(s as nat) == 0);
                    assert((sqrt_floor(s as nat) + 1) * (sqrt_floor(s as nat) + 1) == 1) by (
                    nonlinear_arith)
                        requires
                            sqrt_floor(s as nat) == 0,
                    ;
                }
            }
            lemma_div_real_fits(self.leaves(), r0 as int);
        }
        let nrm = self.div_real(r0);
        proof {
            nrm.lemma_wf();
        }
        let re0 = nrm.real_part();
        proof {
            assert(re0.leaves()[0] == re0 as int);
            assert(nrm.leaves()[0] - re0 as int == 0);
        }
        let th = acos3(re0);
        let w = nrm.sub_real(re0);
        proof {
            w.lemma_wf();
            assert(w.leaves() =~= cd_im(nrm.leaves()));
            lemma_abs_sq_nonneg(w.leaves());
        }
        let s2 = w.abs_sq();
        proof {
            assert(s2.leaves()[0] == s2 as int);
        }
        let m = isqrt(s2);
        let ie = if m == 0 {
            Self::zero()
        } else {
            let wt = w.mul_real(th);
            proof {
                wt.lemma_wf();
                lemma_div_real_fits(wt.leaves(), m as int);
            }
            wt.div_real(m)
        };
        proof {
            ie.lemma_wf();
        }
        let lr = log2i(r0);
        let r = ie.add_real(lr);
        proof {
            assert(r.leaves() == cd_ln(self.leaves()));
        }
        r
    }

    fn powf(&self, num: i64) -> (r: Self) {
        proof {
            assert(num.leaves()[0] == num as int);
        }
        let l = self.ln();
        proof {
            l.lemma_wf();
        }
        let p = l.mul_real(num);
        let r = p.exp();
        proof {
            assert(r.leaves() == cd_powf(self.leaves(), num.leaves()[0]));
        }
        r
    }

    fn powz(&self, num: Self) -> (r: Self) {
        let l = self.ln();
        proof {
            split_view(&l);
            split_view(&num);
            assert(cd_mulm(num.leaves(), cd_ln(self.leaves())) == cd_mul(
                num.leaves(),
                cd_ln(self.leaves()),
            ));
        }
        let p = num.mul(&l);
        let r = p.exp();
        proof {
            assert(r.leaves() == cd_powz(self.leaves(), num.leaves()));
        }
        r
    }

    fn powu_tail(&self, num: u32, acc: Self) -> (r: Self)
        decreases num,
    {
        if num == 0 {
            return acc;
        }
        let sq = self.mul(self);
        if num % 2 == 0 {
            sq.powu_tail(num / 2, acc)
        } else {
            let na = self.mul(&acc);
            sq.powu_tail((num - 1) / 2, na)
        }
    }

    fn powu(&self, num: u32) -> (r: Self) {
        proof {
            self.lemma_wf();
        }
        let one = Self::one();
        self.powu_tail(num, one)
    }

    fn powi(&self, num: i32) -> (r: Self) {
        if num == 0 {
            let r = Self::zero();
            proof {
                self.lemma_wf();
                assert(r.leaves() =~= cd_powi(self.leaves(), num as int));
            }
            r
        } else if num < 0 {
            let m = (-(num as i64)) as u32;
            proof {
                assert(m as nat == (-(num as int)) as nat);
            }
            let p = self.powu(m);
            let r = p.rdiv_real(1);
            proof {
                assert(r.leaves() == cd_powi(self.leaves(), num as int));
            }
            r
        } else {
            let r = self.powu(num as u32);
            proof {
                assert(r.leaves() == cd_powi(self.leaves(), num as int));
            }
            r
        }
    }

    fn sinh(&self) -> (r: Self) {
        let e = self.exp();
        let r1 = e.rdiv_real(1);
        proof {
            e.lemma_wf();
            r1.lemma_wf();
            lemma_div_real_fits(cd_sub(e.leaves(), r1.leaves()), 2);
        }
        let d = e.sub(&r1);
        let r = d.div_real(2);
        proof {
            assert(r.leaves() == cd_sinh(self.leaves()));
        }
        r
    }

    fn cosh(&self) -> (r: Self) {
        let e = self.exp();
        let r1 = e.rdiv_real(1);
        proof {
            e.lemma_wf();
            r1.lemma_wf();
            lemma_div_real_fits(crate::model::cd_add(e.leaves(), r1.leaves()), 2);
        }
        let d = e.add(&r1);
        let r = d.div_real(2);
        proof {
            assert(r.leaves() == cd_cosh(self.leaves()));
        }
        r
    }

    fn tanh(&self) -> (r: Self) {
        let e = self.exp();
        let e2 = e.mul(&e);
        proof {
            e2.lemma_wf();
        }
        let numer = e2.sub_real(1);
        let denom = e2.add_real(1);
        proof {
            numer.lemma_wf();
            denom.lemma_wf();
        }
        let r = numer.div(&denom);
        proof {
            assert(r.leaves() == cd_tanh(self.leaves()));
        }
        r
    }

    fn sin(&self) -> (r: Self) {
        let b = Self::i();
        proof {
            split_view(self);
            b.lemma_wf();
            lemma_leaf_count_pos(T::depth());
            assert(b.leaves() == cd_basis(self.leaves().len(), 1));
        }
        let iz = b.mul(self);
        let e = iz.exp();
        let r1 = e.rdiv_real(1);
        proof {
            e.lemma_wf();
            r1.lemma_wf();
            lemma_div_real_fits(cd_sub(e.leaves(), r1.leaves()), 2);
        }
        let d = e.sub(&r1);
        let h = d.div_real(2);
        let nb = b.neg();
        proof {
            h.lemma_wf();
            nb.lemma_wf();
        }
        let r = h.mul(&nb);
        proof {
            assert(r.leaves() == cd_sin(self.leaves()));
        }
        r
    }

    fn cos(&self) -> (r: Self) {
        let b = Self::i();
        proof {
            split_view(self);
            b.lemma_wf();
            lemma_leaf_count_pos(T::depth());
            assert(b.leaves() == cd_basis(self.leaves().len(), 1));
        }
        let iz = b.mul(self);
        let e = iz.exp();
        let r1 = e.rdiv_real(1);
        proof {
            e.lemma_wf();
            r1.lemma_wf();
            lemma_div_real_fits(crate::model::cd_add(e.leaves(), r1.leaves()), 2);
        }
        let d = e.add(&r1);
        let r = d.div_real(2);
        proof {
            assert(r.leaves() == cd_cos(self.leaves()));
        }
        r
    }

    fn tan(&self) -> (r: Self) {
        let b = Self::i();
        proof {
            split_view(self);
            b.lemma_wf();
            lemma_leaf_count_pos(T::depth());
            assert(b.leaves() == cd_basis(self.leaves().len(), 1));
        }
        let iz = b.mul(self);
        let e = iz.exp();
        let e2 = e.mul(&e);
        proof {
            e2.lemma_wf();
        }
        let numer = e2.sub_real(1);
        let be = b.mul(&e);
        let be2 = be.mul(&e);
        proof {
            numer.lemma_wf();
            be2.lemma_wf();
        }
        let denom = be2.add(&b);
        proof {
            denom.lemma_wf();
        }
        let r = numer.div(&denom);
        proof {
            assert(r.leaves() == cd_tan(self.leaves()));
        }
        r
    }
}

} // verus!
