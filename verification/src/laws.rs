//! The algebraic laws of the construction, stated and proved over the leaf
//! model.  Every exec operator is tied to the model by its `ensures`, so each
//! law here holds of the exec operators at every nesting depth.
use vstd::prelude::*;

use crate::model::{
    cd_abs_sq, cd_add, cd_conj, cd_div, cd_inv_real, cd_mul, cd_neg, cd_one, cd_powu,
    cd_powu_tail, cd_scalar, cd_sub, cd_zero, hi, is_po2, leaf_count, lemma_cd_mul_len, lo,
};
use crate::traits::Leaves;

verus! {

/// Conjugation is an involution: applying it twice gives the value back.
pub proof fn lemma_conj_involution(a: Seq<int>)
    ensures
        cd_conj(cd_conj(a)) == a,
{
    assert(cd_conj(cd_conj(a)) =~= a);
}

/// Negating a sequence negates its conjugate.
pub proof fn lemma_conj_neg(a: Seq<int>)
    ensures
        cd_conj(cd_neg(a)) == cd_neg(cd_conj(a)),
{
    assert(cd_conj(cd_neg(a)) =~= cd_neg(cd_conj(a)));
}

/// The conjugate splits at the middle into the conjugate of the first half
/// and the negation of the second half.
pub proof fn lemma_conj_split(a: Seq<int>)
    requires
        a.len() >= 2,
    ensures
        lo(cd_conj(a)) == cd_conj(lo(a)),
        hi(cd_conj(a)) == cd_neg(hi(a)),
{
    assert(lo(cd_conj(a)) =~= cd_conj(lo(a)));
    assert(hi(cd_conj(a)) =~= cd_neg(hi(a)));
}

/// A sequence is the concatenation of its halves.
pub proof fn lemma_lo_hi(a: Seq<int>)
    ensures
        lo(a) + hi(a) == a,
{
    assert(lo(a) + hi(a) =~= a);
}

/// Negation does not change the norm squared.
pub proof fn lemma_abs_sq_neg(a: Seq<int>)
    ensures
        cd_abs_sq(cd_neg(a)) == cd_abs_sq(a),
    decreases a.len(),
{
    if a.len() == 1 {
        assert((-a[0]) * (-a[0]) == a[0] * a[0]) by (nonlinear_arith);
    } else if a.len() > 1 {
        assert(lo(cd_neg(a)) =~= cd_neg(lo(a)));
        assert(hi(cd_neg(a)) =~= cd_neg(hi(a)));
        lemma_abs_sq_neg(lo(a));
        lemma_abs_sq_neg(hi(a));
    }
}

/// Conjugation does not change the norm squared: `abs_sq(conj(z)) == abs_sq(z)`.
pub proof fn lemma_abs_sq_conj(a: Seq<int>)
    ensures
        cd_abs_sq(cd_conj(a)) == cd_abs_sq(a),
    decreases a.len(),
{
    if a.len() <= 1 {
        assert(cd_conj(a) =~= a);
    } else {
        lemma_conj_split(a);
        lemma_abs_sq_conj(lo(a));
        lemma_abs_sq_neg(hi(a));
    }
}

/// Negating either factor negates the Cayley-Dickson product.
pub proof fn lemma_mul_neg(a: Seq<int>, b: Seq<int>)
    requires
        a.len() == b.len(),
        is_po2(a.len()),
    ensures
        cd_mul(cd_neg(a), b) == cd_neg(cd_mul(a, b)),
        cd_mul(a, cd_neg(b)) == cd_neg(cd_mul(a, b)),
    decreases a.len(),
{
    if a.len() <= 1 {
        assert((-a[0]) * b[0] == -(a[0] * b[0])) by (nonlinear_arith);
        assert(a[0] * (-b[0]) == -(a[0] * b[0])) by (nonlinear_arith);
        assert(cd_mul(cd_neg(a), b) =~= cd_neg(cd_mul(a, b)));
        assert(cd_mul(a, cd_neg(b)) =~= cd_neg(cd_mul(a, b)));
    } else {
        let a0 = lo(a);
        let a1 = hi(a);
        let b0 = lo(b);
        let b1 = hi(b);
        assert(lo(cd_neg(a)) =~= cd_neg(a0));
        assert(hi(cd_neg(a)) =~= cd_neg(a1));
        assert(lo(cd_neg(b)) =~= cd_neg(b0));
        assert(hi(cd_neg(b)) =~= cd_neg(b1));
        lemma_conj_neg(b1);
        lemma_conj_neg(b0);
        lemma_mul_neg(a0, b0);
        lemma_mul_neg(cd_conj(b1), a1);
        lemma_mul_neg(b1, a0);
        lemma_mul_neg(a1, cd_conj(b0));
        lemma_cd_mul_len(a0, b0);
        lemma_cd_mul_len(cd_conj(b1), a1);
        lemma_cd_mul_len(b1, a0);
        lemma_cd_mul_len(a1, cd_conj(b0));
        assert(cd_mul(cd_neg(a), b) =~= cd_neg(cd_mul(a, b)));
        assert(cd_mul(a, cd_neg(b)) =~= cd_neg(cd_mul(a, b)));
    }
}

/// Zero is absorbing for the Cayley-Dickson product on either side.
pub proof fn lemma_mul_zero(a: Seq<int>)
    requires
        is_po2(a.len()),
    ensures
        cd_mul(cd_zero(a.len()), a) == cd_zero(a.len()),
        cd_mul(a, cd_zero(a.len())) == cd_zero(a.len()),
    decreases a.len(),
{
    let n = a.len();
    if n <= 1 {
        assert(cd_mul(cd_zero(n), a) =~= cd_zero(n));
        assert(cd_mul(a, cd_zero(n)) =~= cd_zero(n));
    } else {
        let a0 = lo(a);
        let a1 = hi(a);
        assert(lo(cd_zero(n)) =~= cd_zero(n / 2));
        assert(hi(cd_zero(n)) =~= cd_zero(n / 2));
        assert(cd_conj(cd_zero(n / 2)) =~= cd_zero(n / 2));
        lemma_mul_zero(a0);
        lemma_mul_zero(a1);
        assert(cd_conj(a1).len() == a1.len());
        assert(cd_conj(a0).len() == a0.len());
        lemma_mul_zero(cd_conj(a1));
        lemma_mul_zero(cd_conj(a0));
        lemma_cd_mul_len(a0, cd_zero(n / 2));
        lemma_cd_mul_len(cd_zero(n / 2), a0);
        assert(cd_mul(cd_zero(n), a) =~= cd_zero(n));
        assert(cd_mul(a, cd_zero(n)) =~= cd_zero(n));
    }
}

/// One is the identity of the Cayley-Dickson product on either side.
#[verifier::rlimit(50)]
pub proof fn lemma_mul_one(a: Seq<int>)
    requires
        is_po2(a.len()),
    ensures
        cd_mul(a, cd_one(a.len())) == a,
        cd_mul(cd_one(a.len()), a) == a,
    decreases a.len(),
{
    let n = a.len();
    if n <= 1 {
        assert(cd_mul(a, cd_one(n)) =~= a);
        assert(cd_mul(cd_one(n), a) =~= a);
    } else {
        let a0 = lo(a);
        let a1 = hi(a);
        assert(lo(cd_one(n)) =~= cd_one(n / 2));
        assert(hi(cd_one(n)) =~= cd_zero(n / 2));
        assert(cd_conj(cd_one(n / 2)) =~= cd_one(n / 2));
        assert(cd_conj(cd_zero(n / 2)) =~= cd_zero(n / 2));
        lemma_mul_one(a0);
        lemma_mul_one(a1);
        lemma_mul_zero(a0);
        lemma_mul_zero(a1);
        assert(cd_conj(a1).len() == a1.len());
        assert(cd_conj(a0).len() == a0.len());
        lemma_mul_zero(cd_conj(a1));
        lemma_mul_zero(cd_conj(a0));
        lemma_cd_mul_len(a0, cd_one(n / 2));
        lemma_cd_mul_len(cd_one(n / 2), a0);
        lemma_lo_hi(a);
        // a * one: the real half keeps a0 and the imaginary half keeps a1
        assert(cd_mul(a0, lo(cd_one(n))) == a0);
        assert(cd_mul(cd_conj(hi(cd_one(n))), a1) == cd_zero(n / 2));
        assert(cd_sub(a0, cd_zero(n / 2)) =~= a0);
        assert(cd_mul(hi(cd_one(n)), a0) == cd_zero(n / 2));
        assert(cd_mul(a1, cd_conj(lo(cd_one(n)))) == a1);
        assert(cd_add(cd_zero(n / 2), a1) =~= a1);
        assert(cd_mul(a, cd_one(n)) == a0 + a1);
        // one * a: the same, with the roles mirrored
        assert(cd_mul(lo(cd_one(n)), a0) == a0);
        assert(cd_mul(cd_conj(a1), hi(cd_one(n))) == cd_zero(n / 2));
        assert(cd_mul(a1, lo(cd_one(n))) == a1);
        assert(cd_mul(hi(cd_one(n)), cd_conj(a0)) == cd_zero(n / 2));
        assert(cd_add(a1, cd_zero(n / 2)) =~= a1);
        assert(cd_mul(cd_one(n), a) == a0 + a1);
    }
}

/// At depth one and below the Cayley-Dickson product commutes; quaternions
/// and deeper algebras do not share this law.
pub proof fn lemma_mul_comm_low(a: Seq<int>, b: Seq<int>)
    requires
        a.len() == b.len(),
        a.len() <= 2,
    ensures
        cd_mul(a, b) == cd_mul(b, a),
{
    if a.len() <= 1 {
        assert forall|i: int| 0 <= i < a.len() implies a[i] * b[i] == b[i] * a[i] by {
            assert(a[i] * b[i] == b[i] * a[i]) by (nonlinear_arith);
        }
        assert(cd_mul(a, b) =~= cd_mul(b, a));
    } else {
        let a0 = lo(a);
        let a1 = hi(a);
        let b0 = lo(b);
        let b1 = hi(b);
        assert(a0.len() == 1 && a1.len() == 1 && b0.len() == 1 && b1.len() == 1);
        assert(cd_conj(a0) =~= a0);
        assert(cd_conj(a1) =~= a1);
        assert(cd_conj(b0) =~= b0);
        assert(cd_conj(b1) =~= b1);
        assert(a0[0] * b0[0] == b0[0] * a0[0]) by (nonlinear_arith);
        assert(b1[0] * a1[0] == a1[0] * b1[0]) by (nonlinear_arith);
        assert(b1[0] * a0[0] == a0[0] * b1[0]) by (nonlinear_arith);
        assert(a1[0] * b0[0] == b0[0] * a1[0]) by (nonlinear_arith);
        let mab = cd_mul(a, b);
        let mba = cd_mul(b, a);
        assert(cd_mul(a0, b0)[0] == a0[0] * b0[0]);
        assert(cd_mul(cd_conj(b1), a1)[0] == b1[0] * a1[0]);
        assert(cd_mul(b1, a0)[0] == b1[0] * a0[0]);
        assert(cd_mul(a1, cd_conj(b0))[0] == a1[0] * b0[0]);
        assert(mab[0] == a0[0] * b0[0] - b1[0] * a1[0]);
        assert(mab[1] == b1[0] * a0[0] + a1[0] * b0[0]);
        assert(cd_mul(b0, a0)[0] == b0[0] * a0[0]);
        assert(cd_mul(cd_conj(a1), b1)[0] == a1[0] * b1[0]);
        assert(cd_mul(a1, b0)[0] == a1[0] * b0[0]);
        assert(cd_mul(b1, cd_conj(a0))[0] == b1[0] * a0[0]);
        assert(mba[0] == b0[0] * a0[0] - a1[0] * b1[0]);
        assert(mba[1] == a1[0] * b0[0] + b1[0] * a0[0]);
        assert(mab =~= mba);
    }
}

/// The product of a value with its conjugate, on either side, is the purely
/// real value carrying the norm squared: the norm is real-valued.
pub proof fn lemma_mul_conj(a: Seq<int>)
    requires
        is_po2(a.len()),
    ensures
        cd_mul(a, cd_conj(a)) == cd_scalar(a.len(), cd_abs_sq(a)),
        cd_mul(cd_conj(a), a) == cd_scalar(a.len(), cd_abs_sq(a)),
    decreases a.len(),
{
    let n = a.len();
    if n <= 1 {
        assert(cd_conj(a) =~= a);
        assert(cd_mul(a, cd_conj(a)) =~= cd_scalar(n, cd_abs_sq(a)));
        assert(cd_mul(cd_conj(a), a) =~= cd_scalar(n, cd_abs_sq(a)));
    } else {
        let a0 = lo(a);
        let a1 = hi(a);
        let c = cd_conj(a);
        lemma_conj_split(a);
        lemma_mul_conj(a0);
        lemma_mul_conj(a1);
        lemma_conj_neg(a1);
        lemma_conj_involution(a0);
        assert(cd_conj(a1).len() == a1.len());
        lemma_mul_neg(cd_conj(a1), a1);
        lemma_mul_neg(a1, a0);
        lemma_mul_neg(a1, cd_conj(a0));
        lemma_cd_mul_len(a1, a0);
        lemma_cd_mul_len(a1, cd_conj(a0));
        // the first half: |a0|^2 + |a1|^2 at the real leaf, zero elsewhere
        assert(cd_mul(a0, lo(c)) == cd_scalar(n / 2, cd_abs_sq(a0)));
        assert(cd_mul(cd_conj(hi(c)), a1) == cd_neg(cd_scalar(n / 2, cd_abs_sq(a1)))) by {
            assert(cd_conj(hi(c)) == cd_conj(cd_neg(a1)));
            assert(cd_mul(cd_neg(cd_conj(a1)), a1) == cd_neg(cd_mul(cd_conj(a1), a1)));
        }
        assert(cd_sub(cd_scalar(n / 2, cd_abs_sq(a0)), cd_neg(cd_scalar(n / 2, cd_abs_sq(a1))))
            =~= cd_scalar(n / 2, cd_abs_sq(a)));
        // the second half cancels
        assert(cd_mul(hi(c), a0) == cd_neg(cd_mul(a1, a0)));
        assert(cd_mul(a1, cd_conj(lo(c))) == cd_mul(a1, a0));
        assert(cd_add(cd_neg(cd_mul(a1, a0)), cd_mul(a1, a0)) =~= cd_zero(n / 2));
        assert(cd_mul(a, c) == cd_scalar(n / 2, cd_abs_sq(a)) + cd_zero(n / 2));
        assert(cd_scalar(n / 2, cd_abs_sq(a)) + cd_zero(n / 2) =~= cd_scalar(n, cd_abs_sq(a)));
        // the mirrored product
        assert(cd_mul(lo(c), a0) == cd_scalar(n / 2, cd_abs_sq(a0)));
        assert(cd_mul(cd_conj(a1), cd_neg(a1)) == cd_neg(cd_mul(cd_conj(a1), a1)));
        assert(cd_sub(cd_scalar(n / 2, cd_abs_sq(a0)), cd_neg(cd_scalar(n / 2, cd_abs_sq(a1))))
            =~= cd_scalar(n / 2, cd_abs_sq(a)));
        assert(cd_mul(cd_neg(a1), cd_conj(a0)) == cd_neg(cd_mul(a1, cd_conj(a0))));
        assert(cd_add(cd_mul(a1, cd_conj(a0)), cd_neg(cd_mul(a1, cd_conj(a0)))) =~= cd_zero(
            n / 2,
        ));
        assert(cd_mul(c, a) == cd_scalar(n / 2, cd_abs_sq(a)) + cd_zero(n / 2));
    }
}

/// The non-real leaves of `z * conj(z)` are all zero, and the real leaf is
/// the norm squared.
pub proof fn lemma_norm_real(a: Seq<int>)
    requires
        is_po2(a.len()),
    ensures
        cd_mul(a, cd_conj(a))[0] == cd_abs_sq(a),
        forall|i: int| 1 <= i < a.len() ==> cd_mul(a, cd_conj(a))[i] == 0,
{
    lemma_mul_conj(a);
    assert forall|i: int| 1 <= i < a.len() implies cd_mul(a, cd_conj(a))[i] == 0 by {
        assert(cd_scalar(a.len(), cd_abs_sq(a))[i] == 0);
    }
}

/// A value of norm squared one divided by itself is one.
pub proof fn lemma_div_self(a: Seq<int>)
    requires
        is_po2(a.len()),
        cd_abs_sq(a) == 1,
    ensures
        cd_div(a, a) == cd_one(a.len()),
{
    let n = a.len();
    if n == 1 {
        assert(a[0] == 1 || a[0] == -1) by (nonlinear_arith)
            requires
                a[0] * a[0] == 1,
        ;
        assert(cd_div(a, a) =~= cd_one(1));
    } else {
        lemma_mul_conj(a);
        assert(cd_mul(a, cd_conj(a)) == cd_scalar(n, 1));
        assert(cd_scalar(n, 1) == cd_one(n));
        assert(cd_inv_real(cd_one(n)) =~= cd_one(n));
        lemma_mul_one(cd_one(n));
        assert(cd_div(a, a) == cd_mul(cd_one(n), cd_one(n)));
    }
}

/// At the level of values: conjugating a value twice gives the value itself.
/// The two hypotheses are exactly what `conj` ensures of its result.
pub proof fn lemma_conj_involution_value<T: Leaves>(z: &T, c: &T, cc: &T)
    requires
        c.leaves() == cd_conj(z.leaves()),
        cc.leaves() == cd_conj(c.leaves()),
    ensures
        cc == z,
{
    lemma_conj_involution(z.leaves());
    cc.lemma_leaves_inj(z);
}

/// At the level of values: the product of a value with its conjugate has
/// only zero non-real leaves, and carries the norm squared at the real leaf.
/// The hypothesis is exactly what `mul` and `conj` ensure of their results.
pub proof fn lemma_norm_real_value<T: Leaves>(z: &T, p: &T)
    requires
        p.leaves() == cd_mul(z.leaves(), cd_conj(z.leaves())),
    ensures
        p.leaves()[0] == cd_abs_sq(z.leaves()),
        forall|i: int| 1 <= i < p.leaves().len() ==> p.leaves()[i] == 0,
{
    z.lemma_wf();
    lemma_norm_real(z.leaves());
    lemma_cd_mul_len(z.leaves(), cd_conj(z.leaves()));
}

/// At the level of values: a value of norm squared one divided by itself is
/// the multiplicative identity.  The hypotheses are exactly what `div` and
/// `one` ensure of their results.
pub proof fn lemma_div_self_value<T: Leaves>(z: &T, q: &T, unit: &T)
    requires
        cd_abs_sq(z.leaves()) == 1,
        q.leaves() == cd_div(z.leaves(), z.leaves()),
        unit.leaves() == cd_one(leaf_count(T::depth())),
    ensures
        q == unit,
{
    z.lemma_wf();
    q.lemma_wf();
    lemma_div_self(z.leaves());
    q.lemma_leaves_inj(unit);
}

/// The zeroth power is one.
pub proof fn lemma_powu_zero(a: Seq<int>)
    ensures
        cd_powu(a, 0) == cd_one(a.len()),
{
}

/// For small exponents the binary exponentiation agrees with repeated
/// multiplication.
pub proof fn lemma_powu_small(a: Seq<int>)
    requires
        is_po2(a.len()),
    ensures
        cd_powu(a, 1) == a,
        cd_powu(a, 2) == cd_mul(a, a),
        cd_powu(a, 3) == cd_mul(cd_mul(a, a), a),
{
    let n = a.len();
    lemma_cd_mul_len(a, a);
    lemma_mul_one(a);
    lemma_mul_one(cd_mul(a, a));
    assert(cd_powu(a, 1) == cd_powu_tail(cd_mul(a, a), 0, cd_mul(a, cd_one(n))));
    assert(cd_powu(a, 2) == cd_powu_tail(cd_mul(a, a), 1, cd_one(n)));
    assert(cd_powu_tail(cd_mul(a, a), 1, cd_one(n)) == cd_powu_tail(
        cd_mul(cd_mul(a, a), cd_mul(a, a)),
        0,
        cd_mul(cd_mul(a, a), cd_one(n)),
    ));
    assert(cd_powu(a, 3) == cd_powu_tail(cd_mul(a, a), 1, cd_mul(a, cd_one(n))));
    assert(cd_powu_tail(cd_mul(a, a), 1, a) == cd_powu_tail(
        cd_mul(cd_mul(a, a), cd_mul(a, a)),
        0,
        cd_mul(cd_mul(a, a), a),
    ));
}

} // verus!
