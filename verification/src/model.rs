//! The mathematical model: a hypercomplex value is the flat sequence of its
//! integer leaves, and every operation of the library is specified by a
//! function on such sequences.  The Cayley-Dickson product and its companions
//! are defined here, together with the lemmas that relate them.
use vstd::prelude::*;

verus! {

/// `true` iff `x` fits in the 64-bit signed scalar.
pub open spec fn in_i64(x: int) -> bool {
    i64::MIN <= x <= i64::MAX
}

/// `true` iff every leaf fits in the 64-bit signed scalar.
pub open spec fn fits(a: Seq<int>) -> bool {
    forall|i: int| 0 <= i < a.len() ==> in_i64(#[trigger] a[i])
}

/// Number of scalar leaves of a value of the given nesting depth.
pub open spec fn leaf_count(d: nat) -> nat
    decreases d,
{
    if d == 0 {
        1
    } else {
        2 * leaf_count((d - 1) as nat)
    }
}

/// `true` iff `n` is a power of two, i.e. a possible number of leaves.
pub open spec fn is_po2(n: nat) -> bool
    decreases n,
{
    if n <= 1 {
        n == 1
    } else {
        n % 2 == 0 && is_po2(n / 2)
    }
}

/// First half of a leaf sequence: the leaves of the `re` component.
pub open spec fn lo(a: Seq<int>) -> Seq<int> {
    a.subrange(0, a.len() as int / 2)
}

/// Second half of a leaf sequence: the leaves of the `im` component.
pub open spec fn hi(a: Seq<int>) -> Seq<int> {
    a.subrange(a.len() as int / 2, a.len() as int)
}

pub proof fn lemma_leaf_count_pos(d: nat)
    ensures
        leaf_count(d) >= 1,
    decreases d,
{
    if d > 0 {
        lemma_leaf_count_pos((d - 1) as nat);
    }
}

pub proof fn lemma_leaf_count_po2(d: nat)
    ensures
        is_po2(leaf_count(d)),
    decreases d,
{
    if d == 0 {
    } else {
        lemma_leaf_count_po2((d - 1) as nat);
        lemma_leaf_count_pos((d - 1) as nat);
    }
}

/// Concatenating the halves of two equally long sequences splits back at the
/// middle.
pub proof fn lemma_halves(x: Seq<int>, y: Seq<int>)
    requires
        x.len() == y.len(),
    ensures
        lo(x + y) == x,
        hi(x + y) == y,
{
    assert(lo(x + y) =~= x);
    assert(hi(x + y) =~= y);
}

/// Componentwise sum.
pub open spec fn cd_add(a: Seq<int>, b: Seq<int>) -> Seq<int> {
    Seq::new(a.len(), |i: int| a[i] + b[i])
}

/// Componentwise difference.
pub open spec fn cd_sub(a: Seq<int>, b: Seq<int>) -> Seq<int> {
    Seq::new(a.len(), |i: int| a[i] - b[i])
}

/// Componentwise negation.
pub open spec fn cd_neg(a: Seq<int>) -> Seq<int> {
    Seq::new(a.len(), |i: int| -a[i])
}

/// Conjugation fixes the real leaf and negates every other leaf.
pub open spec fn cd_conj(a: Seq<int>) -> Seq<int> {
    Seq::new(a.len(), |i: int| if i == 0 { a[0] } else { -a[i] })
}

/// All leaves zero: the additive identity.
pub open spec fn cd_zero(n: nat) -> Seq<int> {
    Seq::new(n, |i: int| 0)
}

/// A purely real value: leaf 0 is `s`, every other leaf is zero.
pub open spec fn cd_scalar(n: nat, s: int) -> Seq<int> {
    Seq::new(n, |i: int| if i == 0 { s } else { 0 })
}

/// The multiplicative identity.
pub open spec fn cd_one(n: nat) -> Seq<int> {
    cd_scalar(n, 1)
}

/// The canonical basis element with a single one at leaf `k`.
pub open spec fn cd_basis(n: nat, k: int) -> Seq<int> {
    Seq::new(n, |i: int| if i == k { 1 } else { 0 })
}

/// Every leaf set to `x`.
pub open spec fn cd_fill(n: nat, x: int) -> Seq<int> {
    Seq::new(n, |i: int| x)
}

/// The Cayley-Dickson product:
/// `(a0, a1) * (b0, b1) = (a0 b0 - conj(b1) a1, b1 a0 + a1 conj(b0))`.
pub open spec fn cd_mul(a: Seq<int>, b: Seq<int>) -> Seq<int>
    decreases a.len(),
{
    if a.len() != b.len() || a.len() <= 1 {
        Seq::new(a.len(), |i: int| a[i] * b[i])
    } else {
        cd_sub(cd_mul(lo(a), lo(b)), cd_mul(cd_conj(hi(b)), hi(a))) + cd_add(
            cd_mul(hi(b), lo(a)),
            cd_mul(hi(a), cd_conj(lo(b))),
        )
    }
}

/// Sum of the squares of all leaves, by recursive bisection.
pub open spec fn cd_abs_sq(a: Seq<int>) -> int
    decreases a.len(),
{
    if a.len() == 0 {
        0
    } else if a.len() == 1 {
        a[0] * a[0]
    } else {
        cd_abs_sq(lo(a)) + cd_abs_sq(hi(a))
    }
}

/// Absolute value of an integer.
pub open spec fn abs_i(x: int) -> int {
    if x < 0 {
        -x
    } else {
        x
    }
}

/// Division truncated toward zero, as the integer scalar divides.
pub open spec fn tdiv(a: int, b: int) -> int {
    if (a < 0) != (b < 0) {
        -(abs_i(a) / abs_i(b))
    } else {
        abs_i(a) / abs_i(b)
    }
}

/// Reciprocal of a nonzero integer scalar, truncated toward zero.
pub open spec fn recip(x: int) -> int {
    if x == 1 {
        1
    } else if x == -1 {
        -1
    } else {
        0
    }
}

/// The real leaf replaced by its truncated reciprocal.
pub open spec fn cd_inv_real(a: Seq<int>) -> Seq<int> {
    a.update(0, recip(a[0]))
}

/// Adding a scalar touches only the real leaf.
pub open spec fn cd_add_real(a: Seq<int>, x: int) -> Seq<int> {
    a.update(0, a[0] + x)
}

/// Subtracting a scalar touches only the real leaf.
pub open spec fn cd_sub_real(a: Seq<int>, x: int) -> Seq<int> {
    a.update(0, a[0] - x)
}

/// Scalar minus value: the negation, with the scalar added to the real leaf.
pub open spec fn cd_rsub_real(a: Seq<int>, x: int) -> Seq<int> {
    cd_neg(a).update(0, x - a[0])
}

/// Multiplying by a scalar scales every leaf.
pub open spec fn cd_mul_real(a: Seq<int>, x: int) -> Seq<int> {
    Seq::new(a.len(), |i: int| a[i] * x)
}

/// Dividing by a scalar divides every leaf, truncated toward zero.
pub open spec fn cd_div_real(a: Seq<int>, x: int) -> Seq<int> {
    Seq::new(a.len(), |i: int| tdiv(a[i], x))
}

/// Scalar divided by value: `x / a = conj(a) * (x / abs_sq(a))`; at the
/// scalar itself it is the plain truncated division.
pub open spec fn cd_rdiv_real(a: Seq<int>, x: int) -> Seq<int> {
    if a.len() == 1 {
        seq![tdiv(x, a[0])]
    } else {
        cd_mul_real(cd_conj(a), tdiv(x, cd_abs_sq(a)))
    }
}

/// `true` iff no step of `x / a` leaves the scalar range and the divisor is
/// not zero.
pub open spec fn rdiv_ok(a: Seq<int>, x: int) -> bool {
    if a.len() == 1 {
        a[0] != 0 && in_i64(tdiv(x, a[0]))
    } else {
        &&& in_i64(cd_abs_sq(a))
        &&& cd_abs_sq(a) != 0
        &&& fits(cd_conj(a))
        &&& fits(cd_mul_real(cd_conj(a), tdiv(x, cd_abs_sq(a))))
    }
}

/// Value modulo scalar: `a % x = a - (a / x) * x`, with truncation the
/// identity on integer leaves.
pub open spec fn cd_rem_real(a: Seq<int>, x: int) -> Seq<int> {
    cd_sub(a, cd_mul_real(cd_div_real(a, x), x))
}

/// Scalar modulo value: `x % a = x - a * (x / a)`.
pub open spec fn cd_rrem_real(a: Seq<int>, x: int) -> Seq<int> {
    cd_rsub_real(cd_mul(a, cd_rdiv_real(a, x)), x)
}

/// The quotient `a / b = (a * conj(b)) * inv_real(b * conj(b))`: multiply by
/// the conjugate and scale by the truncated reciprocal of the norm squared.
/// At the scalar itself it is the plain truncated division.
pub open spec fn cd_div(a: Seq<int>, b: Seq<int>) -> Seq<int> {
    if a.len() == 1 && b.len() == 1 {
        seq![tdiv(a[0], b[0])]
    } else {
        cd_mul(cd_mul(a, cd_conj(b)), cd_inv_real(cd_mul(b, cd_conj(b))))
    }
}

/// The remainder convention `a % b = a - b * trunc(a / b)`, with truncation
/// the identity on integer leaves.
pub open spec fn cd_rem(a: Seq<int>, b: Seq<int>) -> Seq<int> {
    cd_sub(a, cd_mul(b, cd_div(a, b)))
}

/// `true` iff no step of the recursive Cayley-Dickson product of `a` and `b`
/// leaves the scalar range.
pub open spec fn mul_ok(a: Seq<int>, b: Seq<int>) -> bool
    decreases a.len(),
{
    if a.len() != b.len() {
        false
    } else if a.len() <= 1 {
        a.len() == 1 && in_i64(a[0] * b[0])
    } else {
        &&& mul_ok(lo(a), lo(b))
        &&& fits(cd_conj(hi(b)))
        &&& mul_ok(cd_conj(hi(b)), hi(a))
        &&& fits(cd_sub(cd_mul(lo(a), lo(b)), cd_mul(cd_conj(hi(b)), hi(a))))
        &&& mul_ok(hi(b), lo(a))
        &&& fits(cd_conj(lo(b)))
        &&& mul_ok(hi(a), cd_conj(lo(b)))
        &&& fits(cd_add(cd_mul(hi(b), lo(a)), cd_mul(hi(a), cd_conj(lo(b)))))
    }
}

/// `true` iff no step of the quotient `a / b` leaves the scalar range and the
/// norm squared of `b` is not zero.
pub open spec fn div_ok(a: Seq<int>, b: Seq<int>) -> bool {
    if a.len() == 1 && b.len() == 1 {
        b[0] != 0 && in_i64(tdiv(a[0], b[0]))
    } else {
        &&& fits(cd_conj(b))
        &&& mul_ok(a, cd_conj(b))
        &&& mul_ok(b, cd_conj(b))
        &&& cd_mul(b, cd_conj(b))[0] != 0
        &&& mul_ok(cd_mul(a, cd_conj(b)), cd_inv_real(cd_mul(b, cd_conj(b))))
    }
}

/// `true` iff no step of the remainder `a % b` leaves the scalar range.
pub open spec fn rem_ok(a: Seq<int>, b: Seq<int>) -> bool {
    &&& div_ok(a, b)
    &&& mul_ok(b, cd_div(a, b))
    &&& fits(cd_sub(a, cd_mul(b, cd_div(a, b))))
}

/// `true` iff no step of `a % x` leaves the scalar range.
pub open spec fn rem_real_ok(a: Seq<int>, x: int) -> bool {
    &&& x != 0
    &&& fits(cd_div_real(a, x))
    &&& fits(cd_mul_real(cd_div_real(a, x), x))
    &&& fits(cd_sub(a, cd_mul_real(cd_div_real(a, x), x)))
}

/// `true` iff no step of `x % a` leaves the scalar range.
pub open spec fn rrem_ok(a: Seq<int>, x: int) -> bool {
    &&& rdiv_ok(a, x)
    &&& mul_ok(a, cd_rdiv_real(a, x))
    &&& fits(cd_rsub_real(cd_mul(a, cd_rdiv_real(a, x)), x))
}

/// The unsigned power by binary exponentiation: the accumulator gathers the
/// product while the base is squared.
pub open spec fn cd_powu_tail(a: Seq<int>, n: nat, acc: Seq<int>) -> Seq<int>
    decreases n,
{
    if n == 0 {
        acc
    } else if n % 2 == 0 {
        cd_powu_tail(cd_mul(a, a), n / 2, acc)
    } else {
        cd_powu_tail(cd_mul(a, a), (n - 1) as nat / 2, cd_mul(a, acc))
    }
}

/// The unsigned power, starting the accumulator at one.
pub open spec fn cd_powu(a: Seq<int>, n: nat) -> Seq<int> {
    cd_powu_tail(a, n, cd_one(a.len()))
}

/// The value with its real leaf cleared: the non-real remainder.
pub open spec fn cd_im(a: Seq<int>) -> Seq<int> {
    a.update(0, 0)
}

/// Floor of the square root of a natural number.
pub open spec fn sqrt_floor(n: nat) -> nat
    decreases n,
{
    if n == 0 {
        0
    } else {
        let r = sqrt_floor((n - 1) as nat);
        if (r + 1) * (r + 1) <= n {
            r + 1
        } else {
            r
        }
    }
}

/// Powers of two over the integers; non-positive exponents give one.
pub open spec fn pow2i(n: int) -> int
    decreases n,
{
    if n <= 0 {
        1
    } else {
        2 * pow2i(n - 1)
    }
}

/// The integer scalar's exponential surrogate: the base-two power, truncated
/// to zero on negative arguments.
pub open spec fn s_exp(x: int) -> int {
    if x < 0 {
        0
    } else {
        pow2i(x)
    }
}

/// Floor of the base-two logarithm; arguments below two give zero.
pub open spec fn log2_floor(x: int) -> int
    decreases x,
{
    if x < 2 {
        0
    } else {
        1 + log2_floor(x / 2)
    }
}

/// The integer scalar's cosine surrogate: the argument counts quarter turns.
pub open spec fn s_cos(x: int) -> int {
    let m = x % 4;
    if m == 0 {
        1
    } else if m == 2 {
        -1
    } else {
        0
    }
}

/// The integer scalar's sine surrogate: the argument counts quarter turns.
pub open spec fn s_sin(x: int) -> int {
    let m = x % 4;
    if m == 1 {
        1
    } else if m == 3 {
        -1
    } else {
        0
    }
}

/// The integer scalar's arc cosine surrogate, in quarter turns.
pub open spec fn s_acos(x: int) -> int {
    if x == 1 {
        0
    } else if x == -1 {
        2
    } else {
        1
    }
}

/// The polar-style exponential: `exp(z) = exp(real(z)) * (cos t + u sin t)`,
/// where `w` is the non-real remainder, `t` its magnitude and `u` its unit
/// direction (zero when `t` is zero).
pub open spec fn cd_exp(a: Seq<int>) -> Seq<int> {
    let w = cd_im(a);
    let t = sqrt_floor(cd_abs_sq(w) as nat) as int;
    let u = if t == 0 {
        cd_zero(a.len())
    } else {
        cd_div_real(w, t)
    };
    cd_mul_real(cd_add_real(cd_mul_real(u, s_sin(t)), s_cos(t)), s_exp(a[0]))
}

/// `true` iff no step of the exponential leaves the scalar range.
pub open spec fn exp_ok(a: Seq<int>) -> bool {
    let w = cd_im(a);
    let t = sqrt_floor(cd_abs_sq(w) as nat) as int;
    let u = if t == 0 {
        cd_zero(a.len())
    } else {
        cd_div_real(w, t)
    };
    let s = cd_mul_real(u, s_sin(t));
    &&& in_i64(cd_abs_sq(w))
    &&& fits(s)
    &&& in_i64(s[0] + s_cos(t))
    &&& a[0] <= 62
    &&& fits(cd_mul_real(cd_add_real(s, s_cos(t)), s_exp(a[0])))
}

/// The polar-style logarithm: normalize by the magnitude, read the angle off
/// the real leaf, and point the angle along the non-real unit direction.
pub open spec fn cd_ln(a: Seq<int>) -> Seq<int> {
    let r = sqrt_floor(cd_abs_sq(a) as nat) as int;
    let nrm = cd_div_real(a, r);
    let theta = s_acos(nrm[0]);
    let w = cd_im(nrm);
    let m = sqrt_floor(cd_abs_sq(w) as nat) as int;
    let ie = if m == 0 {
        cd_zero(a.len())
    } else {
        cd_div_real(cd_mul_real(w, theta), m)
    };
    cd_add_real(ie, log2_floor(r))
}

/// `true` iff no step of the logarithm leaves the scalar range and the value
/// is not zero.
pub open spec fn ln_ok(a: Seq<int>) -> bool {
    let r = sqrt_floor(cd_abs_sq(a) as nat) as int;
    let nrm = cd_div_real(a, r);
    let w = cd_im(nrm);
    let theta = s_acos(nrm[0]);
    let m = sqrt_floor(cd_abs_sq(w) as nat) as int;
    let ie = if m == 0 {
        cd_zero(a.len())
    } else {
        cd_div_real(cd_mul_real(w, theta), m)
    };
    &&& in_i64(cd_abs_sq(a))
    &&& cd_abs_sq(a) >= 1
    &&& in_i64(cd_abs_sq(w))
    &&& fits(cd_mul_real(w, theta))
    &&& in_i64(ie[0] + log2_floor(r))
}

/// A value multiplied by a possibly shallower value: a single scalar
/// distributes into every leaf, anything else multiplies at equal depth.
pub open spec fn cd_mulm(b: Seq<int>, c: Seq<int>) -> Seq<int> {
    if c.len() == 1 && b.len() != 1 {
        cd_mul_real(b, c[0])
    } else {
        cd_mul(b, c)
    }
}

/// `true` iff the mixed product stays in the scalar range.
pub open spec fn mulm_ok(b: Seq<int>, c: Seq<int>) -> bool {
    if c.len() == 1 && b.len() != 1 {
        fits(cd_mul_real(b, c[0]))
    } else {
        mul_ok(b, c)
    }
}

/// A value raised to a real power: `exp(num * ln(z))`.
pub open spec fn cd_powf(a: Seq<int>, x: int) -> Seq<int> {
    cd_exp(cd_mul_real(cd_ln(a), x))
}

/// `true` iff no step of the real power leaves the scalar range.
pub open spec fn powf_ok(a: Seq<int>, x: int) -> bool {
    &&& ln_ok(a)
    &&& fits(cd_mul_real(cd_ln(a), x))
    &&& exp_ok(cd_mul_real(cd_ln(a), x))
}

/// A value raised to a hypercomplex power: `exp(num * ln(z))`.
pub open spec fn cd_powz(a: Seq<int>, b: Seq<int>) -> Seq<int> {
    cd_exp(cd_mulm(b, cd_ln(a)))
}

/// `true` iff no step of the hypercomplex power leaves the scalar range.
pub open spec fn powz_ok(a: Seq<int>, b: Seq<int>) -> bool {
    &&& ln_ok(a)
    &&& mulm_ok(b, cd_ln(a))
    &&& exp_ok(cd_mulm(b, cd_ln(a)))
}

/// `true` iff no step of the binary exponentiation leaves the scalar range.
pub open spec fn powu_tail_ok(a: Seq<int>, n: nat, acc: Seq<int>) -> bool
    decreases n,
{
    if n == 0 {
        true
    } else if n % 2 == 0 {
        mul_ok(a, a) && powu_tail_ok(cd_mul(a, a), n / 2, acc)
    } else {
        mul_ok(a, a) && mul_ok(a, acc) && powu_tail_ok(
            cd_mul(a, a),
            (n - 1) as nat / 2,
            cd_mul(a, acc),
        )
    }
}

/// `true` iff no step of the unsigned power leaves the scalar range.
pub open spec fn powu_ok(a: Seq<int>, n: nat) -> bool {
    powu_tail_ok(a, n, cd_one(a.len()))
}

/// The signed power: zero gives the additive identity by convention, a
/// negative power is the reciprocal of the positive one.
pub open spec fn cd_powi(a: Seq<int>, n: int) -> Seq<int> {
    if n == 0 {
        cd_zero(a.len())
    } else if n < 0 {
        cd_rdiv_real(cd_powu(a, (-n) as nat), 1)
    } else {
        cd_powu(a, n as nat)
    }
}

/// `true` iff no step of the signed power leaves the scalar range.
pub open spec fn powi_ok(a: Seq<int>, n: int) -> bool {
    if n == 0 {
        true
    } else if n < 0 {
        powu_ok(a, (-n) as nat) && rdiv_ok(cd_powu(a, (-n) as nat), 1)
    } else {
        powu_ok(a, n as nat)
    }
}

/// The hyperbolic sine `(exp(z) - 1/exp(z)) / 2`, halving by truncation.
pub open spec fn cd_sinh(a: Seq<int>) -> Seq<int> {
    let e = cd_exp(a);
    cd_div_real(cd_sub(e, cd_rdiv_real(e, 1)), 2)
}

/// `true` iff no step of the hyperbolic sine leaves the scalar range.
pub open spec fn sinh_ok(a: Seq<int>) -> bool {
    let e = cd_exp(a);
    &&& exp_ok(a)
    &&& rdiv_ok(e, 1)
    &&& fits(cd_sub(e, cd_rdiv_real(e, 1)))
}

/// The hyperbolic cosine `(exp(z) + 1/exp(z)) / 2`, halving by truncation.
pub open spec fn cd_cosh(a: Seq<int>) -> Seq<int> {
    let e = cd_exp(a);
    cd_div_real(cd_add(e, cd_rdiv_real(e, 1)), 2)
}

/// `true` iff no step of the hyperbolic cosine leaves the scalar range.
pub open spec fn cosh_ok(a: Seq<int>) -> bool {
    let e = cd_exp(a);
    &&& exp_ok(a)
    &&& rdiv_ok(e, 1)
    &&& fits(cd_add(e, cd_rdiv_real(e, 1)))
}

/// The hyperbolic tangent `(exp(z)^2 - 1) / (exp(z)^2 + 1)`.
pub open spec fn cd_tanh(a: Seq<int>) -> Seq<int> {
    let e = cd_exp(a);
    let e2 = cd_mul(e, e);
    cd_div(cd_sub_real(e2, 1), cd_add_real(e2, 1))
}

/// `true` iff no step of the hyperbolic tangent leaves the scalar range.
pub open spec fn tanh_ok(a: Seq<int>) -> bool {
    let e = cd_exp(a);
    let e2 = cd_mul(e, e);
    &&& exp_ok(a)
    &&& mul_ok(e, e)
    &&& in_i64(e2[0] - 1)
    &&& in_i64(e2[0] + 1)
    &&& div_ok(cd_sub_real(e2, 1), cd_add_real(e2, 1))
}

/// The sine, through the exponential of `i * z` at the value's own depth:
/// `(exp(iz) - 1/exp(iz)) / 2 * (-i)`.
pub open spec fn cd_sin(a: Seq<int>) -> Seq<int> {
    let b = cd_basis(a.len(), 1);
    let e = cd_exp(cd_mul(b, a));
    let h = cd_div_real(cd_sub(e, cd_rdiv_real(e, 1)), 2);
    cd_mul(h, cd_neg(b))
}

/// `true` iff no step of the sine leaves the scalar range.
pub open spec fn sin_ok(a: Seq<int>) -> bool {
    let b = cd_basis(a.len(), 1);
    let e = cd_exp(cd_mul(b, a));
    let h = cd_div_real(cd_sub(e, cd_rdiv_real(e, 1)), 2);
    &&& mul_ok(b, a)
    &&& exp_ok(cd_mul(b, a))
    &&& rdiv_ok(e, 1)
    &&& fits(cd_sub(e, cd_rdiv_real(e, 1)))
    &&& fits(cd_neg(b))
    &&& mul_ok(h, cd_neg(b))
}

/// The cosine, through the exponential of `i * z` at the value's own depth:
/// `(exp(iz) + 1/exp(iz)) / 2`.
pub open spec fn cd_cos(a: Seq<int>) -> Seq<int> {
    let b = cd_basis(a.len(), 1);
    let e = cd_exp(cd_mul(b, a));
    cd_div_real(cd_add(e, cd_rdiv_real(e, 1)), 2)
}

/// `true` iff no step of the cosine leaves the scalar range.
pub open spec fn cos_ok(a: Seq<int>) -> bool {
    let b = cd_basis(a.len(), 1);
    let e = cd_exp(cd_mul(b, a));
    &&& mul_ok(b, a)
    &&& exp_ok(cd_mul(b, a))
    &&& rdiv_ok(e, 1)
    &&& fits(cd_add(e, cd_rdiv_real(e, 1)))
}

/// The tangent `(exp(iz)^2 - 1) / (i * exp(iz)^2 + i)`.
pub open spec fn cd_tan(a: Seq<int>) -> Seq<int> {
    let b = cd_basis(a.len(), 1);
    let e = cd_exp(cd_mul(b, a));
    let e2 = cd_mul(e, e);
    let den = cd_add(cd_mul(cd_mul(b, e), e), b);
    cd_div(cd_sub_real(e2, 1), den)
}

/// `true` iff no step of the tangent leaves the scalar range.
pub open spec fn tan_ok(a: Seq<int>) -> bool {
    let b = cd_basis(a.len(), 1);
    let e = cd_exp(cd_mul(b, a));
    let e2 = cd_mul(e, e);
    let den = cd_add(cd_mul(cd_mul(b, e), e), b);
    &&& mul_ok(b, a)
    &&& exp_ok(cd_mul(b, a))
    &&& mul_ok(e, e)
    &&& in_i64(e2[0] - 1)
    &&& mul_ok(b, e)
    &&& mul_ok(cd_mul(b, e), e)
    &&& fits(cd_add(cd_mul(cd_mul(b, e), e), b))
    &&& div_ok(cd_sub_real(e2, 1), den)
}

/// The halves of a sequence whose leaves all fit also have fitting leaves.
pub proof fn lemma_fits_parts(x: Seq<int>)
    requires
        fits(x),
    ensures
        fits(lo(x)),
        fits(hi(x)),
{
    assert forall|i: int| 0 <= i < lo(x).len() implies in_i64(#[trigger] lo(x)[i]) by {
        assert(lo(x)[i] == x[i]);
    }
    assert forall|i: int| 0 <= i < hi(x).len() implies in_i64(#[trigger] hi(x)[i]) by {
        assert(hi(x)[i] == x[x.len() as int / 2 + i]);
    }
}

/// The Cayley-Dickson product of two equally long sequences is as long as
/// either of them.
pub proof fn lemma_cd_mul_len(a: Seq<int>, b: Seq<int>)
    requires
        a.len() == b.len(),
        is_po2(a.len()),
    ensures
        cd_mul(a, b).len() == a.len(),
    decreases a.len(),
{
    if a.len() > 1 {
        lemma_cd_mul_len(lo(a), lo(b));
        lemma_cd_mul_len(cd_conj(hi(b)), hi(a));
        lemma_cd_mul_len(hi(b), lo(a));
        lemma_cd_mul_len(hi(a), cd_conj(lo(b)));
    }
}

/// The norm squared is never negative.
pub proof fn lemma_abs_sq_nonneg(a: Seq<int>)
    ensures
        cd_abs_sq(a) >= 0,
    decreases a.len(),
{
    if a.len() == 1 {
        assert(a[0] * a[0] >= 0) by (nonlinear_arith);
    } else if a.len() > 1 {
        lemma_abs_sq_nonneg(lo(a));
        lemma_abs_sq_nonneg(hi(a));
    }
}

/// The floor square root is characterized by its two bounds.
pub proof fn lemma_sqrt_floor(n: nat)
    ensures
        sqrt_floor(n) * sqrt_floor(n) <= n,
        (sqrt_floor(n) + 1) * (sqrt_floor(n) + 1) > n,
    decreases n,
{
    if n == 0 {
        assert(sqrt_floor(n) == 0);
        assert((sqrt_floor(n) + 1) * (sqrt_floor(n) + 1) == 1) by (nonlinear_arith)
            requires
                sqrt_floor(n) == 0,
        ;
    } else {
        lemma_sqrt_floor((n - 1) as nat);
        let r = sqrt_floor((n - 1) as nat);
        assert(r * r <= n - 1);
        assert((r + 1) * (r + 1) > n - 1);
        if (r + 1) * (r + 1) <= n {
            assert(sqrt_floor(n) == r + 1);
            assert((r + 1) * (r + 1) <= n);
            assert(n <= (r + 1) * (r + 1));
            assert((r + 1 + 1) * (r + 1 + 1) > n) by (nonlinear_arith)
                requires
                    n <= (r + 1) * (r + 1),
            ;
            assert((sqrt_floor(n) + 1) * (sqrt_floor(n) + 1) > n);
        } else {
            assert(sqrt_floor(n) == r);
            assert(sqrt_floor(n) * sqrt_floor(n) <= n);
            assert((sqrt_floor(n) + 1) * (sqrt_floor(n) + 1) > n);
        }
    }
}

/// Only one natural number satisfies the floor square root bounds.
pub proof fn lemma_sqrt_floor_unique(n: nat, r: int)
    requires
        r >= 0,
        r * r <= n,
        (r + 1) * (r + 1) > n,
    ensures
        r == sqrt_floor(n),
{
    lemma_sqrt_floor(n);
    let s = sqrt_floor(n) as int;
    if r < s {
        assert((r + 1) * (r + 1) <= s * s) by (nonlinear_arith)
            requires
                0 <= r + 1 <= s,
        ;
    }
    if r > s {
        assert((s + 1) * (s + 1) <= r * r) by (nonlinear_arith)
            requires
                0 <= s + 1 <= r,
        ;
    }
}

/// Powers of two are positive.
pub proof fn lemma_pow2i_pos(n: int)
    ensures
        pow2i(n) >= 1,
    decreases n,
{
    if n > 0 {
        lemma_pow2i_pos(n - 1);
    }
}

/// Powers of two grow with the exponent.
pub proof fn lemma_pow2i_mono(m: int, n: int)
    requires
        m <= n,
    ensures
        pow2i(m) <= pow2i(n),
    decreases n,
{
    if m < n && n > 0 {
        lemma_pow2i_mono(m, n - 1);
        lemma_pow2i_pos(n - 1);
    }
}

/// Up to the exponent 62 the power of two fits in the scalar.
pub proof fn lemma_pow2i_bound(n: int)
    requires
        n <= 62,
    ensures
        pow2i(n) <= 0x4000000000000000,
        pow2i(62) == 0x4000000000000000,
{
    lemma_pow2i_mono(n, 62);
    assert(pow2i(0) == 1);
    assert(pow2i(1) == 2);
    lemma_pow2i_add(1, 1);
    assert(pow2i(2) == 4);
    lemma_pow2i_add(2, 2);
    assert(pow2i(4) == 16);
    lemma_pow2i_add(4, 4);
    assert(pow2i(8) == 256);
    lemma_pow2i_add(8, 8);
    assert(pow2i(16) == 65536);
    lemma_pow2i_add(16, 16);
    assert(pow2i(32) == 0x100000000);
    lemma_pow2i_add(32, 16);
    assert(pow2i(48) == 0x1000000000000);
    lemma_pow2i_add(48, 8);
    assert(pow2i(56) == 0x100000000000000);
    lemma_pow2i_add(56, 4);
    assert(pow2i(60) == 0x1000000000000000);
    lemma_pow2i_add(60, 2);
    assert(pow2i(62) == 0x4000000000000000);
}

/// Powers of two turn sums of exponents into products.
pub proof fn lemma_pow2i_add(a: int, b: int)
    requires
        a >= 0,
        b >= 0,
    ensures
        pow2i(a + b) == pow2i(a) * pow2i(b),
    decreases b,
{
    if b == 0 {
        assert(pow2i(a) * 1 == pow2i(a)) by (nonlinear_arith);
    } else {
        lemma_pow2i_add(a, b - 1);
        assert(2 * (pow2i(a) * pow2i(b - 1)) == pow2i(a) * (2 * pow2i(b - 1))) by (
        nonlinear_arith);
    }
}

/// Dividing every leaf by a nonzero scalar keeps every leaf in range.
pub proof fn lemma_div_real_fits(a: Seq<int>, x: int)
    requires
        fits(a),
        x > 0,
    ensures
        fits(cd_div_real(a, x)),
{
    assert forall|i: int| 0 <= i < a.len() implies in_i64(#[trigger] cd_div_real(a, x)[i]) by {
        lemma_tdiv_bound(a[i], x);
    }
}

/// A truncated quotient is no larger in magnitude than its dividend; in
/// particular it fits whenever the dividend does.
pub proof fn lemma_tdiv_bound(a: int, b: int)
    requires
        b != 0,
    ensures
        abs_i(tdiv(a, b)) <= abs_i(a),
        b > 0 && a >= 0 ==> tdiv(a, b) >= 0,
        b > 0 && a < 0 ==> tdiv(a, b) <= 0,
{
    assert(abs_i(a) / abs_i(b) <= abs_i(a) && abs_i(a) / abs_i(b) >= 0) by (nonlinear_arith)
        requires
            abs_i(b) >= 1,
            abs_i(a) >= 0,
    ;
}

} // verus!
