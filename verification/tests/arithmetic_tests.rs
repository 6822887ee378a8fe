use complex::{Algebra, Complex, Fill, Functions, Identity};

type C = Complex<i64>;
type Q = Complex<Complex<i64>>;
type O = Complex<Complex<Complex<i64>>>;

fn q4(a: i64, b: i64, c: i64, d: i64) -> Q {
    Complex::new(Complex::new(a, b), Complex::new(c, d))
}

fn o8(v: [i64; 8]) -> O {
    O::from_slice(&v).unwrap()
}

#[test]
fn test_add_two_complexf32() {
    let z1 = C::new(1, 2);
    let z2 = C::new(2, 3);
    assert_eq!(z1.add(&z2), C::new(3, 5));
    assert_eq!(z2.add(&z1), C::new(3, 5));
    assert_eq!(z1.add(&z2), z2.add(&z1));
    assert_eq!(C::new(1, 2).add(&C::new(2, 3)), C::new(3, 5));
}

#[test]
fn test_add_complexf32_and_f32() {
    let z1 = C::new(1, 2);
    assert_eq!(z1.add_real(3), C::new(4, 2));
    assert_eq!(z1.add_real(3), C::new(4, 2));
    assert_eq!(z1.add_real(0), z1);
    assert_eq!(z1.add_real(-3), C::new(-2, 2));
}

#[test]
fn test_sub_two_complexf32() {
    let z1 = C::new(1, 2);
    let z2 = C::new(2, 3);
    assert_eq!(z1.sub(&z2), C::new(-1, -1));
    assert_eq!(z2.sub(&z1), C::new(1, 1));
    assert_eq!(z1.sub(&z1), C::zero());
    assert_eq!(z1.sub(&z2).neg(), z2.sub(&z1));
}

#[test]
fn test_sub_complexf32_and_f32() {
    let z1 = C::new(1, 2);
    assert_eq!(z1.sub_real(3), C::new(-2, 2));
    assert_eq!(z1.rsub_real(3), C::new(2, -2));
    assert_eq!(z1.sub_real(0), z1);
    assert_eq!(z1.rsub_real(0), z1.neg());
}

#[test]
fn test_mul_two_complexf32() {
    let z1 = C::new(1, 2);
    let z2 = C::new(1, -2);
    assert_eq!(z1.mul(&z2), C::new(5, 0));
    assert_eq!(z2.mul(&z1), C::new(5, 0));
    assert_eq!(z1.mul(&C::one()), z1);
    assert_eq!(C::one().mul(&z1), z1);
}

#[test]
fn test_mul_complexf32_and_f32() {
    let z1 = C::new(1, 2);
    assert_eq!(z1.mul_real(3), C::new(3, 6));
    assert_eq!(z1.mul_real(1), z1);
    assert_eq!(z1.mul_real(0), C::zero());
    assert_eq!(z1.mul_real(-3), C::new(-3, -6));
}

#[test]
fn test_div_two_complexf32() {
    let z1 = C::new(0, 1);
    let z2 = C::new(0, 1);
    assert_eq!(z1.div(&z2), C::new(1, 0));
    assert_eq!(z1.div(&z2), C::one());
}

#[test]
fn test_div_complexf32_and_f32() {
    let z1 = C::new(1, 1);
    assert_eq!(z1.div_real(2), C::new(0, 0));
    assert_eq!(z1.rdiv_real(2), C::new(1, -1));
    assert_eq!(C::new(4, 2).div_real(2), C::new(2, 1));
    assert_eq!(C::new(-4, 2).div_real(2), C::new(-2, 1));
}

#[test]
fn test_neg_complexf32() {
    let z1 = C::new(1, -2);
    assert_eq!(z1.neg(), C::new(-1, 2));
    assert_eq!(z1.neg().neg(), z1);
}

#[test]
fn test_exp_complexf32() {
    let z1 = C::new(0, 1);
    assert_eq!(z1.exp(), C::new(0, 1));
    assert_eq!(C::new(0, 2).exp(), C::new(-1, 0));
}

#[test]
fn test_add_two_quaternionsf32() {
    let z1 = q4(1, 2, 3, 4);
    let z2 = q4(2, 3, 4, 5);
    assert_eq!(z1.add(&z2), q4(3, 5, 7, 9));
    assert_eq!(z2.add(&z1), q4(3, 5, 7, 9));
    assert_eq!(z1.add(&Q::zero()), z1);
}

#[test]
fn test_add_quaternionf32_and_f32() {
    let z1 = q4(2, -1, 3, 4);
    assert_eq!(z1.add_real(3), q4(5, -1, 3, 4));
    assert_eq!(z1.add_real(0), z1);
    assert_eq!(z1.add_real(-2), q4(0, -1, 3, 4));
}

#[test]
fn test_sub_two_quaternionf32() {
    let z1 = q4(1, 2, 3, 4);
    let z2 = q4(2, 3, 4, 5);
    assert_eq!(z1.sub(&z2), q4(-1, -1, -1, -1));
    assert_eq!(z2.sub(&z1), q4(1, 1, 1, 1));
    assert_eq!(z1.sub(&z1), Q::zero());
}

#[test]
fn test_sub_quaternionf32_and_f32() {
    let z1 = q4(1, 2, 3, 4);
    assert_eq!(z1.sub_real(3), q4(-2, 2, 3, 4));
    assert_eq!(z1.rsub_real(3), q4(2, -2, -3, -4));
}

#[test]
fn test_mul_two_quaternionf32() {
    let z1 = q4(1, 0, 2, 3);
    let z2 = q4(1, 0, -2, -3);
    assert_eq!(z1.mul(&z2), q4(14, 0, 0, 0));
    assert_eq!(z2.mul(&z1), q4(14, 0, 0, 0));
}

#[test]
fn test_commutator_two_quaternionf32() {
    let z1 = q4(1, -1, 1, 1);
    let z2 = q4(1, 1, 1, -1);
    assert_eq!(z1.mul(&z2).sub(&z2.mul(&z1)), q4(0, -4, 0, -4));
}

#[test]
fn test_mul_quaternionf32_and_f32() {
    let z1 = q4(1, 2, 3, 4);
    assert_eq!(z1.mul_real(3), q4(3, 6, 9, 12));
    assert_eq!(z1.mul_real(1), z1);
    assert_eq!(z1.mul_real(0), Q::zero());
}

#[test]
fn test_div_two_quaternionf32() {
    let z1 = q4(0, 1, 0, 0);
    let z2 = q4(0, 1, 0, 0);
    assert_eq!(z1.div(&z2), q4(1, 0, 0, 0));
    assert_eq!(z1.div(&z2), Q::one());
}

#[test]
fn test_div_quaternionf32_and_f32() {
    let z1 = q4(1, 1, 1, 1);
    assert_eq!(z1.div_real(2), q4(0, 0, 0, 0));
    assert_eq!(z1.rdiv_real(2), q4(0, 0, 0, 0));
    assert_eq!(q4(2, 4, 6, 8).div_real(2), q4(1, 2, 3, 4));
}

#[test]
fn test_neg_quaternionf32() {
    let z1 = q4(1, -2, 3, -4);
    assert_eq!(z1.neg(), q4(-1, 2, -3, 4));
    assert_eq!(z1.neg().neg(), z1);
}

#[test]
fn test_add_two_octonionsf32() {
    let z1 = o8([1, 2, 3, 4, 1, 2, 3, 4]);
    let z2 = o8([2, 3, 4, 5, -1, -2, -3, -4]);
    assert_eq!(z1.add(&z2), o8([3, 5, 7, 9, 0, 0, 0, 0]));
    assert_eq!(z2.add(&z1), o8([3, 5, 7, 9, 0, 0, 0, 0]));
}

#[test]
fn test_add_octonionf32_and_f32() {
    let z1 = o8([2, -1, 3, 4, 2, -1, 3, 4]);
    assert_eq!(z1.add_real(3), o8([5, -1, 3, 4, 2, -1, 3, 4]));
    assert_eq!(z1.add_real(0), z1);
}

#[test]
fn test_sub_two_octonionf32() {
    let z1 = o8([1, 2, 3, 4, 1, 2, 3, 4]);
    let z2 = o8([2, 3, 4, 5, 1, 2, 3, 4]);
    assert_eq!(z1.sub(&z2), o8([-1, -1, -1, -1, 0, 0, 0, 0]));
    assert_eq!(z2.sub(&z1), o8([1, 1, 1, 1, 0, 0, 0, 0]));
    assert_eq!(z1.sub(&z1), O::zero());
}

#[test]
fn test_sub_octonionf32_and_f32() {
    let z1 = o8([1, 2, 3, 4, 1, 2, 3, 4]);
    assert_eq!(z1.sub_real(3), o8([-2, 2, 3, 4, 1, 2, 3, 4]));
    assert_eq!(z1.rsub_real(3), o8([2, -2, -3, -4, -1, -2, -3, -4]));
}

#[test]
fn test_mul_two_octonionf32() {
    let z1 = o8([1, 0, 2, 3, 2, 0, 1, 3]);
    let z2 = o8([1, 0, -2, -3, -2, 0, -1, -3]);
    assert_eq!(z1.mul(&z2), o8([28, 0, 0, 0, 0, 0, 0, 0]));
}

#[test]
fn test_commutator_two_octonionf32() {
    let z1 = o8([1, -1, 1, 1, 0, 0, 0, 0]);
    let z2 = o8([1, 1, 1, -1, 0, 0, 0, 0]);
    assert_eq!(
        z1.mul(&z2).sub(&z2.mul(&z1)),
        o8([0, -4, 0, -4, 0, 0, 0, 0])
    );
}

#[test]
fn test_associator_two_octonionf32() {
    let z1 = o8([1, -1, 1, 1, 0, 1, 0, 0]);
    let z2 = o8([1, 1, 1, -1, 0, 0, 0, 1]);
    let z3 = o8([1, 1, -1, 1, 0, 0, 1, 0]);
    assert_ne!(
        z1.mul(&z2).mul(&z3).sub(&z1.mul(&z2.mul(&z3))),
        O::zero(),
        "General associator for octonions is non-zero."
    );
}

#[test]
fn test_mul_octonionf32_and_f32() {
    let z1 = o8([1, 2, 3, 4, 1, 2, 3, 4]);
    assert_eq!(z1.mul_real(3), o8([3, 6, 9, 12, 3, 6, 9, 12]));
    assert_eq!(z1.mul_real(1), z1);
    assert_eq!(z1.mul_real(0), O::zero());
}

#[test]
fn test_div_two_octonionf32() {
    let z1 = o8([0, 1, 0, 0, 0, 0, 0, 0]);
    let z2 = o8([0, 1, 0, 0, 0, 0, 0, 0]);
    assert_eq!(z1.div(&z2), O::one());
}

#[test]
fn test_div_octonionf32_and_f32() {
    let z1 = o8([1, 1, 1, 1, 1, 1, 1, 1]);
    assert_eq!(z1.div_real(2), O::zero());
    assert_eq!(z1.rdiv_real(2), O::zero());
    assert_eq!(o8([2, 4, 6, 8, 2, 4, 6, 8]).div_real(2), o8([1, 2, 3, 4, 1, 2, 3, 4]));
}

#[test]
fn test_neg_octonionf32() {
    let z1 = o8([1, -2, 3, -4, 1, -2, 3, -4]);
    assert_eq!(z1.neg(), o8([-1, 2, -3, 4, -1, 2, -3, 4]));
    assert_eq!(z1.neg().neg(), z1);
}

#[test]
fn test_add_two_complexf64() {
    let z1 = C::new(1, 2);
    let z2 = C::new(2, 3);
    assert_eq!(z1.add(&z2), C::new(3, 5));
    assert_eq!(z2.add(&z1), C::new(3, 5));
}

#[test]
fn test_add_complexf64_and_f64() {
    let z1 = C::new(1, 2);
    assert_eq!(z1.add_real(3), C::new(4, 2));
    assert_eq!(z1.add_real(-1), C::new(0, 2));
}

#[test]
fn test_sub_two_complexf64() {
    let z1 = C::new(1, 2);
    let z2 = C::new(2, 3);
    assert_eq!(z1.sub(&z2), C::new(-1, -1));
    assert_eq!(z2.sub(&z1), C::new(1, 1));
}

#[test]
fn test_sub_complexf64_and_f64() {
    let z1 = C::new(1, 2);
    assert_eq!(z1.sub_real(3), C::new(-2, 2));
    assert_eq!(z1.rsub_real(3), C::new(2, -2));
}

#[test]
fn test_mul_two_complexf64() {
    let z1 = C::new(1, 2);
    let z2 = C::new(1, -2);
    assert_eq!(z1.mul(&z2), C::new(5, 0));
    assert_eq!(z2.mul(&z1), C::new(5, 0));
}

#[test]
fn test_mul_complexf64_and_f64() {
    let z1 = C::new(1, 2);
    assert_eq!(z1.mul_real(3), C::new(3, 6));
    assert_eq!(z1.mul_real(-1), z1.neg());
}

#[test]
fn test_div_two_complexf64() {
    let z1 = C::new(1, 0);
    let z2 = C::new(1, 0);
    assert_eq!(z1.div(&z2), C::one());
}

#[test]
fn test_div_complexf64_and_f64() {
    let z1 = C::new(1, 1);
    assert_eq!(z1.div_real(2), C::new(0, 0));
    assert_eq!(z1.rdiv_real(2), C::new(1, -1));
}

#[test]
fn test_neg_complexf64() {
    let z1 = C::new(1, -2);
    assert_eq!(z1.neg(), C::new(-1, 2));
}

#[test]
fn test_exp_complexf64() {
    let z1 = C::new(0, 1);
    assert_eq!(z1.exp(), C::new(0, 1));
    assert_eq!(C::new(1, 0).exp(), C::new(2, 0));
}

#[test]
fn test_add_two_quaternionsf64() {
    let z1 = q4(1, 2, 3, 4);
    let z2 = q4(2, 3, 4, 5);
    assert_eq!(z1.add(&z2), q4(3, 5, 7, 9));
}

#[test]
fn test_add_quaternionf64_and_f64() {
    let z1 = q4(2, -1, 3, 4);
    assert_eq!(z1.add_real(3), q4(5, -1, 3, 4));
}

#[test]
fn test_sub_two_quaternionf64() {
    let z1 = q4(1, 2, 3, 4);
    let z2 = q4(2, 3, 4, 5);
    assert_eq!(z1.sub(&z2), q4(-1, -1, -1, -1));
    assert_eq!(z2.sub(&z1), q4(1, 1, 1, 1));
}

#[test]
fn test_sub_quaternionf64_and_f64() {
    let z1 = q4(1, 2, 3, 4);
    assert_eq!(z1.sub_real(3), q4(-2, 2, 3, 4));
    assert_eq!(z1.rsub_real(3), q4(2, -2, -3, -4));
}

#[test]
fn test_mul_two_quaternionf64() {
    let z1 = q4(1, 0, 2, 3);
    let z2 = q4(1, 0, -2, -3);
    assert_eq!(z1.mul(&z2), q4(14, 0, 0, 0));
}

#[test]
fn test_commutator_two_quaternionf64() {
    let z1 = q4(1, -1, 1, 1);
    let z2 = q4(1, 1, 1, -1);
    assert_eq!(z1.mul(&z2).sub(&z2.mul(&z1)), q4(0, -4, 0, -4));
}

#[test]
fn test_mul_quaternionf64_and_f64() {
    let z1 = q4(1, 2, 3, 4);
    assert_eq!(z1.mul_real(3), q4(3, 6, 9, 12));
}

#[test]
fn test_div_two_quaternionf64() {
    let z1 = q4(0, 0, 1, 0);
    assert_eq!(z1.div(&z1), Q::one());
}

#[test]
fn test_div_quaternionf64_and_f64() {
    let z1 = q4(1, 1, 1, 1);
    assert_eq!(z1.div_real(2), Q::zero());
    assert_eq!(q4(-2, 4, -6, 8).div_real(2), q4(-1, 2, -3, 4));
}

#[test]
fn test_neg_quaternionf64() {
    let z1 = q4(1, -2, 3, -4);
    assert_eq!(z1.neg(), q4(-1, 2, -3, 4));
}

#[test]
fn test_add_two_octonionsf64() {
    let z1 = o8([1, 2, 3, 4, 1, 2, 3, 4]);
    let z2 = o8([2, 3, 4, 5, -1, -2, -3, -4]);
    assert_eq!(z1.add(&z2), o8([3, 5, 7, 9, 0, 0, 0, 0]));
}

#[test]
fn test_add_octonionf64_and_f64() {
    let z1 = o8([2, -1, 3, 4, 2, -1, 3, 4]);
    assert_eq!(z1.add_real(3), o8([5, -1, 3, 4, 2, -1, 3, 4]));
}

#[test]
fn test_sub_two_octonionf64() {
    let z1 = o8([1, 2, 3, 4, 1, 2, 3, 4]);
    let z2 = o8([2, 3, 4, 5, 1, 2, 3, 4]);
    assert_eq!(z1.sub(&z2), o8([-1, -1, -1, -1, 0, 0, 0, 0]));
    assert_eq!(z2.sub(&z1), o8([1, 1, 1, 1, 0, 0, 0, 0]));
}

#[test]
fn test_sub_octonionf64_and_f64() {
    let z1 = o8([1, 2, 3, 4, 1, 2, 3, 4]);
    assert_eq!(z1.sub_real(3), o8([-2, 2, 3, 4, 1, 2, 3, 4]));
    assert_eq!(z1.rsub_real(3), o8([2, -2, -3, -4, -1, -2, -3, -4]));
}

#[test]
fn test_mul_two_octonionf64() {
    let z1 = o8([1, 0, 2, 3, 2, 0, 1, 3]);
    let z2 = o8([1, 0, -2, -3, -2, 0, -1, -3]);
    assert_eq!(z1.mul(&z2), o8([28, 0, 0, 0, 0, 0, 0, 0]));
}

#[test]
fn test_commutator_two_octonionf64() {
    let z1 = o8([1, -1, 1, 1, 0, 0, 0, 0]);
    let z2 = o8([1, 1, 1, -1, 0, 0, 0, 0]);
    assert_eq!(
        z1.mul(&z2).sub(&z2.mul(&z1)),
        o8([0, -4, 0, -4, 0, 0, 0, 0])
    );
}

#[test]
fn test_associator_two_octonionf64() {
    let z1 = o8([1, -1, 1, 1, 0, 1, 0, 0]);
    let z2 = o8([1, 1, 1, -1, 0, 0, 0, 1]);
    let z3 = o8([1, 1, -1, 1, 0, 0, 1, 0]);
    assert_ne!(
        z1.mul(&z2).mul(&z3).sub(&z1.mul(&z2.mul(&z3))),
        O::zero(),
        "General associator for octonions is non-zero."
    );
}

#[test]
fn test_mul_octonionf64_and_f64() {
    let z1 = o8([1, 2, 3, 4, 1, 2, 3, 4]);
    assert_eq!(z1.mul_real(3), o8([3, 6, 9, 12, 3, 6, 9, 12]));
}

#[test]
fn test_div_two_octonionf64() {
    let z1 = o8([0, 0, 0, 0, 0, 0, 0, 1]);
    assert_eq!(z1.div(&z1), O::one());
}

#[test]
fn test_div_octonionf64_and_f64() {
    let z1 = o8([1, 1, 1, 1, 1, 1, 1, 1]);
    assert_eq!(z1.div_real(2), O::zero());
    assert_eq!(o8([2, 2, 2, 2, 2, 2, 2, 2]).div_real(2), z1);
}

#[test]
fn test_neg_octonionf64() {
    let z1 = o8([1, -2, 3, -4, 1, -2, 3, -4]);
    assert_eq!(z1.neg(), o8([-1, 2, -3, 4, -1, 2, -3, 4]));
}
