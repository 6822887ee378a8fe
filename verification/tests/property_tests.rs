use complex::{
    product_of, sum_of, AbsSq, Algebra, Complex, Conjugate, Fill, Functions, Identity,
    ImaginaryConstants, InvReal, Real, Rounding, Text,
};

type C = Complex<i64>;
type Q = Complex<Complex<i64>>;
type O = Complex<Complex<Complex<i64>>>;
type S = Complex<Complex<Complex<Complex<i64>>>>;

fn q4(a: i64, b: i64, c: i64, d: i64) -> Q {
    Complex::new(Complex::new(a, b), Complex::new(c, d))
}

fn o8(v: [i64; 8]) -> O {
    O::from_slice(&v).unwrap()
}

#[test]
fn test_conj_involution() {
    let z = o8([1, -2, 3, -4, 5, -6, 7, -8]);
    assert_eq!(z.conj().conj(), z);
    let w = C::new(3, -5);
    assert_eq!(w.conj(), C::new(3, 5));
    assert_eq!(w.conj().conj(), w);
}

#[test]
fn test_abs_sq_of_conj() {
    let z = q4(1, -2, 3, -4);
    assert_eq!(z.abs_sq(), 30);
    assert_eq!(z.conj().abs_sq(), 30);
    let w = o8([1, 1, 1, 1, 2, 2, 2, 2]);
    assert_eq!(w.abs_sq(), w.conj().abs_sq());
}

#[test]
fn test_norm_is_real() {
    let z = q4(1, -2, 3, -4);
    assert_eq!(z.mul(&z.conj()), q4(30, 0, 0, 0));
    assert_eq!(z.conj().mul(&z), q4(30, 0, 0, 0));
    let w = o8([2, 1, -1, 3, 0, 2, -2, 1]);
    let n = w.abs_sq();
    let mut expected = [0i64; 8];
    expected[0] = n;
    assert_eq!(w.mul(&w.conj()), o8(expected));
}

#[test]
fn test_div_self_of_unit() {
    let z = q4(0, 1, 0, 0);
    assert_eq!(z.div(&z), Q::one());
    let w = C::new(-1, 0);
    assert_eq!(w.div(&w), C::one());
}

#[test]
fn test_powu_repeated_multiplication() {
    let z = C::new(0, 1);
    assert_eq!(z.powu(0), C::one());
    assert_eq!(z.powu(1), z);
    assert_eq!(z.powu(2), z.mul(&z));
    assert_eq!(z.powu(3), z.mul(&z).mul(&z));
    assert_eq!(z.powu(3), C::new(0, -1));
    let q = q4(1, 1, 0, 0);
    assert_eq!(q.powu(2), q.mul(&q));
    assert_eq!(q.powu(3), q.mul(&q).mul(&q));
    assert_eq!(q.powu(4), q.mul(&q).mul(&q).mul(&q));
}

#[test]
fn test_powi_conventions() {
    let z = C::new(0, 1);
    assert_eq!(z.powi(0), C::zero());
    assert_eq!(z.powi(3), C::new(0, -1));
    assert_eq!(z.powi(-3), C::new(0, 1));
}

#[test]
fn test_round_trip_complex() {
    let z = C::new(1, 2);
    assert_eq!(C::from_str(z.to_text().as_str()), Ok(z));
    let w = C::new(-7, -9);
    assert_eq!(w.to_text(), "-7 - 9i");
    assert_eq!(C::from_str(w.to_text().as_str()), Ok(w));
}

#[test]
fn test_round_trip_quaternion() {
    let z = q4(1, -2, 3, -4);
    assert_eq!(z.to_text(), "1 - 2i + 3j - 4k");
    assert_eq!(Q::from_str(z.to_text().as_str()), Ok(z));
}

#[test]
fn test_round_trip_octonion() {
    let z = o8([1, 2, 3, 4, 5, 6, 7, 8]);
    assert_eq!(z.to_text(), "(1 + 2i + 3j + 4k, 5 + 6i + 7j + 8k)");
    assert_eq!(O::from_str(z.to_text().as_str()), Ok(z));
}

#[test]
fn test_parse_spaced_and_partial_forms() {
    assert_eq!(C::from_str("1 + 2i"), Ok(C::new(1, 2)));
    assert_eq!(C::from_str("-3 - 4i"), Ok(C::new(-3, -4)));
    assert_eq!(Q::from_str("1+2k"), Ok(q4(1, 0, 0, 2)));
    assert_eq!(Q::from_str("3j"), Ok(q4(0, 0, 3, 0)));
    assert!(C::from_str("").is_err());
    assert!(C::from_str("i").is_err());
    assert!(C::from_str("1+2i+3j").is_err());
    assert!(O::from_str("(junk, what)").is_err());
}

#[test]
fn test_from_slice_length_errors() {
    assert!(C::from_slice(&[1, 2]).is_ok());
    assert!(C::from_slice(&[1, 2, 3]).is_err());
    assert!(C::from_slice(&[1]).is_err());
    assert!(C::from_slice(&[]).is_err());
    assert!(Q::from_slice(&[1, 2, 3, 4]).is_ok());
    assert!(Q::from_slice(&[1, 2, 3, 4, 5, 6]).is_err());
    assert!(O::from_vec(vec![1, 2, 3, 4, 5, 6, 7, 8]).is_ok());
    assert!(O::from_vec(vec![1, 2, 3]).is_err());
}

#[test]
fn test_from_slice_bisection() {
    let z = Q::from_slice(&[1, 2, 3, 4]).unwrap();
    assert_eq!(z, q4(1, 2, 3, 4));
    assert_eq!(z.re, C::new(1, 2));
    assert_eq!(z.im, C::new(3, 4));
    let s = S::from_slice(&[1, 2, 3, 4, 5, 6, 7, 8, 1, 2, 3, 4, 5, 6, 7, 8]).unwrap();
    let t = S::from_vec(vec![1, 2, 3, 4, 5, 6, 7, 8, 1, 2, 3, 4, 5, 6, 7, 8]).unwrap();
    assert_eq!(s, t);
}

#[test]
fn test_fill_broadcasts() {
    assert_eq!(Q::fill(7), q4(7, 7, 7, 7));
    assert_eq!(C::fill(-2), C::new(-2, -2));
}

#[test]
fn test_imaginary_constants() {
    assert_eq!(C::i(), C::new(0, 1));
    assert_eq!(Q::i(), q4(0, 1, 0, 0));
    assert_eq!(Q::j(), q4(0, 0, 1, 0));
    assert_eq!(Q::k(), q4(0, 0, 0, 1));
    assert_eq!(O::i(), o8([0, 1, 0, 0, 0, 0, 0, 0]));
    assert_eq!(O::j(), o8([0, 0, 1, 0, 0, 0, 0, 0]));
    assert_eq!(O::k(), o8([0, 0, 0, 1, 0, 0, 0, 0]));
    let mut e1 = [0i64; 16];
    e1[1] = 1;
    assert_eq!(S::i(), S::from_slice(&e1).unwrap());
    assert_eq!(Q::i().mul(&Q::j()), Q::k());
    assert_eq!(Q::j().mul(&Q::i()), Q::k().neg());
}

#[test]
fn test_real_part_and_rounding() {
    let z = q4(9, 2, 3, 4);
    assert_eq!(z.real_part(), 9);
    assert_eq!(z.floor(), z);
    assert_eq!(z.ceil(), z);
    assert_eq!(z.round(), z);
    assert_eq!(z.trunc(), z);
    assert_eq!(z.fract(), Q::zero());
}

#[test]
fn test_inv_real() {
    assert_eq!(C::new(1, 5).inv_real(), C::new(1, 5));
    assert_eq!(C::new(-1, 5).inv_real(), C::new(-1, 5));
    assert_eq!(C::new(4, 5).inv_real(), C::new(0, 5));
}

#[test]
fn test_rem_conventions() {
    let a = C::new(7, 3);
    let b = C::new(0, 1);
    assert_eq!(a.rem(&b), C::zero());
    assert_eq!(C::new(7, 5).rem_real(3), C::new(1, 2));
    let x = 7i64;
    assert_eq!(x.rem(&2), 1);
    assert_eq!((-7i64).rem(&2), -1);
}

#[test]
fn test_cross_depth_embedding() {
    let q = q4(1, 2, 3, 4);
    let z = C::new(10, 20);
    assert_eq!(q.add_low(&z), q4(11, 22, 3, 4));
    assert_eq!(q.sub_low(&z), q4(-9, -18, 3, 4));
    assert_eq!(q.rsub_low(&z), q4(9, 18, 3, 4));
}

#[test]
fn test_sum_and_product() {
    let z = C::new(8, 2);
    let v = vec![z, z, z];
    assert_eq!(sum_of(&v), C::new(24, 6));
    assert_eq!(sum_of(&Vec::<C>::new()), C::zero());
    let p = vec![C::i(), C::i()];
    assert_eq!(product_of(&p), C::new(-1, 0));
    assert_eq!(product_of(&Vec::<C>::new()), C::one());
}

#[test]
fn test_ln_and_exp_surrogates() {
    assert_eq!(C::new(4, 0).ln(), C::new(2, 0));
    assert_eq!(C::new(1, 0).exp(), C::new(2, 0));
    assert_eq!(C::new(2, 0).exp(), C::new(4, 0));
    assert_eq!(Q::fill(0).exp(), Q::one());
}

#[test]
fn test_trig_surrogates() {
    assert_eq!(C::new(2, 0).sin(), C::zero());
    assert_eq!(C::new(2, 0).cos(), C::new(-1, 0));
    assert_eq!(C::new(2, 0).sinh(), C::new(2, 0));
    assert_eq!(C::new(2, 0).cosh(), C::new(2, 0));
    assert_eq!(C::new(2, 0).tanh(), C::zero());
}

#[test]
fn test_deep_types() {
    type T5 = Complex<Complex<Complex<Complex<Complex<i64>>>>>;
    let ones = vec![1i64; 32];
    let t = T5::from_vec(ones).unwrap();
    assert_eq!(t, T5::fill(1));
    assert_eq!(t.abs_sq(), 32);
    let mut e1 = [0i64; 16];
    e1[1] = 1;
    let s = S::from_slice(&e1).unwrap();
    assert_eq!(S::i(), s);
    assert_eq!(s.mul(&s), S::one().neg());
    let deep = S::from_slice(&[1, -2, 3, -4, 5, -6, 7, -8, 9, -1, 2, -3, 4, -5, 6, -7]).unwrap();
    assert_eq!(S::from_str(deep.to_text().as_str()), Ok(deep));
    assert_eq!(
        deep.to_text(),
        "((1 - 2i + 3j - 4k, 5 - 6i + 7j - 8k), (9 - 1i + 2j - 3k, 4 - 5i + 6j - 7k))"
    );
}

#[test]
fn test_powf_and_powz() {
    // powf(z, n) is exp(n * ln(z)): for z = 4 + 0i the logarithm is 2, so
    // the third power of the logarithm scales to 6 and exp gives 64.
    assert_eq!(C::new(4, 0).powf(3), C::new(64, 0));
    let z = C::new(4, 0);
    let w = C::new(2, 0);
    assert_eq!(z.powz(w), C::new(16, 0));
}
