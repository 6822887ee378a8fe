use complex::{Complex, Fill, Text};

type C = Complex<i64>;
type Q = Complex<Complex<i64>>;
type O = Complex<Complex<Complex<i64>>>;

#[test]
fn test_print_complexf32() {
    let z = C::new(1, 2);
    assert_eq!(z.to_text(), "1 + 2i");
}

#[test]
fn test_print_complexf64() {
    let z = C::new(1, 2);
    assert_eq!(z.to_text(), "1 + 2i");
}

#[test]
fn test_parse_complexf32() {
    let z = match C::from_str("4+1i") {
        Ok(num) => num,
        Err(_err) => panic!("Didn't parse complex number correctly"),
    };
    assert_eq!(z, C::new(4, 1));
}

#[test]
fn test_parse_complexf32_err() {
    assert!(C::from_str("4b+1i").is_err(), "Didn't parse complex number correctly");
}

#[test]
fn test_parse_complexf64() {
    let z = match C::from_str("4+1i") {
        Ok(num) => num,
        Err(_err) => panic!("Didn't parse complex number correctly"),
    };
    assert_eq!(z, C::new(4, 1));
}

#[test]
fn test_parse_complexf64_err() {
    assert!(C::from_str("4b+1i").is_err(), "Didn't parse complex number correctly");
}

#[test]
fn test_parse_complexf32_no_imaginary_part() {
    let z = match C::from_str("4") {
        Ok(num) => num,
        Err(_err) => panic!("Didn't parse complex number correctly"),
    };
    assert_eq!(z, C::new(4, 0));
}

#[test]
fn test_parse_complexf64_no_imaginary_part() {
    let z = match C::from_str("4") {
        Ok(num) => num,
        Err(_err) => panic!("Didn't parse complex number correctly"),
    };
    assert_eq!(z, C::new(4, 0));
}

#[test]
fn test_parse_complexf32_no_real_part() {
    let z = match C::from_str("1i") {
        Ok(num) => num,
        Err(_err) => panic!("Didn't parse complex number correctly"),
    };
    assert_eq!(z, C::new(0, 1));
}

#[test]
fn test_parse_complexf64_no_real_part() {
    let z = match C::from_str("1i") {
        Ok(num) => num,
        Err(_err) => panic!("Didn't parse complex number correctly"),
    };
    assert_eq!(z, C::new(0, 1));
}

#[test]
fn test_parse_quaternionf64() {
    let z = match Q::from_str("1+2i+3j+4k") {
        Ok(num) => num,
        Err(_err) => panic!("Didn't parse complex number correctly"),
    };
    assert_eq!(z, Q::from_slice(&[1, 2, 3, 4]).unwrap());
}

#[test]
fn test_parse_octonionf64() {
    let z = match O::from_str("(1+2i+3j+4k, 5+6i+7j+8k)") {
        Ok(num) => num,
        Err(_err) => panic!("Didn't parse complex number correctly"),
    };
    assert_eq!(z, O::from_slice(&[1, 2, 3, 4, 5, 6, 7, 8]).unwrap());
}
