use sloth_num::error::NumError;
use sloth_num::{BigNum, FLOAT_PRECISION};

fn num(s: &str) -> BigNum {
    BigNum::from_string(s).unwrap()
}

#[test]
fn new_keeps_sign_digits_and_scale() {
    assert_eq!(BigNum::new(false, vec![1, 2, 3, 4], 2).unwrap(), num("43.21"));
    assert_eq!(BigNum::new(true, vec![0, 0, 0, 0, 0, 1], 5).unwrap(), num("-1"));
    assert_eq!(BigNum::new(false, vec![], 0).unwrap(), BigNum::zero());
}

#[test]
fn new_rejects_a_non_digit() {
    assert_eq!(BigNum::new(false, vec![1, 10, 3], 0), Err(NumError::Validation));
    assert_eq!(BigNum::new(true, vec![255], 4), Err(NumError::Validation));
}

#[test]
fn new_brings_to_lowest_terms() {
    // 12.120 is 12.12, 010 is 10, and zero has neither sign nor scale
    assert_eq!(BigNum::new(false, vec![0, 2, 1, 2, 1], 3).unwrap(), num("12.12"));
    assert_eq!(BigNum::new(false, vec![0, 1, 0], 0).unwrap(), num("10"));
    assert_eq!(BigNum::new(true, vec![0, 0, 0], 2).unwrap(), BigNum::zero());
    assert_eq!(BigNum::new(true, vec![0], 7).unwrap(), BigNum::zero());
    assert!(!BigNum::new(true, vec![0, 0], 1).unwrap().is_negative());
}

#[test]
fn zero_and_one() {
    assert!(BigNum::zero().is_zero());
    assert!(!BigNum::one().is_zero());
    assert_eq!(BigNum::zero(), num("0"));
    assert_eq!(BigNum::one(), num("1"));
}

#[test]
fn is_negative_examples() {
    assert_eq!(BigNum::zero().is_negative(), false);
    assert_eq!(num("-24892.242").is_negative(), true);
    assert_eq!(num("1332").is_negative(), false);
    assert_eq!(num("-0").is_negative(), false);
}

#[test]
fn from_i32_examples() {
    assert_eq!(BigNum::from_i32(134).unwrap(), num("134"));
    assert_eq!(BigNum::from_i32(0).unwrap(), BigNum::zero());
    assert_eq!(BigNum::from_i32(-242952842).unwrap(), num("-242952842"));
    assert_eq!(BigNum::from_i32(i32::MAX).unwrap(), num("2147483647"));
    assert_eq!(BigNum::from_i32(i32::MIN).unwrap(), num("-2147483648"));
    assert_eq!(BigNum::from_i32(-1000).unwrap(), num("-1000"));
}

#[test]
fn opposite_examples() {
    assert_eq!(num("-245.242").opposite(), num("245.242"));
    assert_eq!(num("245.242").opposite(), num("-245.242"));
    assert_eq!(BigNum::zero().opposite(), BigNum::zero());
    assert!(!BigNum::zero().opposite().is_negative());
}

#[test]
fn clone_is_equal() {
    let n = num("-53643.368359");
    assert_eq!(n.clone(), n);
    assert_eq!(n.duplicate(), n);
}

#[test]
fn equality_is_by_value() {
    assert_eq!(num("1.50"), num("1.5"));
    assert_eq!(num("007"), num("7"));
    assert_ne!(num("1.5"), num("-1.5"));
    assert_ne!(num("1.5"), num("15"));
    assert_ne!(num("1.5"), num("1.51"));
}

#[test]
fn ordering_examples() {
    assert!(num("-245.242") < num("245.242"));
    assert!(num("1") < num("2"));
    assert!(num("2") > num("1"));
    assert!(num("-2") < num("-1"));
    assert!(num("0.001") < num("0.01"));
    assert!(num("0.5") < num("0.51"));
    assert!(num("0.51") > num("0.5"));
    assert!(num("9.99") < num("10"));
    assert!(num("100") > num("99.999"));
    assert!(num("-0.5") > num("-0.51"));
    assert!(num("0") > num("-0.0001"));
    assert!(num("0") < num("0.0001"));
    assert!(num("12.5") <= num("12.5"));
    assert!(num("12.5") >= num("12.5"));
    assert!(!(num("12.5") < num("12.5")));
    assert!(num("19") < num("91"));
    assert!(num("123.456") < num("123.4561"));
}

#[test]
fn ordering_matches_integers_at_two_scales() {
    // a / 10 against b / 100
    for a in -60i32..60 {
        for b in -600i32..600 {
            let x = BigNum::new(a < 0, vec![(a.abs() % 10) as u8, (a.abs() / 10) as u8], 1).unwrap();
            let y = BigNum::new(
                b < 0,
                vec![(b.abs() % 10) as u8, (b.abs() / 10 % 10) as u8, (b.abs() / 100) as u8],
                2,
            )
            .unwrap();
            assert_eq!(x < y, a * 10 < b, "{} / 10 < {} / 100", a, b);
            assert_eq!(x > y, a * 10 > b, "{} / 10 > {} / 100", a, b);
            assert_eq!(x == y, a * 10 == b, "{} / 10 == {} / 100", a, b);
        }
    }
}

#[test]
fn is_power_of_ten_examples() {
    assert_eq!(num("100").is_power_of_ten(), Some(2));
    assert_eq!(num("101").is_power_of_ten(), None);
    assert_eq!(num("1").is_power_of_ten(), Some(0));
    assert_eq!(num("0.01").is_power_of_ten(), Some(-2));
    assert_eq!(num("-1000").is_power_of_ten(), Some(3));
    assert_eq!(num("0").is_power_of_ten(), None);
    assert_eq!(num("0.02").is_power_of_ten(), None);
}

#[test]
fn tenpow_mul_examples() {
    assert_eq!(num("123").bn_tenpow_mul(2, false), num("12300"));
    assert_eq!(num("0.02423").bn_tenpow_mul(3, true), num("-24.23"));
    assert_eq!(num("0.02423").bn_tenpow_mul(7, false), num("242300"));
    assert_eq!(num("-5").bn_tenpow_mul(0, true), num("5"));
    assert_eq!(num("0").bn_tenpow_mul(4, true), BigNum::zero());
}

#[test]
fn tenpow_div_examples() {
    assert_eq!(num("123").bn_tenpow_div(2, false), num("1.23"));
    assert_eq!(num("0.02423").bn_tenpow_div(3, true), num("-0.00002423"));
    assert_eq!(num("-2498.244").bn_tenpow_div(0, false), num("-2498.244"));
    assert_eq!(num("-2498.244").bn_tenpow_div(0, true), num("2498.244"));
    assert_eq!(num("1.5").bn_tenpow_div(-3, false), num("1500"));
    assert_eq!(num("1200").bn_tenpow_div(2, false), num("12"));
}

#[test]
fn bn_mul_examples() {
    assert_eq!(BigNum::bn_mul(&num("-10"), &num("10")), num("-100"));
    assert_eq!(BigNum::bn_mul(&num("0.5"), &num("0.2")), num("0.1"));
    assert_eq!(BigNum::bn_mul(&num("-1.5"), &num("-1.5")), num("2.25"));
    assert_eq!(BigNum::bn_mul(&num("-1.5"), &num("0")), BigNum::zero());
    assert!(!BigNum::bn_mul(&num("-1.5"), &num("0")).is_negative());
    assert_eq!(
        BigNum::bn_mul(&num("123456789.123456789"), &num("987654321.987654321")),
        num("121932631356500531.347203169112635269")
    );
}

#[test]
fn bn_add_examples() {
    let n1 = num("53643.368359");
    let n2 = num("-22398247.24982");
    let n3 = BigNum::zero();
    let n4 = num("-32089");
    let n5 = num("209");
    assert_eq!(BigNum::bn_add(&n1, &n1), num("107286.736718"));
    assert_eq!(BigNum::bn_add(&n1, &n2), num("-22344603.881461"));
    assert_eq!(BigNum::bn_add(&n2, &n3), num("-22398247.24982"));
    assert_eq!(BigNum::bn_add(&n4, &n5), num("-31880"));
    assert_eq!(BigNum::bn_add(&n5, &n4), num("-31880"));
    assert_eq!(BigNum::bn_add(&n4, &n4), num("-64178"));
    assert_eq!(BigNum::bn_add(&num("0.9"), &num("0.1")), num("1"));
    assert_eq!(BigNum::bn_add(&num("5"), &num("-5")), BigNum::zero());
}

#[test]
fn bn_sub_examples() {
    let n1 = num("53643.368359");
    let n2 = num("24872398247.24982");
    let n3 = BigNum::zero();
    let n4 = num("-32089");
    let n5 = num("209");
    assert_eq!(BigNum::bn_sub(&n1, &n2), num("-24872344603.881461"));
    assert_eq!(BigNum::bn_sub(&n2, &n3), num("24872398247.24982"));
    assert_eq!(BigNum::bn_sub(&n1, &n1), BigNum::zero());
    assert_eq!(BigNum::bn_sub(&n4, &n5), num("-32298"));
    assert_eq!(BigNum::bn_sub(&n5, &n4), num("32298"));
    assert_eq!(BigNum::bn_sub(&n4, &n4), BigNum::zero());
    assert_eq!(BigNum::bn_sub(&num("5"), &num("-3")), num("8"));
    assert_eq!(BigNum::bn_sub(&num("-5"), &num("-3")), num("-2"));
    assert_eq!(BigNum::bn_sub(&n3, &n5), num("-209"));
}

#[test]
fn bn_div_examples() {
    assert_eq!(BigNum::bn_div(&num("1224.235"), &num("12")), Ok(num("102.019583333333333")));
    assert_eq!(BigNum::bn_div(&num("1224.235"), &num("0")), Err(NumError::DivisionByZero));
    assert_eq!(BigNum::bn_div(&num("1"), &num("3")), Ok(num("0.333333333333333")));
    assert_eq!(BigNum::bn_div(&num("2"), &num("3")), Ok(num("0.666666666666666")));
    assert_eq!(BigNum::bn_div(&num("-2"), &num("3")), Ok(num("-0.666666666666666")));
    assert_eq!(BigNum::bn_div(&num("2"), &num("-3")), Ok(num("-0.666666666666666")));
    assert_eq!(BigNum::bn_div(&num("-1"), &num("-4")), Ok(num("0.25")));
    assert_eq!(BigNum::bn_div(&num("0"), &num("-4")), Ok(BigNum::zero()));
    assert_eq!(BigNum::bn_div(&num("7"), &num("0.5")), Ok(num("14")));
    assert_eq!(BigNum::bn_div(&num("144"), &num("12")), Ok(num("12")));
    assert_eq!(BigNum::bn_div(&num("1"), &num("12345678901234567890")), Ok(BigNum::zero()));
    assert_eq!(
        BigNum::bn_div(&num("1000000000000"), &num("12345678901234567890")),
        Ok(num("0.000000081"))
    );
}

#[test]
fn div_keeps_the_scale_difference_when_it_is_larger() {
    // twenty fractional digits in the dividend stay twenty in the quotient
    assert_eq!(
        BigNum::bn_div(&num("0.00000000000000000007"), &num("2")),
        Ok(num("0.00000000000000000003"))
    );
}

#[test]
fn div_precision_is_fifteen() {
    assert_eq!(FLOAT_PRECISION, 15);
}

#[test]
fn div_by_a_power_of_ten_is_exact() {
    assert_eq!(BigNum::bn_div(&num("10"), &num("100")), Ok(num("0.1")));
    assert_eq!(BigNum::bn_div(&num("5"), &num("-1")), Ok(num("-5")));
    assert_eq!(BigNum::bn_div(&num("5"), &num("0.001")), Ok(num("5000")));
    assert_eq!(BigNum::bn_div(&num("-5"), &num("-0.1")), Ok(num("50")));
    assert_eq!(
        BigNum::bn_div(&num("1"), &num("100000000000000000000")),
        Ok(num("0.00000000000000000001"))
    );
    assert_eq!(
        BigNum::bn_div(&num("0.00000000000000000123"), &num("1000")),
        Ok(num("0.00000000000000000000123"))
    );
}

#[test]
fn bn_euclidian_examples() {
    let n1 = num("1332");
    let n2 = num("12");
    let n3 = BigNum::zero();
    assert_eq!(BigNum::euclidian(&n1, &n2), Ok((num("111"), num("0"))));
    assert_eq!(BigNum::euclidian(&n2, &n1), Ok((BigNum::zero(), num("12"))));
    assert_eq!(BigNum::euclidian(&n1, &n3), Err(NumError::DivisionByZero));
    assert_eq!(BigNum::euclidian(&num("17"), &num("5")), Ok((num("3"), num("2"))));
    assert_eq!(BigNum::euclidian(&num("7.5"), &num("2")), Ok((num("3"), num("1.5"))));
    assert_eq!(BigNum::euclidian(&num("1"), &num("0.3")), Ok((num("3"), num("0.1"))));
    assert_eq!(BigNum::euclidian(&n3, &n2), Ok((BigNum::zero(), BigNum::zero())));
}

#[test]
fn euclidian_rejects_negative_operands() {
    assert_eq!(BigNum::euclidian(&num("-1"), &num("5")), Err(NumError::NegativeOperand));
    assert_eq!(BigNum::euclidian(&num("1"), &num("-5")), Err(NumError::NegativeOperand));
    assert_eq!(BigNum::euclidian(&num("-1"), &num("0")), Err(NumError::DivisionByZero));
}

#[test]
fn euclidian_matches_integers() {
    for a in (0..5000i32).step_by(13) {
        for b in (1..700i32).step_by(7) {
            let (q, r) =
                BigNum::euclidian(&BigNum::from_i32(a).unwrap(), &BigNum::from_i32(b).unwrap())
                    .unwrap();
            assert_eq!(q, BigNum::from_i32(a / b).unwrap());
            assert_eq!(r, BigNum::from_i32(a % b).unwrap());
        }
    }
}

#[test]
fn bn_pow_examples() {
    let n1 = num("123");
    let n2 = num("-10");
    let n3 = num("2.5");
    assert_eq!(BigNum::bn_pow(&n1, 5), num("28153056843"));
    assert_eq!(BigNum::bn_pow(&n1, 1), num("123"));
    assert_eq!(BigNum::bn_pow(&n2, -3), num("-0.001"));
    assert_eq!(BigNum::bn_pow(&n3, 5), num("97.65625"));
    assert_eq!(BigNum::bn_pow(&n1, 0), BigNum::one());
    assert_eq!(BigNum::bn_pow(&n2, 2), num("100"));
    assert_eq!(BigNum::bn_pow(&n2, 3), num("-1000"));
    assert_eq!(BigNum::bn_pow(&num("2"), 10), num("1024"));
    assert_eq!(BigNum::bn_pow(&num("2"), -1), num("0.5"));
    assert_eq!(BigNum::bn_pow(&num("2"), -2), num("0.25"));
    assert_eq!(BigNum::bn_pow(&num("0"), 0), BigNum::one());
    assert_eq!(BigNum::bn_pow(&num("0"), 3), BigNum::zero());
}

#[test]
fn pow_of_a_negative_exponent_truncates_at_each_division() {
    // 1 / 3 is cut at fifteen digits before it is squared
    assert_eq!(BigNum::bn_pow(&num("3"), -1), num("0.333333333333333"));
    assert_eq!(BigNum::bn_pow(&num("3"), -2), num("0.111111111111110888888888888889"));
}

#[test]
fn operators_by_value_and_by_reference() {
    let a = num("1.5");
    let b = num("-0.25");
    assert_eq!(&a + &b, num("1.25"));
    assert_eq!(&a - &b, num("1.75"));
    assert_eq!(&a * &b, num("-0.375"));
    assert_eq!(&a / &b, num("-6"));
    assert_eq!(a.clone() + b.clone(), num("1.25"));
    assert_eq!(a.clone() - b.clone(), num("1.75"));
    assert_eq!(a.clone() * b.clone(), num("-0.375"));
    assert_eq!(a / b, num("-6"));
}

#[test]
fn scale_and_digit_count() {
    assert_eq!(num("123.45").scale(), 2);
    assert_eq!(num("123.45").digit_count(), 5);
    assert_eq!(num("123.4500").scale(), 2);
    assert_eq!(num("0").scale(), 0);
    assert_eq!(num("0").digit_count(), 1);
    assert_eq!(num("-0.001").scale(), 3);
    assert_eq!(num("-0.001").digit_count(), 1);
    assert_eq!(num("1000").digit_count(), 4);
}

#[test]
fn size_limits_hold_for_ordinary_numbers() {
    let a = num("123456789.123456789");
    let b = num("-0.000000000000000000001");
    assert!(BigNum::can_add(&a, &b));
    assert!(BigNum::can_mul(&a, &b));
    assert!(BigNum::can_div(&a, &b));
    assert!(BigNum::can_div(&a, &num("1000")));
    assert!(BigNum::can_div(&a, &BigNum::zero()));
    assert!(BigNum::can_divide_whole(&a, &b));
    assert!(a.can_shift(40));
    assert!(a.can_shift(-40));
}

#[test]
fn size_limits_reject_a_scale_that_cannot_be_held() {
    let tiny = BigNum::new(false, vec![1], u32::MAX).unwrap();
    assert_eq!(tiny.scale(), u32::MAX);
    assert!(!BigNum::can_mul(&tiny, &tiny));
    assert!(!tiny.can_shift(1));
    assert!(tiny.can_shift(0));
    assert!(tiny.can_shift(-1));
    assert!(!BigNum::can_div(&tiny, &num("10")));
    assert!(BigNum::can_div(&tiny, &num("0.1")));
    assert!(BigNum::can_mul(&tiny, &num("5")));
    assert_eq!(tiny.bn_tenpow_mul(u32::MAX as usize, false), BigNum::one());
}

#[test]
fn error_messages() {
    assert_eq!(NumError::Format.message(), "invalid format");
    assert_eq!(NumError::Validation.message(), "a digit is not between 0 and 9");
    assert_eq!(NumError::DivisionByZero.message(), "division by zero");
    assert_eq!(NumError::NegativeOperand.message(), "a negative operand");
}

#[test]
fn pow_checked_examples() {
    assert_eq!(BigNum::bn_pow_checked(&num("123"), 5), Some(num("28153056843")));
    assert_eq!(BigNum::bn_pow_checked(&num("-10"), -3), Some(num("-0.001")));
    assert_eq!(BigNum::bn_pow_checked(&num("2.5"), 5), Some(num("97.65625")));
    assert_eq!(BigNum::bn_pow_checked(&num("0"), 0), Some(BigNum::one()));
    assert_eq!(BigNum::bn_pow_checked(&num("0"), -1), None);
    assert_eq!(BigNum::bn_pow_checked(&num("0"), -4), None);
    let tiny = BigNum::new(false, vec![3], u32::MAX).unwrap();
    assert_eq!(BigNum::bn_pow_checked(&tiny, 2), None);
    assert_eq!(BigNum::bn_pow_checked(&tiny, 1), Some(tiny));
}
