use sloth_num::big_uint::BigUInt;
use sloth_num::digit::Digit;

fn uint(s: &str) -> BigUInt {
    BigUInt::from_string(s).unwrap()
}

#[test]
fn digit_sum_carries() {
    let (d, carry) = Digit::sum(&Digit::from_u8(7), &Digit::from_u8(8));
    assert_eq!(d.as_u8(), 5);
    assert!(carry);
    let (d, carry) = Digit::sum(&Digit::from_u8(4), &Digit::from_u8(5));
    assert_eq!(d.as_u8(), 9);
    assert!(!carry);
}

#[test]
fn digit_mul_carries() {
    let (low, high) = Digit::mul(&Digit::from_u8(7), &Digit::from_u8(8));
    assert_eq!(low.as_u8(), 6);
    assert_eq!(high.as_u8(), 5);
    let (low, high) = Digit::mul(&Digit::from_u8(9), &Digit::from_u8(9));
    assert_eq!(low.as_u8(), 1);
    assert_eq!(high.as_u8(), 8);
    let (low, high) = Digit::mul(&Digit::from_u8(0), &Digit::from_u8(9));
    assert_eq!(low.as_u8(), 0);
    assert_eq!(high.as_u8(), 0);
}

#[test]
fn digit_and_character() {
    for (i, c) in "0123456789".chars().enumerate() {
        let d = Digit::from_char(c);
        assert_eq!(d.as_u8(), i as u8);
        assert_eq!(d.as_char(), c);
        assert_eq!(Digit::from_u8(i as u8), d);
    }
}

#[test]
fn big_uint_from_string() {
    let n = uint("2763");
    let values: Vec<u8> = n.digits.iter().map(|d| d.as_u8()).collect();
    assert_eq!(values, vec![3, 6, 7, 2]);
    assert_eq!(uint("").digits.len(), 0);
    assert_eq!(BigUInt::from_string("12a"), Err(()));
    assert_eq!(BigUInt::from_string("-12"), Err(()));
    assert_eq!(BigUInt::from_string("1.2"), Err(()));
}

#[test]
fn big_uint_to_string() {
    assert_eq!(uint("2763").to_string(), "2763");
    assert_eq!(uint("007").to_string(), "007");
    assert_eq!(uint("").to_string(), "");
}

#[test]
fn big_uint_is_lower() {
    assert!(BigUInt::is_lower(&uint("364"), &uint("2763")));
    assert!(!BigUInt::is_lower(&uint("2763"), &uint("364")));
    assert!(BigUInt::is_lower(&uint("19"), &uint("91")));
    assert!(!BigUInt::is_lower(&uint("91"), &uint("19")));
    assert!(!BigUInt::is_lower(&uint("5"), &uint("5")));
    assert!(BigUInt::is_lower(&uint("0099"), &uint("100")));
}

#[test]
fn big_uint_sum() {
    assert_eq!(BigUInt::sum(&uint("2763"), &uint("364")), uint("3127"));
    assert_eq!(BigUInt::sum(&uint("999"), &uint("1")), uint("1000"));
    assert_eq!(BigUInt::sum(&uint("0"), &uint("0")), uint("0"));
}

#[test]
fn big_uint_mul() {
    assert_eq!(BigUInt::mul(&uint("2763"), &uint("364")), uint("1005732"));
    assert_eq!(BigUInt::mul(&uint("100"), &uint("0")), uint("0"));
    assert_eq!(BigUInt::mul(&uint("12345678901234567890"), &uint("10")), uint("123456789012345678900"));
}

#[test]
fn big_uint_sub() {
    assert_eq!(BigUInt::sub(&uint("2763"), &uint("364")), uint("2399"));
    assert_eq!(BigUInt::sub(&uint("1000"), &uint("1")), uint("999"));
    assert_eq!(BigUInt::sub(&uint("100"), &uint("4")), uint("96"));
    assert_eq!(BigUInt::sub(&uint("364"), &uint("364")), uint("0"));
}
