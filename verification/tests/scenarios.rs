use sloth_num::big_num::BigNum;

fn num(s: &str) -> BigNum {
    BigNum::from_string(s).unwrap()
}

#[test]
fn add_whole_and_fraction() {
    assert_eq!(BigNum::bn_add(&num("1242005"), &num("0.23352")), num("1242005.23352"));
}

#[test]
fn multiply_signs() {
    assert_eq!(BigNum::bn_mul(&num("-10"), &num("10")), num("-100"));
}

#[test]
fn divide_truncates_at_fifteen_digits() {
    assert_eq!(
        BigNum::bn_div(&num("1224.235"), &num("12")).unwrap(),
        num("102.019583333333333")
    );
}

#[test]
fn euclidian_exact() {
    let (q, r) = BigNum::euclidian(&num("1332"), &num("12")).unwrap();
    assert_eq!(q, num("111"));
    assert_eq!(r, num("0"));
}

#[test]
fn negative_zero_is_zero() {
    let z = num("-0");
    assert!(z.is_zero());
    assert!(!z.is_negative());
}

#[test]
fn compare_opposites() {
    assert!(num("-245.242") < num("245.242"));
}
