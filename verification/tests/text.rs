use sloth_num::error::NumError;
use sloth_num::text::{format_parts, parse_parts};
use sloth_num::BigNum;

fn num(s: &str) -> BigNum {
    BigNum::from_string(s).unwrap()
}

#[test]
fn parse_examples() {
    assert_eq!(num("3536"), BigNum::new(false, vec![6, 3, 5, 3], 0).unwrap());
    assert_eq!(num("0"), BigNum::zero());
    assert_eq!(num("-0"), BigNum::zero());
    assert_eq!(num("+24895.25243"), BigNum::new(false, vec![3, 4, 2, 5, 2, 5, 9, 8, 4, 2], 5).unwrap());
    assert_eq!(num("-0.00243"), BigNum::new(true, vec![3, 4, 2], 5).unwrap());
}

#[test]
fn parse_ignores_spaces() {
    assert_eq!(num(" 1 234 . 5 "), num("1234.5"));
    assert_eq!(num("- 7"), num("-7"));
    assert_eq!(num(" + 7"), num("7"));
}

#[test]
fn parse_zero_with_a_fraction() {
    assert_eq!(num("0.0"), BigNum::zero());
    assert_eq!(num("0.000"), BigNum::zero());
    assert_eq!(num("-0.000"), BigNum::zero());
    assert!(!num("-0.000").is_negative());
    assert_eq!(num("000.100"), num("0.1"));
}

#[test]
fn parse_without_a_whole_or_a_fraction() {
    assert_eq!(num(".5"), num("0.5"));
    assert_eq!(num("5."), num("5"));
    assert_eq!(num("-.25"), num("-0.25"));
}

#[test]
fn parse_a_sign_or_a_point_alone_is_zero() {
    assert_eq!(num("-"), BigNum::zero());
    assert_eq!(num("+"), BigNum::zero());
    assert_eq!(num("."), BigNum::zero());
    assert_eq!(num("-."), BigNum::zero());
}

#[test]
fn parse_rejects_empty_text() {
    assert_eq!(BigNum::from_string(""), Err(NumError::Format));
    assert_eq!(BigNum::from_string("   "), Err(NumError::Format));
}

#[test]
fn parse_rejects_a_second_point() {
    assert_eq!(BigNum::from_string("1.2.3"), Err(NumError::Format));
    assert_eq!(BigNum::from_string(".."), Err(NumError::Format));
    assert_eq!(BigNum::from_string("1..2"), Err(NumError::Format));
}

#[test]
fn parse_rejects_other_characters() {
    assert_eq!(BigNum::from_string("abc"), Err(NumError::Format));
    assert_eq!(BigNum::from_string("12a"), Err(NumError::Format));
    assert_eq!(BigNum::from_string("1-2"), Err(NumError::Format));
    assert_eq!(BigNum::from_string("--2"), Err(NumError::Format));
    assert_eq!(BigNum::from_string("+-2"), Err(NumError::Format));
    assert_eq!(BigNum::from_string("2+"), Err(NumError::Format));
    assert_eq!(BigNum::from_string("1e5"), Err(NumError::Format));
    assert_eq!(BigNum::from_string("1,5"), Err(NumError::Format));
    assert_eq!(BigNum::from_string("1\t5"), Err(NumError::Format));
    assert_eq!(BigNum::from_string("\u{0663}"), Err(NumError::Format));
    assert_eq!(BigNum::from_string("NaN"), Err(NumError::Format));
}

#[test]
fn parse_parts_gives_sign_digits_and_scale() {
    assert_eq!(parse_parts("-12.50"), Ok((true, vec![0, 5, 2, 1], 2)));
    assert_eq!(parse_parts("+007"), Ok((false, vec![7, 0, 0], 0)));
    assert_eq!(parse_parts("3."), Ok((false, vec![3], 0)));
    assert_eq!(parse_parts(".3"), Ok((false, vec![3], 1)));
    assert_eq!(parse_parts("-"), Ok((true, vec![], 0)));
    assert_eq!(parse_parts("x"), Err(NumError::Format));
}

#[test]
fn format_examples() {
    assert_eq!(num("1242005.23352").to_string(), "1242005.23352");
    assert_eq!(num("-100").to_string(), "-100");
    assert_eq!(num("0").to_string(), "0");
    assert_eq!(num("-0").to_string(), "0");
    assert_eq!(num("12.50").to_string(), "12.5");
    assert_eq!(num("7").to_string(), "7");
}

#[test]
fn format_below_one_has_a_leading_zero() {
    assert_eq!(num("0.005").to_string(), "0.005");
    assert_eq!(num(".005").to_string(), "0.005");
    assert_eq!(num("-0.5").to_string(), "-0.5");
    assert_eq!(num("0.1").to_string(), "0.1");
    assert_eq!(num("0.12").to_string(), "0.12");
    assert_eq!(num("-0.00002423").to_string(), "-0.00002423");
}

#[test]
fn format_parts_writes_what_it_is_given() {
    assert_eq!(format_parts(false, &vec![0, 5, 2, 1], 2), "12.50");
    assert_eq!(format_parts(true, &vec![5], 3), "-0.005");
    assert_eq!(format_parts(false, &vec![5, 2], 2), "0.25");
    assert_eq!(format_parts(false, &vec![0], 0), "0");
    assert_eq!(format_parts(true, &vec![1, 2, 3], 0), "-321");
}

#[test]
fn round_trip_of_text() {
    for s in [
        "0",
        "1",
        "-1",
        "10",
        "0.1",
        "-0.1",
        "0.005",
        "123.456",
        "-123.456",
        "1000000",
        "0.000001",
        "98765432109876543210.0123456789",
        "-53643.368359",
    ] {
        let n = num(s);
        assert_eq!(n.to_string(), s);
        assert_eq!(num(&n.to_string()), n);
    }
}

#[test]
fn round_trip_of_numbers() {
    for scale in 0..6u32 {
        for v in (0..3000u32).step_by(7) {
            for negative in [false, true] {
                let digits = vec![
                    (v % 10) as u8,
                    (v / 10 % 10) as u8,
                    (v / 100 % 10) as u8,
                    (v / 1000) as u8,
                ];
                let n = BigNum::new(negative, digits, scale).unwrap();
                assert_eq!(num(&n.to_string()), n);
            }
        }
    }
}
