use sloth_num::error::NumError;
use sloth_num::long_div::ub_div;
use sloth_num::unsigned::{
    is_power_of_ten, ub_add, ub_clean, ub_cleaned, ub_is_lower, ub_mul, ub_shortdiv, ub_sub,
};

fn digits(mut n: u128) -> Vec<u8> {
    let mut v = Vec::new();
    if n == 0 {
        v.push(0);
    }
    while n > 0 {
        v.push((n % 10) as u8);
        n /= 10;
    }
    v
}

fn number(v: &[u8]) -> u128 {
    let mut n: u128 = 0;
    for d in v.iter().rev() {
        n = n * 10 + *d as u128;
    }
    n
}

#[test]
fn clean_drops_leading_zeros() {
    let mut number = vec![0, 2, 4, 9, 6, 0, 0];
    ub_clean(&mut number);
    assert_eq!(number, vec![0, 2, 4, 9, 6]);
}

#[test]
fn clean_keeps_one_zero() {
    let mut number = vec![0, 0, 0];
    ub_clean(&mut number);
    assert_eq!(number, vec![0]);
}

#[test]
fn clean_leaves_empty_alone() {
    let mut number: Vec<u8> = vec![];
    ub_clean(&mut number);
    assert_eq!(number, Vec::<u8>::new());
}

#[test]
fn cleaned_returns_trimmed_copy() {
    assert_eq!(ub_cleaned(vec![0, 2, 4, 9, 6, 0, 0]), vec![0, 2, 4, 9, 6]);
    assert_eq!(ub_cleaned(vec![]), Vec::<u8>::new());
    assert_eq!(ub_cleaned(vec![7]), vec![7]);
}

#[test]
fn ub_is_lower_examples() {
    let n1 = vec![3, 6, 7, 2];
    let n2 = vec![4, 6, 3];
    let n3 = vec![0, 4, 1, 5];
    let n4: Vec<u8> = vec![];
    assert_eq!(ub_is_lower(&n1, &n2), false);
    assert_eq!(ub_is_lower(&n1, &n3), true);
    assert_eq!(ub_is_lower(&n4, &n2), true);
    assert_eq!(ub_is_lower(&n1, &n1), false);
}

#[test]
fn is_lower_compares_from_the_most_significant_end() {
    // 19 against 91: the least significant digits alone would say otherwise
    assert_eq!(ub_is_lower(&vec![9, 1], &vec![1, 9]), true);
    assert_eq!(ub_is_lower(&vec![1, 9], &vec![9, 1]), false);
}

#[test]
fn is_lower_ignores_leading_zeros() {
    assert_eq!(ub_is_lower(&vec![5, 0, 0], &vec![6]), true);
    assert_eq!(ub_is_lower(&vec![0], &vec![0, 0]), false);
    assert_eq!(ub_is_lower(&vec![], &vec![0]), false);
}

#[test]
fn is_lower_matrix_of_small_numbers() {
    for a in 0..400u128 {
        for b in 0..400u128 {
            assert_eq!(ub_is_lower(&digits(a), &digits(b)), a < b, "{} < {}", a, b);
        }
    }
    for a in [999u128, 1000, 1001, 9999, 10000, 12345, 54321, 99999] {
        for b in [999u128, 1000, 1001, 9999, 10000, 12345, 54321, 99999] {
            assert_eq!(ub_is_lower(&digits(a), &digits(b)), a < b, "{} < {}", a, b);
        }
    }
}

#[test]
fn ub_add_examples() {
    assert_eq!(ub_add(vec![3, 6, 7, 2], vec![4, 6, 3]), vec![7, 2, 1, 3]);
    assert_eq!(ub_add(vec![0, 0, 1, 0], vec![0]), vec![0, 0, 1]);
}

#[test]
fn add_carries_into_a_new_digit() {
    assert_eq!(ub_add(vec![9, 9, 9], vec![1]), vec![0, 0, 0, 1]);
    assert_eq!(ub_add(vec![1], vec![9, 9, 9]), vec![0, 0, 0, 1]);
}

#[test]
fn add_of_nothing_is_zero() {
    assert_eq!(ub_add(vec![], vec![]), vec![0]);
    assert_eq!(ub_add(vec![0], vec![]), vec![0]);
}

#[test]
fn add_matches_integers() {
    for a in (0..3000u128).step_by(7) {
        for b in (0..3000u128).step_by(11) {
            assert_eq!(number(&ub_add(digits(a), digits(b))), a + b);
        }
    }
}

#[test]
fn ub_sub_examples() {
    assert_eq!(ub_sub(vec![3, 6, 7, 2], vec![4, 6, 3, 0]), Ok(vec![9, 9, 3, 2]));
    assert_eq!(ub_sub(vec![0, 0, 1, 0], vec![4, 0, 0, 0]), Ok(vec![6, 9]));
}

#[test]
fn sub_pads_the_shorter_operand() {
    assert_eq!(ub_sub(vec![0, 0, 0, 1], vec![1]), Ok(vec![9, 9, 9]));
}

#[test]
fn sub_of_equals_is_zero() {
    assert_eq!(ub_sub(vec![5, 4, 3], vec![5, 4, 3]), Ok(vec![0]));
    assert_eq!(ub_sub(vec![], vec![]), Ok(vec![0]));
}

#[test]
fn sub_matches_integers() {
    for a in (0..3000u128).step_by(7) {
        for b in (0..=a).step_by(13) {
            assert_eq!(number(&ub_sub(digits(a), digits(b)).unwrap()), a - b);
        }
    }
}

#[test]
fn ub_mul_examples() {
    let n1 = vec![3, 6, 7, 2];
    let n2 = vec![4, 6, 3];
    let n3 = vec![0, 0, 1, 0];
    let n4 = vec![0];
    assert_eq!(ub_mul(&n1, &n2), vec![2, 3, 7, 5, 0, 0, 1]);
    assert_eq!(ub_mul(&n3, &n4), vec![0]);
    assert_eq!(ub_mul(&n3, &n2), vec![0, 0, 4, 6, 3]);
}

#[test]
fn mul_by_one_and_by_zero() {
    assert_eq!(ub_mul(&vec![7, 8, 9], &vec![1]), vec![7, 8, 9]);
    assert_eq!(ub_mul(&vec![1], &vec![7, 8, 9]), vec![7, 8, 9]);
    assert_eq!(ub_mul(&vec![7, 8, 9], &vec![0]), vec![0]);
    assert_eq!(ub_mul(&vec![], &vec![7, 8, 9]), vec![0]);
}

#[test]
fn mul_matches_integers() {
    for a in (0..5000u128).step_by(17) {
        for b in (0..5000u128).step_by(23) {
            assert_eq!(number(&ub_mul(&digits(a), &digits(b))), a * b);
        }
    }
    let big = 123456789012345678u128;
    assert_eq!(number(&ub_mul(&digits(big), &digits(big))), big * big);
}

#[test]
fn ub_shortdiv_examples() {
    assert_eq!(ub_shortdiv(vec![3, 6, 7, 2], 3), Ok((vec![1, 2, 9], 0)));
    assert_eq!(ub_shortdiv(vec![4, 6, 3], 9), Ok((vec![0, 4], 4)));
    assert_eq!(ub_shortdiv(vec![0, 0, 1, 0], 1), Ok((vec![0, 0, 1], 0)));
}

#[test]
fn shortdiv_by_zero_fails() {
    assert_eq!(ub_shortdiv(vec![3, 6, 7, 2], 0), Err(NumError::DivisionByZero));
}

#[test]
fn shortdiv_of_nothing() {
    assert_eq!(ub_shortdiv(vec![], 7), Ok((vec![0], 0)));
}

#[test]
fn shortdiv_matches_integers() {
    for a in (0..20000u128).step_by(37) {
        for d in 1..=9u8 {
            let (q, r) = ub_shortdiv(digits(a), d).unwrap();
            assert_eq!(number(&q), a / d as u128);
            assert_eq!(r as u128, a % d as u128);
        }
    }
}

#[test]
fn ub_div_example() {
    assert_eq!(ub_div(&vec![3, 6, 7, 2], &vec![4, 6, 3]), Ok((vec![7], vec![5, 1, 2])));
}

#[test]
fn div_by_zero_fails() {
    assert_eq!(ub_div(&vec![3, 6, 7, 2], &vec![0]), Err(NumError::DivisionByZero));
    assert_eq!(ub_div(&vec![3, 6, 7, 2], &vec![0, 0]), Err(NumError::DivisionByZero));
    assert_eq!(ub_div(&vec![3, 6, 7, 2], &vec![]), Err(NumError::DivisionByZero));
}

#[test]
fn div_by_a_single_digit() {
    assert_eq!(ub_div(&vec![3, 6, 7, 2], &vec![3]), Ok((vec![1, 2, 9], vec![0])));
    assert_eq!(ub_div(&vec![4, 6, 3], &vec![9]), Ok((vec![0, 4], vec![4])));
}

#[test]
fn div_of_a_shorter_dividend() {
    assert_eq!(ub_div(&vec![2, 1], &vec![2, 3, 3, 1]), Ok((vec![0], vec![2, 1])));
    assert_eq!(ub_div(&vec![0], &vec![2, 1]), Ok((vec![0], vec![0])));
}

#[test]
fn div_with_a_leading_digit_that_needs_normalising() {
    // 19 * 5 = 95: the largest multiplier that stays at two digits
    assert_eq!(ub_div(&digits(1000), &digits(19)), Ok((digits(52), digits(12))));
    assert_eq!(ub_div(&digits(99999), &digits(10)), Ok((digits(9999), digits(9))));
    assert_eq!(ub_div(&digits(100000), &digits(49)), Ok((digits(2040), digits(40))));
}

#[test]
fn div_where_the_estimate_overshoots() {
    // estimates from the leading digits are too large here and are
    // corrected, or added back after the subtraction
    for (u, v) in [
        (5899u128, 59u128),
        (4100, 588),
        (7999, 80),
        (999999, 998),
        (500000, 501),
        (899999, 9000),
        (600000, 599),
        (9999999, 99999),
        (1000000, 999),
        (78999, 79),
    ] {
        let (q, r) = ub_div(&digits(u), &digits(v)).unwrap();
        assert_eq!(number(&q), u / v, "{} / {}", u, v);
        assert_eq!(number(&r), u % v, "{} % {}", u, v);
    }
}

#[test]
fn div_matches_integers() {
    for v in (10..2000u128).step_by(7) {
        for u in (0..60000u128).step_by(331) {
            let (q, r) = ub_div(&digits(u), &digits(v)).unwrap();
            assert_eq!(number(&q), u / v, "{} / {}", u, v);
            assert_eq!(number(&r), u % v, "{} % {}", u, v);
        }
    }
}

#[test]
fn div_of_long_numbers() {
    let u = 340282366920938463463374607431768211455u128;
    for v in [
        10u128,
        99,
        100,
        12345,
        99999999,
        50000000000,
        18446744073709551615,
        18446744073709551616,
        340282366920938463463374607431768211455,
    ] {
        let (q, r) = ub_div(&digits(u), &digits(v)).unwrap();
        assert_eq!(number(&q), u / v);
        assert_eq!(number(&r), u % v);
    }
}

#[test]
fn div_results_are_canonical() {
    let (q, r) = ub_div(&vec![0, 0, 1, 0, 0], &vec![0, 1, 0]).unwrap();
    assert_eq!(q, vec![0, 1]);
    assert_eq!(r, vec![0]);
}

#[test]
fn ub_power_of_ten_examples() {
    assert_eq!(is_power_of_ten(&vec![0, 0, 0, 1]), Some(3));
    assert_eq!(is_power_of_ten(&vec![1, 0, 3]), None);
    assert_eq!(is_power_of_ten(&vec![1]), Some(0));
    assert_eq!(is_power_of_ten(&vec![0, 0, 1, 0]), None);
    assert_eq!(is_power_of_ten(&vec![]), None);
    assert_eq!(is_power_of_ten(&vec![0]), None);
    assert_eq!(is_power_of_ten(&vec![0, 2]), None);
}
