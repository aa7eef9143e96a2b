use sloth_num::BigNum;

fn num(s: &str) -> BigNum {
    BigNum::from_string(s).unwrap()
}

fn samples() -> Vec<BigNum> {
    [
        "0",
        "1",
        "-1",
        "10",
        "-10",
        "0.1",
        "-0.1",
        "0.5",
        "2.5",
        "-2.5",
        "99.99",
        "-99.99",
        "0.001",
        "123456789.987654321",
        "-0.000000000000000000042",
        "1000000000000000000000",
    ]
    .iter()
    .map(|s| num(s))
    .collect()
}

#[test]
fn addition_commutes() {
    for a in samples() {
        for b in samples() {
            assert_eq!(BigNum::bn_add(&a, &b), BigNum::bn_add(&b, &a));
        }
    }
}

#[test]
fn multiplication_commutes() {
    for a in samples() {
        for b in samples() {
            assert_eq!(BigNum::bn_mul(&a, &b), BigNum::bn_mul(&b, &a));
        }
    }
}

#[test]
fn addition_associates() {
    for a in samples() {
        for b in samples() {
            for c in samples() {
                assert_eq!(
                    BigNum::bn_add(&BigNum::bn_add(&a, &b), &c),
                    BigNum::bn_add(&a, &BigNum::bn_add(&b, &c))
                );
            }
        }
    }
}

#[test]
fn subtraction_associates_with_addition() {
    for a in samples() {
        for b in samples() {
            for c in samples() {
                assert_eq!(
                    BigNum::bn_sub(&BigNum::bn_add(&a, &b), &c),
                    BigNum::bn_add(&a, &BigNum::bn_sub(&b, &c))
                );
                assert_eq!(
                    BigNum::bn_sub(&BigNum::bn_sub(&a, &b), &c),
                    BigNum::bn_sub(&a, &BigNum::bn_add(&b, &c))
                );
            }
        }
    }
}

#[test]
fn multiplication_associates() {
    for a in samples() {
        for b in samples() {
            for c in samples() {
                assert_eq!(
                    BigNum::bn_mul(&BigNum::bn_mul(&a, &b), &c),
                    BigNum::bn_mul(&a, &BigNum::bn_mul(&b, &c))
                );
            }
        }
    }
}

#[test]
fn zero_and_one_are_identities() {
    for a in samples() {
        assert_eq!(BigNum::bn_add(&a, &BigNum::zero()), a);
        assert_eq!(BigNum::bn_add(&BigNum::zero(), &a), a);
        assert_eq!(BigNum::bn_mul(&a, &BigNum::one()), a);
        assert_eq!(BigNum::bn_mul(&BigNum::one(), &a), a);
    }
}

#[test]
fn subtraction_undoes_addition() {
    for a in samples() {
        for b in samples() {
            assert_eq!(BigNum::bn_sub(&BigNum::bn_add(&a, &b), &b), a);
        }
    }
}

#[test]
fn product_sign() {
    for a in samples() {
        for b in samples() {
            let negative = (a.is_negative() != b.is_negative()) && !a.is_zero() && !b.is_zero();
            assert_eq!(BigNum::bn_mul(&a, &b).is_negative(), negative);
        }
    }
}

#[test]
fn a_number_minus_itself_is_not_negative() {
    for a in samples() {
        let d = BigNum::bn_sub(&a, &a);
        assert!(d.is_zero());
        assert!(!d.is_negative());
    }
}

#[test]
fn division_by_a_power_of_ten_loses_nothing() {
    let mut ten_pow = BigNum::one();
    for _ in 0..25 {
        for a in samples() {
            let q = BigNum::bn_div(&a, &ten_pow).unwrap();
            assert_eq!(BigNum::bn_mul(&q, &ten_pow), a);
        }
        ten_pow = BigNum::bn_mul(&ten_pow, &num("10"));
    }
}

#[test]
fn euclidian_division_recomposes() {
    for a in samples() {
        for b in samples() {
            if a.is_negative() || b.is_negative() || b.is_zero() {
                continue;
            }
            let (q, r) = BigNum::euclidian(&a, &b).unwrap();
            assert_eq!(BigNum::bn_add(&BigNum::bn_mul(&q, &b), &r), a);
            assert!(!r.is_negative());
            assert!(r < b);
            assert_eq!(q.to_string().contains('.'), false);
        }
    }
}

#[test]
fn truncated_quotient_is_within_the_precision() {
    let bound = num("0.000000000000001");
    for a in samples() {
        for b in samples() {
            if b.is_zero() {
                continue;
            }
            let q = BigNum::bn_div(&a, &b).unwrap();
            // |a - q * b| < |b| * 10^-15
            let mut error = BigNum::bn_sub(&a, &BigNum::bn_mul(&q, &b));
            if error.is_negative() {
                error = error.opposite();
            }
            let mut width = BigNum::bn_mul(&b, &bound);
            if width.is_negative() {
                width = width.opposite();
            }
            assert!(error < width, "{} / {}", a.to_string(), b.to_string());
        }
    }
}
