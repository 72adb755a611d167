use primitive_types::U256;
use rpolynomial::utils::error::PolynomialError;
use rpolynomial::Polynomial;

fn poly(values: &[u64], modulus: u64) -> Polynomial {
    Polynomial::new(values.iter().map(|v| U256::from(*v)).collect(), modulus).unwrap()
}

fn numbers(values: &[U256]) -> Vec<u64> {
    values.iter().map(|v| v.as_u64()).collect()
}

#[test]
fn zero_modulus_is_refused() {
    let r = Polynomial::new(vec![U256::from(1)], 0);
    assert_eq!(r.unwrap_err(), PolynomialError::InvalidModulus);
}

#[test]
fn stored_coefficients_are_below_the_modulus() {
    let p = Polynomial::new(
        vec![U256::MAX, U256::from(u64::MAX), U256::from(14), U256::from(6), U256::zero()],
        7,
    )
    .unwrap();
    assert_eq!(numbers(&p.coeffs), vec![1, 1, 0, 6, 0]);
    for c in p.coeffs.iter() {
        assert!(*c < U256::from(7));
    }
    assert_eq!(p.field.modulus(), 7);
}

#[test]
fn trailing_zeros_are_kept() {
    let p = poly(&[1, 2, 0, 7, 14], 7);
    assert_eq!(numbers(&p.coeffs), vec![1, 2, 0, 0, 0]);
    assert_eq!(p.deg(), 1);
    assert_eq!(numbers(&p.coeffs()), vec![1, 2, 0, 0, 0]);
}

#[test]
fn degree_of_nothing_and_of_zero_is_zero() {
    assert_eq!(poly(&[], 7).deg(), 0);
    assert_eq!(poly(&[0, 0, 0], 7).deg(), 0);
    assert_eq!(poly(&[7, 14], 7).deg(), 0);
    assert_eq!(poly(&[3], 7).deg(), 0);
    assert_eq!(poly(&[0, 3], 7).deg(), 1);
}

#[test]
fn coeffs_returns_a_copy() {
    let p = poly(&[2, 5, 7, 9], 7);
    let mut copy = p.coeffs();
    assert_eq!(copy, p.coeffs);
    copy[0] = U256::from(6);
    assert_eq!(p.coeffs[0], U256::from(2));
}

#[test]
fn evaluate_gives_the_value_in_the_field() {
    let p = poly(&[2, 5, 7, 9], 7);
    let expected: [u64; 15] = [2, 2, 0, 1, 3, 4, 2, 2, 2, 0, 1, 3, 4, 2, 2];
    for (x, want) in expected.iter().enumerate() {
        assert_eq!(p.evaluate(x as u64), U256::from(*want));
    }
}

#[test]
fn evaluate_with_large_numbers() {
    let p = poly(&[123_456_789, 987_654_321, 555_555_555], 1_000_000_007);
    assert_eq!(p.evaluate(4_000_000_000), U256::from(24_688_065u64));
}

#[test]
fn evaluate_of_nothing_is_zero() {
    assert_eq!(poly(&[], 7).evaluate(3), U256::zero());
    assert_eq!(poly(&[5, 1], 1).evaluate(3), U256::zero());
}

#[test]
fn addition_is_commutative() {
    let left = poly(&[2, 5, 7, 9], 7).add(poly(&[1, 2, 3, 4, 5], 7)).unwrap();
    let right = poly(&[1, 2, 3, 4, 5], 7).add(poly(&[2, 5, 7, 9], 7)).unwrap();
    assert_eq!(left, right);
    assert_eq!(numbers(&left.coeffs), vec![3, 0, 3, 6, 5]);
}

#[test]
fn result_length_follows_the_degrees() {
    let sum = poly(&[1, 0, 0, 0], 7).add(poly(&[2, 3, 0], 7)).unwrap();
    assert_eq!(numbers(&sum.coeffs), vec![3, 3]);
    let zero = poly(&[], 7).add(poly(&[], 7)).unwrap();
    assert_eq!(numbers(&zero.coeffs), vec![0]);
    let cancelled = poly(&[1, 6], 7).add(poly(&[0, 1], 7)).unwrap();
    assert_eq!(numbers(&cancelled.coeffs), vec![1, 0]);
    assert_eq!(cancelled.deg(), 0);
}

#[test]
fn results_stay_in_the_field() {
    let a = [6u64, 6, 6, 6];
    let b = [6u64, 5, 1, 0, 6];
    for c in poly(&a, 7).add(poly(&b, 7)).unwrap().coeffs {
        assert!(c < U256::from(7));
    }
    for c in poly(&a, 7).sub(poly(&b, 7)).unwrap().coeffs {
        assert!(c < U256::from(7));
    }
    for c in poly(&a, 7).mult(poly(&b, 7)).unwrap().coeffs {
        assert!(c < U256::from(7));
    }
    assert_eq!(numbers(&poly(&a, 7).sub(poly(&b, 7)).unwrap().coeffs), vec![0, 1, 5, 6, 1]);
    assert_eq!(numbers(&poly(&a, 7).mult(poly(&b, 7)).unwrap().coeffs), vec![1, 2, 6, 0, 0]);
}

#[test]
fn fail_polynomial_subtraction() {
    let r = poly(&[2, 5, 7, 9], 9).sub(poly(&[1, 2, 3, 4, 5], 7));
    assert_eq!(r.unwrap_err(), PolynomialError::FieldNotEqual);
}

#[test]
fn fail_polynomial_multiplication() {
    let r = poly(&[2, 5, 7, 9], 9).mult(poly(&[1, 2, 3, 4, 5], 7));
    assert_eq!(r.unwrap_err(), PolynomialError::FieldNotEqual);
}

#[test]
fn roots_are_where_evaluation_is_zero() {
    let p = poly(&[2, 5, 7, 9], 7);
    let roots = p.find_roots(U256::from(7));
    for x in 0u64..7 {
        let is_zero = p.evaluate(x) == U256::zero();
        assert_eq!(roots.contains(&U256::from(x)), is_zero);
    }
}

#[test]
fn roots_of_a_wider_search_are_reduced() {
    let p = poly(&[2, 5, 7, 9], 7);
    assert_eq!(numbers(&p.find_roots(U256::from(14))), vec![2, 2]);
    assert_eq!(numbers(&p.find_roots(U256::from(2))), Vec::<u64>::new());
    assert_eq!(numbers(&p.find_roots(U256::from(3))), vec![2]);
}

#[test]
fn roots_of_an_empty_search() {
    let p = poly(&[0], 7);
    assert!(p.find_roots(U256::zero()).is_empty());
    assert_eq!(numbers(&p.find_roots(U256::from(3))), vec![0, 1, 2]);
}

#[test]
fn roots_come_in_ascending_order() {
    let p = poly(&[0, 10, 10], 11);
    assert_eq!(numbers(&p.find_roots(U256::from(11))), vec![0, 10]);
    let q = poly(&[6, 0, 1], 7);
    assert_eq!(numbers(&q.find_roots(U256::from(7))), vec![1, 6]);
}

#[test]
fn reducing_again_changes_nothing() {
    let once = Polynomial::new(vec![U256::MAX, U256::from(9), U256::from(3)], 7).unwrap();
    let twice = Polynomial::new(once.coeffs(), 7).unwrap();
    assert_eq!(once, twice);
    let reduced = poly(&[0, 1, 2, 3, 4, 5, 6], 7);
    assert_eq!(numbers(&reduced.coeffs), vec![0, 1, 2, 3, 4, 5, 6]);
}

#[test]
fn checked_search_refuses_a_range_beyond_the_word() {
    let p = poly(&[2, 5, 7, 9], 7);
    assert_eq!(p.find_roots_checked(U256::MAX), None);
    assert_eq!(p.find_roots_checked(U256::from(u64::MAX) + U256::one()), None);
    assert_eq!(p.find_roots_checked(U256::from(7)), Some(vec![U256::from(2)]));
    assert_eq!(p.find_roots_checked(U256::zero()), Some(Vec::new()));
}
