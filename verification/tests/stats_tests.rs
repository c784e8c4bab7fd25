use ml_models::rational::Rat;
use ml_models::stats::{covariance, mean, variance};
use ml_models::RegressionError;

fn rat(n: i64, d: i64) -> Rat {
    Rat::new(n, d)
}

fn ints(ns: &[i64]) -> Vec<Rat> {
    ns.iter().map(|&n| Rat::from_int(n)).collect()
}

#[test]
fn mean_should_return_0_for_empty_vec() {
    let values: Vec<Rat> = vec![];
    assert_eq!(Rat::zero(), mean(&values).unwrap());
}

#[test]
fn mean_should_return_expected_value_for_vec() {
    let values = ints(&[1, 2, 3, 4, 5]);
    assert_eq!(Rat::from_int(3), mean(&values).unwrap());
}

#[test]
fn mean_is_sum_divided_by_count_on_fractions() {
    // 1/2 + 1/3 + 1/6 = 1, so the mean is exactly 1/3.
    let values = vec![rat(1, 2), rat(1, 3), rat(1, 6)];
    let m = mean(&values).unwrap();
    assert_eq!(m.num(), 1);
    assert_eq!(m.den(), 3);
}

#[test]
fn variance_should_return_0_for_empty_vec() {
    let values: Vec<Rat> = vec![];
    assert_eq!(Rat::zero(), variance(&values).unwrap());
}

#[test]
fn variance_should_return_expected_value_for_vec() {
    let values = ints(&[1, 2, 3, 4, 5]);
    assert_eq!(Rat::from_int(2), variance(&values).unwrap());
}

#[test]
fn variance_is_nonnegative_and_zero_on_constant_input() {
    let mixed = vec![rat(-7, 2), rat(3, 1), rat(1, 4), rat(-1, 3)];
    let v = variance(&mixed).unwrap();
    assert!(v.num() >= 0);
    let constant = vec![rat(5, 3), rat(5, 3), rat(5, 3), rat(5, 3)];
    assert_eq!(Rat::zero(), variance(&constant).unwrap());
    let single = vec![rat(9, 4)];
    assert_eq!(Rat::zero(), variance(&single).unwrap());
}

#[test]
fn covariance_should_return_0_for_empty_vecs() {
    let x_values: Vec<Rat> = vec![];
    let y_values: Vec<Rat> = vec![];
    assert_eq!(Rat::zero(), covariance(&x_values, &y_values).unwrap());
}

#[test]
fn covariance_should_be_positive_for_linear_vecs() {
    let x_values = ints(&[1, 2, 3, 4, 5]);
    let y_values = ints(&[1, 3, 2, 3, 5]);
    // 1.6 exactly
    assert_eq!(rat(8, 5), covariance(&x_values, &y_values).unwrap());
}

#[test]
fn covariance_should_be_negative_for_inverse_vecs() {
    let x_values = ints(&[1, 2, 3, 4, 5]);
    let y_values = vec![rat(1, 2), rat(4, 1), rat(1, 1), rat(-5, 1), rat(4, 1)];
    // -0.4 exactly
    assert_eq!(rat(-2, 5), covariance(&x_values, &y_values).unwrap());
}

#[test]
fn covariance_of_a_single_point_is_zero() {
    let x_values = vec![rat(7, 3)];
    let y_values = vec![rat(-2, 5)];
    assert_eq!(Rat::zero(), covariance(&x_values, &y_values).unwrap());
}

#[test]
fn covariance_is_symmetric() {
    let x_values = vec![rat(1, 2), rat(7, 3), rat(-4, 1), rat(11, 5)];
    let y_values = vec![rat(3, 1), rat(-1, 6), rat(2, 7), rat(5, 2)];
    let xy = covariance(&x_values, &y_values).unwrap();
    let yx = covariance(&y_values, &x_values).unwrap();
    assert_eq!(xy, yx);
}

#[test]
fn covariance_fails_with_length_mismatch() {
    let x_values = ints(&[1, 2, 3]);
    let y_values = ints(&[1, 2]);
    assert_eq!(
        covariance(&x_values, &y_values),
        Err(RegressionError::LengthMismatch)
    );
}

#[test]
fn mean_fails_with_overflow_when_the_sum_does_not_fit() {
    let big = Rat::from_int(i64::MAX);
    let values = vec![big, big];
    assert_eq!(mean(&values), Err(RegressionError::Overflow));
}

#[test]
fn rationals_are_reduced_to_lowest_terms() {
    let half = rat(2, 4);
    assert_eq!(half.num(), 1);
    assert_eq!(half.den(), 2);
    assert_eq!(half, rat(1, 2));
    let sum = rat(1, 6).add(rat(1, 3)).unwrap();
    assert_eq!(sum.num(), 1);
    assert_eq!(sum.den(), 2);
}
