use ml_models::gradient_descent::{linear_regression, step};
use ml_models::rational::Rat;
use ml_models::RegressionError;

fn rat(n: i64, d: i64) -> Rat {
    Rat::new(n, d)
}

fn ints(ns: &[i64]) -> Vec<Rat> {
    ns.iter().map(|&n| Rat::from_int(n)).collect()
}

#[test]
fn zero_epochs_leave_parameters_at_zero() {
    let x_values = ints(&[1, 2, 3, 4, 5]);
    let y_values = ints(&[1, 3, 2, 3, 5]);

    let (b, m) = linear_regression(&x_values, &y_values, 0, rat(1, 100)).unwrap();

    assert_eq!(Rat::zero(), b);
    assert_eq!(Rat::zero(), m);
}

#[test]
fn zero_epochs_on_empty_input_leave_parameters_at_zero() {
    let empty: Vec<Rat> = vec![];
    let (b, m) = linear_regression(&empty, &empty, 0, rat(1, 2)).unwrap();
    assert_eq!(Rat::zero(), b);
    assert_eq!(Rat::zero(), m);
}

#[test]
fn empty_input_leaves_parameters_at_zero_for_any_epochs() {
    // every per-epoch mean over zero samples is zero, so nothing moves
    let empty: Vec<Rat> = vec![];
    let (b, m) = linear_regression(&empty, &empty, 25, rat(3, 7)).unwrap();
    assert_eq!(Rat::zero(), b);
    assert_eq!(Rat::zero(), m);
}

#[test]
fn one_epoch_takes_the_expected_exact_step() {
    // one sample (1, 1), start (0, 0): both gradients are -2, so with
    // learning rate 1/2 both parameters move to exactly 1
    let x_values = ints(&[1]);
    let y_values = ints(&[1]);

    let (b, m) = linear_regression(&x_values, &y_values, 1, rat(1, 2)).unwrap();

    assert_eq!(Rat::from_int(1), b);
    assert_eq!(Rat::from_int(1), m);
}

#[test]
fn step_at_the_least_squares_solution_changes_nothing() {
    // y = 2x fits the data exactly, so both gradients vanish at (0, 2) and
    // one more epoch returns the parameters unchanged
    let x_values = ints(&[1, 2, 3, 4, 5]);
    let y_values = ints(&[2, 4, 6, 8, 10]);

    let (b, m) = step(Rat::zero(), Rat::from_int(2), &x_values, &y_values, rat(1, 100)).unwrap();

    assert_eq!(Rat::zero(), b);
    assert_eq!(Rat::from_int(2), m);
}

#[test]
fn three_epochs_follow_the_exact_trajectory() {
    // y = 2x with learning rate 1/10: the states after each epoch are
    // (3/5, 1), (39/50, 33/25), (207/250, 713/500)
    let x_values = ints(&[1, 2]);
    let y_values = ints(&[2, 4]);

    let (b, m) = linear_regression(&x_values, &y_values, 3, rat(1, 10)).unwrap();

    assert_eq!(rat(207, 250), b);
    assert_eq!(rat(713, 500), m);
}

#[test]
fn gradient_descent_overflows_when_denominators_outgrow_the_range() {
    // each epoch multiplies denominators; many epochs with learning rate
    // 1/10000019 (a prime) must leave the representable range
    let x_values = ints(&[1, 2, 3]);
    let y_values = ints(&[1, 2, 4]);

    let outcome = linear_regression(&x_values, &y_values, 1000, rat(1, 10000019));

    assert_eq!(outcome, Err(RegressionError::Overflow));
}
