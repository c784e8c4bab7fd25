use ml_models::rational::Rat;
use ml_models::regression::LinearRegression;
use ml_models::RegressionError;

fn rat(n: i64, d: i64) -> Rat {
    Rat::new(n, d)
}

fn ints(ns: &[i64]) -> Vec<Rat> {
    ns.iter().map(|&n| Rat::from_int(n)).collect()
}

fn to_f64(r: Rat) -> f64 {
    r.num() as f64 / r.den() as f64
}

#[test]
fn fit_should_fail_for_empty_vecs() {
    let mut model = LinearRegression::new();
    let x_values: Vec<Rat> = vec![];
    let y_values: Vec<Rat> = vec![];

    let outcome = model.fit(&x_values, &y_values);

    assert_eq!(outcome, Err(RegressionError::DegenerateInput));
    assert!(model.intercept.is_none());
    assert!(model.coefficient.is_none());
}

#[test]
fn should_fit_coefficients_correctly() {
    let mut model = LinearRegression::new();
    let x_values = ints(&[1, 2, 3, 4, 5]);
    let y_values = ints(&[1, 3, 2, 3, 5]);

    model.fit(&x_values, &y_values).unwrap();

    // intercept 0.4 and coefficient 0.8, exactly
    assert_eq!(rat(2, 5), model.intercept.unwrap());
    assert_eq!(rat(4, 5), model.coefficient.unwrap());
}

#[test]
fn should_predict_correctly() {
    let mut model = LinearRegression::new();
    let x_values = ints(&[1, 2, 3, 4, 5]);
    let y_values = ints(&[1, 3, 2, 3, 5]);

    model.fit(&x_values, &y_values).unwrap();

    // 1.2, 2.0, 2.8, 3.6, 4.4, exactly
    assert_eq!(rat(6, 5), model.predict(Rat::from_int(1)).unwrap());
    assert_eq!(rat(2, 1), model.predict(Rat::from_int(2)).unwrap());
    assert_eq!(rat(14, 5), model.predict(Rat::from_int(3)).unwrap());
    assert_eq!(rat(18, 5), model.predict(Rat::from_int(4)).unwrap());
    assert_eq!(rat(22, 5), model.predict(Rat::from_int(5)).unwrap());
}

#[test]
fn should_predict_list_correctly() {
    let mut model = LinearRegression::new();
    let x_values = ints(&[1, 2, 3, 4, 5]);
    let y_values = ints(&[1, 3, 2, 3, 5]);

    model.fit(&x_values, &y_values).unwrap();
    let predictions = model.predict_list(&x_values).unwrap();

    assert_eq!(rat(6, 5), predictions[0]);
    assert_eq!(rat(2, 1), predictions[1]);
    assert_eq!(rat(14, 5), predictions[2]);
    assert_eq!(rat(18, 5), predictions[3]);
    assert_eq!(rat(22, 5), predictions[4]);
}

#[test]
fn should_evaluate_correctly() {
    let mut model = LinearRegression::new();
    let x_values = ints(&[1, 2, 3, 4, 5]);
    let y_values = ints(&[1, 3, 2, 3, 5]);

    model.fit(&x_values, &y_values).unwrap();
    let rmse = to_f64(model.evaluate(&x_values, &y_values).unwrap());

    // sqrt(0.48) = 0.69282...
    assert!((rmse - 0.693).abs() < 0.001);
}

#[test]
fn fit_round_trips_on_perfectly_linear_data() {
    let mut model = LinearRegression::new();
    let x_values = ints(&[1, 2, 3, 4, 5]);
    let y_values = ints(&[2, 4, 6, 8, 10]);

    model.fit(&x_values, &y_values).unwrap();

    assert_eq!(Rat::zero(), model.intercept.unwrap());
    assert_eq!(Rat::from_int(2), model.coefficient.unwrap());
    let rmse = model.evaluate(&x_values, &y_values).unwrap();
    assert!(to_f64(rmse).abs() < 0.000001);
}

#[test]
fn unfit_model_fails_with_not_fitted() {
    let model = LinearRegression::new();
    let xs = ints(&[1, 2, 3]);
    let ys = ints(&[1, 2, 3]);

    assert_eq!(
        model.predict(Rat::from_int(1)),
        Err(RegressionError::NotFitted)
    );
    assert_eq!(model.predict_list(&xs), Err(RegressionError::NotFitted));
    assert_eq!(model.evaluate(&xs, &ys), Err(RegressionError::NotFitted));
}

#[test]
fn fit_fails_with_degenerate_input_on_constant_x() {
    let mut model = LinearRegression::new();
    let x_values = ints(&[2, 2, 2]);
    let y_values = ints(&[1, 2, 3]);

    assert_eq!(
        model.fit(&x_values, &y_values),
        Err(RegressionError::DegenerateInput)
    );
    assert!(model.intercept.is_none());
}

#[test]
fn fit_fails_with_length_mismatch() {
    let mut model = LinearRegression::new();
    let x_values = ints(&[1, 2, 3]);
    let y_values = ints(&[1, 2]);

    assert_eq!(
        model.fit(&x_values, &y_values),
        Err(RegressionError::LengthMismatch)
    );
}

#[test]
fn predict_list_preserves_length_and_order() {
    let mut model = LinearRegression::new();
    let x_values = ints(&[1, 2, 3, 4, 5]);
    let y_values = ints(&[2, 4, 6, 8, 10]);
    model.fit(&x_values, &y_values).unwrap();

    let inputs = vec![rat(7, 2), Rat::from_int(-1), Rat::zero(), rat(1, 4)];
    let predictions = model.predict_list(&inputs).unwrap();

    assert_eq!(predictions.len(), inputs.len());
    for (i, x) in inputs.iter().enumerate() {
        assert_eq!(predictions[i], model.predict(*x).unwrap());
    }
    // y = 2x: 7/2 -> 7, -1 -> -2, 0 -> 0, 1/4 -> 1/2
    assert_eq!(predictions[0], Rat::from_int(7));
    assert_eq!(predictions[1], Rat::from_int(-2));
    assert_eq!(predictions[2], Rat::zero());
    assert_eq!(predictions[3], rat(1, 2));
}

#[test]
fn evaluate_on_empty_test_set_is_zero() {
    let mut model = LinearRegression::new();
    let x_values = ints(&[1, 2, 3, 4, 5]);
    let y_values = ints(&[2, 4, 6, 8, 10]);
    model.fit(&x_values, &y_values).unwrap();

    let empty: Vec<Rat> = vec![];
    assert_eq!(Rat::zero(), model.evaluate(&empty, &empty).unwrap());
}

#[test]
fn refitting_replaces_the_parameters() {
    let mut model = LinearRegression::new();
    let x_values = ints(&[1, 2, 3, 4, 5]);
    model.fit(&x_values, &ints(&[1, 3, 2, 3, 5])).unwrap();
    assert_eq!(rat(4, 5), model.coefficient.unwrap());

    model.fit(&x_values, &ints(&[2, 4, 6, 8, 10])).unwrap();
    assert_eq!(Rat::from_int(2), model.coefficient.unwrap());
    assert_eq!(Rat::zero(), model.intercept.unwrap());
}
