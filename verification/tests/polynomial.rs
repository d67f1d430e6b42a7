use vinhal::poly::{
    compute_cost_poly, compute_gradient_poly, gradient_descent_poly, predict_single_value_poly,
};
use vinhal::simple::gradient_descent;
use vinhal::RegressionError;

// One real unit in fixed-point representation (10^-9 resolution).
const ONE: i128 = 1_000_000_000;

#[test]
fn predict_sums_weighted_powers() {
    // w = [1, 2, 3], b = 4 at x = 2: 1 + 2*2 + 3*4 + 4 = 21.
    let w = vec![ONE, 2 * ONE, 3 * ONE];
    assert_eq!(predict_single_value_poly(2 * ONE, &w, 4 * ONE), 21 * ONE);
}

#[test]
fn predict_with_empty_weights_is_bias() {
    let w: Vec<i128> = vec![];
    assert_eq!(predict_single_value_poly(5 * ONE, &w, 3 * ONE), 3 * ONE);
}

#[test]
fn cost_zero_at_exact_fit_poly() {
    // y = 1 + 2x fitted by w = [1, 2], b = 0.
    let x = vec![ONE, 2 * ONE, 3 * ONE];
    let y = vec![3 * ONE, 5 * ONE, 7 * ONE];
    let w = vec![ONE, 2 * ONE];
    assert_eq!(compute_cost_poly(&x, &y, &w, 0), Ok(0));
}

#[test]
fn cost_half_for_unit_error_poly() {
    let x = vec![ONE];
    let y = vec![0];
    let w = vec![ONE];
    // Prediction is w[0] * x^0 = 1; error 1; J = 0.5.
    assert_eq!(compute_cost_poly(&x, &y, &w, 0), Ok(ONE / 2));
}

#[test]
fn cost_errors_poly() {
    let w = vec![ONE];
    let x = vec![ONE];
    let y = vec![ONE, 2 * ONE];
    assert_eq!(compute_cost_poly(&x, &y, &w, 0), Err(RegressionError::ShapeMismatch));
    let e: Vec<i128> = vec![];
    assert_eq!(compute_cost_poly(&e, &e, &w, 0), Err(RegressionError::EmptyInput));
}

#[test]
fn gradient_matches_simple_for_degree_one() {
    // Same data as the simple-linear pipeline at (w, b) = (0, 0): the slope
    // gradient is -14/3 truncated and the bias gradient -2, while the
    // constant-term entry stays zero.
    let x = vec![ONE, 2 * ONE, 3 * ONE];
    let y = vec![ONE, 2 * ONE, 3 * ONE];
    let w = vec![0, 0];
    let (gw, gb) = compute_gradient_poly(&x, &y, &w, 0).unwrap();
    assert_eq!(gw, vec![0, -4_666_666_666]);
    assert_eq!(gb, -2 * ONE);
}

#[test]
fn gradient_keeps_constant_term_weight() {
    // The entry for power 0 is zero whatever the parameters: that weight is
    // never updated (it is redundant with the bias).
    let x = vec![ONE, 2 * ONE];
    let y = vec![5 * ONE, 7 * ONE];
    let w = vec![3 * ONE, ONE, 2 * ONE];
    let (gw, _) = compute_gradient_poly(&x, &y, &w, 4 * ONE).unwrap();
    assert_eq!(gw[0], 0);
}

#[test]
fn gradient_errors_poly() {
    let w = vec![ONE];
    let x = vec![ONE, 2 * ONE];
    let y = vec![ONE];
    assert!(matches!(
        compute_gradient_poly(&x, &y, &w, 0),
        Err(RegressionError::ShapeMismatch)
    ));
    let e: Vec<i128> = vec![];
    assert!(matches!(compute_gradient_poly(&e, &e, &w, 0), Err(RegressionError::EmptyInput)));
}

#[test]
fn descent_zero_iters_returns_zero_initialization() {
    let x = vec![ONE, 2 * ONE];
    let y = vec![ONE, 2 * ONE];
    let md = gradient_descent_poly(&x, &y, 3, ONE / 10, 0).unwrap();
    assert_eq!(md.w, vec![0, 0, 0, 0]);
    assert_eq!(md.b, 0);
    assert!(md.cost_history.is_empty());
}

#[test]
fn descent_errors_before_the_loop_poly() {
    let x = vec![ONE];
    let y = vec![ONE, 2 * ONE];
    assert!(matches!(
        gradient_descent_poly(&x, &y, 1, ONE / 10, 5),
        Err(RegressionError::ShapeMismatch)
    ));
    let e: Vec<i128> = vec![];
    assert!(matches!(
        gradient_descent_poly(&e, &e, 1, ONE / 10, 5),
        Err(RegressionError::EmptyInput)
    ));
}

#[test]
fn degree_one_descent_equals_simple_linear_descent() {
    // Degree-1 polynomial descent starts at w = [0, 0], b = 0 and its
    // constant-term weight never moves, so the slope and bias iterate exactly
    // as the simple-linear pipeline started at (0, 0) does: the final values
    // agree to the last fixed-point unit.
    let x = vec![ONE, 2 * ONE, 3 * ONE];
    let y = vec![ONE, 2 * ONE, 3 * ONE];
    let poly = gradient_descent_poly(&x, &y, 1, ONE / 10, 1000).unwrap();
    let simple = gradient_descent(&x, &y, 0, 0, ONE / 10, 1000).unwrap();
    assert_eq!(poly.w[0], 0);
    assert_eq!(poly.w[1], simple.w);
    assert_eq!(poly.b, simple.b);
    assert_eq!(poly.cost_history, simple.cost_history);
    // And the run did converge: slope near 1, bias near 0, final cost below
    // resolution.
    let tol = ONE / 1000;
    assert!((poly.w[1] - ONE).abs() < tol);
    assert!(poly.b.abs() < tol);
    assert_eq!(*poly.cost_history.last().unwrap(), 0);
}

#[test]
fn descent_keeps_constant_term_weight_at_zero() {
    // Whatever the data, the power-0 weight starts at zero and never moves.
    let x = vec![ONE, 2 * ONE, 3 * ONE];
    let y = vec![4 * ONE, 9 * ONE, 16 * ONE];
    let md = gradient_descent_poly(&x, &y, 2, ONE / 100, 200).unwrap();
    assert_eq!(md.w[0], 0);
}

#[test]
fn descent_history_shapes_poly() {
    let x = vec![ONE, 2 * ONE];
    let y = vec![3 * ONE, 5 * ONE];
    let md = gradient_descent_poly(&x, &y, 2, ONE / 10, 9).unwrap();
    assert_eq!(md.w.len(), 3);
    assert_eq!(md.cost_history.len(), 9);
}
