use vinhal::simple::{compute_cost, compute_gradient, gradient_descent, LinearModel};
use vinhal::RegressionError;

// One real unit in fixed-point representation (10^-9 resolution).
const ONE: i128 = 1_000_000_000;

fn dataset() -> (Vec<i128>, Vec<i128>) {
    (vec![ONE, 2 * ONE, 3 * ONE], vec![ONE, 2 * ONE, 3 * ONE])
}

#[test]
fn cost_zero_at_exact_fit() {
    let (x, y) = dataset();
    assert_eq!(compute_cost(&x, &y, ONE, 0), Ok(0));
}

#[test]
fn cost_half_for_unit_error() {
    // One example, prediction off by exactly 1.0: J = (1/2) * 1^2 = 0.5.
    let x = vec![ONE];
    let y = vec![0];
    assert_eq!(compute_cost(&x, &y, ONE, 0), Ok(ONE / 2));
}

#[test]
fn cost_is_nonnegative() {
    let (x, y) = dataset();
    for &(w, b) in &[(0, 0), (-3 * ONE, 2 * ONE), (7 * ONE, -5 * ONE), (ONE / 3, ONE / 7)] {
        let c = compute_cost(&x, &y, w, b).unwrap();
        assert!(c >= 0);
    }
}

#[test]
fn cost_shape_mismatch() {
    let x = vec![ONE, 2 * ONE];
    let y = vec![ONE];
    assert_eq!(compute_cost(&x, &y, 0, 0), Err(RegressionError::ShapeMismatch));
}

#[test]
fn cost_empty_input() {
    let x: Vec<i128> = vec![];
    let y: Vec<i128> = vec![];
    assert_eq!(compute_cost(&x, &y, 0, 0), Err(RegressionError::EmptyInput));
}

#[test]
fn cost_mismatch_takes_precedence_over_empty() {
    let x: Vec<i128> = vec![];
    let y = vec![ONE];
    assert_eq!(compute_cost(&x, &y, 0, 0), Err(RegressionError::ShapeMismatch));
}

#[test]
fn gradient_at_zero_parameters() {
    let (x, y) = dataset();
    // errs = (-1, -2, -3); dJ/dw = -14/3, dJ/db = -2 exactly (truncated).
    assert_eq!(compute_gradient(&x, &y, 0, 0), Ok((-4_666_666_666, -2 * ONE)));
}

#[test]
fn gradient_zero_at_least_squares_minimum() {
    // The closed-form least-squares solution for y = x is (w, b) = (1, 0);
    // the data is fitted exactly there, so the gradient vanishes exactly.
    let (x, y) = dataset();
    assert_eq!(compute_gradient(&x, &y, ONE, 0), Ok((0, 0)));
}

#[test]
fn gradient_shape_mismatch() {
    let x = vec![ONE];
    let y = vec![ONE, 2 * ONE];
    assert_eq!(compute_gradient(&x, &y, 0, 0), Err(RegressionError::ShapeMismatch));
}

#[test]
fn gradient_empty_input() {
    let x: Vec<i128> = vec![];
    let y: Vec<i128> = vec![];
    assert_eq!(compute_gradient(&x, &y, 0, 0), Err(RegressionError::EmptyInput));
}

#[test]
fn descent_zero_iters_returns_initial() {
    let (x, y) = dataset();
    let md = gradient_descent(&x, &y, 5 * ONE, -2 * ONE, ONE / 10, 0).unwrap();
    assert_eq!(md.w, 5 * ONE);
    assert_eq!(md.b, -2 * ONE);
    assert!(md.cost_history.is_empty());
    assert!(md.param_history.is_empty());
}

#[test]
fn descent_errors_before_the_loop() {
    let x = vec![ONE];
    let y = vec![ONE, 2 * ONE];
    assert!(matches!(
        gradient_descent(&x, &y, 0, 0, ONE / 10, 5),
        Err(RegressionError::ShapeMismatch)
    ));
    let e: Vec<i128> = vec![];
    assert!(matches!(
        gradient_descent(&e, &e, 0, 0, ONE / 10, 5),
        Err(RegressionError::EmptyInput)
    ));
}

#[test]
fn descent_history_shapes() {
    let (x, y) = dataset();
    let md = gradient_descent(&x, &y, 0, 0, ONE / 10, 7).unwrap();
    assert_eq!(md.cost_history.len(), 7);
    assert_eq!(md.param_history.len(), 7);
    for entry in &md.param_history {
        assert_eq!(entry.len(), 2);
    }
    // The last snapshot holds the final parameters.
    assert_eq!(md.param_history[6], vec![md.w, md.b]);
}

#[test]
fn descent_history_capped_at_hundred_thousand() {
    // A dataset already at its optimum keeps each iteration cheap; the loop
    // still runs 100001 times but the histories stop growing at 100000.
    let x = vec![ONE];
    let y = vec![ONE];
    let md = gradient_descent(&x, &y, ONE, 0, ONE / 10, 100_001).unwrap();
    assert_eq!(md.cost_history.len(), 100_000);
    assert_eq!(md.param_history.len(), 100_000);
    assert_eq!(md.w, ONE);
    assert_eq!(md.b, 0);
}

#[test]
fn descent_converges_to_unit_slope() {
    // y = x fitted from zero: after 1000 steps at alpha = 0.1 the parameters
    // are within 1e-3 of (1, 0) and the final cost is below resolution.
    let (x, y) = dataset();
    let md = gradient_descent(&x, &y, 0, 0, ONE / 10, 1000).unwrap();
    let tol = ONE / 1000;
    assert!((md.w - ONE).abs() < tol, "w = {}", md.w);
    assert!(md.b.abs() < tol, "b = {}", md.b);
    assert_eq!(md.cost_history.len(), 1000);
    assert_eq!(*md.cost_history.last().unwrap(), 0);
}

#[test]
fn descent_cost_history_is_nonincreasing() {
    // Convex dataset, small alpha: every recorded cost is at most the one
    // before it, with no tolerance needed in exact arithmetic.
    let (x, y) = dataset();
    let md = gradient_descent(&x, &y, 0, 0, ONE / 10, 1000).unwrap();
    for t in 1..md.cost_history.len() {
        assert!(
            md.cost_history[t] <= md.cost_history[t - 1],
            "cost rose at iteration {}",
            t
        );
    }
}

#[test]
fn model_predicts_with_its_parameters() {
    let md = LinearModel::new(2 * ONE, 3 * ONE, vec![], vec![]);
    // 2 * 4 + 3 = 11.
    assert_eq!(md.predict_x(4 * ONE), 11 * ONE);
    assert_eq!(md.w, 2 * ONE);
    assert_eq!(md.b, 3 * ONE);
}
