use vinhal::multi::{
    compute_cost_multi, compute_gradient_multi, gradient_descent_multi, predict_single_value,
    MultiModel,
};
use vinhal::RegressionError;

// One real unit in fixed-point representation (10^-9 resolution).
const ONE: i128 = 1_000_000_000;

fn dataset() -> (Vec<Vec<i128>>, Vec<i128>) {
    (
        vec![vec![ONE, ONE], vec![2 * ONE, 2 * ONE], vec![3 * ONE, 3 * ONE]],
        vec![2 * ONE, 4 * ONE, 6 * ONE],
    )
}

#[test]
fn predict_is_bias_plus_dot_product() {
    let x = vec![ONE, 2 * ONE];
    let w = vec![3 * ONE, 4 * ONE];
    // 3 * 1 + 4 * 2 + 5 = 16.
    assert_eq!(predict_single_value(&x, &w, 5 * ONE), Ok(16 * ONE));
}

#[test]
fn predict_rejects_arity_mismatch() {
    let x = vec![ONE];
    let w = vec![ONE, ONE];
    assert_eq!(predict_single_value(&x, &w, 0), Err(RegressionError::ShapeMismatch));
}

#[test]
fn cost_zero_at_exact_fit_multi() {
    let (x, y) = dataset();
    let w = vec![ONE, ONE];
    assert_eq!(compute_cost_multi(&x, &y, &w, 0), Ok(0));
}

#[test]
fn cost_half_for_unit_error_multi() {
    let x = vec![vec![ONE]];
    let y = vec![0];
    let w = vec![ONE];
    assert_eq!(compute_cost_multi(&x, &y, &w, 0), Ok(ONE / 2));
}

#[test]
fn cost_errors_multi() {
    let (x, y) = dataset();
    let w = vec![ONE, ONE];
    let short_y = vec![ONE];
    assert_eq!(compute_cost_multi(&x, &short_y, &w, 0), Err(RegressionError::ShapeMismatch));
    let e_x: Vec<Vec<i128>> = vec![];
    let e_y: Vec<i128> = vec![];
    assert_eq!(compute_cost_multi(&e_x, &e_y, &w, 0), Err(RegressionError::EmptyInput));
    // A row whose arity does not match the weight vector.
    let ragged = vec![vec![ONE, ONE], vec![2 * ONE]];
    let y2 = vec![2 * ONE, 4 * ONE];
    assert_eq!(compute_cost_multi(&ragged, &y2, &w, 0), Err(RegressionError::ShapeMismatch));
}

#[test]
fn gradient_at_zero_parameters_multi() {
    let (x, y) = dataset();
    let w = vec![0, 0];
    // errs = (-2, -4, -6); dJ/dw[j] = -28/3 truncated; dJ/db = -4 exactly.
    let (gw, gb) = compute_gradient_multi(&x, &y, &w, 0).unwrap();
    assert_eq!(gw, vec![-9_333_333_333, -9_333_333_333]);
    assert_eq!(gb, -4 * ONE);
}

#[test]
fn gradient_bias_counted_once_per_example() {
    // With two features, an implementation that accumulates the bias term
    // inside the per-feature loop would report dJ/db = -8 here instead of -4.
    let (x, y) = dataset();
    let w = vec![0, 0];
    let (_, gb) = compute_gradient_multi(&x, &y, &w, 0).unwrap();
    assert_eq!(gb, -4 * ONE);
}

#[test]
fn gradient_errors_multi() {
    let w = vec![ONE, ONE];
    let x = vec![vec![ONE, ONE]];
    let y = vec![ONE, 2 * ONE];
    assert!(matches!(
        compute_gradient_multi(&x, &y, &w, 0),
        Err(RegressionError::ShapeMismatch)
    ));
    let e_x: Vec<Vec<i128>> = vec![];
    let e_y: Vec<i128> = vec![];
    assert!(matches!(
        compute_gradient_multi(&e_x, &e_y, &w, 0),
        Err(RegressionError::EmptyInput)
    ));
}

#[test]
fn descent_zero_iters_returns_initial_multi() {
    let (x, y) = dataset();
    let w = vec![3 * ONE, -ONE];
    let md = gradient_descent_multi(&x, &y, &w, 7 * ONE, ONE / 10, 0).unwrap();
    assert_eq!(md.w, w);
    assert_eq!(md.b, 7 * ONE);
    assert!(md.cost_history.is_empty());
}

#[test]
fn descent_converges_on_collinear_features() {
    // The two features are identical, so the least-squares solution is not
    // unique: any weights with w[0] + w[1] = 2 fit the data. The symmetric
    // start converges toward w = [1, 1]; the sum is what the data pins down.
    let (x, y) = dataset();
    let w0 = vec![0, 0];
    let md = gradient_descent_multi(&x, &y, &w0, 0, ONE / 10, 1000).unwrap();
    let tol = ONE / 1000;
    assert!((md.w[0] + md.w[1] - 2 * ONE).abs() < tol);
    assert!((md.w[0] - md.w[1]).abs() < tol);
    assert_eq!(md.cost_history.len(), 1000);
    assert_eq!(*md.cost_history.last().unwrap(), 0);
    // Predictions at the fitted parameters match the labels closely.
    for (row, label) in x.iter().zip(y.iter()) {
        let p = predict_single_value(row, &md.w, md.b).unwrap();
        assert!((p - label).abs() < tol);
    }
}

#[test]
fn descent_cost_history_is_nonincreasing_multi() {
    let (x, y) = dataset();
    let w0 = vec![0, 0];
    let md = gradient_descent_multi(&x, &y, &w0, 0, ONE / 10, 500).unwrap();
    for t in 1..md.cost_history.len() {
        assert!(md.cost_history[t] <= md.cost_history[t - 1]);
    }
}

#[test]
fn descent_is_stationary_at_exact_fit() {
    // Parameters that already fit the data exactly never move.
    let (x, y) = dataset();
    let w0 = vec![ONE, ONE];
    let md = gradient_descent_multi(&x, &y, &w0, 0, ONE / 10, 50).unwrap();
    assert_eq!(md.w, w0);
    assert_eq!(md.b, 0);
    assert!(md.cost_history.iter().all(|&c| c == 0));
}

#[test]
fn model_holds_what_it_was_built_from() {
    let md = MultiModel::new(vec![ONE], 2 * ONE, vec![5]);
    assert_eq!(md.w, vec![ONE]);
    assert_eq!(md.b, 2 * ONE);
    assert_eq!(md.cost_history, vec![5]);
}
