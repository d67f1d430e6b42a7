//! Simple univariate linear regression: scalar weight `w`, scalar bias `b`,
//! prediction `w * x + b`, mean squared error halved, and the batch
//! gradient-descent loop with cost and parameter histories.

use crate::fixed::{
    add_fx, div_count_fx, fx_add, fx_div_count, fx_mul, fx_sub, in_range, lemma_fx_mul_zero,
    lemma_fx_square_nonneg, lemma_tdiv_bound, lemma_tdiv_small, lemma_tdiv_zero_bound, mul_fx,
    seq_in_range, sub_fx, tdiv, BOUND, SCALE,
};
use crate::history_len;
use crate::RegressionError;
use vstd::arithmetic::div_mod::{lemma_fundamental_div_mod, lemma_mod_division_less_than_divisor};
use vstd::prelude::*;

verus! {

/// The model's prediction for one example: `w * x + b`.
pub open spec fn sl_predict(x: int, w: int, b: int) -> int {
    fx_add(fx_mul(w, x), b)
}

/// Signed prediction error for one example.
pub open spec fn sl_err(x: int, y: int, w: int, b: int) -> int {
    fx_sub(sl_predict(x, w, b), y)
}

/// Squared prediction error for one example.
pub open spec fn sl_sq_err(x: int, y: int, w: int, b: int) -> int {
    fx_mul(sl_err(x, y, w, b), sl_err(x, y, w, b))
}

/// Running sum of squared errors over the first `n` examples, folded left in
/// example order exactly as the executable loop accumulates it.
pub open spec fn sl_sq_err_sum(x: Seq<i128>, y: Seq<i128>, w: int, b: int, n: int) -> int
    decreases n,
{
    if n <= 0 {
        0
    } else {
        fx_add(
            sl_sq_err_sum(x, y, w, b, n - 1),
            sl_sq_err(x[n - 1] as int, y[n - 1] as int, w, b),
        )
    }
}

/// Mean squared error halved: the sum of squared errors over `2 * m`.
pub open spec fn sl_cost(x: Seq<i128>, y: Seq<i128>, w: int, b: int) -> int
    recommends
        x.len() == y.len(),
        x.len() >= 1,
{
    fx_div_count(sl_sq_err_sum(x, y, w, b, x.len() as int), 2 * x.len() as int)
}

/// Running sum of `err_i * x_i` over the first `n` examples.
pub open spec fn sl_gw_sum(x: Seq<i128>, y: Seq<i128>, w: int, b: int, n: int) -> int
    decreases n,
{
    if n <= 0 {
        0
    } else {
        fx_add(
            sl_gw_sum(x, y, w, b, n - 1),
            fx_mul(sl_err(x[n - 1] as int, y[n - 1] as int, w, b), x[n - 1] as int),
        )
    }
}

/// Running sum of `err_i` over the first `n` examples.
pub open spec fn sl_gb_sum(x: Seq<i128>, y: Seq<i128>, w: int, b: int, n: int) -> int
    decreases n,
{
    if n <= 0 {
        0
    } else {
        fx_add(sl_gb_sum(x, y, w, b, n - 1), sl_err(x[n - 1] as int, y[n - 1] as int, w, b))
    }
}

/// Partial derivative of the cost with respect to `w`: `(1/m) * sum(err_i * x_i)`.
pub open spec fn sl_grad_w(x: Seq<i128>, y: Seq<i128>, w: int, b: int) -> int
    recommends
        x.len() == y.len(),
        x.len() >= 1,
{
    fx_div_count(sl_gw_sum(x, y, w, b, x.len() as int), x.len() as int)
}

/// Partial derivative of the cost with respect to `b`: `(1/m) * sum(err_i)`.
pub open spec fn sl_grad_b(x: Seq<i128>, y: Seq<i128>, w: int, b: int) -> int
    recommends
        x.len() == y.len(),
        x.len() >= 1,
{
    fx_div_count(sl_gb_sum(x, y, w, b, x.len() as int), x.len() as int)
}

/// One descent update of the weight: `w - alpha * dJ/dw`.
pub open spec fn sl_step_w(x: Seq<i128>, y: Seq<i128>, alpha: int, w: int, b: int) -> int {
    fx_sub(w, fx_mul(alpha, sl_grad_w(x, y, w, b)))
}

/// One descent update of the bias: `b - alpha * dJ/db`.
pub open spec fn sl_step_b(x: Seq<i128>, y: Seq<i128>, alpha: int, w: int, b: int) -> int {
    fx_sub(b, fx_mul(alpha, sl_grad_b(x, y, w, b)))
}

/// Parameters `(w, b)` after `k` descent iterations from `(w0, b0)`.
pub open spec fn sl_state(
    x: Seq<i128>,
    y: Seq<i128>,
    w0: int,
    b0: int,
    alpha: int,
    k: nat,
) -> (int, int)
    decreases k,
{
    if k == 0 {
        (w0, b0)
    } else {
        let prev = sl_state(x, y, w0, b0, alpha, (k - 1) as nat);
        (sl_step_w(x, y, alpha, prev.0, prev.1), sl_step_b(x, y, alpha, prev.0, prev.1))
    }
}

/// Result of a simple-linear descent run: final parameters plus per-iteration
/// cost and `[w, b]` snapshots, both capped at the first 100000 iterations.
pub struct LinearModel {
    /// Final weight.
    pub w: i128,
    /// Final bias.
    pub b: i128,
    /// Cost recorded after each of the first 100000 iterations.
    pub cost_history: Vec<i128>,
    /// `[w, b]` recorded after each of the first 100000 iterations.
    pub param_history: Vec<Vec<i128>>,
}

impl LinearModel {
    /// Packs final parameters and histories into a result.
    pub fn new(w: i128, b: i128, cost_history: Vec<i128>, param_history: Vec<Vec<i128>>) -> (r:
        LinearModel)
        ensures
            r.w == w,
            r.b == b,
            r.cost_history == cost_history,
            r.param_history == param_history,
    {
        LinearModel { w, b, cost_history, param_history }
    }

    /// Predicts the label for one feature value with this model's parameters.
    pub fn predict_x(&self, x: i128) -> (r: i128)
        requires
            in_range(self.w as int),
            in_range(self.b as int),
            in_range(x as int),
        ensures
            r as int == sl_predict(x as int, self.w as int, self.b as int),
            in_range(r as int),
    {
        add_fx(mul_fx(self.w, x), self.b)
    }
}

fn cost_core(x: &Vec<i128>, y: &Vec<i128>, w: i128, b: i128) -> (r: i128)
    requires
        x@.len() == y@.len(),
        x@.len() >= 1,
        seq_in_range(x@),
        seq_in_range(y@),
        in_range(w as int),
        in_range(b as int),
    ensures
        r as int == sl_cost(x@, y@, w as int, b as int),
        in_range(r as int),
{
    let m: usize = x.len();
    let mut acc: i128 = 0;
    for i in 0..m
        invariant
            m == x@.len(),
            x@.len() == y@.len(),
            seq_in_range(x@),
            seq_in_range(y@),
            in_range(w as int),
            in_range(b as int),
            acc as int == sl_sq_err_sum(x@, y@, w as int, b as int, i as int),
            in_range(acc as int),
    {
        let p: i128 = add_fx(mul_fx(w, x[i]), b);
        let e: i128 = sub_fx(p, y[i]);
        acc = add_fx(acc, mul_fx(e, e));
    }
    let d: i128 = 2 * (m as i128);
    div_count_fx(acc, d)
}

fn grad_core(x: &Vec<i128>, y: &Vec<i128>, w: i128, b: i128) -> (r: (i128, i128))
    requires
        x@.len() == y@.len(),
        x@.len() >= 1,
        seq_in_range(x@),
        seq_in_range(y@),
        in_range(w as int),
        in_range(b as int),
    ensures
        r.0 as int == sl_grad_w(x@, y@, w as int, b as int),
        r.1 as int == sl_grad_b(x@, y@, w as int, b as int),
        in_range(r.0 as int),
        in_range(r.1 as int),
{
    let m: usize = x.len();
    let mut accw: i128 = 0;
    let mut accb: i128 = 0;
    for i in 0..m
        invariant
            m == x@.len(),
            x@.len() == y@.len(),
            seq_in_range(x@),
            seq_in_range(y@),
            in_range(w as int),
            in_range(b as int),
            accw as int == sl_gw_sum(x@, y@, w as int, b as int, i as int),
            accb as int == sl_gb_sum(x@, y@, w as int, b as int, i as int),
            in_range(accw as int),
            in_range(accb as int),
    {
        let p: i128 = add_fx(mul_fx(w, x[i]), b);
        let e: i128 = sub_fx(p, y[i]);
        accw = add_fx(accw, mul_fx(e, x[i]));
        accb = add_fx(accb, e);
    }
    (div_count_fx(accw, m as i128), div_count_fx(accb, m as i128))
}

/// Mean squared error halved over the dataset for parameters `(w, b)`.
///
/// Returns `ShapeMismatch` exactly when the feature and label sequences have
/// different lengths, `EmptyInput` exactly when both are empty, and otherwise
/// the cost `sl_cost`.
pub fn compute_cost(x: &Vec<i128>, y: &Vec<i128>, w: i128, b: i128) -> (r: Result<
    i128,
    RegressionError,
>)
    requires
        seq_in_range(x@),
        seq_in_range(y@),
        in_range(w as int),
        in_range(b as int),
    ensures
        x@.len() != y@.len() ==> r == Err::<i128, RegressionError>(RegressionError::ShapeMismatch),
        x@.len() == y@.len() && x@.len() == 0 ==> r == Err::<i128, RegressionError>(
            RegressionError::EmptyInput,
        ),
        x@.len() == y@.len() && x@.len() >= 1 ==> (r matches Ok(c) && c as int == sl_cost(
            x@,
            y@,
            w as int,
            b as int,
        )),
{
    if x.len() != y.len() {
        return Err(RegressionError::ShapeMismatch);
    }
    if x.len() == 0 {
        return Err(RegressionError::EmptyInput);
    }
    Ok(cost_core(x, y, w, b))
}

/// Partial derivatives `(dJ/dw, dJ/db)` of the cost at `(w, b)`.
///
/// Same validation as [`compute_cost`]; on success the pair equals
/// `(sl_grad_w, sl_grad_b)`.
pub fn compute_gradient(x: &Vec<i128>, y: &Vec<i128>, w: i128, b: i128) -> (r: Result<
    (i128, i128),
    RegressionError,
>)
    requires
        seq_in_range(x@),
        seq_in_range(y@),
        in_range(w as int),
        in_range(b as int),
    ensures
        x@.len() != y@.len() ==> r == Err::<(i128, i128), RegressionError>(
            RegressionError::ShapeMismatch,
        ),
        x@.len() == y@.len() && x@.len() == 0 ==> r == Err::<(i128, i128), RegressionError>(
            RegressionError::EmptyInput,
        ),
        x@.len() == y@.len() && x@.len() >= 1 ==> (r matches Ok(g) && g.0 as int == sl_grad_w(
            x@,
            y@,
            w as int,
            b as int,
        ) && g.1 as int == sl_grad_b(x@, y@, w as int, b as int)),
{
    if x.len() != y.len() {
        return Err(RegressionError::ShapeMismatch);
    }
    if x.len() == 0 {
        return Err(RegressionError::EmptyInput);
    }
    Ok(grad_core(x, y, w, b))
}

/// Batch gradient descent for simple linear regression.
///
/// Runs exactly `num_iters` updates from `(w_in, b_in)` with learning rate
/// `alpha`; there is no convergence-based early exit. After each update the
/// cost at the new parameters and a `[w, b]` snapshot are appended to the
/// histories, for the first 100000 iterations only. With `num_iters == 0` the
/// initial parameters come back unchanged with empty histories.
pub fn gradient_descent(
    x: &Vec<i128>,
    y: &Vec<i128>,
    w_in: i128,
    b_in: i128,
    alpha: i128,
    num_iters: u64,
) -> (r: Result<LinearModel, RegressionError>)
    requires
        seq_in_range(x@),
        seq_in_range(y@),
        in_range(w_in as int),
        in_range(b_in as int),
        in_range(alpha as int),
    ensures
        x@.len() != y@.len() ==> r == Err::<LinearModel, RegressionError>(
            RegressionError::ShapeMismatch,
        ),
        x@.len() == y@.len() && x@.len() == 0 ==> r == Err::<LinearModel, RegressionError>(
            RegressionError::EmptyInput,
        ),
        x@.len() == y@.len() && x@.len() >= 1 ==> (r matches Ok(md) && md.w as int == sl_state(
            x@,
            y@,
            w_in as int,
            b_in as int,
            alpha as int,
            num_iters as nat,
        ).0 && md.b as int == sl_state(
            x@,
            y@,
            w_in as int,
            b_in as int,
            alpha as int,
            num_iters as nat,
        ).1 && md.cost_history@.len() == history_len(num_iters) && (forall|t: int|
            0 <= t < md.cost_history@.len() ==> #[trigger] md.cost_history@[t] as int == sl_cost(
                x@,
                y@,
                sl_state(x@, y@, w_in as int, b_in as int, alpha as int, (t + 1) as nat).0,
                sl_state(x@, y@, w_in as int, b_in as int, alpha as int, (t + 1) as nat).1,
            )) && md.param_history@.len() == history_len(num_iters) && (forall|t: int|
            0 <= t < md.param_history@.len() ==> ((#[trigger] md.param_history@[t])@.len() == 2
                && md.param_history@[t]@[0] as int == sl_state(
                x@,
                y@,
                w_in as int,
                b_in as int,
                alpha as int,
                (t + 1) as nat,
            ).0 && md.param_history@[t]@[1] as int == sl_state(
                x@,
                y@,
                w_in as int,
                b_in as int,
                alpha as int,
                (t + 1) as nat,
            ).1))),
{
    if x.len() != y.len() {
        return Err(RegressionError::ShapeMismatch);
    }
    if x.len() == 0 {
        return Err(RegressionError::EmptyInput);
    }
    let mut w: i128 = w_in;
    let mut b: i128 = b_in;
    let mut j_hist: Vec<i128> = Vec::new();
    let mut p_hist: Vec<Vec<i128>> = Vec::new();
    for i in 0..num_iters
        invariant
            x@.len() == y@.len(),
            x@.len() >= 1,
            seq_in_range(x@),
            seq_in_range(y@),
            in_range(alpha as int),
            in_range(w as int),
            in_range(b as int),
            w as int == sl_state(x@, y@, w_in as int, b_in as int, alpha as int, i as nat).0,
            b as int == sl_state(x@, y@, w_in as int, b_in as int, alpha as int, i as nat).1,
            j_hist@.len() == history_len(i),
            forall|t: int|
                0 <= t < j_hist@.len() ==> #[trigger] j_hist@[t] as int == sl_cost(
                    x@,
                    y@,
                    sl_state(x@, y@, w_in as int, b_in as int, alpha as int, (t + 1) as nat).0,
                    sl_state(x@, y@, w_in as int, b_in as int, alpha as int, (t + 1) as nat).1,
                ),
            p_hist@.len() == j_hist@.len(),
            forall|t: int|
                0 <= t < p_hist@.len() ==> ((#[trigger] p_hist@[t])@.len() == 2 && p_hist@[t]@[0]
                    as int == sl_state(
                    x@,
                    y@,
                    w_in as int,
                    b_in as int,
                    alpha as int,
                    (t + 1) as nat,
                ).0 && p_hist@[t]@[1] as int == sl_state(
                    x@,
                    y@,
                    w_in as int,
                    b_in as int,
                    alpha as int,
                    (t + 1) as nat,
                ).1),
    {
        let g: (i128, i128) = grad_core(x, y, w, b);
        w = sub_fx(w, mul_fx(alpha, g.0));
        b = sub_fx(b, mul_fx(alpha, g.1));
        proof {
            assert(sl_state(x@, y@, w_in as int, b_in as int, alpha as int, (i + 1) as nat)
                == (sl_step_w(
                x@,
                y@,
                alpha as int,
                sl_state(x@, y@, w_in as int, b_in as int, alpha as int, i as nat).0,
                sl_state(x@, y@, w_in as int, b_in as int, alpha as int, i as nat).1,
            ), sl_step_b(
                x@,
                y@,
                alpha as int,
                sl_state(x@, y@, w_in as int, b_in as int, alpha as int, i as nat).0,
                sl_state(x@, y@, w_in as int, b_in as int, alpha as int, i as nat).1,
            )));
        }
        if i < 100000 {
            let c: i128 = cost_core(x, y, w, b);
            j_hist.push(c);
            let mut pv: Vec<i128> = Vec::new();
            pv.push(w);
            pv.push(b);
            p_hist.push(pv);
        }
    }
    Ok(LinearModel::new(w, b, j_hist, p_hist))
}

/// Running the descent loop for zero iterations leaves the parameters at
/// their initial values.
pub proof fn lemma_descent_zero_iters(x: Seq<i128>, y: Seq<i128>, w0: int, b0: int, alpha: int)
    ensures
        sl_state(x, y, w0, b0, alpha, 0) == (w0, b0),
{
}

/// Every parameter a descent iteration produces is representable.
pub proof fn lemma_sl_state_in_range(
    x: Seq<i128>,
    y: Seq<i128>,
    w0: int,
    b0: int,
    alpha: int,
    k: nat,
)
    requires
        in_range(w0),
        in_range(b0),
    ensures
        in_range(sl_state(x, y, w0, b0, alpha, k).0),
        in_range(sl_state(x, y, w0, b0, alpha, k).1),
    decreases k,
{
    if k > 0 {
        lemma_sl_state_in_range(x, y, w0, b0, alpha, (k - 1) as nat);
    }
}

proof fn lemma_sq_err_sum_nonneg(x: Seq<i128>, y: Seq<i128>, w: int, b: int, n: int)
    ensures
        0 <= sl_sq_err_sum(x, y, w, b, n),
    decreases n,
{
    if n > 0 {
        lemma_sq_err_sum_nonneg(x, y, w, b, n - 1);
        lemma_fx_square_nonneg(sl_err(x[n - 1] as int, y[n - 1] as int, w, b));
    }
}

proof fn lemma_sq_err_sum_bounds_terms(x: Seq<i128>, y: Seq<i128>, w: int, b: int, n: int, t: int)
    requires
        0 <= t < n,
    ensures
        sl_sq_err(x[t] as int, y[t] as int, w, b) <= sl_sq_err_sum(x, y, w, b, n),
    decreases n,
{
    lemma_sq_err_sum_nonneg(x, y, w, b, n - 1);
    lemma_fx_square_nonneg(sl_err(x[n - 1] as int, y[n - 1] as int, w, b));
    if t < n - 1 {
        lemma_sq_err_sum_bounds_terms(x, y, w, b, n - 1, t);
    }
}

/// The cost is never negative.
pub proof fn lemma_cost_nonneg(x: Seq<i128>, y: Seq<i128>, w: int, b: int)
    requires
        x.len() == y.len(),
        x.len() >= 1,
    ensures
        0 <= sl_cost(x, y, w, b),
{
    lemma_sq_err_sum_nonneg(x, y, w, b, x.len() as int);
    lemma_tdiv_bound(sl_sq_err_sum(x, y, w, b, x.len() as int), 2 * x.len() as int);
}

/// When every prediction exactly matches its label, the cost is zero.
pub proof fn lemma_cost_zero_when_exact(x: Seq<i128>, y: Seq<i128>, w: int, b: int)
    requires
        x.len() == y.len(),
        x.len() >= 1,
        forall|t: int|
            0 <= t < x.len() ==> sl_predict(#[trigger] x[t] as int, w, b) == y[t] as int,
    ensures
        sl_cost(x, y, w, b) == 0,
{
    assert forall|n: int| 0 <= n <= x.len() implies sl_sq_err_sum(x, y, w, b, n) == 0 by {
        lemma_sum_zero_when_exact(x, y, w, b, n);
    }
    lemma_tdiv_small(0, 2 * x.len() as int);
}

proof fn lemma_sum_zero_when_exact(x: Seq<i128>, y: Seq<i128>, w: int, b: int, n: int)
    requires
        n <= x.len(),
        x.len() == y.len(),
        forall|t: int|
            0 <= t < x.len() ==> sl_predict(#[trigger] x[t] as int, w, b) == y[t] as int,
    ensures
        sl_sq_err_sum(x, y, w, b, n) == 0,
    decreases n,
{
    if n > 0 {
        lemma_sum_zero_when_exact(x, y, w, b, n - 1);
        assert(sl_err(x[n - 1] as int, y[n - 1] as int, w, b) == 0);
        lemma_fx_mul_zero(0);
    }
}

proof fn lemma_grad_sums_zero_when_exact(x: Seq<i128>, y: Seq<i128>, w: int, b: int, n: int)
    requires
        n <= x.len(),
        x.len() == y.len(),
        forall|t: int|
            0 <= t < x.len() ==> sl_predict(#[trigger] x[t] as int, w, b) == y[t] as int,
    ensures
        sl_gw_sum(x, y, w, b, n) == 0,
        sl_gb_sum(x, y, w, b, n) == 0,
    decreases n,
{
    if n > 0 {
        lemma_grad_sums_zero_when_exact(x, y, w, b, n - 1);
        assert(sl_err(x[n - 1] as int, y[n - 1] as int, w, b) == 0);
        lemma_fx_mul_zero(x[n - 1] as int);
    }
}

/// At an exact fit — the least-squares minimum of a dataset the model can
/// represent — the gradient vanishes exactly.
pub proof fn lemma_gradient_zero_when_exact(x: Seq<i128>, y: Seq<i128>, w: int, b: int)
    requires
        x.len() == y.len(),
        x.len() >= 1,
        forall|t: int|
            0 <= t < x.len() ==> sl_predict(#[trigger] x[t] as int, w, b) == y[t] as int,
    ensures
        sl_grad_w(x, y, w, b) == 0,
        sl_grad_b(x, y, w, b) == 0,
{
    lemma_grad_sums_zero_when_exact(x, y, w, b, x.len() as int);
    lemma_tdiv_small(0, x.len() as int);
}

/// An exact fit is a stationary point of the descent loop: every iteration
/// leaves the parameters unchanged.
pub proof fn lemma_exact_fit_is_stationary(
    x: Seq<i128>,
    y: Seq<i128>,
    w0: int,
    b0: int,
    alpha: int,
    k: nat,
)
    requires
        x.len() == y.len(),
        x.len() >= 1,
        in_range(w0),
        in_range(b0),
        forall|t: int|
            0 <= t < x.len() ==> sl_predict(#[trigger] x[t] as int, w0, b0) == y[t] as int,
    ensures
        sl_state(x, y, w0, b0, alpha, k) == (w0, b0),
    decreases k,
{
    if k > 0 {
        lemma_exact_fit_is_stationary(x, y, w0, b0, alpha, (k - 1) as nat);
        lemma_gradient_zero_when_exact(x, y, w0, b0);
        lemma_fx_mul_zero(alpha);
    }
}

/// When the cost is zero, every squared error is below the arithmetic's
/// resolution for this dataset: `err^2 < (2m + 1) * SCALE` in exact terms,
/// so each prediction matches its label to within the representable grain.
pub proof fn lemma_cost_zero_only_if_small(x: Seq<i128>, y: Seq<i128>, w: int, b: int)
    requires
        x.len() == y.len(),
        x.len() >= 1,
        2 * x.len() <= BOUND as int,
        sl_cost(x, y, w, b) == 0,
    ensures
        forall|t: int|
            0 <= t < x.len() ==> (sl_err(#[trigger] x[t] as int, y[t] as int, w, b) * sl_err(
                x[t] as int,
                y[t] as int,
                w,
                b,
            ) < (2 * x.len() + 1) * (SCALE as int)),
{
    let m = x.len() as int;
    let total = sl_sq_err_sum(x, y, w, b, m);
    lemma_sq_err_sum_nonneg(x, y, w, b, m);
    lemma_tdiv_zero_bound(total, 2 * m);
    assert forall|t: int|
        0 <= t < x.len() implies (sl_err(#[trigger] x[t] as int, y[t] as int, w, b) * sl_err(
        x[t] as int,
        y[t] as int,
        w,
        b,
    ) < (2 * m + 1) * (SCALE as int)) by {
        lemma_sq_err_sum_bounds_terms(x, y, w, b, m, t);
        let e = sl_err(x[t] as int, y[t] as int, w, b);
        assert(e * e >= 0) by (nonlinear_arith);
        lemma_tdiv_bound(e * e, SCALE as int);
        assert(tdiv(e * e, SCALE as int) < 2 * m);
        lemma_fundamental_div_mod(e * e, SCALE as int);
        lemma_mod_division_less_than_divisor(e * e, SCALE as int);
        assert((SCALE as int) * ((e * e) / (SCALE as int)) <= (SCALE as int) * (2 * m - 1))
            by (nonlinear_arith)
            requires
                (e * e) / (SCALE as int) <= 2 * m - 1,
                SCALE as int > 0,
        ;
        assert((SCALE as int) * (2 * m - 1) + (SCALE as int) == (2 * m + 1) * (SCALE as int) - (
        SCALE as int) * 1) by (nonlinear_arith);
    }
}

} // verus!
