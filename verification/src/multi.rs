//! Multivariate linear regression: weight vector `w`, scalar bias `b`,
//! prediction `b + sum(w[j] * x[j])` over one feature vector per example.
//! The bias gradient is accumulated exactly once per example, never once per
//! feature, so it is not over-counted by the feature arity.

use crate::fixed::{
    add_fx, div_count_fx, fx_add, fx_div_count, fx_mul, fx_sub, in_range, ints_of,
    lemma_fx_mul_zero, lemma_fx_square_nonneg, lemma_tdiv_bound, lemma_tdiv_small,
    lemma_tdiv_zero_bound, mul_fx, seq_in_range, sub_fx, tdiv, BOUND, SCALE,
};
use crate::history_len;
use crate::RegressionError;
use vstd::arithmetic::div_mod::{lemma_fundamental_div_mod, lemma_mod_division_less_than_divisor};
use vstd::prelude::*;

verus! {

/// The rows of a feature matrix as mathematical sequences.
pub open spec fn rows_view(x: Seq<Vec<i128>>) -> Seq<Seq<i128>> {
    Seq::new(x.len(), |i: int| x[i]@)
}

/// Every row has feature arity `n`.
pub open spec fn rows_match(xs: Seq<Seq<i128>>, n: int) -> bool {
    forall|i: int| 0 <= i < xs.len() ==> (#[trigger] xs[i]).len() == n
}

/// Every element of every row is representable.
pub open spec fn rows_in_range(xs: Seq<Seq<i128>>) -> bool {
    forall|i: int| 0 <= i < xs.len() ==> seq_in_range(#[trigger] xs[i])
}

/// Dot-product prefix: `b + sum over j < n of w[j] * row[j]`, folded left in
/// feature order exactly as the executable loop accumulates it.
pub open spec fn mv_predict_to(row: Seq<i128>, w: Seq<int>, b: int, n: int) -> int
    decreases n,
{
    if n <= 0 {
        b
    } else {
        fx_add(mv_predict_to(row, w, b, n - 1), fx_mul(w[n - 1], row[n - 1] as int))
    }
}

/// The model's prediction for one feature vector: `b + dot(w, row)`.
pub open spec fn mv_predict(row: Seq<i128>, w: Seq<int>, b: int) -> int
    recommends
        row.len() == w.len(),
{
    mv_predict_to(row, w, b, w.len() as int)
}

/// Signed prediction error for one example.
pub open spec fn mv_err(row: Seq<i128>, yi: int, w: Seq<int>, b: int) -> int {
    fx_sub(mv_predict(row, w, b), yi)
}

/// Running sum of squared errors over the first `n` examples.
pub open spec fn mv_sq_err_sum(
    xs: Seq<Seq<i128>>,
    y: Seq<i128>,
    w: Seq<int>,
    b: int,
    n: int,
) -> int
    decreases n,
{
    if n <= 0 {
        0
    } else {
        let e = mv_err(xs[n - 1], y[n - 1] as int, w, b);
        fx_add(mv_sq_err_sum(xs, y, w, b, n - 1), fx_mul(e, e))
    }
}

/// Mean squared error halved: the sum of squared errors over `2 * m`.
pub open spec fn mv_cost(xs: Seq<Seq<i128>>, y: Seq<i128>, w: Seq<int>, b: int) -> int
    recommends
        xs.len() == y.len(),
        xs.len() >= 1,
{
    fx_div_count(mv_sq_err_sum(xs, y, w, b, xs.len() as int), 2 * xs.len() as int)
}

/// Running sum of `err_i * x_i[j]` over the first `n` examples, for one
/// feature index `j`.
pub open spec fn mv_gw_sum(
    xs: Seq<Seq<i128>>,
    y: Seq<i128>,
    w: Seq<int>,
    b: int,
    j: int,
    n: int,
) -> int
    decreases n,
{
    if n <= 0 {
        0
    } else {
        fx_add(
            mv_gw_sum(xs, y, w, b, j, n - 1),
            fx_mul(mv_err(xs[n - 1], y[n - 1] as int, w, b), xs[n - 1][j] as int),
        )
    }
}

/// Running sum of `err_i` over the first `n` examples: accumulated exactly
/// once per example, independent of the feature arity.
pub open spec fn mv_gb_sum(xs: Seq<Seq<i128>>, y: Seq<i128>, w: Seq<int>, b: int, n: int) -> int
    decreases n,
{
    if n <= 0 {
        0
    } else {
        fx_add(mv_gb_sum(xs, y, w, b, n - 1), mv_err(xs[n - 1], y[n - 1] as int, w, b))
    }
}

/// Gradient of the cost with respect to each weight:
/// `dJ/dw[j] = (1/m) * sum(err_i * x_i[j])`.
pub open spec fn mv_grad_w(xs: Seq<Seq<i128>>, y: Seq<i128>, w: Seq<int>, b: int) -> Seq<int>
    recommends
        xs.len() == y.len(),
        xs.len() >= 1,
{
    Seq::new(w.len(), |j: int| fx_div_count(mv_gw_sum(xs, y, w, b, j, xs.len() as int), xs.len() as int))
}

/// Gradient of the cost with respect to the bias: `(1/m) * sum(err_i)`.
pub open spec fn mv_grad_b(xs: Seq<Seq<i128>>, y: Seq<i128>, w: Seq<int>, b: int) -> int
    recommends
        xs.len() == y.len(),
        xs.len() >= 1,
{
    fx_div_count(mv_gb_sum(xs, y, w, b, xs.len() as int), xs.len() as int)
}

/// One descent update of the weight vector, element-wise.
pub open spec fn mv_step_w(
    xs: Seq<Seq<i128>>,
    y: Seq<i128>,
    alpha: int,
    w: Seq<int>,
    b: int,
) -> Seq<int> {
    Seq::new(w.len(), |j: int| fx_sub(w[j], fx_mul(alpha, mv_grad_w(xs, y, w, b)[j])))
}

/// One descent update of the bias.
pub open spec fn mv_step_b(xs: Seq<Seq<i128>>, y: Seq<i128>, alpha: int, w: Seq<int>, b: int) -> int {
    fx_sub(b, fx_mul(alpha, mv_grad_b(xs, y, w, b)))
}

/// Parameters `(w, b)` after `k` descent iterations from `(w0, b0)`.
pub open spec fn mv_state(
    xs: Seq<Seq<i128>>,
    y: Seq<i128>,
    w0: Seq<int>,
    b0: int,
    alpha: int,
    k: nat,
) -> (Seq<int>, int)
    decreases k,
{
    if k == 0 {
        (w0, b0)
    } else {
        let prev = mv_state(xs, y, w0, b0, alpha, (k - 1) as nat);
        (mv_step_w(xs, y, alpha, prev.0, prev.1), mv_step_b(xs, y, alpha, prev.0, prev.1))
    }
}

/// The weight vector keeps its arity across descent iterations.
pub proof fn lemma_mv_state_len(
    xs: Seq<Seq<i128>>,
    y: Seq<i128>,
    w0: Seq<int>,
    b0: int,
    alpha: int,
    k: nat,
)
    ensures
        mv_state(xs, y, w0, b0, alpha, k).0.len() == w0.len(),
    decreases k,
{
    if k > 0 {
        lemma_mv_state_len(xs, y, w0, b0, alpha, (k - 1) as nat);
    }
}

/// Result of a multivariate descent run: final parameters plus the cost
/// recorded after each of the first 100000 iterations.
pub struct MultiModel {
    /// Final weight vector, one weight per feature dimension.
    pub w: Vec<i128>,
    /// Final bias.
    pub b: i128,
    /// Cost recorded after each of the first 100000 iterations.
    pub cost_history: Vec<i128>,
}

impl MultiModel {
    /// Packs final parameters and history into a result.
    pub fn new(w: Vec<i128>, b: i128, cost_history: Vec<i128>) -> (r: MultiModel)
        ensures
            r.w == w,
            r.b == b,
            r.cost_history == cost_history,
    {
        MultiModel { w, b, cost_history }
    }
}

fn predict_core(x: &Vec<i128>, w: &Vec<i128>, b: i128) -> (r: i128)
    requires
        x@.len() == w@.len(),
        seq_in_range(x@),
        seq_in_range(w@),
        in_range(b as int),
    ensures
        r as int == mv_predict(x@, ints_of(w@), b as int),
        in_range(r as int),
{
    let n: usize = w.len();
    let mut acc: i128 = b;
    for j in 0..n
        invariant
            n == w@.len(),
            x@.len() == w@.len(),
            seq_in_range(x@),
            seq_in_range(w@),
            in_range(b as int),
            acc as int == mv_predict_to(x@, ints_of(w@), b as int, j as int),
            in_range(acc as int),
    {
        acc = add_fx(acc, mul_fx(w[j], x[j]));
    }
    acc
}

/// The model's prediction for one feature vector: `b + dot(w, x)`.
///
/// Returns `ShapeMismatch` exactly when the feature vector's arity differs
/// from the weight vector's.
pub fn predict_single_value(x: &Vec<i128>, w: &Vec<i128>, b: i128) -> (r: Result<
    i128,
    RegressionError,
>)
    requires
        seq_in_range(x@),
        seq_in_range(w@),
        in_range(b as int),
    ensures
        x@.len() != w@.len() ==> r == Err::<i128, RegressionError>(RegressionError::ShapeMismatch),
        x@.len() == w@.len() ==> (r matches Ok(p) && p as int == mv_predict(
            x@,
            ints_of(w@),
            b as int,
        )),
{
    if x.len() != w.len() {
        return Err(RegressionError::ShapeMismatch);
    }
    Ok(predict_core(x, w, b))
}

fn cost_core(x: &Vec<Vec<i128>>, y: &Vec<i128>, w: &Vec<i128>, b: i128) -> (r: i128)
    requires
        x@.len() == y@.len(),
        x@.len() >= 1,
        rows_match(rows_view(x@), w@.len() as int),
        rows_in_range(rows_view(x@)),
        seq_in_range(y@),
        seq_in_range(w@),
        in_range(b as int),
    ensures
        r as int == mv_cost(rows_view(x@), y@, ints_of(w@), b as int),
        in_range(r as int),
{
    let m: usize = x.len();
    let mut acc: i128 = 0;
    for i in 0..m
        invariant
            m == x@.len(),
            x@.len() == y@.len(),
            rows_match(rows_view(x@), w@.len() as int),
            rows_in_range(rows_view(x@)),
            seq_in_range(y@),
            seq_in_range(w@),
            in_range(b as int),
            acc as int == mv_sq_err_sum(rows_view(x@), y@, ints_of(w@), b as int, i as int),
            in_range(acc as int),
    {
        proof {
            assert(rows_view(x@)[i as int] == x@[i as int]@);
        }
        let p: i128 = predict_core(&x[i], w, b);
        let e: i128 = sub_fx(p, y[i]);
        acc = add_fx(acc, mul_fx(e, e));
    }
    let d: i128 = 2 * (m as i128);
    div_count_fx(acc, d)
}

/// Mean squared error halved over the dataset for parameters `(w, b)`.
///
/// Returns `ShapeMismatch` exactly when the feature and label counts differ
/// or some row's arity differs from the weight vector's, `EmptyInput` exactly
/// when there are no examples, and otherwise the cost `mv_cost`.
pub fn compute_cost_multi(x: &Vec<Vec<i128>>, y: &Vec<i128>, w: &Vec<i128>, b: i128) -> (r: Result<
    i128,
    RegressionError,
>)
    requires
        rows_in_range(rows_view(x@)),
        seq_in_range(y@),
        seq_in_range(w@),
        in_range(b as int),
    ensures
        x@.len() != y@.len() ==> r == Err::<i128, RegressionError>(RegressionError::ShapeMismatch),
        x@.len() == y@.len() && x@.len() == 0 ==> r == Err::<i128, RegressionError>(
            RegressionError::EmptyInput,
        ),
        x@.len() == y@.len() && x@.len() >= 1 && !rows_match(rows_view(x@), w@.len() as int)
            ==> r == Err::<i128, RegressionError>(RegressionError::ShapeMismatch),
        x@.len() == y@.len() && x@.len() >= 1 && rows_match(rows_view(x@), w@.len() as int) ==> (
        r matches Ok(c) && c as int == mv_cost(rows_view(x@), y@, ints_of(w@), b as int)),
{
    if x.len() != y.len() {
        return Err(RegressionError::ShapeMismatch);
    }
    if x.len() == 0 {
        return Err(RegressionError::EmptyInput);
    }
    if !rows_arity_ok(x, w.len()) {
        return Err(RegressionError::ShapeMismatch);
    }
    Ok(cost_core(x, y, w, b))
}

fn rows_arity_ok(x: &Vec<Vec<i128>>, n: usize) -> (r: bool)
    ensures
        r == rows_match(rows_view(x@), n as int),
{
    let m: usize = x.len();
    for i in 0..m
        invariant
            m == x@.len(),
            forall|t: int| 0 <= t < i ==> (#[trigger] rows_view(x@)[t]).len() == n,
    {
        if x[i].len() != n {
            proof {
                assert(rows_view(x@)[i as int].len() != n);
            }
            return false;
        }
    }
    true
}

fn grad_core(x: &Vec<Vec<i128>>, y: &Vec<i128>, w: &Vec<i128>, b: i128) -> (r: (Vec<i128>, i128))
    requires
        x@.len() == y@.len(),
        x@.len() >= 1,
        rows_match(rows_view(x@), w@.len() as int),
        rows_in_range(rows_view(x@)),
        seq_in_range(y@),
        seq_in_range(w@),
        in_range(b as int),
    ensures
        r.0@.len() == w@.len(),
        forall|j: int|
            0 <= j < w@.len() ==> #[trigger] r.0@[j] as int == mv_grad_w(
                rows_view(x@),
                y@,
                ints_of(w@),
                b as int,
            )[j],
        r.1 as int == mv_grad_b(rows_view(x@), y@, ints_of(w@), b as int),
        seq_in_range(r.0@),
        in_range(r.1 as int),
{
    let m: usize = x.len();
    let n: usize = w.len();
    let mut errs: Vec<i128> = Vec::new();
    for i in 0..m
        invariant
            m == x@.len(),
            n == w@.len(),
            x@.len() == y@.len(),
            rows_match(rows_view(x@), w@.len() as int),
            rows_in_range(rows_view(x@)),
            seq_in_range(y@),
            seq_in_range(w@),
            in_range(b as int),
            errs@.len() == i,
            forall|t: int|
                0 <= t < i ==> #[trigger] errs@[t] as int == mv_err(
                    rows_view(x@)[t],
                    y@[t] as int,
                    ints_of(w@),
                    b as int,
                ),
            seq_in_range(errs@),
    {
        proof {
            assert(rows_view(x@)[i as int] == x@[i as int]@);
        }
        let p: i128 = predict_core(&x[i], w, b);
        errs.push(sub_fx(p, y[i]));
    }
    let mut gw: Vec<i128> = Vec::new();
    for j in 0..n
        invariant
            m == x@.len(),
            n == w@.len(),
            x@.len() == y@.len(),
            x@.len() >= 1,
            rows_match(rows_view(x@), w@.len() as int),
            rows_in_range(rows_view(x@)),
            seq_in_range(y@),
            seq_in_range(w@),
            in_range(b as int),
            errs@.len() == m,
            forall|t: int|
                0 <= t < m ==> #[trigger] errs@[t] as int == mv_err(
                    rows_view(x@)[t],
                    y@[t] as int,
                    ints_of(w@),
                    b as int,
                ),
            seq_in_range(errs@),
            gw@.len() == j,
            forall|t: int|
                0 <= t < j ==> #[trigger] gw@[t] as int == mv_grad_w(
                    rows_view(x@),
                    y@,
                    ints_of(w@),
                    b as int,
                )[t],
            seq_in_range(gw@),
    {
        let mut acc: i128 = 0;
        for i in 0..m
            invariant
                m == x@.len(),
                n == w@.len(),
                j < n,
                x@.len() == y@.len(),
                rows_match(rows_view(x@), w@.len() as int),
                rows_in_range(rows_view(x@)),
                seq_in_range(y@),
                seq_in_range(w@),
                in_range(b as int),
                errs@.len() == m,
                forall|t: int|
                    0 <= t < m ==> #[trigger] errs@[t] as int == mv_err(
                        rows_view(x@)[t],
                        y@[t] as int,
                        ints_of(w@),
                        b as int,
                    ),
                seq_in_range(errs@),
                acc as int == mv_gw_sum(rows_view(x@), y@, ints_of(w@), b as int, j as int, i as int),
                in_range(acc as int),
        {
            acc = add_fx(acc, mul_fx(errs[i], x[i][j]));
        }
        gw.push(div_count_fx(acc, m as i128));
    }
    let mut accb: i128 = 0;
    for i in 0..m
        invariant
            m == x@.len(),
            x@.len() == y@.len(),
            rows_match(rows_view(x@), w@.len() as int),
            rows_in_range(rows_view(x@)),
            seq_in_range(y@),
            seq_in_range(w@),
            in_range(b as int),
            errs@.len() == m,
            forall|t: int|
                0 <= t < m ==> #[trigger] errs@[t] as int == mv_err(
                    rows_view(x@)[t],
                    y@[t] as int,
                    ints_of(w@),
                    b as int,
                ),
            seq_in_range(errs@),
            accb as int == mv_gb_sum(rows_view(x@), y@, ints_of(w@), b as int, i as int),
            in_range(accb as int),
    {
        accb = add_fx(accb, errs[i]);
    }
    (gw, div_count_fx(accb, m as i128))
}

/// Gradient `(dJ/dw, dJ/db)` of the cost at `(w, b)`, the bias term
/// accumulated exactly once per example.
///
/// Same validation as [`compute_cost_multi`]; on success the pair equals
/// `(mv_grad_w, mv_grad_b)`.
pub fn compute_gradient_multi(x: &Vec<Vec<i128>>, y: &Vec<i128>, w: &Vec<i128>, b: i128) -> (r:
    Result<(Vec<i128>, i128), RegressionError>)
    requires
        rows_in_range(rows_view(x@)),
        seq_in_range(y@),
        seq_in_range(w@),
        in_range(b as int),
    ensures
        x@.len() != y@.len() ==> r == Err::<(Vec<i128>, i128), RegressionError>(
            RegressionError::ShapeMismatch,
        ),
        x@.len() == y@.len() && x@.len() == 0 ==> r == Err::<(Vec<i128>, i128), RegressionError>(
            RegressionError::EmptyInput,
        ),
        x@.len() == y@.len() && x@.len() >= 1 && !rows_match(rows_view(x@), w@.len() as int)
            ==> r == Err::<(Vec<i128>, i128), RegressionError>(RegressionError::ShapeMismatch),
        x@.len() == y@.len() && x@.len() >= 1 && rows_match(rows_view(x@), w@.len() as int) ==> (
        r matches Ok(g) && g.0@.len() == w@.len() && (forall|j: int|
            0 <= j < w@.len() ==> #[trigger] g.0@[j] as int == mv_grad_w(
                rows_view(x@),
                y@,
                ints_of(w@),
                b as int,
            )[j]) && g.1 as int == mv_grad_b(rows_view(x@), y@, ints_of(w@), b as int)),
{
    if x.len() != y.len() {
        return Err(RegressionError::ShapeMismatch);
    }
    if x.len() == 0 {
        return Err(RegressionError::EmptyInput);
    }
    if !rows_arity_ok(x, w.len()) {
        return Err(RegressionError::ShapeMismatch);
    }
    Ok(grad_core(x, y, w, b))
}

/// Batch gradient descent for multivariate linear regression.
///
/// Runs exactly `num_iters` updates from `(w_in, b_in)` with learning rate
/// `alpha`. After each update the cost at the new parameters is appended to
/// the history, for the first 100000 iterations only. With `num_iters == 0`
/// the initial parameters come back unchanged with an empty history.
pub fn gradient_descent_multi(
    x: &Vec<Vec<i128>>,
    y: &Vec<i128>,
    w_in: &Vec<i128>,
    b_in: i128,
    alpha: i128,
    num_iters: u64,
) -> (r: Result<MultiModel, RegressionError>)
    requires
        rows_in_range(rows_view(x@)),
        seq_in_range(y@),
        seq_in_range(w_in@),
        in_range(b_in as int),
        in_range(alpha as int),
    ensures
        x@.len() != y@.len() ==> r == Err::<MultiModel, RegressionError>(
            RegressionError::ShapeMismatch,
        ),
        x@.len() == y@.len() && x@.len() == 0 ==> r == Err::<MultiModel, RegressionError>(
            RegressionError::EmptyInput,
        ),
        x@.len() == y@.len() && x@.len() >= 1 && !rows_match(rows_view(x@), w_in@.len() as int)
            ==> r == Err::<MultiModel, RegressionError>(RegressionError::ShapeMismatch),
        x@.len() == y@.len() && x@.len() >= 1 && rows_match(rows_view(x@), w_in@.len() as int)
            ==> (r matches Ok(md) && md.w@.len() == w_in@.len() && (forall|j: int|
            0 <= j < w_in@.len() ==> #[trigger] md.w@[j] as int == mv_state(
                rows_view(x@),
                y@,
                ints_of(w_in@),
                b_in as int,
                alpha as int,
                num_iters as nat,
            ).0[j]) && md.b as int == mv_state(
            rows_view(x@),
            y@,
            ints_of(w_in@),
            b_in as int,
            alpha as int,
            num_iters as nat,
        ).1 && md.cost_history@.len() == history_len(num_iters) && (forall|t: int|
            0 <= t < md.cost_history@.len() ==> #[trigger] md.cost_history@[t] as int == mv_cost(
                rows_view(x@),
                y@,
                mv_state(
                    rows_view(x@),
                    y@,
                    ints_of(w_in@),
                    b_in as int,
                    alpha as int,
                    (t + 1) as nat,
                ).0,
                mv_state(
                    rows_view(x@),
                    y@,
                    ints_of(w_in@),
                    b_in as int,
                    alpha as int,
                    (t + 1) as nat,
                ).1,
            ))),
{
    if x.len() != y.len() {
        return Err(RegressionError::ShapeMismatch);
    }
    if x.len() == 0 {
        return Err(RegressionError::EmptyInput);
    }
    if !rows_arity_ok(x, w_in.len()) {
        return Err(RegressionError::ShapeMismatch);
    }
    let ghost xs = rows_view(x@);
    let ghost w0 = ints_of(w_in@);
    let n: usize = w_in.len();
    let mut w: Vec<i128> = Vec::new();
    for j in 0..n
        invariant
            n == w_in@.len(),
            seq_in_range(w_in@),
            w@.len() == j,
            forall|t: int| 0 <= t < j ==> w@[t] == w_in@[t],
            seq_in_range(w@),
    {
        w.push(w_in[j]);
    }
    let mut b: i128 = b_in;
    let mut j_hist: Vec<i128> = Vec::new();
    for i in 0..num_iters
        invariant
            xs == rows_view(x@),
            w0 == ints_of(w_in@),
            n == w_in@.len(),
            x@.len() == y@.len(),
            x@.len() >= 1,
            rows_match(xs, n as int),
            rows_in_range(xs),
            seq_in_range(y@),
            seq_in_range(w_in@),
            in_range(b_in as int),
            in_range(alpha as int),
            w@.len() == n,
            seq_in_range(w@),
            in_range(b as int),
            forall|t: int|
                0 <= t < n ==> #[trigger] w@[t] as int == mv_state(
                    xs,
                    y@,
                    w0,
                    b_in as int,
                    alpha as int,
                    i as nat,
                ).0[t],
            b as int == mv_state(xs, y@, w0, b_in as int, alpha as int, i as nat).1,
            j_hist@.len() == history_len(i),
            forall|t: int|
                0 <= t < j_hist@.len() ==> #[trigger] j_hist@[t] as int == mv_cost(
                    xs,
                    y@,
                    mv_state(xs, y@, w0, b_in as int, alpha as int, (t + 1) as nat).0,
                    mv_state(xs, y@, w0, b_in as int, alpha as int, (t + 1) as nat).1,
                ),
    {
        proof {
            lemma_mv_state_len(xs, y@, w0, b_in as int, alpha as int, i as nat);
        }
        let g: (Vec<i128>, i128) = grad_core(x, y, &w, b);
        proof {
            assert(ints_of(w@) =~= mv_state(xs, y@, w0, b_in as int, alpha as int, i as nat).0);
        }
        let mut new_w: Vec<i128> = Vec::new();
        for j in 0..n
            invariant
                n == w@.len(),
                n == g.0@.len(),
                seq_in_range(w@),
                seq_in_range(g.0@),
                in_range(alpha as int),
                new_w@.len() == j,
                forall|t: int|
                    0 <= t < j ==> #[trigger] new_w@[t] as int == fx_sub(
                        w@[t] as int,
                        fx_mul(alpha as int, g.0@[t] as int),
                    ),
                seq_in_range(new_w@),
        {
            new_w.push(sub_fx(w[j], mul_fx(alpha, g.0[j])));
        }
        let ghost prev_w = ints_of(w@);
        let ghost prev_b = b as int;
        w = new_w;
        b = sub_fx(b, mul_fx(alpha, g.1));
        proof {
            assert(mv_state(xs, y@, w0, b_in as int, alpha as int, (i + 1) as nat) == (mv_step_w(
                xs,
                y@,
                alpha as int,
                prev_w,
                prev_b,
            ), mv_step_b(xs, y@, alpha as int, prev_w, prev_b)));
            assert(forall|t: int|
                0 <= t < n ==> #[trigger] w@[t] as int == mv_step_w(
                    xs,
                    y@,
                    alpha as int,
                    prev_w,
                    prev_b,
                )[t]);
        }
        if i < 100000 {
            proof {
                assert(ints_of(w@) =~= mv_state(
                    xs,
                    y@,
                    w0,
                    b_in as int,
                    alpha as int,
                    (i + 1) as nat,
                ).0);
            }
            let c: i128 = cost_core(x, y, &w, b);
            j_hist.push(c);
        }
    }
    Ok(MultiModel::new(w, b, j_hist))
}

/// Running the descent loop for zero iterations leaves the parameters at
/// their initial values.
pub proof fn lemma_mv_descent_zero_iters(
    xs: Seq<Seq<i128>>,
    y: Seq<i128>,
    w0: Seq<int>,
    b0: int,
    alpha: int,
)
    ensures
        mv_state(xs, y, w0, b0, alpha, 0) == (w0, b0),
{
}

proof fn lemma_mv_sum_nonneg(xs: Seq<Seq<i128>>, y: Seq<i128>, w: Seq<int>, b: int, n: int)
    ensures
        0 <= mv_sq_err_sum(xs, y, w, b, n),
    decreases n,
{
    if n > 0 {
        lemma_mv_sum_nonneg(xs, y, w, b, n - 1);
        lemma_fx_square_nonneg(mv_err(xs[n - 1], y[n - 1] as int, w, b));
    }
}

/// The cost is never negative.
pub proof fn lemma_mv_cost_nonneg(xs: Seq<Seq<i128>>, y: Seq<i128>, w: Seq<int>, b: int)
    requires
        xs.len() == y.len(),
        xs.len() >= 1,
    ensures
        0 <= mv_cost(xs, y, w, b),
{
    lemma_mv_sum_nonneg(xs, y, w, b, xs.len() as int);
    lemma_tdiv_bound(mv_sq_err_sum(xs, y, w, b, xs.len() as int), 2 * xs.len() as int);
}

proof fn lemma_mv_sum_zero_when_exact(
    xs: Seq<Seq<i128>>,
    y: Seq<i128>,
    w: Seq<int>,
    b: int,
    n: int,
)
    requires
        n <= xs.len(),
        xs.len() == y.len(),
        forall|t: int| 0 <= t < xs.len() ==> mv_predict(#[trigger] xs[t], w, b) == y[t] as int,
    ensures
        mv_sq_err_sum(xs, y, w, b, n) == 0,
    decreases n,
{
    if n > 0 {
        lemma_mv_sum_zero_when_exact(xs, y, w, b, n - 1);
        assert(mv_err(xs[n - 1], y[n - 1] as int, w, b) == 0);
        lemma_fx_mul_zero(0);
    }
}

/// When every prediction exactly matches its label, the cost is zero.
pub proof fn lemma_mv_cost_zero_when_exact(xs: Seq<Seq<i128>>, y: Seq<i128>, w: Seq<int>, b: int)
    requires
        xs.len() == y.len(),
        xs.len() >= 1,
        forall|t: int| 0 <= t < xs.len() ==> mv_predict(#[trigger] xs[t], w, b) == y[t] as int,
    ensures
        mv_cost(xs, y, w, b) == 0,
{
    lemma_mv_sum_zero_when_exact(xs, y, w, b, xs.len() as int);
    lemma_tdiv_small(0, 2 * xs.len() as int);
}

proof fn lemma_mv_grad_sums_zero_when_exact(
    xs: Seq<Seq<i128>>,
    y: Seq<i128>,
    w: Seq<int>,
    b: int,
    j: int,
    n: int,
)
    requires
        n <= xs.len(),
        xs.len() == y.len(),
        forall|t: int| 0 <= t < xs.len() ==> mv_predict(#[trigger] xs[t], w, b) == y[t] as int,
    ensures
        mv_gw_sum(xs, y, w, b, j, n) == 0,
        mv_gb_sum(xs, y, w, b, n) == 0,
    decreases n,
{
    if n > 0 {
        lemma_mv_grad_sums_zero_when_exact(xs, y, w, b, j, n - 1);
        assert(mv_err(xs[n - 1], y[n - 1] as int, w, b) == 0);
        lemma_fx_mul_zero(xs[n - 1][j] as int);
    }
}

/// At an exact fit the gradient vanishes exactly, in every component.
pub proof fn lemma_mv_gradient_zero_when_exact(
    xs: Seq<Seq<i128>>,
    y: Seq<i128>,
    w: Seq<int>,
    b: int,
)
    requires
        xs.len() == y.len(),
        xs.len() >= 1,
        forall|t: int| 0 <= t < xs.len() ==> mv_predict(#[trigger] xs[t], w, b) == y[t] as int,
    ensures
        forall|j: int| 0 <= j < w.len() ==> mv_grad_w(xs, y, w, b)[j] == 0,
        mv_grad_b(xs, y, w, b) == 0,
{
    let m = xs.len() as int;
    lemma_tdiv_small(0, m);
    assert forall|j: int| 0 <= j < w.len() implies mv_grad_w(xs, y, w, b)[j] == 0 by {
        lemma_mv_grad_sums_zero_when_exact(xs, y, w, b, j, m);
    }
    lemma_mv_grad_sums_zero_when_exact(xs, y, w, b, 0, m);
}

/// An exact fit is a stationary point of the descent loop: every iteration
/// leaves the parameters unchanged.
pub proof fn lemma_mv_exact_fit_is_stationary(
    xs: Seq<Seq<i128>>,
    y: Seq<i128>,
    w0: Seq<int>,
    b0: int,
    alpha: int,
    k: nat,
)
    requires
        xs.len() == y.len(),
        xs.len() >= 1,
        forall|j: int| 0 <= j < w0.len() ==> in_range(#[trigger] w0[j]),
        in_range(b0),
        forall|t: int| 0 <= t < xs.len() ==> mv_predict(#[trigger] xs[t], w0, b0) == y[t] as int,
    ensures
        mv_state(xs, y, w0, b0, alpha, k) == (w0, b0),
    decreases k,
{
    if k > 0 {
        lemma_mv_exact_fit_is_stationary(xs, y, w0, b0, alpha, (k - 1) as nat);
        lemma_mv_gradient_zero_when_exact(xs, y, w0, b0);
        lemma_fx_mul_zero(alpha);
        assert(mv_step_w(xs, y, alpha, w0, b0) =~= w0);
    }
}

proof fn lemma_mv_sum_bounds_terms(
    xs: Seq<Seq<i128>>,
    y: Seq<i128>,
    w: Seq<int>,
    b: int,
    n: int,
    t: int,
)
    requires
        0 <= t < n,
    ensures
        fx_mul(mv_err(xs[t], y[t] as int, w, b), mv_err(xs[t], y[t] as int, w, b))
            <= mv_sq_err_sum(xs, y, w, b, n),
    decreases n,
{
    lemma_mv_sum_nonneg(xs, y, w, b, n - 1);
    lemma_fx_square_nonneg(mv_err(xs[n - 1], y[n - 1] as int, w, b));
    if t < n - 1 {
        lemma_mv_sum_bounds_terms(xs, y, w, b, n - 1, t);
    }
}

/// When the cost is zero, every squared error is below the arithmetic's
/// resolution for this dataset: `err^2 < (2m + 1) * SCALE` in exact terms,
/// so each prediction matches its label to within the representable grain.
pub proof fn lemma_mv_cost_zero_only_if_small(
    xs: Seq<Seq<i128>>,
    y: Seq<i128>,
    w: Seq<int>,
    b: int,
)
    requires
        xs.len() == y.len(),
        xs.len() >= 1,
        2 * xs.len() <= BOUND as int,
        mv_cost(xs, y, w, b) == 0,
    ensures
        forall|t: int|
            0 <= t < xs.len() ==> (mv_err(#[trigger] xs[t], y[t] as int, w, b) * mv_err(
                xs[t],
                y[t] as int,
                w,
                b,
            ) < (2 * xs.len() + 1) * (SCALE as int)),
{
    let m = xs.len() as int;
    let total = mv_sq_err_sum(xs, y, w, b, m);
    lemma_mv_sum_nonneg(xs, y, w, b, m);
    lemma_tdiv_zero_bound(total, 2 * m);
    assert forall|t: int| 0 <= t < xs.len() implies (mv_err(#[trigger] xs[t], y[t] as int, w, b)
        * mv_err(xs[t], y[t] as int, w, b) < (2 * m + 1) * (SCALE as int)) by {
        lemma_mv_sum_bounds_terms(xs, y, w, b, m, t);
        let e = mv_err(xs[t], y[t] as int, w, b);
        assert(e * e >= 0) by (nonlinear_arith);
        lemma_tdiv_bound(e * e, SCALE as int);
        assert(tdiv(e * e, SCALE as int) < 2 * m);
        lemma_fundamental_div_mod(e * e, SCALE as int);
        lemma_mod_division_less_than_divisor(e * e, SCALE as int);
        assert((SCALE as int) * ((e * e) / (SCALE as int)) <= (SCALE as int) * (2 * m - 1))
            by (nonlinear_arith)
            requires
                (e * e) / (SCALE as int) <= 2 * m - 1,
                SCALE as int > 0,
        ;
        assert((SCALE as int) * (2 * m - 1) + (SCALE as int) == (2 * m + 1) * (SCALE as int) - (
        SCALE as int) * 1) by (nonlinear_arith);
    }
}

} // verus!
