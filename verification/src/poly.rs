//! Polynomial regression over a single feature: weight vector `w` indexed by
//! power, scalar bias `b`, prediction `b + sum(w[k] * x^k)` for powers
//! `0..=degree`. The gradient updates weights for powers `1..=degree` only:
//! `w[0]` is redundant with the bias and stays at its initial value, a
//! documented quirk kept deliberately rather than silently repaired.

use crate::fixed::{
    add_fx, div_count_fx, fx_add, fx_div_count, fx_mul, fx_sub, in_range, ints_of,
    lemma_fx_mul_zero, lemma_fx_square_nonneg, lemma_tdiv_bound, lemma_tdiv_small,
    lemma_fx_mul_one, lemma_tdiv_zero_bound, mul_fx, seq_in_range, sub_fx, tdiv, BOUND, SCALE,
};
use crate::history_len;
use crate::multi::MultiModel;
use crate::simple::{
    lemma_sl_state_in_range, sl_grad_b, sl_grad_w, sl_gb_sum, sl_gw_sum, sl_predict,
    sl_sq_err_sum, sl_state, sl_step_b, sl_step_w,
};
use crate::RegressionError;
use vstd::arithmetic::div_mod::{lemma_fundamental_div_mod, lemma_mod_division_less_than_divisor};
use vstd::prelude::*;

verus! {

/// Fixed-point power: `x^k`, with `x^0` the scaled unit.
pub open spec fn fx_pow(x: int, k: nat) -> int
    decreases k,
{
    if k == 0 {
        SCALE as int
    } else {
        fx_mul(fx_pow(x, (k - 1) as nat), x)
    }
}

/// Prediction prefix: `b + sum over k < n of w[k] * x^k`, folded left in
/// power order exactly as the executable loop accumulates it.
pub open spec fn pl_predict_to(x: int, w: Seq<int>, b: int, n: int) -> int
    decreases n,
{
    if n <= 0 {
        b
    } else {
        fx_add(pl_predict_to(x, w, b, n - 1), fx_mul(w[n - 1], fx_pow(x, (n - 1) as nat)))
    }
}

/// The model's prediction for one feature value: `b + sum(w[k] * x^k)`.
pub open spec fn pl_predict(x: int, w: Seq<int>, b: int) -> int {
    pl_predict_to(x, w, b, w.len() as int)
}

/// Signed prediction error for one example.
pub open spec fn pl_err(x: int, yi: int, w: Seq<int>, b: int) -> int {
    fx_sub(pl_predict(x, w, b), yi)
}

/// Running sum of squared errors over the first `n` examples.
pub open spec fn pl_sq_err_sum(x: Seq<i128>, y: Seq<i128>, w: Seq<int>, b: int, n: int) -> int
    decreases n,
{
    if n <= 0 {
        0
    } else {
        let e = pl_err(x[n - 1] as int, y[n - 1] as int, w, b);
        fx_add(pl_sq_err_sum(x, y, w, b, n - 1), fx_mul(e, e))
    }
}

/// Mean squared error halved: the sum of squared errors over `2 * m`.
pub open spec fn pl_cost(x: Seq<i128>, y: Seq<i128>, w: Seq<int>, b: int) -> int
    recommends
        x.len() == y.len(),
        x.len() >= 1,
{
    fx_div_count(pl_sq_err_sum(x, y, w, b, x.len() as int), 2 * x.len() as int)
}

/// Running sum of `err_i * x_i^j` over the first `n` examples, for one power `j`.
pub open spec fn pl_gw_sum(x: Seq<i128>, y: Seq<i128>, w: Seq<int>, b: int, j: int, n: int) -> int
    decreases n,
{
    if n <= 0 {
        0
    } else {
        fx_add(
            pl_gw_sum(x, y, w, b, j, n - 1),
            fx_mul(pl_err(x[n - 1] as int, y[n - 1] as int, w, b), fx_pow(x[n - 1] as int, j as nat)),
        )
    }
}

/// Running sum of `err_i` over the first `n` examples: accumulated exactly
/// once per example, independent of the inner power loop.
pub open spec fn pl_gb_sum(x: Seq<i128>, y: Seq<i128>, w: Seq<int>, b: int, n: int) -> int
    decreases n,
{
    if n <= 0 {
        0
    } else {
        fx_add(pl_gb_sum(x, y, w, b, n - 1), pl_err(x[n - 1] as int, y[n - 1] as int, w, b))
    }
}

/// Gradient of the cost with respect to each weight: zero for power 0 (that
/// weight is never updated), `(1/m) * sum(err_i * x_i^j)` for powers `j >= 1`.
pub open spec fn pl_grad_w(x: Seq<i128>, y: Seq<i128>, w: Seq<int>, b: int) -> Seq<int>
    recommends
        x.len() == y.len(),
        x.len() >= 1,
{
    Seq::new(
        w.len(),
        |j: int|
            if j == 0 {
                0
            } else {
                fx_div_count(pl_gw_sum(x, y, w, b, j, x.len() as int), x.len() as int)
            },
    )
}

/// Gradient of the cost with respect to the bias: `(1/m) * sum(err_i)`.
pub open spec fn pl_grad_b(x: Seq<i128>, y: Seq<i128>, w: Seq<int>, b: int) -> int
    recommends
        x.len() == y.len(),
        x.len() >= 1,
{
    fx_div_count(pl_gb_sum(x, y, w, b, x.len() as int), x.len() as int)
}

/// One descent update of the weight vector, element-wise.
pub open spec fn pl_step_w(x: Seq<i128>, y: Seq<i128>, alpha: int, w: Seq<int>, b: int) -> Seq<
    int,
> {
    Seq::new(w.len(), |j: int| fx_sub(w[j], fx_mul(alpha, pl_grad_w(x, y, w, b)[j])))
}

/// One descent update of the bias.
pub open spec fn pl_step_b(x: Seq<i128>, y: Seq<i128>, alpha: int, w: Seq<int>, b: int) -> int {
    fx_sub(b, fx_mul(alpha, pl_grad_b(x, y, w, b)))
}

/// Parameters `(w, b)` after `k` descent iterations from `(w0, b0)`.
pub open spec fn pl_state(
    x: Seq<i128>,
    y: Seq<i128>,
    w0: Seq<int>,
    b0: int,
    alpha: int,
    k: nat,
) -> (Seq<int>, int)
    decreases k,
{
    if k == 0 {
        (w0, b0)
    } else {
        let prev = pl_state(x, y, w0, b0, alpha, (k - 1) as nat);
        (pl_step_w(x, y, alpha, prev.0, prev.1), pl_step_b(x, y, alpha, prev.0, prev.1))
    }
}

/// The all-zero initial weight vector for a polynomial of `n` coefficients.
pub open spec fn pl_zero_weights(n: int) -> Seq<int> {
    Seq::new(n as nat, |j: int| 0int)
}

/// The weight vector keeps its arity across descent iterations.
pub proof fn lemma_pl_state_len(
    x: Seq<i128>,
    y: Seq<i128>,
    w0: Seq<int>,
    b0: int,
    alpha: int,
    k: nat,
)
    ensures
        pl_state(x, y, w0, b0, alpha, k).0.len() == w0.len(),
    decreases k,
{
    if k > 0 {
        lemma_pl_state_len(x, y, w0, b0, alpha, (k - 1) as nat);
    }
}

/// The constant-term weight `w[0]` is never updated by the descent loop: it
/// keeps its initial value through every iteration (the bias carries the
/// constant term instead).
pub proof fn lemma_pl_state_w0_fixed(
    x: Seq<i128>,
    y: Seq<i128>,
    w0: Seq<int>,
    b0: int,
    alpha: int,
    k: nat,
)
    requires
        w0.len() >= 1,
        in_range(w0[0]),
    ensures
        pl_state(x, y, w0, b0, alpha, k).0[0] == w0[0],
    decreases k,
{
    if k > 0 {
        lemma_pl_state_w0_fixed(x, y, w0, b0, alpha, (k - 1) as nat);
        lemma_pl_state_len(x, y, w0, b0, alpha, (k - 1) as nat);
        let prev = pl_state(x, y, w0, b0, alpha, (k - 1) as nat);
        lemma_fx_mul_zero(alpha);
        assert(pl_grad_w(x, y, prev.0, prev.1)[0] == 0);
        assert(pl_state(x, y, w0, b0, alpha, k).0[0] == fx_sub(prev.0[0], 0));
    }
}

fn pow_fx(x: i128, k: usize) -> (r: i128)
    requires
        in_range(x as int),
    ensures
        r as int == fx_pow(x as int, k as nat),
        in_range(r as int),
{
    let mut p: i128 = SCALE;
    for t in 0..k
        invariant
            in_range(x as int),
            p as int == fx_pow(x as int, t as nat),
            in_range(p as int),
    {
        p = mul_fx(p, x);
    }
    p
}

fn predict_core(x: i128, w: &Vec<i128>, b: i128) -> (r: i128)
    requires
        in_range(x as int),
        seq_in_range(w@),
        in_range(b as int),
    ensures
        r as int == pl_predict(x as int, ints_of(w@), b as int),
        in_range(r as int),
{
    let n: usize = w.len();
    let mut acc: i128 = b;
    let mut p: i128 = SCALE;
    for j in 0..n
        invariant
            n == w@.len(),
            in_range(x as int),
            seq_in_range(w@),
            in_range(b as int),
            p as int == fx_pow(x as int, j as nat),
            in_range(p as int),
            acc as int == pl_predict_to(x as int, ints_of(w@), b as int, j as int),
            in_range(acc as int),
    {
        acc = add_fx(acc, mul_fx(w[j], p));
        p = mul_fx(p, x);
    }
    acc
}

/// The model's prediction for one feature value: `b + sum(w[k] * x^k)` over
/// powers `0..w.len()`.
pub fn predict_single_value_poly(x: i128, w: &Vec<i128>, b: i128) -> (r: i128)
    requires
        in_range(x as int),
        seq_in_range(w@),
        in_range(b as int),
    ensures
        r as int == pl_predict(x as int, ints_of(w@), b as int),
        in_range(r as int),
{
    predict_core(x, w, b)
}

fn cost_core(x: &Vec<i128>, y: &Vec<i128>, w: &Vec<i128>, b: i128) -> (r: i128)
    requires
        x@.len() == y@.len(),
        x@.len() >= 1,
        seq_in_range(x@),
        seq_in_range(y@),
        seq_in_range(w@),
        in_range(b as int),
    ensures
        r as int == pl_cost(x@, y@, ints_of(w@), b as int),
        in_range(r as int),
{
    let m: usize = x.len();
    let mut acc: i128 = 0;
    for i in 0..m
        invariant
            m == x@.len(),
            x@.len() == y@.len(),
            seq_in_range(x@),
            seq_in_range(y@),
            seq_in_range(w@),
            in_range(b as int),
            acc as int == pl_sq_err_sum(x@, y@, ints_of(w@), b as int, i as int),
            in_range(acc as int),
    {
        let p: i128 = predict_core(x[i], w, b);
        let e: i128 = sub_fx(p, y[i]);
        acc = add_fx(acc, mul_fx(e, e));
    }
    let d: i128 = 2 * (m as i128);
    div_count_fx(acc, d)
}

/// Mean squared error halved over the dataset for parameters `(w, b)`.
///
/// Returns `ShapeMismatch` exactly when the feature and label counts differ,
/// `EmptyInput` exactly when both are empty, and otherwise the cost `pl_cost`.
pub fn compute_cost_poly(x: &Vec<i128>, y: &Vec<i128>, w: &Vec<i128>, b: i128) -> (r: Result<
    i128,
    RegressionError,
>)
    requires
        seq_in_range(x@),
        seq_in_range(y@),
        seq_in_range(w@),
        in_range(b as int),
    ensures
        x@.len() != y@.len() ==> r == Err::<i128, RegressionError>(RegressionError::ShapeMismatch),
        x@.len() == y@.len() && x@.len() == 0 ==> r == Err::<i128, RegressionError>(
            RegressionError::EmptyInput,
        ),
        x@.len() == y@.len() && x@.len() >= 1 ==> (r matches Ok(c) && c as int == pl_cost(
            x@,
            y@,
            ints_of(w@),
            b as int,
        )),
{
    if x.len() != y.len() {
        return Err(RegressionError::ShapeMismatch);
    }
    if x.len() == 0 {
        return Err(RegressionError::EmptyInput);
    }
    Ok(cost_core(x, y, w, b))
}

fn grad_core(x: &Vec<i128>, y: &Vec<i128>, w: &Vec<i128>, b: i128) -> (r: (Vec<i128>, i128))
    requires
        x@.len() == y@.len(),
        x@.len() >= 1,
        seq_in_range(x@),
        seq_in_range(y@),
        seq_in_range(w@),
        in_range(b as int),
    ensures
        r.0@.len() == w@.len(),
        forall|j: int|
            0 <= j < w@.len() ==> #[trigger] r.0@[j] as int == pl_grad_w(
                x@,
                y@,
                ints_of(w@),
                b as int,
            )[j],
        r.1 as int == pl_grad_b(x@, y@, ints_of(w@), b as int),
        seq_in_range(r.0@),
        in_range(r.1 as int),
{
    let m: usize = x.len();
    let n: usize = w.len();
    let mut errs: Vec<i128> = Vec::new();
    for i in 0..m
        invariant
            m == x@.len(),
            n == w@.len(),
            x@.len() == y@.len(),
            seq_in_range(x@),
            seq_in_range(y@),
            seq_in_range(w@),
            in_range(b as int),
            errs@.len() == i,
            forall|t: int|
                0 <= t < i ==> #[trigger] errs@[t] as int == pl_err(
                    x@[t] as int,
                    y@[t] as int,
                    ints_of(w@),
                    b as int,
                ),
            seq_in_range(errs@),
    {
        let p: i128 = predict_core(x[i], w, b);
        errs.push(sub_fx(p, y[i]));
    }
    let mut gw: Vec<i128> = Vec::new();
    for j in 0..n
        invariant
            m == x@.len(),
            n == w@.len(),
            x@.len() == y@.len(),
            x@.len() >= 1,
            seq_in_range(x@),
            seq_in_range(y@),
            seq_in_range(w@),
            in_range(b as int),
            errs@.len() == m,
            forall|t: int|
                0 <= t < m ==> #[trigger] errs@[t] as int == pl_err(
                    x@[t] as int,
                    y@[t] as int,
                    ints_of(w@),
                    b as int,
                ),
            seq_in_range(errs@),
            gw@.len() == j,
            forall|t: int|
                0 <= t < j ==> #[trigger] gw@[t] as int == pl_grad_w(
                    x@,
                    y@,
                    ints_of(w@),
                    b as int,
                )[t],
            seq_in_range(gw@),
    {
        if j == 0 {
            gw.push(0);
        } else {
            let mut acc: i128 = 0;
            for i in 0..m
                invariant
                    m == x@.len(),
                    n == w@.len(),
                    j < n,
                    x@.len() == y@.len(),
                    seq_in_range(x@),
                    seq_in_range(y@),
                    seq_in_range(w@),
                    in_range(b as int),
                    errs@.len() == m,
                    forall|t: int|
                        0 <= t < m ==> #[trigger] errs@[t] as int == pl_err(
                            x@[t] as int,
                            y@[t] as int,
                            ints_of(w@),
                            b as int,
                        ),
                    seq_in_range(errs@),
                    acc as int == pl_gw_sum(x@, y@, ints_of(w@), b as int, j as int, i as int),
                    in_range(acc as int),
            {
                let pw: i128 = pow_fx(x[i], j);
                acc = add_fx(acc, mul_fx(errs[i], pw));
            }
            gw.push(div_count_fx(acc, m as i128));
        }
    }
    let mut accb: i128 = 0;
    for i in 0..m
        invariant
            m == x@.len(),
            x@.len() == y@.len(),
            seq_in_range(x@),
            seq_in_range(y@),
            seq_in_range(w@),
            in_range(b as int),
            errs@.len() == m,
            forall|t: int|
                0 <= t < m ==> #[trigger] errs@[t] as int == pl_err(
                    x@[t] as int,
                    y@[t] as int,
                    ints_of(w@),
                    b as int,
                ),
            seq_in_range(errs@),
            accb as int == pl_gb_sum(x@, y@, ints_of(w@), b as int, i as int),
            in_range(accb as int),
    {
        accb = add_fx(accb, errs[i]);
    }
    (gw, div_count_fx(accb, m as i128))
}

/// Gradient `(dJ/dw, dJ/db)` of the cost at `(w, b)`. The entry for power 0
/// is zero — that weight is never updated — and the bias term is accumulated
/// exactly once per example.
///
/// Same validation as [`compute_cost_poly`]; on success the pair equals
/// `(pl_grad_w, pl_grad_b)`.
pub fn compute_gradient_poly(x: &Vec<i128>, y: &Vec<i128>, w: &Vec<i128>, b: i128) -> (r: Result<
    (Vec<i128>, i128),
    RegressionError,
>)
    requires
        seq_in_range(x@),
        seq_in_range(y@),
        seq_in_range(w@),
        in_range(b as int),
    ensures
        x@.len() != y@.len() ==> r == Err::<(Vec<i128>, i128), RegressionError>(
            RegressionError::ShapeMismatch,
        ),
        x@.len() == y@.len() && x@.len() == 0 ==> r == Err::<(Vec<i128>, i128), RegressionError>(
            RegressionError::EmptyInput,
        ),
        x@.len() == y@.len() && x@.len() >= 1 ==> (r matches Ok(g) && g.0@.len() == w@.len() && (
        forall|j: int|
            0 <= j < w@.len() ==> #[trigger] g.0@[j] as int == pl_grad_w(
                x@,
                y@,
                ints_of(w@),
                b as int,
            )[j]) && g.1 as int == pl_grad_b(x@, y@, ints_of(w@), b as int)),
{
    if x.len() != y.len() {
        return Err(RegressionError::ShapeMismatch);
    }
    if x.len() == 0 {
        return Err(RegressionError::EmptyInput);
    }
    Ok(grad_core(x, y, w, b))
}

/// Batch gradient descent for polynomial regression of the given degree.
///
/// Starts from all-zero weights (`degree + 1` of them) and a zero bias, and
/// runs exactly `num_iters` updates with learning rate `alpha`. After each
/// update the cost at the new parameters is appended to the history, for the
/// first 100000 iterations only. The constant-term weight `w[0]` is never
/// updated, so it is zero in the returned model.
pub fn gradient_descent_poly(
    x: &Vec<i128>,
    y: &Vec<i128>,
    degree: usize,
    alpha: i128,
    num_iters: u64,
) -> (r: Result<MultiModel, RegressionError>)
    requires
        seq_in_range(x@),
        seq_in_range(y@),
        in_range(alpha as int),
        degree < usize::MAX,
    ensures
        x@.len() != y@.len() ==> r == Err::<MultiModel, RegressionError>(
            RegressionError::ShapeMismatch,
        ),
        x@.len() == y@.len() && x@.len() == 0 ==> r == Err::<MultiModel, RegressionError>(
            RegressionError::EmptyInput,
        ),
        x@.len() == y@.len() && x@.len() >= 1 ==> (r matches Ok(md) && md.w@.len() == degree + 1
            && (forall|j: int|
            0 <= j < degree + 1 ==> #[trigger] md.w@[j] as int == pl_state(
                x@,
                y@,
                pl_zero_weights(degree + 1),
                0,
                alpha as int,
                num_iters as nat,
            ).0[j]) && md.b as int == pl_state(
            x@,
            y@,
            pl_zero_weights(degree + 1),
            0,
            alpha as int,
            num_iters as nat,
        ).1 && md.w@[0] as int == 0 && md.cost_history@.len() == history_len(num_iters) && (
        forall|t: int|
            0 <= t < md.cost_history@.len() ==> #[trigger] md.cost_history@[t] as int == pl_cost(
                x@,
                y@,
                pl_state(x@, y@, pl_zero_weights(degree + 1), 0, alpha as int, (t + 1) as nat).0,
                pl_state(x@, y@, pl_zero_weights(degree + 1), 0, alpha as int, (t + 1) as nat).1,
            ))),
{
    if x.len() != y.len() {
        return Err(RegressionError::ShapeMismatch);
    }
    if x.len() == 0 {
        return Err(RegressionError::EmptyInput);
    }
    let ghost w0 = pl_zero_weights(degree + 1);
    let n: usize = degree + 1;
    let mut w: Vec<i128> = Vec::new();
    for j in 0..n
        invariant
            w@.len() == j,
            forall|t: int| 0 <= t < j ==> #[trigger] w@[t] == 0i128,
            seq_in_range(w@),
    {
        w.push(0);
    }
    let mut b: i128 = 0;
    let mut j_hist: Vec<i128> = Vec::new();
    proof {
        assert(ints_of(w@) =~= w0);
    }
    for i in 0..num_iters
        invariant
            w0 == pl_zero_weights(degree + 1),
            n == degree + 1,
            x@.len() == y@.len(),
            x@.len() >= 1,
            seq_in_range(x@),
            seq_in_range(y@),
            in_range(alpha as int),
            w@.len() == n,
            seq_in_range(w@),
            in_range(b as int),
            forall|t: int|
                0 <= t < n ==> #[trigger] w@[t] as int == pl_state(
                    x@,
                    y@,
                    w0,
                    0,
                    alpha as int,
                    i as nat,
                ).0[t],
            b as int == pl_state(x@, y@, w0, 0, alpha as int, i as nat).1,
            j_hist@.len() == history_len(i),
            forall|t: int|
                0 <= t < j_hist@.len() ==> #[trigger] j_hist@[t] as int == pl_cost(
                    x@,
                    y@,
                    pl_state(x@, y@, w0, 0, alpha as int, (t + 1) as nat).0,
                    pl_state(x@, y@, w0, 0, alpha as int, (t + 1) as nat).1,
                ),
    {
        proof {
            lemma_pl_state_len(x@, y@, w0, 0, alpha as int, i as nat);
        }
        let g: (Vec<i128>, i128) = grad_core(x, y, &w, b);
        proof {
            assert(ints_of(w@) =~= pl_state(x@, y@, w0, 0, alpha as int, i as nat).0);
        }
        let mut new_w: Vec<i128> = Vec::new();
        for j in 0..n
            invariant
                n == w@.len(),
                n == g.0@.len(),
                seq_in_range(w@),
                seq_in_range(g.0@),
                in_range(alpha as int),
                new_w@.len() == j,
                forall|t: int|
                    0 <= t < j ==> #[trigger] new_w@[t] as int == fx_sub(
                        w@[t] as int,
                        fx_mul(alpha as int, g.0@[t] as int),
                    ),
                seq_in_range(new_w@),
        {
            new_w.push(sub_fx(w[j], mul_fx(alpha, g.0[j])));
        }
        let ghost prev_w = ints_of(w@);
        let ghost prev_b = b as int;
        w = new_w;
        b = sub_fx(b, mul_fx(alpha, g.1));
        proof {
            assert(pl_state(x@, y@, w0, 0, alpha as int, (i + 1) as nat) == (pl_step_w(
                x@,
                y@,
                alpha as int,
                prev_w,
                prev_b,
            ), pl_step_b(x@, y@, alpha as int, prev_w, prev_b)));
            assert(forall|t: int|
                0 <= t < n ==> #[trigger] w@[t] as int == pl_step_w(
                    x@,
                    y@,
                    alpha as int,
                    prev_w,
                    prev_b,
                )[t]);
        }
        if i < 100000 {
            proof {
                assert(ints_of(w@) =~= pl_state(x@, y@, w0, 0, alpha as int, (i + 1) as nat).0);
            }
            let c: i128 = cost_core(x, y, &w, b);
            j_hist.push(c);
        }
    }
    proof {
        lemma_pl_state_w0_fixed(x@, y@, w0, 0, alpha as int, num_iters as nat);
    }
    Ok(MultiModel::new(w, b, j_hist))
}

/// Running the descent loop for zero iterations leaves the parameters at
/// their initial values.
pub proof fn lemma_pl_descent_zero_iters(
    x: Seq<i128>,
    y: Seq<i128>,
    w0: Seq<int>,
    b0: int,
    alpha: int,
)
    ensures
        pl_state(x, y, w0, b0, alpha, 0) == (w0, b0),
{
}

proof fn lemma_pl_sum_nonneg(x: Seq<i128>, y: Seq<i128>, w: Seq<int>, b: int, n: int)
    ensures
        0 <= pl_sq_err_sum(x, y, w, b, n),
    decreases n,
{
    if n > 0 {
        lemma_pl_sum_nonneg(x, y, w, b, n - 1);
        lemma_fx_square_nonneg(pl_err(x[n - 1] as int, y[n - 1] as int, w, b));
    }
}

/// The cost is never negative.
pub proof fn lemma_pl_cost_nonneg(x: Seq<i128>, y: Seq<i128>, w: Seq<int>, b: int)
    requires
        x.len() == y.len(),
        x.len() >= 1,
    ensures
        0 <= pl_cost(x, y, w, b),
{
    lemma_pl_sum_nonneg(x, y, w, b, x.len() as int);
    lemma_tdiv_bound(pl_sq_err_sum(x, y, w, b, x.len() as int), 2 * x.len() as int);
}

proof fn lemma_pl_sum_zero_when_exact(x: Seq<i128>, y: Seq<i128>, w: Seq<int>, b: int, n: int)
    requires
        n <= x.len(),
        x.len() == y.len(),
        forall|t: int|
            0 <= t < x.len() ==> pl_predict(#[trigger] x[t] as int, w, b) == y[t] as int,
    ensures
        pl_sq_err_sum(x, y, w, b, n) == 0,
    decreases n,
{
    if n > 0 {
        lemma_pl_sum_zero_when_exact(x, y, w, b, n - 1);
        assert(pl_err(x[n - 1] as int, y[n - 1] as int, w, b) == 0);
        lemma_fx_mul_zero(0);
    }
}

/// When every prediction exactly matches its label, the cost is zero.
pub proof fn lemma_pl_cost_zero_when_exact(x: Seq<i128>, y: Seq<i128>, w: Seq<int>, b: int)
    requires
        x.len() == y.len(),
        x.len() >= 1,
        forall|t: int|
            0 <= t < x.len() ==> pl_predict(#[trigger] x[t] as int, w, b) == y[t] as int,
    ensures
        pl_cost(x, y, w, b) == 0,
{
    lemma_pl_sum_zero_when_exact(x, y, w, b, x.len() as int);
    lemma_tdiv_small(0, 2 * x.len() as int);
}

proof fn lemma_pl_grad_sums_zero_when_exact(
    x: Seq<i128>,
    y: Seq<i128>,
    w: Seq<int>,
    b: int,
    j: int,
    n: int,
)
    requires
        n <= x.len(),
        x.len() == y.len(),
        forall|t: int|
            0 <= t < x.len() ==> pl_predict(#[trigger] x[t] as int, w, b) == y[t] as int,
    ensures
        pl_gw_sum(x, y, w, b, j, n) == 0,
        pl_gb_sum(x, y, w, b, n) == 0,
    decreases n,
{
    if n > 0 {
        lemma_pl_grad_sums_zero_when_exact(x, y, w, b, j, n - 1);
        assert(pl_err(x[n - 1] as int, y[n - 1] as int, w, b) == 0);
        lemma_fx_mul_zero(fx_pow(x[n - 1] as int, j as nat));
    }
}

/// At an exact fit the gradient vanishes exactly, in every component.
pub proof fn lemma_pl_gradient_zero_when_exact(x: Seq<i128>, y: Seq<i128>, w: Seq<int>, b: int)
    requires
        x.len() == y.len(),
        x.len() >= 1,
        forall|t: int|
            0 <= t < x.len() ==> pl_predict(#[trigger] x[t] as int, w, b) == y[t] as int,
    ensures
        forall|j: int| 0 <= j < w.len() ==> pl_grad_w(x, y, w, b)[j] == 0,
        pl_grad_b(x, y, w, b) == 0,
{
    let m = x.len() as int;
    lemma_tdiv_small(0, m);
    assert forall|j: int| 0 <= j < w.len() implies pl_grad_w(x, y, w, b)[j] == 0 by {
        lemma_pl_grad_sums_zero_when_exact(x, y, w, b, j, m);
    }
    lemma_pl_grad_sums_zero_when_exact(x, y, w, b, 0, m);
}

/// An exact fit is a stationary point of the descent loop: every iteration
/// leaves the parameters unchanged.
pub proof fn lemma_pl_exact_fit_is_stationary(
    x: Seq<i128>,
    y: Seq<i128>,
    w0: Seq<int>,
    b0: int,
    alpha: int,
    k: nat,
)
    requires
        x.len() == y.len(),
        x.len() >= 1,
        forall|j: int| 0 <= j < w0.len() ==> in_range(#[trigger] w0[j]),
        in_range(b0),
        forall|t: int|
            0 <= t < x.len() ==> pl_predict(#[trigger] x[t] as int, w0, b0) == y[t] as int,
    ensures
        pl_state(x, y, w0, b0, alpha, k) == (w0, b0),
    decreases k,
{
    if k > 0 {
        lemma_pl_exact_fit_is_stationary(x, y, w0, b0, alpha, (k - 1) as nat);
        lemma_pl_gradient_zero_when_exact(x, y, w0, b0);
        lemma_fx_mul_zero(alpha);
        assert(pl_step_w(x, y, alpha, w0, b0) =~= w0);
    }
}

proof fn lemma_pl_sum_bounds_terms(
    x: Seq<i128>,
    y: Seq<i128>,
    w: Seq<int>,
    b: int,
    n: int,
    t: int,
)
    requires
        0 <= t < n,
    ensures
        fx_mul(pl_err(x[t] as int, y[t] as int, w, b), pl_err(x[t] as int, y[t] as int, w, b))
            <= pl_sq_err_sum(x, y, w, b, n),
    decreases n,
{
    lemma_pl_sum_nonneg(x, y, w, b, n - 1);
    lemma_fx_square_nonneg(pl_err(x[n - 1] as int, y[n - 1] as int, w, b));
    if t < n - 1 {
        lemma_pl_sum_bounds_terms(x, y, w, b, n - 1, t);
    }
}

/// When the cost is zero, every squared error is below the arithmetic's
/// resolution for this dataset: `err^2 < (2m + 1) * SCALE` in exact terms,
/// so each prediction matches its label to within the representable grain.
pub proof fn lemma_pl_cost_zero_only_if_small(x: Seq<i128>, y: Seq<i128>, w: Seq<int>, b: int)
    requires
        x.len() == y.len(),
        x.len() >= 1,
        2 * x.len() <= BOUND as int,
        pl_cost(x, y, w, b) == 0,
    ensures
        forall|t: int|
            0 <= t < x.len() ==> (pl_err(#[trigger] x[t] as int, y[t] as int, w, b) * pl_err(
                x[t] as int,
                y[t] as int,
                w,
                b,
            ) < (2 * x.len() + 1) * (SCALE as int)),
{
    let m = x.len() as int;
    let total = pl_sq_err_sum(x, y, w, b, m);
    lemma_pl_sum_nonneg(x, y, w, b, m);
    lemma_tdiv_zero_bound(total, 2 * m);
    assert forall|t: int|
        0 <= t < x.len() implies (pl_err(#[trigger] x[t] as int, y[t] as int, w, b) * pl_err(
        x[t] as int,
        y[t] as int,
        w,
        b,
    ) < (2 * m + 1) * (SCALE as int)) by {
        lemma_pl_sum_bounds_terms(x, y, w, b, m, t);
        let e = pl_err(x[t] as int, y[t] as int, w, b);
        assert(e * e >= 0) by (nonlinear_arith);
        lemma_tdiv_bound(e * e, SCALE as int);
        assert(tdiv(e * e, SCALE as int) < 2 * m);
        lemma_fundamental_div_mod(e * e, SCALE as int);
        lemma_mod_division_less_than_divisor(e * e, SCALE as int);
        assert((SCALE as int) * ((e * e) / (SCALE as int)) <= (SCALE as int) * (2 * m - 1))
            by (nonlinear_arith)
            requires
                (e * e) / (SCALE as int) <= 2 * m - 1,
                SCALE as int > 0,
        ;
        assert((SCALE as int) * (2 * m - 1) + (SCALE as int) == (2 * m + 1) * (SCALE as int) - (
        SCALE as int) * 1) by (nonlinear_arith);
    }
}

proof fn lemma_pl1_predict(x: int, w1: int, b: int)
    requires
        in_range(x),
        in_range(w1),
        in_range(b),
    ensures
        pl_predict(x, seq![0int, w1], b) == sl_predict(x, w1, b),
{
    let w = seq![0int, w1];
    lemma_fx_mul_zero(fx_pow(x, 0));
    assert(pl_predict_to(x, w, b, 0) == b);
    assert(pl_predict_to(x, w, b, 1) == fx_add(b, fx_mul(0, fx_pow(x, 0))));
    assert(pl_predict_to(x, w, b, 1) == b);
    lemma_fx_mul_one(x);
    assert(fx_pow(x, 1) == fx_mul(fx_pow(x, 0), x));
    assert(fx_pow(x, 1) == x);
    assert(pl_predict_to(x, w, b, 2) == fx_add(b, fx_mul(w1, x)));
}

proof fn lemma_pl1_sums(x: Seq<i128>, y: Seq<i128>, w1: int, b: int, n: int)
    requires
        seq_in_range(x),
        in_range(w1),
        in_range(b),
        n <= x.len(),
    ensures
        pl_sq_err_sum(x, y, seq![0int, w1], b, n) == sl_sq_err_sum(x, y, w1, b, n),
        pl_gw_sum(x, y, seq![0int, w1], b, 1, n) == sl_gw_sum(x, y, w1, b, n),
        pl_gb_sum(x, y, seq![0int, w1], b, n) == sl_gb_sum(x, y, w1, b, n),
    decreases n,
{
    if n > 0 {
        lemma_pl1_sums(x, y, w1, b, n - 1);
        assert(in_range(x[n - 1] as int));
        lemma_pl1_predict(x[n - 1] as int, w1, b);
        lemma_fx_mul_one(x[n - 1] as int);
        assert(fx_pow(x[n - 1] as int, 1) == fx_mul(fx_pow(x[n - 1] as int, 0), x[n - 1] as int));
        assert(fx_pow(x[n - 1] as int, 1) == x[n - 1] as int);
    }
}

/// With weights `[0, w1]`, a polynomial descent run behaves exactly like the
/// simple-linear run started at `(w1, b0)`: the constant-term weight stays
/// zero, and the slope and bias follow the simple-linear iterates value for
/// value. In particular a degree-1 polynomial fit is the simple-linear fit.
pub proof fn lemma_poly_degree_one_matches_simple(
    x: Seq<i128>,
    y: Seq<i128>,
    w1: int,
    b0: int,
    alpha: int,
    k: nat,
)
    requires
        seq_in_range(x),
        x.len() == y.len(),
        x.len() >= 1,
        in_range(w1),
        in_range(b0),
    ensures
        pl_state(x, y, seq![0int, w1], b0, alpha, k).0 == seq![
            0int,
            sl_state(x, y, w1, b0, alpha, k).0,
        ],
        pl_state(x, y, seq![0int, w1], b0, alpha, k).1 == sl_state(x, y, w1, b0, alpha, k).1,
    decreases k,
{
    let w = seq![0int, w1];
    if k == 0 {
        assert(pl_state(x, y, w, b0, alpha, 0).0 =~= seq![0int, w1]);
    } else {
        lemma_poly_degree_one_matches_simple(x, y, w1, b0, alpha, (k - 1) as nat);
        lemma_sl_state_in_range(x, y, w1, b0, alpha, (k - 1) as nat);
        let sw = sl_state(x, y, w1, b0, alpha, (k - 1) as nat).0;
        let sb = sl_state(x, y, w1, b0, alpha, (k - 1) as nat).1;
        let pw = seq![0int, sw];
        lemma_pl1_sums(x, y, sw, sb, x.len() as int);
        assert(pl_grad_w(x, y, pw, sb)[1] == sl_grad_w(x, y, sw, sb));
        assert(pl_grad_w(x, y, pw, sb)[0] == 0);
        assert(pl_grad_b(x, y, pw, sb) == sl_grad_b(x, y, sw, sb));
        lemma_fx_mul_zero(alpha);
        assert(pl_step_w(x, y, alpha, pw, sb)[0] == fx_sub(0, 0));
        assert(pl_step_w(x, y, alpha, pw, sb)[1] == sl_step_w(x, y, alpha, sw, sb));
        assert(pl_step_w(x, y, alpha, pw, sb) =~= seq![0int, sl_step_w(x, y, alpha, sw, sb)]);
        assert(pl_step_b(x, y, alpha, pw, sb) == sl_step_b(x, y, alpha, sw, sb));
        assert(pl_state(x, y, w, b0, alpha, k).0 == pl_step_w(x, y, alpha, pw, sb));
        assert(sl_state(x, y, w1, b0, alpha, k).0 == sl_step_w(x, y, alpha, sw, sb));
    }
}

} // verus!
