//! The scalar number model: exact fixed-point arithmetic on `i128`.
//!
//! A value `v: i128` stands for the real number `v / SCALE`. Operations
//! truncate toward zero where a division rounds, and saturate at `±BOUND`,
//! so every operation is total and its result is pinned down exactly by the
//! spec functions below. Divergent descent runs peg at the bound instead of
//! overflowing.

use vstd::arithmetic::div_mod::{
    lemma_basic_div, lemma_div_multiples_vanish, lemma_div_nonincreasing, lemma_div_pos_is_pos,
    lemma_fundamental_div_mod, lemma_mod_division_less_than_divisor,
};
use vstd::prelude::*;

verus! {

/// Scaling factor: one real unit is `SCALE` fixed-point units.
pub const SCALE: i128 = 1_000_000_000;

/// Largest representable magnitude; operations saturate here. `BOUND * BOUND`
/// still fits an `i128`, so products never overflow before saturation.
pub const BOUND: i128 = 1_000_000_000_000_000_000;

/// A value the arithmetic can hold.
pub open spec fn in_range(v: int) -> bool {
    -(BOUND as int) <= v <= BOUND as int
}

/// Every element of the sequence is representable.
pub open spec fn seq_in_range(s: Seq<i128>) -> bool {
    forall|i: int| 0 <= i < s.len() ==> in_range(#[trigger] s[i] as int)
}

/// The mathematical integers a sequence of stored values stands for.
pub open spec fn ints_of(s: Seq<i128>) -> Seq<int> {
    Seq::new(s.len(), |i: int| s[i] as int)
}

/// Saturation to the representable range.
pub open spec fn sat(v: int) -> int {
    if v < -(BOUND as int) {
        -(BOUND as int)
    } else if v > BOUND as int {
        BOUND as int
    } else {
        v
    }
}

/// Division truncating toward zero (the machine's signed division), for a
/// positive divisor, written with Euclidean division on magnitudes.
pub open spec fn tdiv(a: int, d: int) -> int
    recommends
        d >= 1,
{
    if a >= 0 {
        a / d
    } else {
        -((-a) / d)
    }
}

/// Fixed-point addition.
pub open spec fn fx_add(a: int, b: int) -> int {
    sat(a + b)
}

/// Fixed-point subtraction.
pub open spec fn fx_sub(a: int, b: int) -> int {
    sat(a - b)
}

/// Fixed-point multiplication: the exact product rescaled, truncated, saturated.
pub open spec fn fx_mul(a: int, b: int) -> int {
    sat(tdiv(a * b, SCALE as int))
}

/// Division of a fixed-point value by an unscaled positive count (used for
/// the mean over `m` examples); never leaves the range.
pub open spec fn fx_div_count(a: int, d: int) -> int
    recommends
        d >= 1,
{
    tdiv(a, d)
}

/// Truncating division stays between zero and its dividend.
pub proof fn lemma_tdiv_bound(a: int, d: int)
    requires
        d >= 1,
    ensures
        a >= 0 ==> 0 <= tdiv(a, d) <= a,
        a < 0 ==> a <= tdiv(a, d) <= 0,
{
    if a >= 0 {
        lemma_div_pos_is_pos(a, d);
        lemma_div_nonincreasing(a, d);
    } else {
        lemma_div_pos_is_pos(-a, d);
        lemma_div_nonincreasing(-a, d);
    }
}

/// Dividing an exact multiple recovers the factor.
pub proof fn lemma_tdiv_exact(n: int, d: int)
    requires
        d >= 1,
    ensures
        tdiv(n * d, d) == n,
{
    if n >= 0 {
        lemma_div_multiples_vanish(n, d);
        assert(n * d == d * n) by (nonlinear_arith);
        assert(n * d >= 0) by (nonlinear_arith)
            requires
                n >= 0,
                d >= 1,
        ;
    } else {
        lemma_div_multiples_vanish(-n, d);
        assert(-(n * d) == d * (-n)) by (nonlinear_arith);
        assert(n * d < 0) by (nonlinear_arith)
            requires
                n < 0,
                d >= 1,
        ;
        assert(tdiv(n * d, d) == -((-(n * d)) / d));
        assert((-(n * d)) / d == -n);
    }
}

/// A quotient of zero means the dividend was below the divisor.
pub proof fn lemma_tdiv_zero_bound(a: int, d: int)
    requires
        d >= 1,
        a >= 0,
        tdiv(a, d) == 0,
    ensures
        a < d,
{
    lemma_fundamental_div_mod(a, d);
    lemma_mod_division_less_than_divisor(a, d);
}

/// A small nonnegative dividend yields a zero quotient.
pub proof fn lemma_tdiv_small(a: int, d: int)
    requires
        d >= 1,
        0 <= a < d,
    ensures
        tdiv(a, d) == 0,
{
    lemma_basic_div(a, d);
}

/// Multiplying by zero gives zero, on either side.
pub proof fn lemma_fx_mul_zero(a: int)
    ensures
        fx_mul(a, 0) == 0,
        fx_mul(0, a) == 0,
{
    lemma_basic_div(0, SCALE as int);
}

/// Multiplying by one (the scaled unit) returns the other factor unchanged
/// when it is representable.
pub proof fn lemma_fx_mul_one(a: int)
    requires
        in_range(a),
    ensures
        fx_mul(a, SCALE as int) == a,
        fx_mul(SCALE as int, a) == a,
{
    lemma_tdiv_exact(a, SCALE as int);
    assert(a * SCALE == SCALE * a) by (nonlinear_arith);
}

/// The square of an error term is never negative.
pub proof fn lemma_fx_square_nonneg(e: int)
    ensures
        0 <= fx_mul(e, e),
{
    assert(e * e >= 0) by (nonlinear_arith);
    lemma_tdiv_bound(e * e, SCALE as int);
}

/// Saturating addition: exact when in range, `r == fx_add(a, b)` always.
pub fn add_fx(a: i128, b: i128) -> (r: i128)
    requires
        in_range(a as int),
        in_range(b as int),
    ensures
        r as int == fx_add(a as int, b as int),
        in_range(r as int),
{
    let s: i128 = a + b;
    if s < -BOUND {
        -BOUND
    } else if s > BOUND {
        BOUND
    } else {
        s
    }
}

/// Saturating subtraction.
pub fn sub_fx(a: i128, b: i128) -> (r: i128)
    requires
        in_range(a as int),
        in_range(b as int),
    ensures
        r as int == fx_sub(a as int, b as int),
        in_range(r as int),
{
    let s: i128 = a - b;
    if s < -BOUND {
        -BOUND
    } else if s > BOUND {
        BOUND
    } else {
        s
    }
}

/// Fixed-point multiplication: rescaled exact product, truncated, saturated.
pub fn mul_fx(a: i128, b: i128) -> (r: i128)
    requires
        in_range(a as int),
        in_range(b as int),
    ensures
        r as int == fx_mul(a as int, b as int),
        in_range(r as int),
{
    proof {
        assert(-(BOUND as int) * (BOUND as int) <= a as int * b as int <= (BOUND as int) * (
        BOUND as int)) by (nonlinear_arith)
            requires
                in_range(a as int),
                in_range(b as int),
        ;
    }
    let p: i128 = a * b;
    proof {
        lemma_tdiv_bound(p as int, SCALE as int);
    }
    let q: i128 = if p >= 0 {
        p / SCALE
    } else {
        -((-p) / SCALE)
    };
    if q < -BOUND {
        -BOUND
    } else if q > BOUND {
        BOUND
    } else {
        q
    }
}

/// Division by a positive unscaled count, truncating toward zero.
pub fn div_count_fx(a: i128, d: i128) -> (r: i128)
    requires
        in_range(a as int),
        d >= 1,
    ensures
        r as int == fx_div_count(a as int, d as int),
        in_range(r as int),
{
    proof {
        lemma_tdiv_bound(a as int, d as int);
    }
    if a >= 0 {
        a / d
    } else {
        -((-a) / d)
    }
}

} // verus!
