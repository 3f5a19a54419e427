//! Multiplication of canonical polynomials is associative.
use vstd::prelude::*;
use crate::algebra::{
    lemma_mul_wf, monomial_times, mul_prefix, polynomial_mul, single, times_prefix,
};
use crate::coefficient::{coefficient, lemma_canonical_unique, part};
use crate::exponent::lemma_shape_mul_associative;
use crate::model::{polynomial_wf, shape_wf, term_wf, MonomialView, PolynomialView, Shape};
use crate::products::{
    lemma_mul_coefficient, lemma_mul_sum_add_left, lemma_mul_sum_single, lemma_times_sum_add_from,
    mul_sum_from, times_sum_from,
};
use crate::shape::monomial_mul;

verus! {

/// The product of monomials with canonical power vectors is associative.
pub proof fn lemma_monomial_mul_associative(x: MonomialView, y: MonomialView, z: MonomialView)
    requires
        shape_wf(x.powers),
        shape_wf(y.powers),
        shape_wf(z.powers),
    ensures
        monomial_mul(monomial_mul(x, y), z) == monomial_mul(x, monomial_mul(y, z)),
{
    lemma_shape_mul_associative(x.powers, y.powers, z.powers);
    assert((x.coefficient * y.coefficient) * z.coefficient == x.coefficient * (y.coefficient
        * z.coefficient)) by (nonlinear_arith);
}

/// The sum over the terms `t` of `b` from index `j` on and all terms `u` of
/// `c` of what `(m * t) * u` adds to the coefficient of `s`.
spec fn left_sum_from(m: MonomialView, b: PolynomialView, c: PolynomialView, s: Shape, j: int) -> int
    decreases b.len() - j,
{
    if j < 0 || j >= b.len() {
        0
    } else {
        times_sum_from(monomial_mul(m, b[j]), c, s, 0) + left_sum_from(m, b, c, s, j + 1)
    }
}

/// The sum over the terms `u` of `c` from index `k` on of what
/// `m * (t * u)` adds to the coefficient of `s`.
spec fn right_terms_from(m: MonomialView, t: MonomialView, c: PolynomialView, s: Shape, k: int) -> int
    decreases c.len() - k,
{
    if k < 0 || k >= c.len() {
        0
    } else {
        part(monomial_mul(m, monomial_mul(t, c[k])), s) + right_terms_from(m, t, c, s, k + 1)
    }
}

/// The sum over the terms `t` of `b` from index `j` on and all terms `u` of
/// `c` of what `m * (t * u)` adds to the coefficient of `s`.
spec fn right_sum_from(m: MonomialView, b: PolynomialView, c: PolynomialView, s: Shape, j: int) -> int
    decreases b.len() - j,
{
    if j < 0 || j >= b.len() {
        0
    } else {
        right_terms_from(m, b[j], c, s, 0) + right_sum_from(m, b, c, s, j + 1)
    }
}

/// The sum over the terms `m` of `a` from index `i` on of their left sums.
spec fn left_total_from(a: PolynomialView, b: PolynomialView, c: PolynomialView, s: Shape, i: int) -> int
    decreases a.len() - i,
{
    if i < 0 || i >= a.len() {
        0
    } else {
        left_sum_from(a[i], b, c, s, 0) + left_total_from(a, b, c, s, i + 1)
    }
}

proof fn lemma_left_times(m: MonomialView, b: PolynomialView, c: PolynomialView, s: Shape, n: int)
    requires
        0 <= n <= b.len(),
    ensures
        mul_sum_from(times_prefix(m, b, n), c, s, 0) + left_sum_from(m, b, c, s, n)
            == left_sum_from(m, b, c, s, 0),
    decreases n,
{
    if n > 0 {
        lemma_left_times(m, b, c, s, n - 1);
        let t = monomial_mul(m, b[n - 1]);
        lemma_mul_sum_add_left(times_prefix(m, b, n - 1), single(t), c, 0, 0, s);
        lemma_mul_sum_single(t, c, s);
    }
}

proof fn lemma_left_total(a: PolynomialView, b: PolynomialView, c: PolynomialView, s: Shape, n: int)
    requires
        0 <= n <= a.len(),
    ensures
        mul_sum_from(mul_prefix(a, b, n), c, s, 0) + left_total_from(a, b, c, s, n)
            == left_total_from(a, b, c, s, 0),
    decreases n,
{
    if n > 0 {
        lemma_left_total(a, b, c, s, n - 1);
        lemma_mul_sum_add_left(mul_prefix(a, b, n - 1), monomial_times(a[n - 1], b), c, 0, 0, s);
        lemma_left_times(a[n - 1], b, c, s, b.len() as int);
    }
}

proof fn lemma_right_terms(m: MonomialView, t: MonomialView, c: PolynomialView, s: Shape, n: int)
    requires
        0 <= n <= c.len(),
    ensures
        times_sum_from(m, times_prefix(t, c, n), s, 0) + right_terms_from(m, t, c, s, n)
            == right_terms_from(m, t, c, s, 0),
    decreases n,
{
    if n > 0 {
        lemma_right_terms(m, t, c, s, n - 1);
        let u = monomial_mul(t, c[n - 1]);
        lemma_times_sum_add_from(m, times_prefix(t, c, n - 1), single(u), 0, 0, s);
        if u.coefficient == 0 {
            assert(m.coefficient * u.coefficient == 0) by (nonlinear_arith)
                requires
                    u.coefficient == 0,
            ;
        } else {
            assert(times_sum_from(m, single(u), s, 1) == 0);
        }
    }
}

proof fn lemma_right_sum(m: MonomialView, b: PolynomialView, c: PolynomialView, s: Shape, n: int)
    requires
        0 <= n <= b.len(),
    ensures
        times_sum_from(m, mul_prefix(b, c, n), s, 0) + right_sum_from(m, b, c, s, n)
            == right_sum_from(m, b, c, s, 0),
    decreases n,
{
    if n > 0 {
        lemma_right_sum(m, b, c, s, n - 1);
        lemma_times_sum_add_from(m, mul_prefix(b, c, n - 1), monomial_times(b[n - 1], c), 0, 0, s);
        lemma_right_terms(m, b[n - 1], c, s, c.len() as int);
    }
}

proof fn lemma_sides_terms(m: MonomialView, t: MonomialView, c: PolynomialView, s: Shape, k: int)
    requires
        shape_wf(m.powers),
        shape_wf(t.powers),
        polynomial_wf(c),
        0 <= k <= c.len(),
    ensures
        times_sum_from(monomial_mul(m, t), c, s, k) == right_terms_from(m, t, c, s, k),
    decreases c.len() - k,
{
    if k < c.len() {
        lemma_sides_terms(m, t, c, s, k + 1);
        assert(term_wf(c[k]));
        lemma_monomial_mul_associative(m, t, c[k]);
    }
}

proof fn lemma_sides_sum(m: MonomialView, b: PolynomialView, c: PolynomialView, s: Shape, j: int)
    requires
        shape_wf(m.powers),
        polynomial_wf(b),
        polynomial_wf(c),
        0 <= j <= b.len(),
    ensures
        left_sum_from(m, b, c, s, j) == right_sum_from(m, b, c, s, j),
    decreases b.len() - j,
{
    if j < b.len() {
        lemma_sides_sum(m, b, c, s, j + 1);
        assert(term_wf(b[j]));
        lemma_sides_terms(m, b[j], c, s, 0);
    }
}

proof fn lemma_sides_total(a: PolynomialView, b: PolynomialView, c: PolynomialView, s: Shape, i: int)
    requires
        polynomial_wf(a),
        polynomial_wf(b),
        polynomial_wf(c),
        0 <= i <= a.len(),
    ensures
        left_total_from(a, b, c, s, i) == mul_sum_from(a, polynomial_mul(b, c), s, i),
    decreases a.len() - i,
{
    if i < a.len() {
        lemma_sides_total(a, b, c, s, i + 1);
        assert(term_wf(a[i]));
        lemma_sides_sum(a[i], b, c, s, 0);
        lemma_right_sum(a[i], b, c, s, b.len() as int);
    }
}

/// Multiplication is associative: `(a * b) * c == a * (b * c)`.
pub proof fn lemma_mul_associative(a: PolynomialView, b: PolynomialView, c: PolynomialView)
    requires
        polynomial_wf(a),
        polynomial_wf(b),
        polynomial_wf(c),
    ensures
        polynomial_mul(polynomial_mul(a, b), c) == polynomial_mul(a, polynomial_mul(b, c)),
{
    let x = polynomial_mul(polynomial_mul(a, b), c);
    let y = polynomial_mul(a, polynomial_mul(b, c));
    lemma_mul_wf(a, b);
    lemma_mul_wf(polynomial_mul(a, b), c);
    lemma_mul_wf(b, c);
    lemma_mul_wf(a, polynomial_mul(b, c));
    assert forall|s: Shape| coefficient(x, s) == coefficient(y, s) by {
        lemma_mul_coefficient(polynomial_mul(a, b), c, s);
        lemma_left_total(a, b, c, s, a.len() as int);
        lemma_sides_total(a, b, c, s, 0);
        lemma_mul_coefficient(a, polynomial_mul(b, c), s);
    }
    lemma_canonical_unique(x, y);
}

} // verus!
