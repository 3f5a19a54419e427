//! The coefficients of products: a product gives a power vector the sum of
//! the products of coefficients over all pairs of terms whose power vectors
//! multiply to it.
use vstd::prelude::*;
use crate::algebra::{
    add_from, monomial_times, mul_prefix, polynomial_add, polynomial_mul, single, times_prefix,
};
use crate::coefficient::{coefficient, lemma_coefficient_add, lemma_coefficient_single, part};
use crate::model::{shape_order, MonomialView, PolynomialView, Shape};
use crate::order::lemma_shape_order_zero;
use crate::shape::monomial_mul;

verus! {

/// The sum over the terms `t` of `x` from index `j` on of what `m * t` adds
/// to the coefficient of `s`.
pub open spec fn times_sum_from(m: MonomialView, x: PolynomialView, s: Shape, j: int) -> int
    decreases x.len() - j,
{
    if j < 0 || j >= x.len() {
        0
    } else {
        part(monomial_mul(m, x[j]), s) + times_sum_from(m, x, s, j + 1)
    }
}

/// The sum over the terms `m` of `a` from index `i` on and all terms `t` of
/// `x` of what `m * t` adds to the coefficient of `s`.
pub open spec fn mul_sum_from(a: PolynomialView, x: PolynomialView, s: Shape, i: int) -> int
    decreases a.len() - i,
{
    if i < 0 || i >= a.len() {
        0
    } else {
        times_sum_from(a[i], x, s, 0) + mul_sum_from(a, x, s, i + 1)
    }
}

proof fn lemma_times_prefix_coefficient(m: MonomialView, x: PolynomialView, s: Shape, k: int)
    requires
        0 <= k <= x.len(),
    ensures
        coefficient(times_prefix(m, x, k), s) + times_sum_from(m, x, s, k) == times_sum_from(
            m,
            x,
            s,
            0,
        ),
    decreases k,
{
    if k > 0 {
        lemma_times_prefix_coefficient(m, x, s, k - 1);
        lemma_coefficient_add(times_prefix(m, x, k - 1), single(monomial_mul(m, x[k - 1])), s);
        lemma_coefficient_single(monomial_mul(m, x[k - 1]), s);
    }
}

/// The product of a monomial and a polynomial gives a power vector the sum
/// of the coefficients of the products of the monomial and each term that
/// have this power vector.
pub proof fn lemma_times_coefficient(m: MonomialView, x: PolynomialView, s: Shape)
    ensures
        coefficient(monomial_times(m, x), s) == times_sum_from(m, x, s, 0),
{
    lemma_times_prefix_coefficient(m, x, s, x.len() as int);
}

proof fn lemma_mul_prefix_coefficient(a: PolynomialView, x: PolynomialView, s: Shape, n: int)
    requires
        0 <= n <= a.len(),
    ensures
        coefficient(mul_prefix(a, x, n), s) + mul_sum_from(a, x, s, n) == mul_sum_from(a, x, s, 0),
    decreases n,
{
    if n > 0 {
        lemma_mul_prefix_coefficient(a, x, s, n - 1);
        lemma_coefficient_add(mul_prefix(a, x, n - 1), monomial_times(a[n - 1], x), s);
        lemma_times_coefficient(a[n - 1], x, s);
    }
}

/// The product of two polynomials gives a power vector the sum of the
/// coefficients of the products of all pairs of terms that have this power
/// vector.
pub proof fn lemma_mul_coefficient(a: PolynomialView, x: PolynomialView, s: Shape)
    ensures
        coefficient(polynomial_mul(a, x), s) == mul_sum_from(a, x, s, 0),
{
    lemma_mul_prefix_coefficient(a, x, s, a.len() as int);
}

proof fn lemma_times_sum_shift(
    m: MonomialView,
    h: MonomialView,
    rest: PolynomialView,
    s: Shape,
    k: int,
)
    requires
        0 <= k <= rest.len(),
    ensures
        times_sum_from(m, seq![h] + rest, s, k + 1) == times_sum_from(m, rest, s, k),
    decreases rest.len() - k,
{
    let p = seq![h] + rest;
    if k < rest.len() {
        lemma_times_sum_shift(m, h, rest, s, k + 1);
        assert(p[k + 1] == rest[k]);
    }
}

proof fn lemma_mul_sum_shift(
    h: MonomialView,
    rest: PolynomialView,
    x: PolynomialView,
    s: Shape,
    k: int,
)
    requires
        0 <= k <= rest.len(),
    ensures
        mul_sum_from(seq![h] + rest, x, s, k + 1) == mul_sum_from(rest, x, s, k),
    decreases rest.len() - k,
{
    let p = seq![h] + rest;
    if k < rest.len() {
        lemma_mul_sum_shift(h, rest, x, s, k + 1);
        assert(p[k + 1] == rest[k]);
    }
}

/// The product with a monomial is additive in the coefficient of the
/// monomial.
pub proof fn lemma_times_sum_linear(
    m1: MonomialView,
    m2: MonomialView,
    x: PolynomialView,
    s: Shape,
    j: int,
)
    requires
        0 <= j <= x.len(),
        m1.powers == m2.powers,
    ensures
        times_sum_from(
            MonomialView { coefficient: m1.coefficient + m2.coefficient, powers: m1.powers },
            x,
            s,
            j,
        ) == times_sum_from(m1, x, s, j) + times_sum_from(m2, x, s, j),
    decreases x.len() - j,
{
    if j < x.len() {
        lemma_times_sum_linear(m1, m2, x, s, j + 1);
        let c = x[j].coefficient;
        assert((m1.coefficient + m2.coefficient) * c == m1.coefficient * c + m2.coefficient * c)
            by (nonlinear_arith);
    }
}

/// The product with a monomial whose coefficient is zero gives every power
/// vector zero.
pub proof fn lemma_times_sum_zero(m: MonomialView, x: PolynomialView, s: Shape, j: int)
    requires
        0 <= j <= x.len(),
        m.coefficient == 0,
    ensures
        times_sum_from(m, x, s, j) == 0,
    decreases x.len() - j,
{
    if j < x.len() {
        lemma_times_sum_zero(m, x, s, j + 1);
        assert(m.coefficient * x[j].coefficient == 0) by (nonlinear_arith)
            requires
                m.coefficient == 0,
        ;
    }
}

/// The product of a monomial and a sum is the sum of the products, power
/// vector by power vector.
pub proof fn lemma_times_sum_add_from(
    m: MonomialView,
    b: PolynomialView,
    c: PolynomialView,
    i: int,
    j: int,
    s: Shape,
)
    requires
        0 <= i <= b.len(),
        0 <= j <= c.len(),
    ensures
        times_sum_from(m, add_from(b, c, i, j), s, 0) == times_sum_from(m, b, s, i)
            + times_sum_from(m, c, s, j),
    decreases b.len() - i + c.len() - j,
{
    let r = add_from(b, c, i, j);
    if i >= b.len() && j >= c.len() {
    } else {
        let in_b = i < b.len() && (j >= c.len() || shape_order(b[i].powers, c[j].powers) >= 0);
        let in_c = j < c.len() && (i >= b.len() || shape_order(b[i].powers, c[j].powers) <= 0);
        let i2 = if in_b {
            i + 1
        } else {
            i
        };
        let j2 = if in_c {
            j + 1
        } else {
            j
        };
        let rest = add_from(b, c, i2, j2);
        lemma_times_sum_add_from(m, b, c, i2, j2, s);
        if in_b && in_c {
            lemma_shape_order_zero(b[i].powers, c[j].powers);
            let x = b[i].coefficient;
            let y = c[j].coefficient;
            assert(m.coefficient * (x + y) == m.coefficient * x + m.coefficient * y)
                by (nonlinear_arith);
            assert(monomial_mul(m, c[j]).powers == monomial_mul(m, b[i]).powers);
            if x + y == 0 {
                assert(m.coefficient * x + m.coefficient * y == 0) by (nonlinear_arith)
                    requires
                        x + y == 0,
                ;
                assert(r == rest);
            } else {
                let merged = MonomialView { coefficient: x + y, powers: b[i].powers };
                assert(r[0] == merged);
                assert(monomial_mul(m, merged).powers == monomial_mul(m, b[i]).powers);
                assert(monomial_mul(m, merged).coefficient == m.coefficient * (x + y));
            }
        }
        if r.len() != rest.len() {
            assert(r =~= seq![r[0]] + rest);
            lemma_times_sum_shift(m, r[0], rest, s, 0);
            assert(times_sum_from(m, r, s, 0) == part(monomial_mul(m, r[0]), s) + times_sum_from(
                m,
                rest,
                s,
                0,
            ));
        }
    }
}

/// The product of a polynomial and a sum is the sum of the products, power
/// vector by power vector.
pub proof fn lemma_mul_sum_add_right(
    a: PolynomialView,
    b: PolynomialView,
    c: PolynomialView,
    s: Shape,
    i: int,
)
    requires
        0 <= i <= a.len(),
    ensures
        mul_sum_from(a, polynomial_add(b, c), s, i) == mul_sum_from(a, b, s, i) + mul_sum_from(
            a,
            c,
            s,
            i,
        ),
    decreases a.len() - i,
{
    if i < a.len() {
        lemma_mul_sum_add_right(a, b, c, s, i + 1);
        lemma_times_sum_add_from(a[i], b, c, 0, 0, s);
    }
}

/// The product of a sum and a polynomial is the sum of the products, power
/// vector by power vector.
pub proof fn lemma_mul_sum_add_left(
    x: PolynomialView,
    y: PolynomialView,
    b: PolynomialView,
    i: int,
    j: int,
    s: Shape,
)
    requires
        0 <= i <= x.len(),
        0 <= j <= y.len(),
    ensures
        mul_sum_from(add_from(x, y, i, j), b, s, 0) == mul_sum_from(x, b, s, i) + mul_sum_from(
            y,
            b,
            s,
            j,
        ),
    decreases x.len() - i + y.len() - j,
{
    let r = add_from(x, y, i, j);
    if i >= x.len() && j >= y.len() {
    } else {
        let in_x = i < x.len() && (j >= y.len() || shape_order(x[i].powers, y[j].powers) >= 0);
        let in_y = j < y.len() && (i >= x.len() || shape_order(x[i].powers, y[j].powers) <= 0);
        let i2 = if in_x {
            i + 1
        } else {
            i
        };
        let j2 = if in_y {
            j + 1
        } else {
            j
        };
        let rest = add_from(x, y, i2, j2);
        lemma_mul_sum_add_left(x, y, b, i2, j2, s);
        if in_x && in_y {
            lemma_shape_order_zero(x[i].powers, y[j].powers);
            lemma_times_sum_linear(x[i], y[j], b, s, 0);
            let merged = MonomialView {
                coefficient: x[i].coefficient + y[j].coefficient,
                powers: x[i].powers,
            };
            if merged.coefficient == 0 {
                lemma_times_sum_zero(merged, b, s, 0);
            }
        }
        if r.len() != rest.len() {
            assert(r =~= seq![r[0]] + rest);
            lemma_mul_sum_shift(r[0], rest, b, s, 0);
        }
    }
}

/// The product of a polynomial of at most one term and a polynomial.
pub proof fn lemma_mul_sum_single(t: MonomialView, b: PolynomialView, s: Shape)
    ensures
        mul_sum_from(single(t), b, s, 0) == times_sum_from(t, b, s, 0),
{
    if t.coefficient == 0 {
        lemma_times_sum_zero(t, b, s, 0);
    } else {
        assert(mul_sum_from(single(t), b, s, 1) == 0);
    }
}

/// The sum over the terms `m` of `a` from index `i` on of what `m * t` adds
/// to the coefficient of `s`.
pub open spec fn times_sum_left_from(a: PolynomialView, t: MonomialView, s: Shape, i: int) -> int
    decreases a.len() - i,
{
    if i < 0 || i >= a.len() {
        0
    } else {
        part(monomial_mul(a[i], t), s) + times_sum_left_from(a, t, s, i + 1)
    }
}

/// The sum over the terms `t` of `b` from index `j` on and the terms `m` of
/// `a` from index `i` on of what `m * t` adds to the coefficient of `s`,
/// taken term of `b` by term of `b`.
pub open spec fn mul_sum_swapped(a: PolynomialView, b: PolynomialView, s: Shape, i: int, j: int) -> int
    decreases b.len() - j,
{
    if j < 0 || j >= b.len() {
        0
    } else {
        times_sum_left_from(a, b[j], s, i) + mul_sum_swapped(a, b, s, i, j + 1)
    }
}

proof fn lemma_mul_sum_swapped_step(
    a: PolynomialView,
    b: PolynomialView,
    s: Shape,
    i: int,
    j: int,
)
    requires
        0 <= i < a.len(),
        0 <= j <= b.len(),
    ensures
        mul_sum_swapped(a, b, s, i, j) == times_sum_from(a[i], b, s, j) + mul_sum_swapped(
            a,
            b,
            s,
            i + 1,
            j,
        ),
    decreases b.len() - j,
{
    if j < b.len() {
        lemma_mul_sum_swapped_step(a, b, s, i, j + 1);
    }
}

proof fn lemma_mul_sum_swapped_end(a: PolynomialView, b: PolynomialView, s: Shape, j: int)
    requires
        0 <= j <= b.len(),
    ensures
        mul_sum_swapped(a, b, s, a.len() as int, j) == 0,
    decreases b.len() - j,
{
    if j < b.len() {
        lemma_mul_sum_swapped_end(a, b, s, j + 1);
    }
}

/// The sum over all pairs of terms can be taken term of `a` by term of `a`
/// or term of `b` by term of `b`.
pub proof fn lemma_mul_sum_swap(a: PolynomialView, b: PolynomialView, s: Shape, i: int)
    requires
        0 <= i <= a.len(),
    ensures
        mul_sum_from(a, b, s, i) == mul_sum_swapped(a, b, s, i, 0),
    decreases a.len() - i,
{
    if i < a.len() {
        lemma_mul_sum_swap(a, b, s, i + 1);
        lemma_mul_sum_swapped_step(a, b, s, i, 0);
    } else {
        lemma_mul_sum_swapped_end(a, b, s, 0);
    }
}

} // verus!
