//! The integer that an expression stands for under an assignment of
//! integers to all identifiers, and the fact that the arithmetic on
//! polynomials is the arithmetic on these integers.
use vstd::arithmetic::power::{lemma_pow_adds, pow};
use vstd::prelude::*;
use crate::algebra::{
    add_from, monomial_times, mul_prefix, polynomial_add, polynomial_mul, polynomial_neg,
    polynomial_sub, single, times_prefix,
};
use crate::eval::{
    composite_eval, monomial_eval, polynomial_eval, polynomial_eval_from, powers_eval_from,
};
use crate::model::{
    composite_order, shape_order, CompositeView, MonomialView, PolynomialView, Shape,
};
use crate::numeric::{ceil_div, floor_div};
use crate::order::{lemma_composite_order_zero, lemma_shape_order_zero};
use crate::shape::{monomial_mul, shape_mul_from};

verus! {

/// The value of a binary factor whose operands have the values `l` and
/// `r`.
pub open spec fn operate(c: CompositeView, l: int, r: int) -> int {
    match c {
        CompositeView::Variable(_) => l,
        CompositeView::Floor(_, _) => floor_div(l, r),
        CompositeView::Ceil(_, _) => ceil_div(l, r),
        CompositeView::Min(_, _) => if l < r {
            l
        } else {
            r
        },
        CompositeView::Max(_, _) => if l > r {
            l
        } else {
            r
        },
    }
}

/// The integer that a factor stands for.
pub open spec fn composite_value(c: CompositeView, env: spec_fn(u16) -> int) -> int
    decreases c, 0nat, 0nat,
{
    match c {
        CompositeView::Variable(id) => env(id),
        CompositeView::Floor(l, r)
        | CompositeView::Ceil(l, r)
        | CompositeView::Min(l, r)
        | CompositeView::Max(l, r) => operate(
            c,
            polynomial_value_from(l, env, 0),
            polynomial_value_from(r, env, 0),
        ),
    }
}

/// The product of the powers of the factors of a power vector from index
/// `i` on.
pub open spec fn shape_value_from(s: Shape, env: spec_fn(u16) -> int, i: int) -> int
    decreases s, s.len() - i, 0nat,
{
    if i < 0 || i >= s.len() {
        1
    } else {
        pow(composite_value(s[i].0, env), s[i].1) * shape_value_from(s, env, i + 1)
    }
}

/// The integer that a monomial stands for.
pub open spec fn monomial_value(m: MonomialView, env: spec_fn(u16) -> int) -> int
    decreases m, 0nat, 1nat,
{
    m.coefficient * shape_value_from(m.powers, env, 0)
}

/// The sum of the integers that the terms of a polynomial from index `i` on
/// stand for.
pub open spec fn polynomial_value_from(p: PolynomialView, env: spec_fn(u16) -> int, i: int) -> int
    decreases p, p.len() - i, 0nat,
{
    if i < 0 || i >= p.len() {
        0
    } else {
        monomial_value(p[i], env) + polynomial_value_from(p, env, i + 1)
    }
}

/// The integer that a polynomial stands for.
pub open spec fn polynomial_value(p: PolynomialView, env: spec_fn(u16) -> int) -> int {
    polynomial_value_from(p, env, 0)
}

/// The assignment `env` gives every identifier that has a value in `values`
/// that value.
pub open spec fn agrees(env: spec_fn(u16) -> int, values: Map<u16, i64>) -> bool {
    forall|id: u16| values.contains_key(id) ==> #[trigger] env(id) == values[id]
}

proof fn lemma_polynomial_value_shift(
    h: MonomialView,
    rest: PolynomialView,
    env: spec_fn(u16) -> int,
    k: int,
)
    requires
        0 <= k <= rest.len(),
    ensures
        polynomial_value_from(seq![h] + rest, env, k + 1) == polynomial_value_from(rest, env, k),
    decreases rest.len() - k,
{
    let p = seq![h] + rest;
    if k < rest.len() {
        lemma_polynomial_value_shift(h, rest, env, k + 1);
        assert(p[k + 1] == rest[k]);
    }
}

proof fn lemma_polynomial_value_prepend(
    h: MonomialView,
    rest: PolynomialView,
    env: spec_fn(u16) -> int,
)
    ensures
        polynomial_value(seq![h] + rest, env) == monomial_value(h, env) + polynomial_value(
            rest,
            env,
        ),
{
    let p = seq![h] + rest;
    lemma_polynomial_value_shift(h, rest, env, 0);
    assert(p[0] == h);
}

proof fn lemma_shape_value_shift(
    h: (CompositeView, nat),
    rest: Shape,
    env: spec_fn(u16) -> int,
    k: int,
)
    requires
        0 <= k <= rest.len(),
    ensures
        shape_value_from(seq![h] + rest, env, k + 1) == shape_value_from(rest, env, k),
    decreases rest.len() - k,
{
    let s = seq![h] + rest;
    if k < rest.len() {
        lemma_shape_value_shift(h, rest, env, k + 1);
        assert(s[k + 1] == rest[k]);
    }
}

proof fn lemma_shape_value_prepend(h: (CompositeView, nat), rest: Shape, env: spec_fn(u16) -> int)
    ensures
        shape_value_from(seq![h] + rest, env, 0) == pow(composite_value(h.0, env), h.1)
            * shape_value_from(rest, env, 0),
{
    let s = seq![h] + rest;
    lemma_shape_value_shift(h, rest, env, 0);
    assert(s[0] == h);
}

/// The value of a polynomial of at most one term is the value of the term.
pub proof fn lemma_value_single(m: MonomialView, env: spec_fn(u16) -> int)
    ensures
        polynomial_value(single(m), env) == monomial_value(m, env),
{
    let p = single(m);
    if m.coefficient != 0 {
        assert(polynomial_value_from(p, env, 1) == 0);
    } else {
        assert(0 * shape_value_from(m.powers, env, 0) == 0);
    }
}

proof fn lemma_value_add_from(
    a: PolynomialView,
    b: PolynomialView,
    i: int,
    j: int,
    env: spec_fn(u16) -> int,
)
    requires
        0 <= i <= a.len(),
        0 <= j <= b.len(),
    ensures
        polynomial_value(add_from(a, b, i, j), env) == polynomial_value_from(a, env, i)
            + polynomial_value_from(b, env, j),
    decreases a.len() - i + b.len() - j,
{
    let r = add_from(a, b, i, j);
    if i >= a.len() && j >= b.len() {
    } else {
        let in_a = i < a.len() && (j >= b.len() || shape_order(a[i].powers, b[j].powers) >= 0);
        let in_b = j < b.len() && (i >= a.len() || shape_order(a[i].powers, b[j].powers) <= 0);
        let i2 = if in_a {
            i + 1
        } else {
            i
        };
        let j2 = if in_b {
            j + 1
        } else {
            j
        };
        let rest = add_from(a, b, i2, j2);
        lemma_value_add_from(a, b, i2, j2, env);
        if in_a && in_b {
            lemma_shape_order_zero(a[i].powers, b[j].powers);
            let x = a[i].coefficient;
            let y = b[j].coefficient;
            let v = shape_value_from(a[i].powers, env, 0);
            assert((x + y) * v == x * v + y * v) by (nonlinear_arith);
            assert(monomial_value(a[i], env) == x * v);
            assert(monomial_value(b[j], env) == y * v);
            if x + y == 0 {
                assert(r == rest);
                assert((x + y) * v == 0) by (nonlinear_arith)
                    requires
                        x + y == 0,
                ;
            } else {
                let merged = MonomialView { coefficient: x + y, powers: a[i].powers };
                assert(r[0] == merged);
                assert(monomial_value(merged, env) == (x + y) * v);
            }
        }
        if r.len() != rest.len() {
            assert(r =~= seq![r[0]] + rest);
            lemma_polynomial_value_prepend(r[0], rest, env);
        }
        if in_a {
            assert(polynomial_value_from(a, env, i) == monomial_value(a[i], env)
                + polynomial_value_from(a, env, i + 1));
        }
        if in_b {
            assert(polynomial_value_from(b, env, j) == monomial_value(b[j], env)
                + polynomial_value_from(b, env, j + 1));
        }
    }
}

/// The value of a sum is the sum of the values.
pub proof fn lemma_value_add(a: PolynomialView, b: PolynomialView, env: spec_fn(u16) -> int)
    ensures
        polynomial_value(polynomial_add(a, b), env) == polynomial_value(a, env)
            + polynomial_value(b, env),
{
    lemma_value_add_from(a, b, 0, 0, env);
}

proof fn lemma_value_neg_from(a: PolynomialView, env: spec_fn(u16) -> int, i: int)
    requires
        0 <= i <= a.len(),
    ensures
        polynomial_value_from(polynomial_neg(a), env, i) == -polynomial_value_from(a, env, i),
    decreases a.len() - i,
{
    if i < a.len() {
        lemma_value_neg_from(a, env, i + 1);
        let v = shape_value_from(a[i].powers, env, 0);
        assert((-a[i].coefficient) * v == -(a[i].coefficient * v)) by (nonlinear_arith);
        assert(monomial_value(a[i], env) == a[i].coefficient * v);
        assert(monomial_value(polynomial_neg(a)[i], env) == (-a[i].coefficient) * v);
    }
}

/// The value of a negation is the opposite value.
pub proof fn lemma_value_neg(a: PolynomialView, env: spec_fn(u16) -> int)
    ensures
        polynomial_value(polynomial_neg(a), env) == -polynomial_value(a, env),
{
    lemma_value_neg_from(a, env, 0);
}

/// The value of a difference is the difference of the values.
pub proof fn lemma_value_sub(a: PolynomialView, b: PolynomialView, env: spec_fn(u16) -> int)
    ensures
        polynomial_value(polynomial_sub(a, b), env) == polynomial_value(a, env)
            - polynomial_value(b, env),
{
    lemma_value_add(a, polynomial_neg(b), env);
    lemma_value_neg(b, env);
}

proof fn lemma_shape_value_mul_from(x: Shape, y: Shape, i: int, j: int, env: spec_fn(u16) -> int)
    requires
        0 <= i <= x.len(),
        0 <= j <= y.len(),
    ensures
        shape_value_from(shape_mul_from(x, y, i, j), env, 0) == shape_value_from(x, env, i)
            * shape_value_from(y, env, j),
    decreases x.len() - i + y.len() - j,
{
    let r = shape_mul_from(x, y, i, j);
    if i >= x.len() && j >= y.len() {
    } else {
        let in_x = i < x.len() && (j >= y.len() || composite_order(x[i].0, y[j].0) >= 0);
        let in_y = j < y.len() && (i >= x.len() || composite_order(x[i].0, y[j].0) <= 0);
        let i2 = if in_x {
            i + 1
        } else {
            i
        };
        let j2 = if in_y {
            j + 1
        } else {
            j
        };
        let rest = shape_mul_from(x, y, i2, j2);
        lemma_shape_value_mul_from(x, y, i2, j2, env);
        assert(r =~= seq![r[0]] + rest);
        lemma_shape_value_prepend(r[0], rest, env);
        let vx = shape_value_from(x, env, i2);
        let vy = shape_value_from(y, env, j2);
        if in_x && in_y {
            lemma_composite_order_zero(x[i].0, y[j].0);
            let v = composite_value(x[i].0, env);
            lemma_pow_adds(v, x[i].1, y[j].1);
            let px = pow(v, x[i].1);
            let py = pow(v, y[j].1);
            assert((px * py) * (vx * vy) == (px * vx) * (py * vy)) by (nonlinear_arith);
        } else if in_x {
            let px = pow(composite_value(x[i].0, env), x[i].1);
            assert(px * (vx * vy) == (px * vx) * vy) by (nonlinear_arith);
        } else {
            let py = pow(composite_value(y[j].0, env), y[j].1);
            assert(py * (vx * vy) == vx * (py * vy)) by (nonlinear_arith);
        }
    }
}

/// The value of a product of monomials is the product of the values.
pub proof fn lemma_value_monomial_mul(m: MonomialView, t: MonomialView, env: spec_fn(u16) -> int)
    ensures
        monomial_value(monomial_mul(m, t), env) == monomial_value(m, env) * monomial_value(t, env),
{
    lemma_shape_value_mul_from(m.powers, t.powers, 0, 0, env);
    let a = m.coefficient;
    let b = t.coefficient;
    let x = shape_value_from(m.powers, env, 0);
    let y = shape_value_from(t.powers, env, 0);
    assert((a * b) * (x * y) == (a * x) * (b * y)) by (nonlinear_arith);
}

proof fn lemma_value_times_prefix(
    m: MonomialView,
    b: PolynomialView,
    n: int,
    env: spec_fn(u16) -> int,
)
    requires
        0 <= n <= b.len(),
    ensures
        polynomial_value(times_prefix(m, b, n), env) + monomial_value(m, env)
            * polynomial_value_from(b, env, n) == monomial_value(m, env) * polynomial_value(b, env),
    decreases n,
{
    let v = monomial_value(m, env);
    if n > 0 {
        lemma_value_times_prefix(m, b, n - 1, env);
        let t = monomial_mul(m, b[n - 1]);
        lemma_value_add(times_prefix(m, b, n - 1), single(t), env);
        lemma_value_single(t, env);
        lemma_value_monomial_mul(m, b[n - 1], env);
        let x = monomial_value(b[n - 1], env);
        let y = polynomial_value_from(b, env, n);
        assert(v * (x + y) == v * x + v * y) by (nonlinear_arith);
    }
}

/// The value of the product of a monomial and a polynomial is the product
/// of the values.
pub proof fn lemma_value_times(m: MonomialView, b: PolynomialView, env: spec_fn(u16) -> int)
    ensures
        polynomial_value(monomial_times(m, b), env) == monomial_value(m, env) * polynomial_value(
            b,
            env,
        ),
{
    lemma_value_times_prefix(m, b, b.len() as int, env);
    assert(monomial_value(m, env) * 0 == 0);
}

proof fn lemma_value_mul_prefix(
    a: PolynomialView,
    b: PolynomialView,
    n: int,
    env: spec_fn(u16) -> int,
)
    requires
        0 <= n <= a.len(),
    ensures
        polynomial_value(mul_prefix(a, b, n), env) + polynomial_value_from(a, env, n)
            * polynomial_value(b, env) == polynomial_value(a, env) * polynomial_value(b, env),
    decreases n,
{
    let v = polynomial_value(b, env);
    if n > 0 {
        lemma_value_mul_prefix(a, b, n - 1, env);
        lemma_value_add(mul_prefix(a, b, n - 1), monomial_times(a[n - 1], b), env);
        lemma_value_times(a[n - 1], b, env);
        let x = monomial_value(a[n - 1], env);
        let y = polynomial_value_from(a, env, n);
        assert((x + y) * v == x * v + y * v) by (nonlinear_arith);
    }
}

/// The value of a product is the product of the values.
pub proof fn lemma_value_mul(a: PolynomialView, b: PolynomialView, env: spec_fn(u16) -> int)
    ensures
        polynomial_value(polynomial_mul(a, b), env) == polynomial_value(a, env) * polynomial_value(
            b,
            env,
        ),
{
    lemma_value_mul_prefix(a, b, a.len() as int, env);
    assert(0 * polynomial_value(b, env) == 0);
}

/// An evaluation of a factor that succeeds gives the integer that the
/// factor stands for.
pub proof fn lemma_eval_composite(c: CompositeView, values: Map<u16, i64>, env: spec_fn(u16) -> int)
    requires
        agrees(env, values),
        composite_eval(c, values) is Ok,
    ensures
        composite_eval(c, values).unwrap() == composite_value(c, env),
    decreases c, 0nat, 0nat,
{
    match c {
        CompositeView::Variable(_) => {},
        CompositeView::Floor(l, r)
        | CompositeView::Ceil(l, r)
        | CompositeView::Min(l, r)
        | CompositeView::Max(l, r) => {
            lemma_eval_polynomial_from(l, values, env, 0, 0);
            lemma_eval_polynomial_from(r, values, env, 0, 0);
        },
    }
}

proof fn lemma_eval_powers_from(
    s: Shape,
    values: Map<u16, i64>,
    env: spec_fn(u16) -> int,
    i: int,
    acc: int,
)
    requires
        agrees(env, values),
        0 <= i <= s.len(),
        powers_eval_from(s, values, i, acc) is Ok,
    ensures
        powers_eval_from(s, values, i, acc).unwrap() == acc * shape_value_from(s, env, i),
    decreases s, s.len() - i, 0nat,
{
    if i < s.len() {
        lemma_eval_composite(s[i].0, values, env);
        let v = composite_eval(s[i].0, values).unwrap();
        let p = pow(v as int, s[i].1);
        lemma_eval_powers_from(s, values, env, i + 1, acc * p);
        let rest = shape_value_from(s, env, i + 1);
        assert((acc * p) * rest == acc * (p * rest)) by (nonlinear_arith);
    } else {
        assert(acc * 1 == acc);
    }
}

/// An evaluation of a monomial that succeeds gives the integer that the
/// monomial stands for.
pub proof fn lemma_eval_monomial(m: MonomialView, values: Map<u16, i64>, env: spec_fn(u16) -> int)
    requires
        agrees(env, values),
        monomial_eval(m, values) is Ok,
    ensures
        monomial_eval(m, values).unwrap() == monomial_value(m, env),
    decreases m, 0nat, 1nat,
{
    lemma_eval_powers_from(m.powers, values, env, 0, m.coefficient);
}

proof fn lemma_eval_polynomial_from(
    p: PolynomialView,
    values: Map<u16, i64>,
    env: spec_fn(u16) -> int,
    i: int,
    acc: int,
)
    requires
        agrees(env, values),
        0 <= i <= p.len(),
        polynomial_eval_from(p, values, i, acc) is Ok,
    ensures
        polynomial_eval_from(p, values, i, acc).unwrap() == acc + polynomial_value_from(p, env, i),
    decreases p, p.len() - i, 0nat,
{
    if i < p.len() {
        lemma_eval_monomial(p[i], values, env);
        let v = monomial_eval(p[i], values).unwrap();
        lemma_eval_polynomial_from(p, values, env, i + 1, acc + v);
    }
}

/// An evaluation of a polynomial that succeeds gives the integer that the
/// polynomial stands for, under every assignment that agrees with the
/// values.
pub proof fn lemma_eval_polynomial(p: PolynomialView, values: Map<u16, i64>, env: spec_fn(u16) -> int)
    requires
        agrees(env, values),
        polynomial_eval(p, values) is Ok,
    ensures
        polynomial_eval(p, values).unwrap() == polynomial_value(p, env),
{
    lemma_eval_polynomial_from(p, values, env, 0, 0);
}

} // verus!
