//! What holds of every evaluation.
use vstd::arithmetic::power::{lemma_pow1, pow};
use vstd::prelude::*;
use crate::division::{division_in_range, long_division};
use crate::eval::{
    composite_eval, monomial_eval, polynomial_eval, polynomial_eval_from, powers_eval_from,
    EvalError,
};
use crate::functions::{
    both_constant, ceil_model, exact_quotient, factor_polynomial, floor_model, max_model, min_model,
};
use crate::identifiers::{
    composite_identifiers, monomial_identifiers, polynomial_identifiers,
    polynomial_identifiers_from, shape_identifiers_from,
};
use crate::laws::lemma_division_identity;
use crate::model::{polynomial_wf, CompositeView, MonomialView, PolynomialView, Shape};
use crate::numeric::{ceil_div, fits_i64, floor_div, lemma_ceil_div, lemma_floor_div};
use crate::polynomial::{constant_value, polynomial_is_constant};
use crate::semantics::{
    composite_value, lemma_value_add, lemma_value_mul, monomial_value, polynomial_value,
    polynomial_value_from, shape_value_from,
};

verus! {

/// The identifier that an evaluation reports as missing occurs in the
/// factor and has no value; an evaluation that succeeds finds a value for
/// every identifier of the factor.
pub proof fn lemma_missing_composite(c: CompositeView, values: Map<u16, i64>)
    ensures
        composite_eval(c, values) matches Err(EvalError::MissingIdentifier(x))
            ==> composite_identifiers(c).contains(x) && !values.contains_key(x),
        composite_eval(c, values) is Ok ==> composite_identifiers(c).subset_of(values.dom()),
    decreases c, 0nat, 0nat,
{
    match c {
        CompositeView::Variable(_) => {},
        CompositeView::Floor(l, r)
        | CompositeView::Ceil(l, r)
        | CompositeView::Min(l, r)
        | CompositeView::Max(l, r) => {
            lemma_missing_polynomial_from(l, values, 0, 0);
            lemma_missing_polynomial_from(r, values, 0, 0);
        },
    }
}

proof fn lemma_missing_powers_from(s: Shape, values: Map<u16, i64>, i: int, acc: int)
    requires
        0 <= i <= s.len(),
    ensures
        powers_eval_from(s, values, i, acc) matches Err(EvalError::MissingIdentifier(x))
            ==> shape_identifiers_from(s, i).contains(x) && !values.contains_key(x),
        powers_eval_from(s, values, i, acc) is Ok ==> shape_identifiers_from(s, i).subset_of(
            values.dom(),
        ),
    decreases s, s.len() - i, 0nat,
{
    if i < s.len() {
        lemma_missing_composite(s[i].0, values);
        match composite_eval(s[i].0, values) {
            Ok(v) => {
                let p = pow(v as int, s[i].1);
                lemma_missing_powers_from(s, values, i + 1, acc * p);
            },
            Err(_) => {},
        }
    }
}

proof fn lemma_missing_polynomial_from(p: PolynomialView, values: Map<u16, i64>, i: int, acc: int)
    requires
        0 <= i <= p.len(),
    ensures
        polynomial_eval_from(p, values, i, acc) matches Err(EvalError::MissingIdentifier(x))
            ==> polynomial_identifiers_from(p, i).contains(x) && !values.contains_key(x),
        polynomial_eval_from(p, values, i, acc) is Ok ==> polynomial_identifiers_from(
            p,
            i,
        ).subset_of(values.dom()),
    decreases p, p.len() - i, 0nat,
{
    if i < p.len() {
        lemma_missing_monomial(p[i], values);
        match monomial_eval(p[i], values) {
            Ok(v) => {
                lemma_missing_polynomial_from(p, values, i + 1, acc + v);
            },
            Err(_) => {},
        }
    }
}

/// The identifier that an evaluation reports as missing occurs in the
/// monomial and has no value; an evaluation that succeeds finds a value for
/// every identifier of the monomial.
pub proof fn lemma_missing_monomial(m: MonomialView, values: Map<u16, i64>)
    ensures
        monomial_eval(m, values) matches Err(EvalError::MissingIdentifier(x))
            ==> monomial_identifiers(m).contains(x) && !values.contains_key(x),
        monomial_eval(m, values) is Ok ==> monomial_identifiers(m).subset_of(values.dom()),
    decreases m, 0nat, 1nat,
{
    lemma_missing_powers_from(m.powers, values, 0, m.coefficient);
}

/// The identifier that an evaluation reports as missing occurs in the
/// polynomial and has no value. An evaluation that succeeds finds a value
/// for every identifier of the polynomial: with an identifier that has no
/// value the evaluation fails, whatever the other terms are.
pub proof fn lemma_missing_polynomial(p: PolynomialView, values: Map<u16, i64>)
    ensures
        polynomial_eval(p, values) matches Err(EvalError::MissingIdentifier(x))
            ==> polynomial_identifiers(p).contains(x) && !values.contains_key(x),
        polynomial_eval(p, values) is Ok ==> polynomial_identifiers(p).subset_of(values.dom()),
{
    lemma_missing_polynomial_from(p, values, 0, 0);
}

/// The polynomial of one factor evaluates as the factor does.
pub proof fn lemma_eval_factor(c: CompositeView, values: Map<u16, i64>)
    ensures
        polynomial_eval(factor_polynomial(c), values) == composite_eval(c, values),
{
    let p = factor_polynomial(c);
    let s = p[0].powers;
    assert(s[0] == (c, 1nat));
    assert(p[0].coefficient == 1);
    assert(monomial_eval(p[0], values) == powers_eval_from(s, values, 0, 1));
    assert(polynomial_eval(p, values) == polynomial_eval_from(p, values, 0, 0));
    match composite_eval(c, values) {
        Ok(v) => {
            lemma_pow1(v as int);
            assert(1 * pow(v as int, 1) == v);
            assert(powers_eval_from(s, values, 1, v as int) == Ok::<i64, EvalError>(v));
            assert(powers_eval_from(s, values, 0, 1) == Ok::<i64, EvalError>(v));
            assert(polynomial_eval_from(p, values, 1, v as int) == Ok::<i64, EvalError>(v));
            assert(polynomial_eval_from(p, values, 0, 0) == Ok::<i64, EvalError>(v));
        },
        Err(e) => {
            assert(powers_eval_from(s, values, 0, 1) == Err::<i64, EvalError>(e));
            assert(polynomial_eval_from(p, values, 0, 0) == Err::<i64, EvalError>(e));
        },
    }
}

/// A variable without a value evaluates to the failure that names it.
pub proof fn lemma_eval_variable(id: u16, values: Map<u16, i64>)
    ensures
        polynomial_eval(factor_polynomial(CompositeView::Variable(id)), values) == (
        if values.contains_key(id) {
            Ok::<i64, EvalError>(values[id])
        } else {
            Err::<i64, EvalError>(EvalError::MissingIdentifier(id))
        }),
{
    lemma_eval_factor(CompositeView::Variable(id), values);
}

/// A `floor` or `ceil` factor whose operands have values, the right one
/// the value zero, evaluates to a division by zero.
pub proof fn lemma_eval_division_by_zero(c: CompositeView, values: Map<u16, i64>)
    requires
        c is Floor || c is Ceil,
        polynomial_eval(c.left(), values) is Ok,
        polynomial_eval(c.right(), values) == Ok::<i64, EvalError>(0),
    ensures
        composite_eval(c, values) == Err::<i64, EvalError>(EvalError::DivisionByZero),
        polynomial_eval(factor_polynomial(c), values) == Err::<i64, EvalError>(
            EvalError::DivisionByZero,
        ),
{
    lemma_eval_factor(c, values);
}

/// The value of a constant polynomial is its constant.
pub proof fn lemma_value_constant(p: PolynomialView, env: spec_fn(u16) -> int)
    requires
        polynomial_is_constant(p),
    ensures
        polynomial_value(p, env) == constant_value(p),
{
    if p.len() == 1 {
        assert(polynomial_value_from(p, env, 1) == 0);
        assert(shape_value_from(p[0].powers, env, 0) == 1);
        assert(monomial_value(p[0], env) == p[0].coefficient * 1);
    }
}

/// The value of the polynomial of one factor is the value of the factor.
pub proof fn lemma_value_factor(c: CompositeView, env: spec_fn(u16) -> int)
    ensures
        polynomial_value(factor_polynomial(c), env) == composite_value(c, env),
{
    let p = factor_polynomial(c);
    let s = p[0].powers;
    lemma_pow1(composite_value(c, env));
    assert(shape_value_from(s, env, 1) == 1);
    assert(shape_value_from(s, env, 0) == composite_value(c, env) * 1);
    assert(monomial_value(p[0], env) == 1 * shape_value_from(s, env, 0));
    assert(polynomial_value_from(p, env, 1) == 0);
}

/// `max` of two polynomials stands for the greater of their values.
pub proof fn lemma_value_max(l: PolynomialView, r: PolynomialView, env: spec_fn(u16) -> int)
    ensures
        polynomial_value(max_model(l, r), env) == (if polynomial_value(l, env) > polynomial_value(
            r,
            env,
        ) {
            polynomial_value(l, env)
        } else {
            polynomial_value(r, env)
        }),
{
    if both_constant(l, r) {
        lemma_value_constant(l, env);
        lemma_value_constant(r, env);
        lemma_value_constant(max_model(l, r), env);
    } else {
        lemma_value_factor(CompositeView::Max(l, r), env);
    }
}

/// `min` of two polynomials stands for the smaller of their values.
pub proof fn lemma_value_min(l: PolynomialView, r: PolynomialView, env: spec_fn(u16) -> int)
    ensures
        polynomial_value(min_model(l, r), env) == (if polynomial_value(l, env) < polynomial_value(
            r,
            env,
        ) {
            polynomial_value(l, env)
        } else {
            polynomial_value(r, env)
        }),
{
    if both_constant(l, r) {
        lemma_value_constant(l, env);
        lemma_value_constant(r, env);
        lemma_value_constant(min_model(l, r), env);
    } else {
        lemma_value_factor(CompositeView::Min(l, r), env);
    }
}

/// The value of the dividend is the value of the quotient times the value
/// of the divisor, plus the value of the remainder.
pub proof fn lemma_value_division(a: PolynomialView, b: PolynomialView, env: spec_fn(u16) -> int)
    requires
        polynomial_wf(a),
        polynomial_wf(b),
        division_in_range(a, b),
    ensures
        polynomial_value(a, env) == polynomial_value(long_division(a, b).0, env)
            * polynomial_value(b, env) + polynomial_value(long_division(a, b).1, env),
{
    let q = long_division(a, b).0;
    let r = long_division(a, b).1;
    lemma_division_identity(a, b);
    lemma_value_add(crate::algebra::polynomial_mul(q, b), r, env);
    lemma_value_mul(q, b, env);
}

/// `floor` of two polynomials stands for the quotient of their values,
/// rounded down, wherever the value of the divisor is not zero.
pub proof fn lemma_value_floor(l: PolynomialView, r: PolynomialView, env: spec_fn(u16) -> int)
    requires
        polynomial_wf(l),
        polynomial_wf(r),
        polynomial_value(r, env) != 0,
    ensures
        polynomial_value(floor_model(l, r), env) == floor_div(
            polynomial_value(l, env),
            polynomial_value(r, env),
        ),
{
    if both_constant(l, r) {
        lemma_value_constant(l, env);
        lemma_value_constant(r, env);
        if fits_i64(floor_div(constant_value(l), constant_value(r))) {
            lemma_value_constant(floor_model(l, r), env);
        } else {
            lemma_value_factor(CompositeView::Floor(l, r), env);
        }
    } else {
        match exact_quotient(l, r) {
            Some(q) => {
                lemma_value_division(l, r, env);
                assert(polynomial_value(long_division(l, r).1, env) == 0);
                lemma_floor_div(polynomial_value(l, env), polynomial_value(r, env), polynomial_value(q, env));
            },
            None => {
                lemma_value_factor(CompositeView::Floor(l, r), env);
            },
        }
    }
}

/// `ceil` of two polynomials stands for the quotient of their values,
/// rounded up, wherever the value of the divisor is not zero.
pub proof fn lemma_value_ceil(l: PolynomialView, r: PolynomialView, env: spec_fn(u16) -> int)
    requires
        polynomial_wf(l),
        polynomial_wf(r),
        polynomial_value(r, env) != 0,
    ensures
        polynomial_value(ceil_model(l, r), env) == ceil_div(
            polynomial_value(l, env),
            polynomial_value(r, env),
        ),
{
    if both_constant(l, r) {
        lemma_value_constant(l, env);
        lemma_value_constant(r, env);
        if fits_i64(ceil_div(constant_value(l), constant_value(r))) {
            lemma_value_constant(ceil_model(l, r), env);
        } else {
            lemma_value_factor(CompositeView::Ceil(l, r), env);
        }
    } else {
        match exact_quotient(l, r) {
            Some(q) => {
                lemma_value_division(l, r, env);
                assert(polynomial_value(long_division(l, r).1, env) == 0);
                lemma_ceil_div(polynomial_value(l, env), polynomial_value(r, env), polynomial_value(q, env));
            },
            None => {
                lemma_value_factor(CompositeView::Ceil(l, r), env);
            },
        }
    }
}

} // verus!
