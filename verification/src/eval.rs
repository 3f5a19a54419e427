//! Evaluation of symbolic expressions under an assignment of values to
//! identifiers.
use std::collections::HashMap;
use vstd::arithmetic::power::pow;
use vstd::prelude::*;
use crate::model::{CompositeView, MonomialView, PolynomialView, Shape};
use crate::numeric::{
    ceil_div, checked_ceil_div, checked_floor_div, checked_pow, fits_i64, floor_div,
};
use crate::primitives::{Composite, Monomial, Polynomial};

verus! {

/// Why an evaluation failed.
#[derive(Debug, Clone, Copy, PartialEq, Eq, Structural)]
pub enum EvalError {
    /// The expression holds an identifier to which no value is assigned.
    MissingIdentifier(u16),
    /// The right operand of a `floor` or `ceil` factor is zero.
    DivisionByZero,
    /// A value that arises during the evaluation does not fit the
    /// coefficient type.
    Overflow,
}

/// The integer `x` as a value, where it fits the coefficient type.
pub open spec fn checked(x: int) -> Result<i64, EvalError> {
    if fits_i64(x) {
        Ok(x as i64)
    } else {
        Err(EvalError::Overflow)
    }
}

/// The value of a binary factor whose operands have the values `l` and `r`:
/// the quotient rounded down or up, the smaller or the greater of the two.
pub open spec fn apply(c: CompositeView, l: i64, r: i64) -> Result<i64, EvalError> {
    match c {
        CompositeView::Variable(_) => Ok(l),
        CompositeView::Floor(_, _) => if r == 0 {
            Err(EvalError::DivisionByZero)
        } else {
            checked(floor_div(l as int, r as int))
        },
        CompositeView::Ceil(_, _) => if r == 0 {
            Err(EvalError::DivisionByZero)
        } else {
            checked(ceil_div(l as int, r as int))
        },
        CompositeView::Min(_, _) => Ok(
            if l < r {
                l
            } else {
                r
            },
        ),
        CompositeView::Max(_, _) => Ok(
            if l > r {
                l
            } else {
                r
            },
        ),
    }
}

/// The value of a factor. A variable has the value assigned to its
/// identifier. A binary factor evaluates its left operand, then its right
/// operand, and fails with the first failure among them.
pub open spec fn composite_eval(c: CompositeView, values: Map<u16, i64>) -> Result<i64, EvalError>
    decreases c, 0nat, 0nat,
{
    match c {
        CompositeView::Variable(id) => if values.contains_key(id) {
            Ok(values[id])
        } else {
            Err(EvalError::MissingIdentifier(id))
        },
        CompositeView::Floor(l, r)
        | CompositeView::Ceil(l, r)
        | CompositeView::Min(l, r)
        | CompositeView::Max(l, r) => match polynomial_eval_from(l, values, 0, 0) {
            Err(e) => Err(e),
            Ok(x) => match polynomial_eval_from(r, values, 0, 0) {
                Err(e) => Err(e),
                Ok(y) => apply(c, x, y),
            },
        },
    }
}

/// The product of `acc` and the powers of the factors from index `i` on,
/// taken one factor after the other.
pub open spec fn powers_eval_from(s: Shape, values: Map<u16, i64>, i: int, acc: int) -> Result<
    i64,
    EvalError,
>
    decreases s, s.len() - i, 0nat,
{
    if i < 0 || i >= s.len() {
        checked(acc)
    } else {
        match composite_eval(s[i].0, values) {
            Err(e) => Err(e),
            Ok(v) => {
                let p = pow(v as int, s[i].1);
                if fits_i64(p) && fits_i64(acc * p) {
                    powers_eval_from(s, values, i + 1, acc * p)
                } else {
                    Err(EvalError::Overflow)
                }
            },
        }
    }
}

/// The value of a monomial: its coefficient times the powers of its factors.
pub open spec fn monomial_eval(m: MonomialView, values: Map<u16, i64>) -> Result<i64, EvalError>
    decreases m, 0nat, 1nat,
{
    powers_eval_from(m.powers, values, 0, m.coefficient)
}

/// The sum of `acc` and the values of the terms from index `i` on, taken
/// one term after the other.
pub open spec fn polynomial_eval_from(
    p: PolynomialView,
    values: Map<u16, i64>,
    i: int,
    acc: int,
) -> Result<i64, EvalError>
    decreases p, p.len() - i, 0nat,
{
    if i < 0 || i >= p.len() {
        checked(acc)
    } else {
        match monomial_eval(p[i], values) {
            Err(e) => Err(e),
            Ok(v) => if fits_i64(acc + v) {
                polynomial_eval_from(p, values, i + 1, acc + v)
            } else {
                Err(EvalError::Overflow)
            },
        }
    }
}

/// The value of a polynomial: the sum of the values of its terms.
pub open spec fn polynomial_eval(p: PolynomialView, values: Map<u16, i64>) -> Result<
    i64,
    EvalError,
> {
    polynomial_eval_from(p, values, 0, 0)
}

impl Composite {
    /// Evaluates the factor under the assignment `values`.
    pub fn eval(&self, values: &HashMap<u16, i64>) -> (r: Result<i64, EvalError>)
        ensures
            r == composite_eval(self@, values@),
        decreases self,
    {
        broadcast use vstd::std_specs::hash::group_hash_axioms;

        match self {
            Composite::Variable(id) => match values.get(id) {
                Some(v) => Ok(*v),
                None => Err(EvalError::MissingIdentifier(*id)),
            },
            Composite::Floor(l, r)
            | Composite::Ceil(l, r)
            | Composite::Min(l, r)
            | Composite::Max(l, r) => {
                let x: i64 = match l.eval(values) {
                    Ok(x) => x,
                    Err(e) => {
                        return Err(e);
                    },
                };
                let y: i64 = match r.eval(values) {
                    Ok(y) => y,
                    Err(e) => {
                        return Err(e);
                    },
                };
                match self {
                    Composite::Floor(_, _) => {
                        if y == 0 {
                            return Err(EvalError::DivisionByZero);
                        }
                        match checked_floor_div(x, y) {
                            Some(q) => Ok(q),
                            None => Err(EvalError::Overflow),
                        }
                    },
                    Composite::Ceil(_, _) => {
                        if y == 0 {
                            return Err(EvalError::DivisionByZero);
                        }
                        match checked_ceil_div(x, y) {
                            Some(q) => Ok(q),
                            None => Err(EvalError::Overflow),
                        }
                    },
                    Composite::Min(_, _) => Ok(
                        if x < y {
                            x
                        } else {
                            y
                        },
                    ),
                    _ => Ok(
                        if x > y {
                            x
                        } else {
                            y
                        },
                    ),
                }
            },
        }
    }
}

impl Monomial {
    /// Evaluates the monomial under the assignment `values`: the
    /// coefficient times the powers of the values of the factors, failing
    /// with the failure of the first factor that fails.
    pub fn eval(&self, values: &HashMap<u16, i64>) -> (r: Result<i64, EvalError>)
        ensures
            r == monomial_eval(self@, values@),
        decreases self,
    {
        let mut value: i64 = self.coefficient;
        let mut i: usize = 0;
        while i < self.powers.len()
            invariant
                0 <= i <= self.powers.len(),
                powers_eval_from(self@.powers, values@, i as int, value as int) == monomial_eval(
                    self@,
                    values@,
                ),
            decreases self.powers.len() - i,
        {
            let v: i64 = match self.powers[i].0.eval(values) {
                Ok(v) => v,
                Err(e) => {
                    return Err(e);
                },
            };
            let p: i64 = match checked_pow(v, self.powers[i].1 as usize) {
                Some(p) => p,
                None => {
                    return Err(EvalError::Overflow);
                },
            };
            value = match value.checked_mul(p) {
                Some(x) => x,
                None => {
                    return Err(EvalError::Overflow);
                },
            };
            i += 1;
        }
        Ok(value)
    }
}

impl Polynomial {
    /// Evaluates the polynomial under the assignment `values`: the sum of
    /// the values of its terms, leading term first, failing with the failure
    /// of the first term that fails.
    pub fn eval(&self, values: &HashMap<u16, i64>) -> (r: Result<i64, EvalError>)
        ensures
            r == polynomial_eval(self@, values@),
        decreases self,
    {
        let mut value: i64 = 0;
        let mut i: usize = 0;
        while i < self.monomials.len()
            invariant
                0 <= i <= self.monomials.len(),
                polynomial_eval_from(self@, values@, i as int, value as int) == polynomial_eval(
                    self@,
                    values@,
                ),
            decreases self.monomials.len() - i,
        {
            let v: i64 = match self.monomials[i].eval(values) {
                Ok(v) => v,
                Err(e) => {
                    return Err(e);
                },
            };
            value = match value.checked_add(v) {
                Some(x) => x,
                None => {
                    return Err(EvalError::Overflow);
                },
            };
            i += 1;
        }
        Ok(value)
    }
}

} // verus!
