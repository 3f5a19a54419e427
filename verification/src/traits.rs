//! The capabilities that monomials, polynomials and factors share.
use std::collections::HashMap;
use vstd::prelude::*;
use crate::division::{division_in_range, long_division};
use crate::eval::{composite_eval, monomial_eval, polynomial_eval, EvalError};
use crate::monomial::monomial_checked_div;
use crate::polynomial::polynomial_is_constant;
use crate::primitives::{Composite, Monomial, Polynomial};

verus! {

/// Expressions that can be evaluated under an assignment of values to
/// identifiers.
pub trait Evaluable {
    /// What the evaluation under `values` gives.
    spec fn value(&self, values: Map<u16, i64>) -> Result<i64, EvalError>;

    fn evaluate(&self, values: &HashMap<u16, i64>) -> (r: Result<i64, EvalError>)
        ensures
            r == self.value(values@),
    ;
}

/// Expressions that can be constants.
pub trait IsConstant {
    /// Whether the expression holds no symbolic factor.
    spec fn constant(&self) -> bool;

    fn is_constant(&self) -> (r: bool)
        ensures
            r == self.constant(),
    ;
}

/// Expressions that can be divided where the division is exact.
pub trait CheckedDiv<RHS> {
    type Output;

    /// What a caller of `checked_div` has to establish.
    spec fn dividable(&self, other: RHS) -> bool;

    /// Whether `checked_div` gives a quotient.
    spec fn divides(&self, other: RHS) -> bool;

    fn checked_div(&self, other: RHS) -> (r: Option<Self::Output>)
        requires
            self.dividable(other),
        ensures
            r is Some <==> self.divides(other),
    ;
}

impl Evaluable for Composite {
    open spec fn value(&self, values: Map<u16, i64>) -> Result<i64, EvalError> {
        composite_eval(self@, values)
    }

    fn evaluate(&self, values: &HashMap<u16, i64>) -> (r: Result<i64, EvalError>) {
        self.eval(values)
    }
}

impl Evaluable for Monomial {
    open spec fn value(&self, values: Map<u16, i64>) -> Result<i64, EvalError> {
        monomial_eval(self@, values)
    }

    fn evaluate(&self, values: &HashMap<u16, i64>) -> (r: Result<i64, EvalError>) {
        self.eval(values)
    }
}

impl Evaluable for Polynomial {
    open spec fn value(&self, values: Map<u16, i64>) -> Result<i64, EvalError> {
        polynomial_eval(self@, values)
    }

    fn evaluate(&self, values: &HashMap<u16, i64>) -> (r: Result<i64, EvalError>) {
        self.eval(values)
    }
}

impl IsConstant for Monomial {
    open spec fn constant(&self) -> bool {
        self@.powers.len() == 0
    }

    fn is_constant(&self) -> (r: bool) {
        Monomial::is_constant(self)
    }
}

impl IsConstant for Polynomial {
    open spec fn constant(&self) -> bool {
        polynomial_is_constant(self@)
    }

    fn is_constant(&self) -> (r: bool) {
        Polynomial::is_constant(self)
    }
}

impl<'a> CheckedDiv<&'a Monomial> for Monomial {
    type Output = Monomial;

    open spec fn dividable(&self, other: &'a Monomial) -> bool {
        true
    }

    open spec fn divides(&self, other: &'a Monomial) -> bool {
        monomial_checked_div(self@, other@) is Some
    }

    fn checked_div(&self, other: &'a Monomial) -> (r: Option<Monomial>)
        ensures
            r matches Some(q) ==> monomial_checked_div(self@, other@) == Some(q@),
    {
        Monomial::checked_div(self, other)
    }
}

impl<'a> CheckedDiv<&'a Polynomial> for Polynomial {
    type Output = Polynomial;

    open spec fn dividable(&self, other: &'a Polynomial) -> bool {
        self.wf() && other.wf()
    }

    open spec fn divides(&self, other: &'a Polynomial) -> bool {
        division_in_range(self@, other@) && long_division(self@, other@).1.len() == 0
    }

    fn checked_div(&self, other: &'a Polynomial) -> (r: Option<Polynomial>)
        ensures
            r matches Some(q) ==> q@ == long_division(self@, other@).0 && q.wf(),
    {
        Polynomial::checked_div(self, other)
    }
}

} // verus!
