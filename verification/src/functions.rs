//! The symbolic operations `floor`, `ceil`, `min` and `max`, which fold to a
//! plain polynomial wherever they can.
use std::rc::Rc;
use vstd::prelude::*;
use crate::algebra::single;
use crate::division::{division_in_range, long_division};
use crate::model::{shape_wf, term_wf, CompositeView, PolynomialView};
use crate::monomial::{constant_monomial, factor_monomial};
use crate::numeric::{ceil_div, checked_ceil_div, checked_floor_div, fits_i64, floor_div};
use crate::polynomial::{constant_value, polynomial_is_constant};
use crate::primitives::{Composite, Monomial, Polynomial};

verus! {

/// The polynomial of the one term `1 * x` for the factor `x`.
pub open spec fn factor_polynomial(x: CompositeView) -> PolynomialView {
    seq![factor_monomial(x)]
}

/// The constant polynomial `c`.
pub open spec fn constant_polynomial(c: int) -> PolynomialView {
    single(constant_monomial(c))
}

/// Whether both polynomials are constants.
pub open spec fn both_constant(l: PolynomialView, r: PolynomialView) -> bool {
    polynomial_is_constant(l) && polynomial_is_constant(r)
}

/// The quotient of `l` by `r`, where the long division stays within the
/// machine types and leaves no remainder.
pub open spec fn exact_quotient(l: PolynomialView, r: PolynomialView) -> Option<PolynomialView> {
    if division_in_range(l, r) && long_division(l, r).1.len() == 0 {
        Some(long_division(l, r).0)
    } else {
        None
    }
}

/// The greater of two polynomials: the greater value where both are
/// constants, the factor `max(l, r)` where they are not.
pub open spec fn max_model(l: PolynomialView, r: PolynomialView) -> PolynomialView {
    if both_constant(l, r) {
        constant_polynomial(
            if constant_value(l) > constant_value(r) {
                constant_value(l)
            } else {
                constant_value(r)
            },
        )
    } else {
        factor_polynomial(CompositeView::Max(l, r))
    }
}

/// The smaller of two polynomials: the smaller value where both are
/// constants, the factor `min(l, r)` where they are not.
pub open spec fn min_model(l: PolynomialView, r: PolynomialView) -> PolynomialView {
    if both_constant(l, r) {
        constant_polynomial(
            if constant_value(l) < constant_value(r) {
                constant_value(l)
            } else {
                constant_value(r)
            },
        )
    } else {
        factor_polynomial(CompositeView::Min(l, r))
    }
}

/// The quotient of two polynomials, rounded down. Two constants give the
/// rounded quotient of their values, where the divisor is not zero and the
/// quotient fits the coefficient type. Otherwise an exact division gives its
/// quotient. What is left gives the factor `floor(l, r)`.
pub open spec fn floor_model(l: PolynomialView, r: PolynomialView) -> PolynomialView {
    if both_constant(l, r) {
        if constant_value(r) != 0 && fits_i64(floor_div(constant_value(l), constant_value(r))) {
            constant_polynomial(floor_div(constant_value(l), constant_value(r)))
        } else {
            factor_polynomial(CompositeView::Floor(l, r))
        }
    } else {
        match exact_quotient(l, r) {
            Some(q) => q,
            None => factor_polynomial(CompositeView::Floor(l, r)),
        }
    }
}

/// The quotient of two polynomials, rounded up. Two constants give the
/// rounded quotient of their values, where the divisor is not zero and the
/// quotient fits the coefficient type. Otherwise an exact division gives its
/// quotient. What is left gives the factor `ceil(l, r)`.
pub open spec fn ceil_model(l: PolynomialView, r: PolynomialView) -> PolynomialView {
    if both_constant(l, r) {
        if constant_value(r) != 0 && fits_i64(ceil_div(constant_value(l), constant_value(r))) {
            constant_polynomial(ceil_div(constant_value(l), constant_value(r)))
        } else {
            factor_polynomial(CompositeView::Ceil(l, r))
        }
    } else {
        match exact_quotient(l, r) {
            Some(q) => q,
            None => factor_polynomial(CompositeView::Ceil(l, r)),
        }
    }
}

/// The operation of a binary factor on its operands gives the factor
/// itself: it cannot be folded to a constant or to a quotient.
pub open spec fn unfolded(c: CompositeView) -> bool {
    match c {
        CompositeView::Variable(_) => true,
        CompositeView::Floor(l, r) => floor_model(l, r) == factor_polynomial(c),
        CompositeView::Ceil(l, r) => ceil_model(l, r) == factor_polynomial(c),
        CompositeView::Min(l, r) => min_model(l, r) == factor_polynomial(c),
        CompositeView::Max(l, r) => max_model(l, r) == factor_polynomial(c),
    }
}

impl Polynomial {
    /// The value of a constant polynomial.
    pub fn constant_value(&self) -> (r: i64)
        requires
            polynomial_is_constant(self@),
        ensures
            r == constant_value(self@),
    {
        if self.monomials.len() == 0 {
            0
        } else {
            self.monomials[0].coefficient
        }
    }

    /// The polynomial of the one term `1 * x` for the factor `x`.
    pub fn factor(x: Composite) -> (r: Polynomial)
        ensures
            r@ == factor_polynomial(x@),
            crate::model::composite_wf(x@) ==> r.wf(),
    {
        let m = Monomial::factor(x);
        let r = Polynomial::from_monomial(&m);
        proof {
            if crate::model::composite_wf(x@) {
                assert(shape_wf(m@.powers));
                assert(term_wf(r@[0]));
            }
        }
        r
    }
}

/// Computes a symbolic `max` between two polynomials.
pub fn max(left: &Polynomial, right: &Polynomial) -> (r: Polynomial)
    requires
        left.wf(),
        right.wf(),
    ensures
        r@ == max_model(left@, right@),
        r.wf(),
{
    if left.is_constant() && right.is_constant() {
        let v1: i64 = left.constant_value();
        let v2: i64 = right.constant_value();
        Polynomial::constant(
            if v1 > v2 {
                v1
            } else {
                v2
            },
        )
    } else {
        Polynomial::factor(Composite::Max(Rc::new(left.clone()), Rc::new(right.clone())))
    }
}

/// Computes a symbolic `min` between two polynomials.
pub fn min(left: &Polynomial, right: &Polynomial) -> (r: Polynomial)
    requires
        left.wf(),
        right.wf(),
    ensures
        r@ == min_model(left@, right@),
        r.wf(),
{
    if left.is_constant() && right.is_constant() {
        let v1: i64 = left.constant_value();
        let v2: i64 = right.constant_value();
        Polynomial::constant(
            if v1 < v2 {
                v1
            } else {
                v2
            },
        )
    } else {
        Polynomial::factor(Composite::Min(Rc::new(left.clone()), Rc::new(right.clone())))
    }
}

/// Computes a symbolic `ceil` between two polynomials.
pub fn ceil(left: &Polynomial, right: &Polynomial) -> (r: Polynomial)
    requires
        left.wf(),
        right.wf(),
    ensures
        r@ == ceil_model(left@, right@),
        r.wf(),
{
    if left.is_constant() && right.is_constant() {
        let v1: i64 = left.constant_value();
        let v2: i64 = right.constant_value();
        if v2 != 0 {
            match checked_ceil_div(v1, v2) {
                Some(q) => {
                    return Polynomial::constant(q);
                },
                None => {},
            }
        }
        Polynomial::factor(Composite::Ceil(Rc::new(left.clone()), Rc::new(right.clone())))
    } else {
        match left.checked_div(right) {
            Some(q) => q,
            None => Polynomial::factor(
                Composite::Ceil(Rc::new(left.clone()), Rc::new(right.clone())),
            ),
        }
    }
}

/// Computes a symbolic `floor` between two polynomials.
pub fn floor(left: &Polynomial, right: &Polynomial) -> (r: Polynomial)
    requires
        left.wf(),
        right.wf(),
    ensures
        r@ == floor_model(left@, right@),
        r.wf(),
{
    if left.is_constant() && right.is_constant() {
        let v1: i64 = left.constant_value();
        let v2: i64 = right.constant_value();
        if v2 != 0 {
            match checked_floor_div(v1, v2) {
                Some(q) => {
                    return Polynomial::constant(q);
                },
                None => {},
            }
        }
        Polynomial::factor(Composite::Floor(Rc::new(left.clone()), Rc::new(right.clone())))
    } else {
        match left.checked_div(right) {
            Some(q) => q,
            None => Polynomial::factor(
                Composite::Floor(Rc::new(left.clone()), Rc::new(right.clone())),
            ),
        }
    }
}

} // verus!
