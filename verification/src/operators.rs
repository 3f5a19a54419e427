//! The arithmetic operators on polynomials.
//!
//! Every operator is the method of the same name. What an operator gives is
//! stated by the contract of its function; the result function of the
//! operator's specification trait is not used.
use vstd::prelude::*;
use vstd::std_specs::ops::{AddSpecImpl, DivSpecImpl, MulSpecImpl, NegSpecImpl, SubSpecImpl};
use crate::algebra::{mul_fits, polynomial_add, polynomial_mul, polynomial_neg, polynomial_sub};
use crate::functions::exact_quotient;
use crate::model::polynomial_fits;
use crate::primitives::Polynomial;

verus! {

impl<'a, 'b> core::ops::Add<&'b Polynomial> for &'a Polynomial {
    type Output = Polynomial;

    /// The sum of two polynomials.
    fn add(self, rhs: &'b Polynomial) -> (r: Polynomial)
        ensures
            r@ == polynomial_add(self@, rhs@),
            self.wf() && rhs.wf() ==> r.wf(),
    {
        Polynomial::add(self, rhs)
    }
}

impl<'a, 'b> AddSpecImpl<&'b Polynomial> for &'a Polynomial {
    open spec fn obeys_add_spec() -> bool {
        false
    }

    open spec fn add_req(self, rhs: &'b Polynomial) -> bool {
        polynomial_fits(polynomial_add(self@, rhs@))
    }

    open spec fn add_spec(self, rhs: &'b Polynomial) -> Polynomial {
        *self
    }
}

impl core::ops::Add<Polynomial> for Polynomial {
    type Output = Polynomial;

    /// The sum of two polynomials.
    fn add(self, rhs: Polynomial) -> (r: Polynomial)
        ensures
            r@ == polynomial_add(self@, rhs@),
            self.wf() && rhs.wf() ==> r.wf(),
    {
        Polynomial::add(&self, &rhs)
    }
}

impl AddSpecImpl<Polynomial> for Polynomial {
    open spec fn obeys_add_spec() -> bool {
        false
    }

    open spec fn add_req(self, rhs: Polynomial) -> bool {
        polynomial_fits(polynomial_add(self@, rhs@))
    }

    open spec fn add_spec(self, rhs: Polynomial) -> Polynomial {
        self
    }
}

impl<'a, 'b> core::ops::Sub<&'b Polynomial> for &'a Polynomial {
    type Output = Polynomial;

    /// The difference of two polynomials.
    fn sub(self, rhs: &'b Polynomial) -> (r: Polynomial)
        ensures
            r@ == polynomial_sub(self@, rhs@),
            self.wf() && rhs.wf() ==> r.wf(),
    {
        Polynomial::sub(self, rhs)
    }
}

impl<'a, 'b> SubSpecImpl<&'b Polynomial> for &'a Polynomial {
    open spec fn obeys_sub_spec() -> bool {
        false
    }

    open spec fn sub_req(self, rhs: &'b Polynomial) -> bool {
        polynomial_fits(polynomial_sub(self@, rhs@))
    }

    open spec fn sub_spec(self, rhs: &'b Polynomial) -> Polynomial {
        *self
    }
}

impl core::ops::Sub<Polynomial> for Polynomial {
    type Output = Polynomial;

    /// The difference of two polynomials.
    fn sub(self, rhs: Polynomial) -> (r: Polynomial)
        ensures
            r@ == polynomial_sub(self@, rhs@),
            self.wf() && rhs.wf() ==> r.wf(),
    {
        Polynomial::sub(&self, &rhs)
    }
}

impl SubSpecImpl<Polynomial> for Polynomial {
    open spec fn obeys_sub_spec() -> bool {
        false
    }

    open spec fn sub_req(self, rhs: Polynomial) -> bool {
        polynomial_fits(polynomial_sub(self@, rhs@))
    }

    open spec fn sub_spec(self, rhs: Polynomial) -> Polynomial {
        self
    }
}

impl<'a, 'b> core::ops::Mul<&'b Polynomial> for &'a Polynomial {
    type Output = Polynomial;

    /// The product of two polynomials.
    fn mul(self, rhs: &'b Polynomial) -> (r: Polynomial)
        ensures
            r@ == polynomial_mul(self@, rhs@),
            self.wf() && rhs.wf() ==> r.wf(),
    {
        Polynomial::mul(self, rhs)
    }
}

impl<'a, 'b> MulSpecImpl<&'b Polynomial> for &'a Polynomial {
    open spec fn obeys_mul_spec() -> bool {
        false
    }

    open spec fn mul_req(self, rhs: &'b Polynomial) -> bool {
        mul_fits(self@, rhs@)
    }

    open spec fn mul_spec(self, rhs: &'b Polynomial) -> Polynomial {
        *self
    }
}

impl core::ops::Mul<Polynomial> for Polynomial {
    type Output = Polynomial;

    /// The product of two polynomials.
    fn mul(self, rhs: Polynomial) -> (r: Polynomial)
        ensures
            r@ == polynomial_mul(self@, rhs@),
            self.wf() && rhs.wf() ==> r.wf(),
    {
        Polynomial::mul(&self, &rhs)
    }
}

impl MulSpecImpl<Polynomial> for Polynomial {
    open spec fn obeys_mul_spec() -> bool {
        false
    }

    open spec fn mul_req(self, rhs: Polynomial) -> bool {
        mul_fits(self@, rhs@)
    }

    open spec fn mul_spec(self, rhs: Polynomial) -> Polynomial {
        self
    }
}

impl<'a, 'b> core::ops::Div<&'b Polynomial> for &'a Polynomial {
    type Output = Polynomial;

    /// The quotient of two polynomials, where the division leaves no
    /// remainder.
    fn div(self, rhs: &'b Polynomial) -> (r: Polynomial)
        ensures
            Some(r@) == exact_quotient(self@, rhs@),
            r.wf(),
    {
        match Polynomial::checked_div(self, rhs) {
            Some(r) => r,
            None => vstd::pervasive::unreached(),
        }
    }
}

impl<'a, 'b> DivSpecImpl<&'b Polynomial> for &'a Polynomial {
    open spec fn obeys_div_spec() -> bool {
        false
    }

    open spec fn div_req(self, rhs: &'b Polynomial) -> bool {
        self.wf() && rhs.wf() && exact_quotient(self@, rhs@) is Some
    }

    open spec fn div_spec(self, rhs: &'b Polynomial) -> Polynomial {
        *self
    }
}

impl core::ops::Div<Polynomial> for Polynomial {
    type Output = Polynomial;

    /// The quotient of two polynomials, where the division leaves no
    /// remainder.
    fn div(self, rhs: Polynomial) -> (r: Polynomial)
        ensures
            Some(r@) == exact_quotient(self@, rhs@),
            r.wf(),
    {
        match Polynomial::checked_div(&self, &rhs) {
            Some(r) => r,
            None => vstd::pervasive::unreached(),
        }
    }
}

impl DivSpecImpl<Polynomial> for Polynomial {
    open spec fn obeys_div_spec() -> bool {
        false
    }

    open spec fn div_req(self, rhs: Polynomial) -> bool {
        self.wf() && rhs.wf() && exact_quotient(self@, rhs@) is Some
    }

    open spec fn div_spec(self, rhs: Polynomial) -> Polynomial {
        self
    }
}

impl<'a> core::ops::Neg for &'a Polynomial {
    type Output = Polynomial;

    /// The polynomial with every coefficient negated.
    fn neg(self) -> (r: Polynomial)
        ensures
            r@ == polynomial_neg(self@),
            self.wf() ==> r.wf(),
    {
        Polynomial::neg(self)
    }
}

impl<'a> NegSpecImpl for &'a Polynomial {
    open spec fn obeys_neg_spec() -> bool {
        false
    }

    open spec fn neg_req(self) -> bool {
        polynomial_fits(polynomial_neg(self@))
    }

    open spec fn neg_spec(self) -> Polynomial {
        *self
    }
}

impl core::ops::Neg for Polynomial {
    type Output = Polynomial;

    /// The polynomial with every coefficient negated.
    fn neg(self) -> (r: Polynomial)
        ensures
            r@ == polynomial_neg(self@),
            self.wf() ==> r.wf(),
    {
        Polynomial::neg(&self)
    }
}

impl NegSpecImpl for Polynomial {
    open spec fn obeys_neg_spec() -> bool {
        false
    }

    open spec fn neg_req(self) -> bool {
        polynomial_fits(polynomial_neg(self@))
    }

    open spec fn neg_spec(self) -> Polynomial {
        self
    }
}

} // verus!
