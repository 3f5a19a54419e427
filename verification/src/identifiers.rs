//! The identifiers that occur in an expression.
use std::collections::HashSet;
use vstd::prelude::*;
use crate::model::{CompositeView, MonomialView, PolynomialView, Shape};
use crate::primitives::{Composite, Monomial, Polynomial};

verus! {

/// The identifiers of a factor: its own, or those of its two operands.
pub open spec fn composite_identifiers(c: CompositeView) -> Set<u16>
    decreases c, 0nat, 0nat,
{
    match c {
        CompositeView::Variable(id) => set![id],
        CompositeView::Floor(l, r)
        | CompositeView::Ceil(l, r)
        | CompositeView::Min(l, r)
        | CompositeView::Max(l, r) => polynomial_identifiers_from(l, 0).union(
            polynomial_identifiers_from(r, 0),
        ),
    }
}

/// The identifiers of the factors of a power vector from index `i` on.
pub open spec fn shape_identifiers_from(s: Shape, i: int) -> Set<u16>
    decreases s, s.len() - i, 0nat,
{
    if i < 0 || i >= s.len() {
        Set::empty()
    } else {
        composite_identifiers(s[i].0).union(shape_identifiers_from(s, i + 1))
    }
}

/// The identifiers of a monomial.
pub open spec fn monomial_identifiers(m: MonomialView) -> Set<u16>
    decreases m, 0nat, 1nat,
{
    shape_identifiers_from(m.powers, 0)
}

/// The identifiers of the terms of a polynomial from index `i` on.
pub open spec fn polynomial_identifiers_from(p: PolynomialView, i: int) -> Set<u16>
    decreases p, p.len() - i, 0nat,
{
    if i < 0 || i >= p.len() {
        Set::empty()
    } else {
        monomial_identifiers(p[i]).union(polynomial_identifiers_from(p, i + 1))
    }
}

/// The identifiers of a polynomial.
pub open spec fn polynomial_identifiers(p: PolynomialView) -> Set<u16> {
    polynomial_identifiers_from(p, 0)
}

impl Composite {
    /// Fills into the `HashSet` all of the identifiers used in this factor.
    pub fn unique_identifiers(&self, unique: &mut HashSet<u16>)
        ensures
            final(unique)@ == old(unique)@.union(composite_identifiers(self@)),
        decreases self,
    {
        broadcast use vstd::std_specs::hash::group_hash_axioms;

        match self {
            Composite::Variable(id) => {
                unique.insert(*id);
                assert(unique@ =~= old(unique)@.union(set![*id]));
            },
            Composite::Floor(l, r)
            | Composite::Ceil(l, r)
            | Composite::Min(l, r)
            | Composite::Max(l, r) => {
                l.unique_identifiers(unique);
                r.unique_identifiers(unique);
                assert(unique@ =~= old(unique)@.union(composite_identifiers(self@)));
            },
        }
    }
}

impl Monomial {
    /// Fills into the `HashSet` all of the identifiers used in this
    /// monomial.
    pub fn unique_identifiers(&self, unique: &mut HashSet<u16>)
        ensures
            final(unique)@ == old(unique)@.union(monomial_identifiers(self@)),
        decreases self,
    {
        let mut i: usize = 0;
        while i < self.powers.len()
            invariant
                0 <= i <= self.powers.len(),
                unique@.union(shape_identifiers_from(self@.powers, i as int)) == old(
                    unique,
                )@.union(monomial_identifiers(self@)),
            decreases self.powers.len() - i,
        {
            let ghost before = unique@;
            self.powers[i].0.unique_identifiers(unique);
            assert(unique@.union(shape_identifiers_from(self@.powers, i as int + 1))
                =~= before.union(shape_identifiers_from(self@.powers, i as int)));
            i += 1;
        }
        assert(unique@ =~= unique@.union(Set::<u16>::empty()));
    }
}

impl Polynomial {
    /// Fills into the `HashSet` all of the identifiers used in this
    /// polynomial.
    pub fn unique_identifiers(&self, unique: &mut HashSet<u16>)
        ensures
            final(unique)@ == old(unique)@.union(polynomial_identifiers(self@)),
        decreases self,
    {
        let mut i: usize = 0;
        while i < self.monomials.len()
            invariant
                0 <= i <= self.monomials.len(),
                unique@.union(polynomial_identifiers_from(self@, i as int)) == old(unique)@.union(
                    polynomial_identifiers(self@),
                ),
            decreases self.monomials.len() - i,
        {
            let ghost before = unique@;
            self.monomials[i].unique_identifiers(unique);
            assert(unique@.union(polynomial_identifiers_from(self@, i as int + 1))
                =~= before.union(polynomial_identifiers_from(self@, i as int)));
            i += 1;
        }
        assert(unique@ =~= unique@.union(Set::<u16>::empty()));
    }
}

} // verus!
