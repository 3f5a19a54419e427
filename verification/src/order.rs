//! The comparison of factors, power vectors, monomials and polynomials is a
//! total order: it is zero exactly on equal values, antisymmetric and
//! transitive.
use vstd::prelude::*;
use crate::model::{
    composite_order, monomial_order, polynomial_order, polynomial_order_from, shape_order,
    shape_order_from, CompositeView, MonomialView, PolynomialView, Shape,
};

verus! {

/// Two factors compare as equal exactly when they are the same factor.
pub proof fn lemma_composite_order_zero(a: CompositeView, b: CompositeView)
    ensures
        composite_order(a, b) == 0 <==> a == b,
    decreases a, 0nat, 0nat,
{
    if a.rank() == b.rank() {
        match a {
            CompositeView::Variable(_) => {},
            CompositeView::Floor(l, r)
            | CompositeView::Ceil(l, r)
            | CompositeView::Min(l, r)
            | CompositeView::Max(l, r) => {
                lemma_polynomial_order_zero(l, b.left());
                lemma_polynomial_order_zero(r, b.right());
            },
        }
    }
}

/// Two polynomials compare as equal exactly when they are the same sequence.
pub proof fn lemma_polynomial_order_zero(a: PolynomialView, b: PolynomialView)
    ensures
        polynomial_order(a, b) == 0 <==> a == b,
    decreases a, a.len() + 1, 0nat,
{
    lemma_polynomial_order_from_zero(a, b, 0);
    if polynomial_order(a, b) == 0 {
        assert(a =~= b);
    }
}

proof fn lemma_polynomial_order_from_zero(a: PolynomialView, b: PolynomialView, i: int)
    requires
        0 <= i <= a.len(),
    ensures
        polynomial_order_from(a, b, i) == 0 <==> (a.len() == b.len() && forall|k: int|
            i <= k < a.len() ==> a[k] == b[k]),
    decreases a, a.len() - i, 0nat,
{
    if i < a.len() && i < b.len() {
        lemma_monomial_order_zero(a[i], b[i]);
        lemma_polynomial_order_from_zero(a, b, i + 1);
    }
}

/// Two monomials compare as equal exactly when they are the same monomial.
pub proof fn lemma_monomial_order_zero(a: MonomialView, b: MonomialView)
    ensures
        monomial_order(a, b) == 0 <==> a == b,
    decreases a, 0nat, 1nat,
{
    lemma_shape_order_zero(a.powers, b.powers);
}

/// Two power vectors compare as equal exactly when they are the same
/// sequence.
pub proof fn lemma_shape_order_zero(a: Shape, b: Shape)
    ensures
        shape_order(a, b) == 0 <==> a == b,
    decreases a, a.len() + 1, 0nat,
{
    lemma_shape_order_from_zero(a, b, 0);
    if shape_order(a, b) == 0 {
        assert(a =~= b);
    }
}

proof fn lemma_shape_order_from_zero(a: Shape, b: Shape, i: int)
    requires
        0 <= i <= a.len(),
    ensures
        shape_order_from(a, b, i) == 0 <==> (a.len() == b.len() && forall|k: int|
            i <= k < a.len() ==> a[k] == b[k]),
    decreases a, a.len() - i, 0nat,
{
    if i < a.len() && i < b.len() {
        lemma_composite_order_zero(a[i].0, b[i].0);
        lemma_shape_order_from_zero(a, b, i + 1);
    }
}

/// Swapping the arguments of a factor comparison negates its result.
pub proof fn lemma_composite_order_flip(a: CompositeView, b: CompositeView)
    ensures
        composite_order(a, b) == -composite_order(b, a),
    decreases a, 0nat, 0nat,
{
    if a.rank() == b.rank() {
        match a {
            CompositeView::Variable(_) => {},
            CompositeView::Floor(l, r)
            | CompositeView::Ceil(l, r)
            | CompositeView::Min(l, r)
            | CompositeView::Max(l, r) => {
                lemma_polynomial_order_from_flip(l, b.left(), 0);
                lemma_polynomial_order_from_flip(r, b.right(), 0);
            },
        }
    }
}

proof fn lemma_polynomial_order_from_flip(a: PolynomialView, b: PolynomialView, i: int)
    requires
        0 <= i,
    ensures
        polynomial_order_from(a, b, i) == -polynomial_order_from(b, a, i),
    decreases a, a.len() - i, 0nat,
{
    if i < a.len() && i < b.len() {
        lemma_monomial_order_flip(a[i], b[i]);
        lemma_polynomial_order_from_flip(a, b, i + 1);
    }
}

/// Swapping the arguments of a monomial comparison negates its result.
pub proof fn lemma_monomial_order_flip(a: MonomialView, b: MonomialView)
    ensures
        monomial_order(a, b) == -monomial_order(b, a),
    decreases a, 0nat, 1nat,
{
    lemma_shape_order_from_flip(a.powers, b.powers, 0);
}

proof fn lemma_shape_order_from_flip(a: Shape, b: Shape, i: int)
    requires
        0 <= i,
    ensures
        shape_order_from(a, b, i) == -shape_order_from(b, a, i),
    decreases a, a.len() - i, 0nat,
{
    if i < a.len() && i < b.len() {
        lemma_composite_order_flip(a[i].0, b[i].0);
        lemma_shape_order_from_flip(a, b, i + 1);
    }
}

/// Swapping the arguments of a power vector comparison negates its result.
pub proof fn lemma_shape_order_flip(a: Shape, b: Shape)
    ensures
        shape_order(a, b) == -shape_order(b, a),
{
    lemma_shape_order_from_flip(a, b, 0);
}

/// Swapping the arguments of a polynomial comparison negates its result.
pub proof fn lemma_polynomial_order_flip(a: PolynomialView, b: PolynomialView)
    ensures
        polynomial_order(a, b) == -polynomial_order(b, a),
{
    lemma_polynomial_order_from_flip(a, b, 0);
}

/// The strict order of factors is transitive.
pub proof fn lemma_composite_order_trans(a: CompositeView, b: CompositeView, c: CompositeView)
    requires
        composite_order(a, b) > 0,
        composite_order(b, c) > 0,
    ensures
        composite_order(a, c) > 0,
    decreases a, 0nat, 0nat,
{
    if a.rank() == b.rank() && b.rank() == c.rank() {
        match a {
            CompositeView::Variable(_) => {},
            CompositeView::Floor(l, r)
            | CompositeView::Ceil(l, r)
            | CompositeView::Min(l, r)
            | CompositeView::Max(l, r) => {
                lemma_polynomial_order_zero(l, b.left());
                lemma_polynomial_order_zero(b.left(), c.left());
                lemma_polynomial_order_zero(l, c.left());
                if polynomial_order(l, b.left()) > 0 && polynomial_order(b.left(), c.left()) > 0 {
                    lemma_polynomial_order_from_trans(l, b.left(), c.left(), 0);
                } else if polynomial_order(l, b.left()) == 0 && polynomial_order(
                    b.left(),
                    c.left(),
                ) == 0 {
                    lemma_polynomial_order_from_trans(r, b.right(), c.right(), 0);
                }
            },
        }
    }
}

proof fn lemma_polynomial_order_from_trans(
    a: PolynomialView,
    b: PolynomialView,
    c: PolynomialView,
    i: int,
)
    requires
        0 <= i,
        polynomial_order_from(a, b, i) > 0,
        polynomial_order_from(b, c, i) > 0,
    ensures
        polynomial_order_from(a, c, i) > 0,
    decreases a, a.len() - i, 0nat,
{
    if i < a.len() && i < b.len() && i < c.len() {
        lemma_monomial_order_zero(a[i], b[i]);
        lemma_monomial_order_zero(b[i], c[i]);
        lemma_monomial_order_zero(a[i], c[i]);
        if monomial_order(a[i], b[i]) > 0 && monomial_order(b[i], c[i]) > 0 {
            lemma_monomial_order_trans(a[i], b[i], c[i]);
        } else if monomial_order(a[i], b[i]) == 0 && monomial_order(b[i], c[i]) == 0 {
            lemma_polynomial_order_from_trans(a, b, c, i + 1);
        }
    }
}

/// The strict order of monomials is transitive.
pub proof fn lemma_monomial_order_trans(a: MonomialView, b: MonomialView, c: MonomialView)
    requires
        monomial_order(a, b) > 0,
        monomial_order(b, c) > 0,
    ensures
        monomial_order(a, c) > 0,
    decreases a, 0nat, 1nat,
{
    lemma_shape_order_zero(a.powers, b.powers);
    lemma_shape_order_zero(b.powers, c.powers);
    lemma_shape_order_zero(a.powers, c.powers);
    if shape_order(a.powers, b.powers) > 0 && shape_order(b.powers, c.powers) > 0 {
        lemma_shape_order_from_trans(a.powers, b.powers, c.powers, 0);
    }
}

proof fn lemma_shape_order_from_trans(a: Shape, b: Shape, c: Shape, i: int)
    requires
        0 <= i,
        shape_order_from(a, b, i) > 0,
        shape_order_from(b, c, i) > 0,
    ensures
        shape_order_from(a, c, i) > 0,
    decreases a, a.len() - i, 0nat,
{
    if i < a.len() && i < b.len() && i < c.len() {
        lemma_composite_order_zero(a[i].0, b[i].0);
        lemma_composite_order_zero(b[i].0, c[i].0);
        lemma_composite_order_zero(a[i].0, c[i].0);
        if composite_order(a[i].0, b[i].0) > 0 && composite_order(b[i].0, c[i].0) > 0 {
            lemma_composite_order_trans(a[i].0, b[i].0, c[i].0);
        } else if composite_order(a[i].0, b[i].0) == 0 && composite_order(b[i].0, c[i].0) == 0
            && a[i].1 == b[i].1 && b[i].1 == c[i].1 {
            lemma_shape_order_from_trans(a, b, c, i + 1);
        }
    }
}

/// The strict order of power vectors is transitive.
pub proof fn lemma_shape_order_trans(a: Shape, b: Shape, c: Shape)
    requires
        shape_order(a, b) > 0,
        shape_order(b, c) > 0,
    ensures
        shape_order(a, c) > 0,
{
    lemma_shape_order_from_trans(a, b, c, 0);
}

/// The strict order of polynomials is transitive.
pub proof fn lemma_polynomial_order_trans(a: PolynomialView, b: PolynomialView, c: PolynomialView)
    requires
        polynomial_order(a, b) > 0,
        polynomial_order(b, c) > 0,
    ensures
        polynomial_order(a, c) > 0,
{
    lemma_polynomial_order_from_trans(a, b, c, 0);
}

} // verus!
