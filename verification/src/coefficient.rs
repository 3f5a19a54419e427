//! The coefficient that a polynomial gives to a power vector, and the fact
//! that these coefficients determine a canonical polynomial.
use vstd::prelude::*;
use crate::algebra::{add_from, leads, polynomial_add, polynomial_neg, single};
use crate::model::{polynomial_wf, shape_order, term_wf, MonomialView, PolynomialView, Shape};
use crate::order::{lemma_shape_order_flip, lemma_shape_order_trans, lemma_shape_order_zero};

verus! {

/// What the term `m` adds to the coefficient of the power vector `s`.
pub open spec fn part(m: MonomialView, s: Shape) -> int {
    if m.powers == s {
        m.coefficient
    } else {
        0
    }
}

/// The sum of the coefficients of the terms of `p` from index `i` on whose
/// power vector is `s`.
pub open spec fn coefficient_from(p: PolynomialView, s: Shape, i: int) -> int
    decreases p.len() - i,
{
    if i < 0 || i >= p.len() {
        0
    } else {
        part(p[i], s) + coefficient_from(p, s, i + 1)
    }
}

/// The coefficient of the power vector `s` in the polynomial `p`; zero
/// where `p` has no term with that power vector.
pub open spec fn coefficient(p: PolynomialView, s: Shape) -> int {
    coefficient_from(p, s, 0)
}

/// Two polynomials give every power vector the same coefficient.
pub open spec fn same_coefficients(p: PolynomialView, q: PolynomialView) -> bool {
    forall|s: Shape| coefficient(p, s) == coefficient(q, s)
}

/// The coefficients of a polynomial with one more term in front, from a
/// later index on.
pub proof fn lemma_coefficient_shift(h: MonomialView, rest: PolynomialView, s: Shape, k: int)
    requires
        0 <= k <= rest.len(),
    ensures
        coefficient_from(seq![h] + rest, s, k + 1) == coefficient_from(rest, s, k),
    decreases rest.len() - k,
{
    let p = seq![h] + rest;
    if k < rest.len() {
        lemma_coefficient_shift(h, rest, s, k + 1);
        assert(p[k + 1] == rest[k]);
    }
}

/// The coefficients of a polynomial with one more term in front.
pub proof fn lemma_coefficient_prepend(h: MonomialView, rest: PolynomialView, s: Shape)
    ensures
        coefficient(seq![h] + rest, s) == part(h, s) + coefficient(rest, s),
{
    let p = seq![h] + rest;
    lemma_coefficient_shift(h, rest, s, 0);
    assert(p[0] == h);
}

/// The coefficients of the part of a polynomial after its first `k` terms.
pub proof fn lemma_coefficient_subrange(p: PolynomialView, s: Shape, k: int, i: int)
    requires
        0 <= k <= p.len(),
        0 <= i <= p.len() - k,
    ensures
        coefficient_from(p.subrange(k, p.len() as int), s, i) == coefficient_from(p, s, k + i),
    decreases p.len() - k - i,
{
    let q = p.subrange(k, p.len() as int);
    if i < q.len() {
        lemma_coefficient_subrange(p, s, k, i + 1);
        assert(q[i] == p[k + i]);
    }
}

/// A sum gives every power vector the sum of its coefficients in the two
/// polynomials.
pub proof fn lemma_coefficient_add_from(
    a: PolynomialView,
    b: PolynomialView,
    i: int,
    j: int,
    s: Shape,
)
    requires
        0 <= i <= a.len(),
        0 <= j <= b.len(),
    ensures
        coefficient(add_from(a, b, i, j), s) == coefficient_from(a, s, i) + coefficient_from(
            b,
            s,
            j,
        ),
    decreases a.len() - i + b.len() - j,
{
    let r = add_from(a, b, i, j);
    if i >= a.len() && j >= b.len() {
    } else {
        let in_a = i < a.len() && (j >= b.len() || shape_order(a[i].powers, b[j].powers) >= 0);
        let in_b = j < b.len() && (i >= a.len() || shape_order(a[i].powers, b[j].powers) <= 0);
        let i2 = if in_a {
            i + 1
        } else {
            i
        };
        let j2 = if in_b {
            j + 1
        } else {
            j
        };
        let rest = add_from(a, b, i2, j2);
        lemma_coefficient_add_from(a, b, i2, j2, s);
        if in_a && in_b {
            lemma_shape_order_zero(a[i].powers, b[j].powers);
        }
        if r.len() != rest.len() {
            assert(r =~= seq![r[0]] + rest);
            lemma_coefficient_prepend(r[0], rest, s);
        }
    }
}

/// A sum gives every power vector the sum of its coefficients in the two
/// polynomials.
pub proof fn lemma_coefficient_add(a: PolynomialView, b: PolynomialView, s: Shape)
    ensures
        coefficient(polynomial_add(a, b), s) == coefficient(a, s) + coefficient(b, s),
{
    lemma_coefficient_add_from(a, b, 0, 0, s);
}

/// A negation gives every power vector the opposite coefficient.
pub proof fn lemma_coefficient_neg_from(a: PolynomialView, s: Shape, i: int)
    requires
        0 <= i <= a.len(),
    ensures
        coefficient_from(polynomial_neg(a), s, i) == -coefficient_from(a, s, i),
    decreases a.len() - i,
{
    if i < a.len() {
        lemma_coefficient_neg_from(a, s, i + 1);
    }
}

/// A polynomial of at most one term gives the power vector of that term its
/// coefficient, and every other power vector zero.
pub proof fn lemma_coefficient_single(m: MonomialView, s: Shape)
    ensures
        coefficient(single(m), s) == part(m, s),
{
    let p = single(m);
    if m.coefficient != 0 {
        assert(coefficient_from(p, s, 1) == 0);
    }
}

/// A power vector that is greater than every power vector of `p` from index
/// `i` on has the coefficient zero there.
pub proof fn lemma_coefficient_led(p: PolynomialView, s: Shape, i: int)
    requires
        0 <= i <= p.len(),
        leads(s, p, i),
    ensures
        coefficient_from(p, s, i) == 0,
    decreases p.len() - i,
{
    if i < p.len() {
        lemma_coefficient_led(p, s, i + 1);
        lemma_shape_order_zero(s, p[i].powers);
    }
}

/// In a canonical polynomial the power vector of a term has the coefficient
/// of that term.
pub proof fn lemma_coefficient_own(p: PolynomialView, i: int)
    requires
        polynomial_wf(p),
        0 <= i < p.len(),
    ensures
        coefficient_from(p, p[i].powers, i) == p[i].coefficient,
        leads(p[i].powers, p, i + 1),
{
    assert(leads(p[i].powers, p, i + 1));
    lemma_coefficient_led(p, p[i].powers, i + 1);
}

/// Two canonical polynomials that agree on their first `k` terms and give
/// every power vector the same coefficient from there on are the same.
pub proof fn lemma_canonical_unique_from(p: PolynomialView, q: PolynomialView, k: int)
    requires
        polynomial_wf(p),
        polynomial_wf(q),
        0 <= k <= p.len(),
        k <= q.len(),
        forall|i: int| 0 <= i < k ==> p[i] == q[i],
        forall|s: Shape| coefficient_from(p, s, k) == coefficient_from(q, s, k),
    ensures
        p == q,
    decreases p.len() - k,
{
    if k == p.len() {
        if k < q.len() {
            lemma_coefficient_own(q, k);
            assert(term_wf(q[k]));
            assert(coefficient_from(p, q[k].powers, k) == 0);
            assert(false);
        }
        assert(p =~= q);
    } else if k == q.len() {
        lemma_coefficient_own(p, k);
        assert(term_wf(p[k]));
        assert(coefficient_from(q, p[k].powers, k) == 0);
        assert(false);
    } else {
        let sp = p[k].powers;
        let sq = q[k].powers;
        lemma_coefficient_own(p, k);
        lemma_coefficient_own(q, k);
        assert(term_wf(p[k]));
        assert(term_wf(q[k]));
        lemma_shape_order_zero(sp, sq);
        lemma_shape_order_flip(sp, sq);
        if shape_order(sp, sq) > 0 {
            // sp is greater than every power vector of q from k on
            assert(leads(sp, q, k)) by {
                assert forall|l: int| k <= l < q.len() implies shape_order(
                    sp,
                    (#[trigger] q[l]).powers,
                ) > 0 by {
                    if l > k {
                        lemma_shape_order_trans(sp, sq, q[l].powers);
                    }
                }
            }
            lemma_coefficient_led(q, sp, k);
            assert(false);
        }
        if shape_order(sp, sq) < 0 {
            assert(leads(sq, p, k)) by {
                assert forall|l: int| k <= l < p.len() implies shape_order(
                    sq,
                    (#[trigger] p[l]).powers,
                ) > 0 by {
                    if l > k {
                        lemma_shape_order_trans(sq, sp, p[l].powers);
                    }
                }
            }
            lemma_coefficient_led(p, sq, k);
            assert(false);
        }
        assert(sp == sq);
        assert(coefficient_from(p, sp, k) == coefficient_from(q, sp, k));
        assert(p[k] == q[k]);
        let k1 = k + 1;
        assert forall|s: Shape| #[trigger] coefficient_from(p, s, k1) == coefficient_from(
            q,
            s,
            k1,
        ) by {
            assert(coefficient_from(p, s, k) == coefficient_from(q, s, k));
        }
        lemma_canonical_unique_from(p, q, k1);
    }
}

/// The canonical form is unique: two canonical polynomials that give every
/// power vector the same coefficient are the same sequence of terms.
pub proof fn lemma_canonical_unique(p: PolynomialView, q: PolynomialView)
    requires
        polynomial_wf(p),
        polynomial_wf(q),
        same_coefficients(p, q),
    ensures
        p == q,
{
    assert forall|s: Shape| coefficient_from(p, s, 0) == coefficient_from(q, s, 0) by {
        assert(coefficient(p, s) == coefficient(q, s));
    }
    lemma_canonical_unique_from(p, q, 0);
}

} // verus!
