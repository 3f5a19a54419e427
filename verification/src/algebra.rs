//! Sums, differences and products of polynomial views.
use vstd::prelude::*;
use crate::model::{
    monomial_fits, polynomial_fits, polynomial_wf, shape_order, shape_wf, term_wf, MonomialView,
    PolynomialView, Shape,
};
use crate::monomial::{monomial_neg, monomial_scale};
use crate::order::{lemma_shape_order_flip, lemma_shape_order_trans, lemma_shape_order_zero};
use crate::shape::{lemma_shape_mul_wf, monomial_mul};

verus! {

/// The sum of the parts of two polynomials from the indices `i` and `j` on:
/// the two descending sequences of terms are merged; two terms with the same
/// power vector become one term with the sum of their coefficients, or none
/// where that sum is zero.
pub open spec fn add_from(a: PolynomialView, b: PolynomialView, i: int, j: int) -> PolynomialView
    decreases a.len() - i + b.len() - j,
{
    if i < 0 || j < 0 || i > a.len() || j > b.len() || (i >= a.len() && j >= b.len()) {
        Seq::empty()
    } else if i >= a.len() {
        seq![b[j]] + add_from(a, b, i, j + 1)
    } else if j >= b.len() {
        seq![a[i]] + add_from(a, b, i + 1, j)
    } else {
        let c = shape_order(a[i].powers, b[j].powers);
        if c > 0 {
            seq![a[i]] + add_from(a, b, i + 1, j)
        } else if c < 0 {
            seq![b[j]] + add_from(a, b, i, j + 1)
        } else if a[i].coefficient + b[j].coefficient == 0 {
            add_from(a, b, i + 1, j + 1)
        } else {
            seq![
                MonomialView {
                    coefficient: a[i].coefficient + b[j].coefficient,
                    powers: a[i].powers,
                },
            ] + add_from(a, b, i + 1, j + 1)
        }
    }
}

/// The sum of two polynomials.
pub open spec fn polynomial_add(a: PolynomialView, b: PolynomialView) -> PolynomialView {
    add_from(a, b, 0, 0)
}

/// The polynomial with every coefficient negated.
pub open spec fn polynomial_neg(a: PolynomialView) -> PolynomialView {
    Seq::new(a.len(), |i: int| monomial_neg(a[i]))
}

/// The difference of two polynomials.
pub open spec fn polynomial_sub(a: PolynomialView, b: PolynomialView) -> PolynomialView {
    polynomial_add(a, polynomial_neg(b))
}

/// The polynomial with every coefficient multiplied by `c`.
pub open spec fn polynomial_scale(a: PolynomialView, c: int) -> PolynomialView {
    if c == 0 {
        Seq::empty()
    } else {
        Seq::new(a.len(), |i: int| monomial_scale(a[i], c))
    }
}

/// The polynomial of one term `m`, or the zero polynomial where the
/// coefficient of `m` is zero.
pub open spec fn single(m: MonomialView) -> PolynomialView {
    if m.coefficient == 0 {
        Seq::empty()
    } else {
        seq![m]
    }
}

/// The product of the monomial `m` and the first `n` terms of `b`, summed
/// term by term.
pub open spec fn times_prefix(m: MonomialView, b: PolynomialView, n: int) -> PolynomialView
    decreases n,
{
    if n <= 0 || n > b.len() {
        Seq::empty()
    } else {
        polynomial_add(times_prefix(m, b, n - 1), single(monomial_mul(m, b[n - 1])))
    }
}

/// The product of a monomial and a polynomial.
pub open spec fn monomial_times(m: MonomialView, b: PolynomialView) -> PolynomialView {
    times_prefix(m, b, b.len() as int)
}

/// The product of the first `n` terms of `a` and the polynomial `b`, summed
/// term by term.
pub open spec fn mul_prefix(a: PolynomialView, b: PolynomialView, n: int) -> PolynomialView
    decreases n,
{
    if n <= 0 || n > a.len() {
        Seq::empty()
    } else {
        polynomial_add(mul_prefix(a, b, n - 1), monomial_times(a[n - 1], b))
    }
}

/// The product of two polynomials.
pub open spec fn polynomial_mul(a: PolynomialView, b: PolynomialView) -> PolynomialView {
    mul_prefix(a, b, a.len() as int)
}

/// The power vector `x` is greater than the power vector of every term of
/// `p` from index `i` on.
pub open spec fn leads(x: Shape, p: PolynomialView, i: int) -> bool {
    forall|k: int| i <= k < p.len() ==> shape_order(x, (#[trigger] p[k]).powers) > 0
}

/// A power vector that is greater than what is left of both polynomials is
/// greater than every term of their sum.
pub proof fn lemma_add_from_led(a: PolynomialView, b: PolynomialView, i: int, j: int, x: Shape)
    requires
        0 <= i <= a.len(),
        0 <= j <= b.len(),
        leads(x, a, i),
        leads(x, b, j),
    ensures
        leads(x, add_from(a, b, i, j), 0),
    decreases a.len() - i + b.len() - j,
{
    let r = add_from(a, b, i, j);
    if i >= a.len() && j >= b.len() {
    } else {
        let in_a = i < a.len() && (j >= b.len() || shape_order(a[i].powers, b[j].powers) >= 0);
        let in_b = j < b.len() && (i >= a.len() || shape_order(a[i].powers, b[j].powers) <= 0);
        let i2 = if in_a {
            i + 1
        } else {
            i
        };
        let j2 = if in_b {
            j + 1
        } else {
            j
        };
        let rest = add_from(a, b, i2, j2);
        lemma_add_from_led(a, b, i2, j2, x);
        if r.len() != rest.len() {
            assert(r =~= seq![r[0]] + rest);
            assert(r[0].powers == if in_a {
                a[i].powers
            } else {
                b[j].powers
            });
            assert forall|k: int| 0 <= k < r.len() implies shape_order(
                x,
                (#[trigger] r[k]).powers,
            ) > 0 by {
                if k > 0 {
                    assert(r[k] == rest[k - 1]);
                }
            }
        }
    }
}

/// The sum of two canonical polynomials is canonical.
pub proof fn lemma_add_from_wf(a: PolynomialView, b: PolynomialView, i: int, j: int)
    requires
        polynomial_wf(a),
        polynomial_wf(b),
        0 <= i <= a.len(),
        0 <= j <= b.len(),
    ensures
        polynomial_wf(add_from(a, b, i, j)),
    decreases a.len() - i + b.len() - j,
{
    let r = add_from(a, b, i, j);
    if i >= a.len() && j >= b.len() {
    } else {
        let in_a = i < a.len() && (j >= b.len() || shape_order(a[i].powers, b[j].powers) >= 0);
        let in_b = j < b.len() && (i >= a.len() || shape_order(a[i].powers, b[j].powers) <= 0);
        let i2 = if in_a {
            i + 1
        } else {
            i
        };
        let j2 = if in_b {
            j + 1
        } else {
            j
        };
        let rest = add_from(a, b, i2, j2);
        lemma_add_from_wf(a, b, i2, j2);
        if r.len() != rest.len() {
            let head = r[0];
            assert(r =~= seq![head] + rest);
            assert(head.powers == if in_a {
                a[i].powers
            } else {
                b[j].powers
            });
            assert(term_wf(head)) by {
                if in_a {
                    assert(term_wf(a[i]));
                } else {
                    assert(term_wf(b[j]));
                }
            }
            assert(leads(head.powers, a, i2)) by {
                assert forall|k: int| i2 <= k < a.len() implies shape_order(
                    head.powers,
                    (#[trigger] a[k]).powers,
                ) > 0 by {
                    if !in_a {
                        lemma_shape_order_flip(a[i].powers, b[j].powers);
                        if k > i {
                            lemma_shape_order_trans(b[j].powers, a[i].powers, a[k].powers);
                        }
                    }
                }
            }
            assert(leads(head.powers, b, j2)) by {
                assert forall|k: int| j2 <= k < b.len() implies shape_order(
                    head.powers,
                    (#[trigger] b[k]).powers,
                ) > 0 by {
                    if in_b {
                        if in_a {
                            lemma_shape_order_zero(a[i].powers, b[j].powers);
                        }
                    } else {
                        if k > j {
                            lemma_shape_order_trans(a[i].powers, b[j].powers, b[k].powers);
                        }
                    }
                }
            }
            lemma_add_from_led(a, b, i2, j2, head.powers);
            assert forall|k: int| 0 <= k < r.len() implies term_wf(#[trigger] r[k]) by {
                if k > 0 {
                    assert(r[k] == rest[k - 1]);
                }
            }
            assert forall|k: int, l: int| 0 <= k < l < r.len() implies shape_order(
                (#[trigger] r[k]).powers,
                (#[trigger] r[l]).powers,
            ) > 0 by {
                assert(r[l] == rest[l - 1]);
                if k > 0 {
                    assert(r[k] == rest[k - 1]);
                }
            }
        }
    }
}

/// The sum of two canonical polynomials is canonical.
pub proof fn lemma_add_wf(a: PolynomialView, b: PolynomialView)
    requires
        polynomial_wf(a),
        polynomial_wf(b),
    ensures
        polynomial_wf(polynomial_add(a, b)),
{
    lemma_add_from_wf(a, b, 0, 0);
}

/// The negation of a canonical polynomial is canonical.
pub proof fn lemma_neg_wf(a: PolynomialView)
    requires
        polynomial_wf(a),
    ensures
        polynomial_wf(polynomial_neg(a)),
{
    let r = polynomial_neg(a);
    assert forall|i: int| 0 <= i < r.len() implies term_wf(#[trigger] r[i]) by {
        assert(term_wf(a[i]));
    }
    assert forall|i: int, j: int| 0 <= i < j < r.len() implies shape_order(
        (#[trigger] r[i]).powers,
        (#[trigger] r[j]).powers,
    ) > 0 by {
        assert(shape_order(a[i].powers, a[j].powers) > 0);
    }
}

/// The difference of two canonical polynomials is canonical.
pub proof fn lemma_sub_wf(a: PolynomialView, b: PolynomialView)
    requires
        polynomial_wf(a),
        polynomial_wf(b),
    ensures
        polynomial_wf(polynomial_sub(a, b)),
{
    lemma_neg_wf(b);
    lemma_add_wf(a, polynomial_neg(b));
}

/// A canonical polynomial multiplied by a constant is canonical.
pub proof fn lemma_scale_wf(a: PolynomialView, c: int)
    requires
        polynomial_wf(a),
    ensures
        polynomial_wf(polynomial_scale(a, c)),
{
    let r = polynomial_scale(a, c);
    if c != 0 {
        assert forall|i: int| 0 <= i < r.len() implies term_wf(#[trigger] r[i]) by {
            assert(term_wf(a[i]));
            assert(a[i].coefficient * c != 0) by (nonlinear_arith)
                requires
                    a[i].coefficient != 0,
                    c != 0,
            ;
        }
        assert forall|i: int, j: int| 0 <= i < j < r.len() implies shape_order(
            (#[trigger] r[i]).powers,
            (#[trigger] r[j]).powers,
        ) > 0 by {
            assert(shape_order(a[i].powers, a[j].powers) > 0);
        }
    }
}

/// A polynomial of at most one term with a canonical power vector is
/// canonical.
pub proof fn lemma_single_wf(m: MonomialView)
    requires
        shape_wf(m.powers),
    ensures
        polynomial_wf(single(m)),
{
}

/// The product of a monomial with a canonical power vector and a canonical
/// polynomial is canonical.
pub proof fn lemma_times_prefix_wf(m: MonomialView, b: PolynomialView, n: int)
    requires
        shape_wf(m.powers),
        polynomial_wf(b),
    ensures
        polynomial_wf(times_prefix(m, b, n)),
    decreases n,
{
    if 0 < n <= b.len() {
        lemma_times_prefix_wf(m, b, n - 1);
        assert(term_wf(b[n - 1]));
        lemma_shape_mul_wf(m.powers, b[n - 1].powers);
        lemma_single_wf(monomial_mul(m, b[n - 1]));
        lemma_add_wf(times_prefix(m, b, n - 1), single(monomial_mul(m, b[n - 1])));
    }
}

/// The product of two canonical polynomials is canonical.
pub proof fn lemma_mul_prefix_wf(a: PolynomialView, b: PolynomialView, n: int)
    requires
        polynomial_wf(a),
        polynomial_wf(b),
    ensures
        polynomial_wf(mul_prefix(a, b, n)),
    decreases n,
{
    if 0 < n <= a.len() {
        lemma_mul_prefix_wf(a, b, n - 1);
        assert(term_wf(a[n - 1]));
        lemma_times_prefix_wf(a[n - 1], b, b.len() as int);
        lemma_add_wf(mul_prefix(a, b, n - 1), monomial_times(a[n - 1], b));
    }
}

/// The product of two canonical polynomials is canonical.
pub proof fn lemma_mul_wf(a: PolynomialView, b: PolynomialView)
    requires
        polynomial_wf(a),
        polynomial_wf(b),
    ensures
        polynomial_wf(polynomial_mul(a, b)),
{
    lemma_mul_prefix_wf(a, b, a.len() as int);
}

/// Whether every coefficient and power that arises when the product of `m`
/// and `b` is summed term by term fits the machine types.
pub open spec fn times_fits(m: MonomialView, b: PolynomialView) -> bool {
    &&& forall|j: int| 0 <= j < b.len() ==> monomial_fits(#[trigger] monomial_mul(m, b[j]))
    &&& forall|n: int| 0 <= n <= b.len() ==> polynomial_fits(#[trigger] times_prefix(m, b, n))
}

/// Whether every coefficient and power that arises when the product of `a`
/// and `b` is summed term by term fits the machine types.
pub open spec fn mul_fits(a: PolynomialView, b: PolynomialView) -> bool {
    &&& forall|i: int| 0 <= i < a.len() ==> times_fits(#[trigger] a[i], b)
    &&& forall|n: int| 0 <= n <= a.len() ==> polynomial_fits(#[trigger] mul_prefix(a, b, n))
}

} // verus!
