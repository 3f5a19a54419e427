//! No term of the remainder of a long division can be divided by the
//! leading term of the divisor.
use vstd::prelude::*;
use crate::algebra::{lemma_add_wf, lemma_single_wf, polynomial_add, single};
use crate::coefficient::{
    coefficient, lemma_canonical_unique, lemma_coefficient_add, lemma_coefficient_single,
};
use crate::division::{
    division_completes, division_in_range, division_run, division_start, division_step,
    division_step_fits, division_wf, lemma_division_step_wf, long_division, Division,
};
use crate::exactness::{lemma_coefficient_push, lemma_fits_bounded};
use crate::model::{
    polynomial_fits, polynomial_wf, shape_order, shape_wf, term_wf, MonomialView, PolynomialView,
    Shape,
};
use crate::monomial::monomial_checked_div;
use crate::order::{lemma_shape_order_flip, lemma_shape_order_zero};
use crate::rank::{
    all_factors, bounded, lemma_all_factors, lemma_rank_monotone, rank, supported, terms_supported,
};
use crate::termination::{lead_rank, lemma_division_step_decreases, terms_bounded};

verus! {

/// Of two canonical power vectors over the factors of `u`, the one with the
/// higher rank is the greater one.
pub proof fn lemma_rank_order(x: Shape, y: Shape, u: Shape)
    requires
        shape_wf(x),
        shape_wf(y),
        shape_wf(u),
        supported(y, u),
        bounded(x),
        rank(x, u) > rank(y, u),
    ensures
        shape_order(x, y) > 0,
{
    lemma_shape_order_zero(x, y);
    lemma_shape_order_flip(x, y);
    if shape_order(x, y) < 0 {
        lemma_rank_monotone(y, x, u);
    }
}

/// A term that is smaller than every term of a canonical polynomial is
/// added behind them.
pub proof fn lemma_add_push(p: PolynomialView, t: MonomialView)
    requires
        polynomial_wf(p),
        term_wf(t),
        forall|k: int| 0 <= k < p.len() ==> shape_order((#[trigger] p[k]).powers, t.powers) > 0,
    ensures
        polynomial_add(p, single(t)) == p.push(t),
{
    let q = p.push(t);
    assert(polynomial_wf(q)) by {
        assert forall|k: int| 0 <= k < q.len() implies term_wf(#[trigger] q[k]) by {
            if k < p.len() {
                assert(q[k] == p[k]);
            }
        }
        assert forall|k: int, l: int| 0 <= k < l < q.len() implies shape_order(
            (#[trigger] q[k]).powers,
            (#[trigger] q[l]).powers,
        ) > 0 by {
            assert(q[k] == p[k]);
            if l < p.len() {
                assert(q[l] == p[l]);
            }
        }
    }
    lemma_single_wf(t);
    lemma_add_wf(p, single(t));
    assert forall|s: Shape| coefficient(polynomial_add(p, single(t)), s) == coefficient(q, s) by {
        lemma_coefficient_add(p, single(t), s);
        lemma_coefficient_single(t, s);
        lemma_coefficient_push(p, t, s, 0);
    }
    lemma_canonical_unique(polynomial_add(p, single(t)), q);
}

/// No term of `r` can be divided by the monomial `m`.
pub open spec fn indivisible(r: PolynomialView, m: MonomialView) -> bool {
    forall|k: int| 0 <= k < r.len() ==> monomial_checked_div(#[trigger] r[k], m) is None
}

/// The terms of the remainder found so far cannot be divided by the
/// leading term of the divisor, and they rank above the leading term of
/// what is left of the dividend.
spec fn remainder_above(s: Division, b: PolynomialView, u: Shape) -> bool {
    &&& indivisible(s.remainder, b[0])
    &&& terms_supported(s.remainder, u)
    &&& terms_bounded(s.remainder)
    &&& forall|k: int|
        0 <= k < s.remainder.len() ==> rank((#[trigger] s.remainder[k]).powers, u) + 1 > lead_rank(
            s.work,
            u,
        )
}

proof fn lemma_remainder_step(s: Division, b: PolynomialView, u: Shape)
    requires
        division_wf(s),
        polynomial_wf(b),
        s.work.len() > 0,
        b.len() > 0,
        shape_wf(u),
        terms_supported(s.work, u),
        terms_supported(b, u),
        terms_bounded(s.work),
        terms_bounded(b),
        remainder_above(s, b, u),
    ensures
        remainder_above(division_step(s, b), b, u),
{
    let next = division_step(s, b);
    lemma_division_step_decreases(s, b, u);
    let w0 = s.work[0];
    assert(term_wf(w0));
    if monomial_checked_div(w0, b[0]) is None {
        assert forall|k: int| 0 <= k < s.remainder.len() implies shape_order(
            (#[trigger] s.remainder[k]).powers,
            w0.powers,
        ) > 0 by {
            assert(term_wf(s.remainder[k]));
            lemma_rank_order(s.remainder[k].powers, w0.powers, u);
        }
        lemma_add_push(s.remainder, w0);
        let r = next.remainder;
        assert(r == s.remainder.push(w0));
        assert forall|k: int| 0 <= k < r.len() implies monomial_checked_div(
            #[trigger] r[k],
            b[0],
        ) is None && supported(r[k].powers, u) && bounded(r[k].powers) && rank(r[k].powers, u) + 1
            > lead_rank(next.work, u) by {
            if k < s.remainder.len() {
                assert(r[k] == s.remainder[k]);
            } else {
                assert(r[k] == w0);
            }
        }
    } else {
        assert forall|k: int| 0 <= k < next.remainder.len() implies rank(
            (#[trigger] next.remainder[k]).powers,
            u,
        ) + 1 > lead_rank(next.work, u) by {
            assert(next.remainder[k] == s.remainder[k]);
        }
    }
}

proof fn lemma_remainder_run(s: Division, b: PolynomialView, u: Shape, n: nat)
    requires
        division_wf(s),
        polynomial_wf(b),
        b.len() > 0,
        shape_wf(u),
        terms_supported(s.work, u),
        terms_supported(b, u),
        polynomial_fits(s.work),
        terms_bounded(b),
        remainder_above(s, b, u),
        division_run(s, b, n) is Some,
    ensures
        indivisible(division_run(s, b, n).unwrap().remainder, b[0]),
    decreases n,
{
    if s.work.len() > 0 {
        let next = division_step(s, b);
        lemma_fits_bounded(s.work);
        lemma_division_step_wf(s, b);
        lemma_division_step_decreases(s, b, u);
        lemma_remainder_step(s, b, u);
        assert(division_step_fits(s, b));
        assert(polynomial_fits(next.work)) by {
            if monomial_checked_div(s.work[0], b[0]) is None {
                assert forall|k: int| 0 <= k < next.work.len() implies crate::model::monomial_fits(
                    #[trigger] next.work[k],
                ) by {
                    assert(next.work[k] == s.work[k + 1]);
                }
            }
        }
        lemma_remainder_run(next, b, u, (n - 1) as nat);
    }
}

/// No term of the remainder of a long division can be divided by the
/// leading term of the divisor.
pub proof fn lemma_remainder_indivisible(a: PolynomialView, b: PolynomialView)
    requires
        polynomial_wf(a),
        polynomial_wf(b),
        polynomial_fits(a),
        polynomial_fits(b),
        division_in_range(a, b),
    ensures
        indivisible(long_division(a, b).1, b[0]),
{
    let u = all_factors(a, b);
    let n = choose|n: nat| division_completes(a, b, n);
    lemma_all_factors(a, b);
    lemma_fits_bounded(b);
    lemma_remainder_run(division_start(a), b, u, n);
}

} // verus!
