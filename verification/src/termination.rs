//! Every step of the long division lowers the rank of the leading term of
//! what is left of the dividend.
use vstd::prelude::*;
use crate::algebra::{lemma_sub_wf, monomial_times, polynomial_neg};
use crate::coefficient::{
    coefficient, lemma_coefficient_add, lemma_coefficient_neg_from, lemma_coefficient_own,
};
use crate::division::{division_step, division_wf, Division};
use crate::exponent::{exponent, lemma_exponent_div, lemma_shape_div_mul};
use crate::model::{
    polynomial_wf, shape_wf, term_wf, CompositeView, MonomialView, PolynomialView, Shape,
};
use crate::monomial::monomial_checked_div;
use crate::primitives::Polynomial;
use crate::products::{lemma_times_coefficient, times_sum_from};
use crate::rank::{
    bounded, every_term, lemma_add_from_every, lemma_bounded, lemma_neg_every, lemma_rank_monotone,
    lemma_rank_mul, lemma_supported_mul, lemma_times_prefix_every, rank, shape_fits, supported,
    terms_supported,
};
use crate::shape::shape_mul;

verus! {

/// One more than the rank of the leading term; zero for the zero
/// polynomial.
pub open spec fn lead_rank(w: PolynomialView, u: Shape) -> nat {
    if w.len() == 0 {
        0
    } else {
        rank(w[0].powers, u) + 1
    }
}

/// No term of `p` gives a factor a power above 255.
pub open spec fn terms_bounded(p: PolynomialView) -> bool {
    forall|k: int| 0 <= k < p.len() ==> bounded((#[trigger] p[k]).powers)
}

/// The view of a canonical polynomial holds no power above 255.
pub proof fn lemma_view_bounded(p: &Polynomial)
    requires
        p.wf(),
    ensures
        terms_bounded(p@),
{
    assert forall|k: int| 0 <= k < p@.len() implies bounded((#[trigger] p@[k]).powers) by {
        assert(term_wf(p@[k]));
        assert(shape_fits(p@[k].powers));
        lemma_bounded(p@[k].powers);
    }
}

/// A monomial none of whose products with the terms of `x` from index `j`
/// on has the power vector `s` adds nothing to the coefficient of `s`.
pub proof fn lemma_times_sum_absent(m: MonomialView, x: PolynomialView, s: Shape, j: int)
    requires
        0 <= j <= x.len(),
        forall|k: int| j <= k < x.len() ==> #[trigger] shape_mul(m.powers, x[k].powers) != s,
    ensures
        times_sum_from(m, x, s, j) == 0,
    decreases x.len() - j,
{
    if j < x.len() {
        lemma_times_sum_absent(m, x, s, j + 1);
        assert(shape_mul(m.powers, x[j].powers) != s);
    }
}

/// A step of the division keeps the terms of what is left over the factors
/// of `u` and lowers the rank of its leading term.
pub proof fn lemma_division_step_decreases(s: Division, b: PolynomialView, u: Shape)
    requires
        division_wf(s),
        polynomial_wf(b),
        s.work.len() > 0,
        b.len() > 0,
        shape_wf(u),
        terms_supported(s.work, u),
        terms_supported(b, u),
        terms_bounded(s.work),
        terms_bounded(b),
    ensures
        terms_supported(division_step(s, b).work, u),
        lead_rank(division_step(s, b).work, u) < lead_rank(s.work, u),
{
    let w = s.work;
    let s0 = w[0].powers;
    let r0 = rank(s0, u);
    let next = division_step(s, b).work;
    let holds = |x: Shape| supported(x, u) && (rank(x, u) < r0 || x == s0);
    assert(term_wf(w[0]));
    assert(term_wf(b[0]));
    assert(every_term(w, 0, holds)) by {
        assert forall|k: int| 0 <= k < w.len() implies holds((#[trigger] w[k]).powers) by {
            if k > 0 {
                assert(term_wf(w[k]));
                lemma_rank_monotone(s0, w[k].powers, u);
            }
        }
    }
    match monomial_checked_div(w[0], b[0]) {
        Some(t) => {
            let tb = monomial_times(t, b);
            lemma_shape_div_mul(s0, b[0].powers);
            assert(supported(t.powers, u)) by {
                assert forall|f: CompositeView| #[trigger] exponent(t.powers, f) > 0 implies exponent(
                    u,
                    f,
                ) > 0 by {
                    lemma_exponent_div(s0, b[0].powers, f);
                    assert(exponent(s0, f) > 0);
                }
            }
            assert forall|k: int| 0 <= k < b.len() implies holds(
                #[trigger] shape_mul(t.powers, b[k].powers),
            ) by {
                lemma_supported_mul(t.powers, b[k].powers, u);
                lemma_rank_mul(t.powers, b[k].powers, u, 0);
                lemma_rank_mul(t.powers, b[0].powers, u, 0);
                if k > 0 {
                    assert(term_wf(b[k]));
                    lemma_rank_monotone(b[0].powers, b[k].powers, u);
                }
            }
            lemma_times_prefix_every(t, b, b.len() as int, holds);
            lemma_neg_every(tb, holds);
            lemma_add_from_every(w, polynomial_neg(tb), 0, 0, holds);
            assert(every_term(next, 0, holds));
            assert(terms_supported(next, u)) by {
                assert forall|k: int| 0 <= k < next.len() implies supported(
                    (#[trigger] next[k]).powers,
                    u,
                ) by {
                    assert(holds(next[k].powers));
                }
            }
            if next.len() > 0 {
                // the leading term of the dividend is cancelled
                assert(coefficient(next, s0) == 0) by {
                    lemma_coefficient_add(w, polynomial_neg(tb), s0);
                    lemma_coefficient_neg_from(tb, s0, 0);
                    lemma_times_coefficient(t, b, s0);
                    lemma_coefficient_own(w, 0);
                    assert forall|k: int| 1 <= k < b.len() implies #[trigger] shape_mul(
                        t.powers,
                        b[k].powers,
                    ) != s0 by {
                        lemma_rank_mul(t.powers, b[k].powers, u, 0);
                        lemma_rank_mul(t.powers, b[0].powers, u, 0);
                        assert(term_wf(b[k]));
                        lemma_rank_monotone(b[0].powers, b[k].powers, u);
                    }
                    lemma_times_sum_absent(t, b, s0, 1);
                    vstd::arithmetic::div_mod::lemma_fundamental_div_mod(
                        w[0].coefficient,
                        b[0].coefficient,
                    );
                    assert(t.coefficient * b[0].coefficient == w[0].coefficient) by (nonlinear_arith)
                        requires
                            w[0].coefficient == b[0].coefficient * (w[0].coefficient
                                / b[0].coefficient) + w[0].coefficient % b[0].coefficient,
                            w[0].coefficient % b[0].coefficient == 0,
                            t.coefficient == w[0].coefficient / b[0].coefficient,
                    ;
                }
                crate::shape::lemma_shape_div_wf(s0, b[0].powers);
                crate::algebra::lemma_times_prefix_wf(t, b, b.len() as int);
                lemma_sub_wf(w, tb);
                lemma_coefficient_own(next, 0);
                assert(term_wf(next[0]));
                assert(holds(next[0].powers));
            }
        },
        None => {
            assert forall|k: int| 0 <= k < next.len() implies supported(
                (#[trigger] next[k]).powers,
                u,
            ) by {
                assert(next[k] == w[k + 1]);
            }
            if next.len() > 0 {
                assert(next[0] == w[1]);
                assert(holds(w[1].powers));
                lemma_rank_monotone(s0, w[1].powers, u);
            }
        },
    }
}

} // verus!
