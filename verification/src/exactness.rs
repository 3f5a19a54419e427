//! The long division finds a factor again: the product of a polynomial and
//! a divisor, divided by the divisor, is the polynomial, without a
//! remainder.
use vstd::prelude::*;
use crate::algebra::{
    lemma_add_wf, lemma_mul_wf, lemma_single_wf, lemma_sub_wf, lemma_times_prefix_wf,
    monomial_times, mul_prefix, polynomial_mul, polynomial_neg, single,
};
use crate::coefficient::{
    coefficient, coefficient_from, lemma_canonical_unique, lemma_coefficient_add,
    lemma_coefficient_neg_from, lemma_coefficient_own, lemma_coefficient_single, part,
};
use crate::division::{
    division_completes, division_in_range, division_run, division_start, division_step,
    division_step_fits, long_division, Division,
};
use crate::exponent::lemma_shape_div_of_product;
use crate::functions::{
    both_constant, ceil_model, exact_quotient, factor_polynomial, floor_model, max_model, min_model,
};
use crate::laws::{lemma_add_zero, lemma_division_identity};
use crate::model::{
    composite_wf, monomial_fits, polynomial_fits, polynomial_wf, shape_order, shape_wf, term_wf,
    CompositeView, MonomialView, PolynomialView, Shape,
};
use crate::monomial::monomial_checked_div;
use crate::numeric::{fits_i64, lemma_exact_div};
use crate::products::{lemma_mul_coefficient, lemma_times_coefficient, mul_sum_from};
use crate::rank::{
    all_factors, every_term, lemma_add_from_every, lemma_all_factors, lemma_bounded,
    lemma_rank_monotone, lemma_rank_mul, lemma_supported_mul, lemma_times_prefix_every, rank,
    shape_fits, supported,
};
use crate::shape::{lemma_shape_mul_wf, monomial_mul, shape_mul};
use crate::termination::{lemma_times_sum_absent, terms_bounded};

verus! {

/// A canonical polynomial whose terms fit the machine types gives no
/// factor a power above 255.
pub proof fn lemma_fits_bounded(p: PolynomialView)
    requires
        polynomial_wf(p),
        polynomial_fits(p),
    ensures
        terms_bounded(p),
{
    assert forall|k: int| 0 <= k < p.len() implies crate::rank::bounded(
        (#[trigger] p[k]).powers,
    ) by {
        assert(term_wf(p[k]));
        assert(monomial_fits(p[k]));
        assert(shape_fits(p[k].powers));
        lemma_bounded(p[k].powers);
    }
}

/// A part of a canonical polynomial is canonical.
pub proof fn lemma_subrange_wf(p: PolynomialView, i: int, j: int)
    requires
        polynomial_wf(p),
        0 <= i <= j <= p.len(),
    ensures
        polynomial_wf(p.subrange(i, j)),
{
    let q = p.subrange(i, j);
    assert forall|k: int| 0 <= k < q.len() implies term_wf(#[trigger] q[k]) by {
        assert(q[k] == p[i + k]);
    }
    assert forall|k: int, l: int| 0 <= k < l < q.len() implies shape_order(
        (#[trigger] q[k]).powers,
        (#[trigger] q[l]).powers,
    ) > 0 by {
        assert(q[k] == p[i + k]);
        assert(q[l] == p[i + l]);
    }
}

/// A polynomial without a term of the power vector `s` from index `i` on
/// gives it the coefficient zero there.
pub proof fn lemma_coefficient_none(p: PolynomialView, s: Shape, i: int)
    requires
        0 <= i <= p.len(),
        forall|k: int| i <= k < p.len() ==> (#[trigger] p[k]).powers != s,
    ensures
        coefficient_from(p, s, i) == 0,
    decreases p.len() - i,
{
    if i < p.len() {
        lemma_coefficient_none(p, s, i + 1);
    }
}

/// The coefficients of a polynomial with one more term behind it.
pub proof fn lemma_coefficient_push(p: PolynomialView, t: MonomialView, s: Shape, i: int)
    requires
        0 <= i <= p.len(),
    ensures
        coefficient_from(p.push(t), s, i) == coefficient_from(p, s, i) + part(t, s),
    decreases p.len() - i,
{
    let q = p.push(t);
    if i < p.len() {
        lemma_coefficient_push(p, t, s, i + 1);
        assert(q[i] == p[i]);
    } else {
        assert(q[i] == t);
        assert(coefficient_from(q, s, i + 1) == 0);
    }
}

/// The products of the terms of a part of a polynomial.
pub proof fn lemma_mul_sum_subrange(
    a: PolynomialView,
    b: PolynomialView,
    s: Shape,
    k: int,
    i: int,
)
    requires
        0 <= k <= a.len(),
        0 <= i <= a.len() - k,
    ensures
        mul_sum_from(a.subrange(k, a.len() as int), b, s, i) == mul_sum_from(a, b, s, k + i),
    decreases a.len() - k - i,
{
    let q = a.subrange(k, a.len() as int);
    if i < q.len() {
        lemma_mul_sum_subrange(a, b, s, k, i + 1);
        assert(q[i] == a[k + i]);
    }
}

/// Terms none of whose products with the terms of `b` has the power vector
/// `s` add nothing to the coefficient of `s` in the product.
pub proof fn lemma_mul_sum_absent(a: PolynomialView, b: PolynomialView, s: Shape, i: int)
    requires
        0 <= i <= a.len(),
        forall|k: int, l: int|
            i <= k < a.len() && 0 <= l < b.len() ==> #[trigger] shape_mul(
                a[k].powers,
                b[l].powers,
            ) != s,
    ensures
        mul_sum_from(a, b, s, i) == 0,
    decreases a.len() - i,
{
    if i < a.len() {
        lemma_mul_sum_absent(a, b, s, i + 1);
        assert forall|l: int| 0 <= l < b.len() implies #[trigger] shape_mul(
            a[i].powers,
            b[l].powers,
        ) != s by {}
        lemma_times_sum_absent(a[i], b, s, 0);
    }
}

/// What holds of the power vectors of the products of all pairs of terms
/// holds of the power vectors of the terms of the product.
pub proof fn lemma_mul_prefix_every(
    a: PolynomialView,
    b: PolynomialView,
    n: int,
    holds: spec_fn(Shape) -> bool,
)
    requires
        0 <= n <= a.len(),
        forall|k: int, l: int|
            0 <= k < n && 0 <= l < b.len() ==> holds(
                #[trigger] shape_mul(a[k].powers, b[l].powers),
            ),
    ensures
        every_term(mul_prefix(a, b, n), 0, holds),
    decreases n,
{
    if n > 0 {
        lemma_mul_prefix_every(a, b, n - 1, holds);
        assert forall|l: int| 0 <= l < b.len() implies holds(
            #[trigger] shape_mul(a[n - 1].powers, b[l].powers),
        ) by {}
        lemma_times_prefix_every(a[n - 1], b, b.len() as int, holds);
        lemma_add_from_every(mul_prefix(a, b, n - 1), monomial_times(a[n - 1], b), 0, 0, holds);
    }
}

/// The leading term of a product is the product of the leading terms.
pub proof fn lemma_leading_product(d: PolynomialView, b: PolynomialView)
    requires
        polynomial_wf(d),
        polynomial_wf(b),
        d.len() > 0,
        b.len() > 0,
        terms_bounded(d),
        terms_bounded(b),
        terms_bounded(polynomial_mul(d, b)),
    ensures
        polynomial_mul(d, b).len() > 0,
        polynomial_mul(d, b)[0] == monomial_mul(d[0], b[0]),
{
    let m = polynomial_mul(d, b);
    let u = all_factors(d, b);
    let top = shape_mul(d[0].powers, b[0].powers);
    let r = rank(top, u);
    lemma_all_factors(d, b);
    lemma_mul_wf(d, b);
    assert(term_wf(d[0]));
    assert(term_wf(b[0]));
    lemma_shape_mul_wf(d[0].powers, b[0].powers);
    lemma_rank_mul(d[0].powers, b[0].powers, u, 0);
    let holds = |x: Shape| supported(x, u) && rank(x, u) <= r;
    assert forall|k: int, l: int| 0 <= k < d.len() && 0 <= l < b.len() implies holds(
        #[trigger] shape_mul(d[k].powers, b[l].powers),
    ) && (k > 0 || l > 0 ==> shape_mul(d[k].powers, b[l].powers) != top) by {
        assert(term_wf(d[k]));
        assert(term_wf(b[l]));
        lemma_supported_mul(d[k].powers, b[l].powers, u);
        lemma_rank_mul(d[k].powers, b[l].powers, u, 0);
        if k > 0 {
            lemma_rank_monotone(d[0].powers, d[k].powers, u);
        }
        if l > 0 {
            lemma_rank_monotone(b[0].powers, b[l].powers, u);
        }
    }
    lemma_mul_prefix_every(d, b, d.len() as int, holds);
    // only the product of the leading terms has the power vector `top`
    lemma_mul_coefficient(d, b, top);
    lemma_times_sum_absent(d[0], b, top, 1);
    lemma_mul_sum_absent(d, b, top, 1);
    let c = d[0].coefficient * b[0].coefficient;
    assert(c != 0) by (nonlinear_arith)
        requires
            c == d[0].coefficient * b[0].coefficient,
            d[0].coefficient != 0,
            b[0].coefficient != 0,
    ;
    assert(coefficient(m, top) == c);
    if forall|k: int| 0 <= k < m.len() ==> (#[trigger] m[k]).powers != top {
        lemma_coefficient_none(m, top, 0);
        assert(false);
    }
    let at = choose|k: int| 0 <= k < m.len() && (#[trigger] m[k]).powers == top;
    if at > 0 {
        assert(term_wf(m[0]));
        assert(holds(m[0].powers));
        lemma_rank_monotone(m[0].powers, top, u);
        assert(false);
    }
    lemma_coefficient_own(m, 0);
}

/// The product of two monomials divided by the second is the first.
pub proof fn lemma_monomial_div_of_product(t: MonomialView, m: MonomialView)
    requires
        shape_wf(t.powers),
        shape_wf(m.powers),
        m.coefficient != 0,
        fits_i64(t.coefficient),
    ensures
        monomial_checked_div(monomial_mul(t, m), m) == Some(t),
{
    lemma_shape_div_of_product(t.powers, m.powers);
    lemma_exact_div(t.coefficient * m.coefficient, m.coefficient, t.coefficient, 0);
}

/// A division that has found the first `k` terms of `q` as its quotient,
/// with the product of the other terms and the divisor left and no
/// remainder, ends with the quotient `q` and no remainder.
proof fn lemma_division_exact_run(
    q: PolynomialView,
    b: PolynomialView,
    k: int,
    s: Division,
    n: nat,
)
    requires
        polynomial_wf(q),
        polynomial_wf(b),
        b.len() > 0,
        polynomial_fits(q),
        polynomial_fits(b),
        0 <= k <= q.len(),
        s.quotient == q.subrange(0, k),
        s.work == polynomial_mul(q.subrange(k, q.len() as int), b),
        s.remainder == Seq::<MonomialView>::empty(),
        polynomial_fits(s.work),
        division_run(s, b, n) is Some,
    ensures
        division_run(s, b, n).unwrap() == (Division {
            work: Seq::empty(),
            quotient: q,
            remainder: Seq::empty(),
        }),
    decreases n,
{
    let d = q.subrange(k, q.len() as int);
    lemma_subrange_wf(q, k, q.len() as int);
    lemma_subrange_wf(q, 0, k);
    lemma_mul_wf(d, b);
    lemma_fits_bounded(q);
    lemma_fits_bounded(b);
    lemma_fits_bounded(s.work);
    assert(terms_bounded(d)) by {
        assert forall|i: int| 0 <= i < d.len() implies crate::rank::bounded(
            (#[trigger] d[i]).powers,
        ) by {
            assert(d[i] == q[k + i]);
        }
    }
    if d.len() > 0 {
        lemma_leading_product(d, b);
    }
    if s.work.len() == 0 {
        assert(k == q.len());
        assert(q.subrange(0, k) =~= q);
    } else {
        assert(d.len() > 0);
        let t = d[0];
        assert(t == q[k]);
        assert(term_wf(t));
        assert(term_wf(b[0]));
        assert(monomial_fits(q[k]));
        lemma_monomial_div_of_product(t, b[0]);
        let next = division_step(s, b);
        let rest = q.subrange(k + 1, q.len() as int);
        lemma_subrange_wf(q, k + 1, q.len() as int);
        lemma_subrange_wf(q, 0, k + 1);
        assert(rest =~= d.subrange(1, d.len() as int));
        // what is left is the product of the other terms and the divisor
        lemma_times_prefix_wf(t, b, b.len() as int);
        lemma_sub_wf(s.work, monomial_times(t, b));
        lemma_mul_wf(rest, b);
        assert forall|sh: Shape| coefficient(next.work, sh) == coefficient(
            polynomial_mul(rest, b),
            sh,
        ) by {
            lemma_coefficient_add(s.work, polynomial_neg(monomial_times(t, b)), sh);
            lemma_coefficient_neg_from(monomial_times(t, b), sh, 0);
            lemma_times_coefficient(t, b, sh);
            lemma_mul_coefficient(d, b, sh);
            lemma_mul_coefficient(rest, b, sh);
            lemma_mul_sum_subrange(d, b, sh, 1, 0);
        }
        lemma_canonical_unique(next.work, polynomial_mul(rest, b));
        // the quotient has one more term of `q`
        lemma_single_wf(t);
        lemma_add_wf(s.quotient, single(t));
        assert forall|sh: Shape| coefficient(next.quotient, sh) == coefficient(
            q.subrange(0, k + 1),
            sh,
        ) by {
            lemma_coefficient_add(s.quotient, single(t), sh);
            lemma_coefficient_single(t, sh);
            assert(q.subrange(0, k + 1) =~= q.subrange(0, k).push(t));
            lemma_coefficient_push(q.subrange(0, k), t, sh, 0);
        }
        lemma_canonical_unique(next.quotient, q.subrange(0, k + 1));
        assert(division_step_fits(s, b));
        lemma_division_exact_run(q, b, k + 1, next, (n - 1) as nat);
    }
}

/// The product of `q` and `b` divided by `b` is `q`, without a remainder,
/// where the polynomials fit the machine types and the division stays
/// within them.
pub proof fn lemma_division_exact(q: PolynomialView, b: PolynomialView)
    requires
        polynomial_wf(q),
        polynomial_wf(b),
        polynomial_fits(q),
        polynomial_fits(b),
        polynomial_fits(polynomial_mul(q, b)),
        division_in_range(polynomial_mul(q, b), b),
    ensures
        long_division(polynomial_mul(q, b), b) == (q, Seq::<MonomialView>::empty()),
        exact_quotient(polynomial_mul(q, b), b) == Some(q),
{
    let a = polynomial_mul(q, b);
    let n = choose|n: nat| division_completes(a, b, n);
    assert(q.subrange(0, 0) =~= Seq::<MonomialView>::empty());
    assert(q.subrange(0, q.len() as int) =~= q);
    lemma_division_exact_run(q, b, 0, division_start(a), n);
}

/// A quotient that the division gives without a remainder, times the
/// divisor, is the dividend.
pub proof fn lemma_exact_quotient_product(a: PolynomialView, b: PolynomialView)
    requires
        polynomial_wf(a),
        polynomial_wf(b),
        exact_quotient(a, b) is Some,
    ensures
        polynomial_mul(exact_quotient(a, b).unwrap(), b) == a,
{
    let q = exact_quotient(a, b).unwrap();
    lemma_division_identity(a, b);
    assert(long_division(a, b).1 =~= Seq::<MonomialView>::empty());
    crate::laws::lemma_long_division_wf(a, b);
    lemma_mul_wf(q, b);
    lemma_add_zero(polynomial_mul(q, b));
}

/// `floor` and `ceil` of a product and one of its factors are the other
/// factor: operands that divide exactly never give a `floor` or `ceil`
/// factor.
pub proof fn lemma_floor_of_product(q: PolynomialView, b: PolynomialView)
    requires
        polynomial_wf(q),
        polynomial_wf(b),
        polynomial_fits(q),
        polynomial_fits(b),
        polynomial_fits(polynomial_mul(q, b)),
        division_in_range(polynomial_mul(q, b), b),
        !both_constant(polynomial_mul(q, b), b),
    ensures
        floor_model(polynomial_mul(q, b), b) == q,
        ceil_model(polynomial_mul(q, b), b) == q,
{
    lemma_division_exact(q, b);
}

/// Folding is idempotent: the operation of a canonical binary factor,
/// applied to its operands again, gives the polynomial of this factor.
pub proof fn lemma_fold_again(c: CompositeView)
    requires
        composite_wf(c),
    ensures
        c is Floor ==> floor_model(c.left(), c.right()) == factor_polynomial(c),
        c is Ceil ==> ceil_model(c.left(), c.right()) == factor_polynomial(c),
        c is Min ==> min_model(c.left(), c.right()) == factor_polynomial(c),
        c is Max ==> max_model(c.left(), c.right()) == factor_polynomial(c),
{
}

} // verus!
