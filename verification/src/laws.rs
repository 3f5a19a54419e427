//! What holds of the arithmetic on canonical polynomials.
use vstd::prelude::*;
use crate::algebra::{
    lemma_add_wf, lemma_mul_wf, lemma_sub_wf, monomial_times, polynomial_add, polynomial_mul,
    polynomial_neg, polynomial_sub, single,
};
use crate::coefficient::{
    coefficient, coefficient_from, lemma_canonical_unique, lemma_coefficient_add,
    lemma_coefficient_neg_from, lemma_coefficient_single, lemma_coefficient_subrange,
};
use crate::division::{
    division_completes, division_in_range, division_run, division_start, division_step, division_wf,
    lemma_division_step_wf, long_division, Division,
};
use crate::exponent::{lemma_shape_mul_commutative, lemma_shape_mul_unit};
use crate::model::{polynomial_wf, shape_wf, term_wf, MonomialView, PolynomialView, Shape};
use crate::monomial::{constant_monomial, monomial_checked_div};
use crate::products::{
    lemma_mul_coefficient, lemma_mul_sum_add_left, lemma_mul_sum_add_right, lemma_mul_sum_single,
    lemma_mul_sum_swap, lemma_times_coefficient, mul_sum_from, mul_sum_swapped, times_sum_from,
    times_sum_left_from,
};
use crate::shape::monomial_mul;

verus! {

/// Addition is commutative: `a + b == b + a`.
pub proof fn lemma_add_commutative(a: PolynomialView, b: PolynomialView)
    requires
        polynomial_wf(a),
        polynomial_wf(b),
    ensures
        polynomial_add(a, b) == polynomial_add(b, a),
{
    let x = polynomial_add(a, b);
    let y = polynomial_add(b, a);
    lemma_add_wf(a, b);
    lemma_add_wf(b, a);
    assert forall|s: Shape| coefficient(x, s) == coefficient(y, s) by {
        lemma_coefficient_add(a, b, s);
        lemma_coefficient_add(b, a, s);
    }
    lemma_canonical_unique(x, y);
}

/// Addition is associative: `(a + b) + c == a + (b + c)`.
pub proof fn lemma_add_associative(a: PolynomialView, b: PolynomialView, c: PolynomialView)
    requires
        polynomial_wf(a),
        polynomial_wf(b),
        polynomial_wf(c),
    ensures
        polynomial_add(polynomial_add(a, b), c) == polynomial_add(a, polynomial_add(b, c)),
{
    let x = polynomial_add(polynomial_add(a, b), c);
    let y = polynomial_add(a, polynomial_add(b, c));
    lemma_add_wf(a, b);
    lemma_add_wf(polynomial_add(a, b), c);
    lemma_add_wf(b, c);
    lemma_add_wf(a, polynomial_add(b, c));
    assert forall|s: Shape| coefficient(x, s) == coefficient(y, s) by {
        lemma_coefficient_add(a, b, s);
        lemma_coefficient_add(polynomial_add(a, b), c, s);
        lemma_coefficient_add(b, c, s);
        lemma_coefficient_add(a, polynomial_add(b, c), s);
    }
    lemma_canonical_unique(x, y);
}

/// Multiplication distributes over addition: `a * (b + c) == a * b + a * c`.
pub proof fn lemma_mul_distributive(a: PolynomialView, b: PolynomialView, c: PolynomialView)
    requires
        polynomial_wf(a),
        polynomial_wf(b),
        polynomial_wf(c),
    ensures
        polynomial_mul(a, polynomial_add(b, c)) == polynomial_add(
            polynomial_mul(a, b),
            polynomial_mul(a, c),
        ),
{
    let x = polynomial_mul(a, polynomial_add(b, c));
    let y = polynomial_add(polynomial_mul(a, b), polynomial_mul(a, c));
    lemma_add_wf(b, c);
    lemma_mul_wf(a, polynomial_add(b, c));
    lemma_mul_wf(a, b);
    lemma_mul_wf(a, c);
    lemma_add_wf(polynomial_mul(a, b), polynomial_mul(a, c));
    assert forall|s: Shape| coefficient(x, s) == coefficient(y, s) by {
        lemma_mul_coefficient(a, polynomial_add(b, c), s);
        lemma_mul_sum_add_right(a, b, c, s, 0);
        lemma_mul_coefficient(a, b, s);
        lemma_mul_coefficient(a, c, s);
        lemma_coefficient_add(polynomial_mul(a, b), polynomial_mul(a, c), s);
    }
    lemma_canonical_unique(x, y);
}

/// The product of two monomials with canonical power vectors does not
/// depend on their order.
pub proof fn lemma_monomial_mul_commutative(m: MonomialView, t: MonomialView)
    requires
        shape_wf(m.powers),
        shape_wf(t.powers),
    ensures
        monomial_mul(m, t) == monomial_mul(t, m),
{
    lemma_shape_mul_commutative(m.powers, t.powers);
    assert(m.coefficient * t.coefficient == t.coefficient * m.coefficient) by (nonlinear_arith);
}

proof fn lemma_times_sum_sides(a: PolynomialView, t: MonomialView, s: Shape, i: int)
    requires
        polynomial_wf(a),
        shape_wf(t.powers),
        0 <= i <= a.len(),
    ensures
        times_sum_left_from(a, t, s, i) == times_sum_from(t, a, s, i),
    decreases a.len() - i,
{
    if i < a.len() {
        lemma_times_sum_sides(a, t, s, i + 1);
        assert(term_wf(a[i]));
        lemma_monomial_mul_commutative(a[i], t);
    }
}

proof fn lemma_mul_sum_sides(a: PolynomialView, b: PolynomialView, s: Shape, j: int)
    requires
        polynomial_wf(a),
        polynomial_wf(b),
        0 <= j <= b.len(),
    ensures
        mul_sum_swapped(a, b, s, 0, j) == mul_sum_from(b, a, s, j),
    decreases b.len() - j,
{
    if j < b.len() {
        lemma_mul_sum_sides(a, b, s, j + 1);
        assert(term_wf(b[j]));
        lemma_times_sum_sides(a, b[j], s, 0);
    }
}

/// Multiplication is commutative: `a * b == b * a`.
pub proof fn lemma_mul_commutative(a: PolynomialView, b: PolynomialView)
    requires
        polynomial_wf(a),
        polynomial_wf(b),
    ensures
        polynomial_mul(a, b) == polynomial_mul(b, a),
{
    let x = polynomial_mul(a, b);
    let y = polynomial_mul(b, a);
    lemma_mul_wf(a, b);
    lemma_mul_wf(b, a);
    assert forall|s: Shape| coefficient(x, s) == coefficient(y, s) by {
        lemma_mul_coefficient(a, b, s);
        lemma_mul_coefficient(b, a, s);
        lemma_mul_sum_swap(a, b, s, 0);
        lemma_mul_sum_sides(a, b, s, 0);
    }
    lemma_canonical_unique(x, y);
}

proof fn lemma_mul_sum_one(a: PolynomialView, s: Shape, i: int)
    requires
        polynomial_wf(a),
        0 <= i <= a.len(),
    ensures
        mul_sum_from(a, single(constant_monomial(1)), s, i) == coefficient_from(a, s, i),
    decreases a.len() - i,
{
    let one = single(constant_monomial(1));
    if i < a.len() {
        lemma_mul_sum_one(a, s, i + 1);
        assert(term_wf(a[i]));
        lemma_shape_mul_unit(a[i].powers);
        assert(a[i].coefficient * 1 == a[i].coefficient);
        assert(monomial_mul(a[i], one[0]) == a[i]);
        assert(times_sum_from(a[i], one, s, 1) == 0);
    }
}

/// Multiplying a canonical polynomial by one, on either side, gives the
/// same sequence of terms again.
pub proof fn lemma_mul_one(a: PolynomialView)
    requires
        polynomial_wf(a),
    ensures
        polynomial_mul(a, single(constant_monomial(1))) == a,
        polynomial_mul(single(constant_monomial(1)), a) == a,
{
    let one = single(constant_monomial(1));
    assert(polynomial_wf(one)) by {
        assert(shape_wf(one[0].powers));
    }
    lemma_mul_wf(a, one);
    assert forall|s: Shape| coefficient(polynomial_mul(a, one), s) == coefficient(a, s) by {
        lemma_mul_coefficient(a, one, s);
        lemma_mul_sum_one(a, s, 0);
    }
    lemma_canonical_unique(polynomial_mul(a, one), a);
    lemma_mul_commutative(a, one);
}

/// A polynomial minus itself is zero: `a - a` has no term.
pub proof fn lemma_sub_self(a: PolynomialView)
    requires
        polynomial_wf(a),
    ensures
        polynomial_sub(a, a) == Seq::<MonomialView>::empty(),
{
    let x = polynomial_sub(a, a);
    let zero = Seq::<MonomialView>::empty();
    lemma_sub_wf(a, a);
    assert forall|s: Shape| coefficient(x, s) == coefficient(zero, s) by {
        lemma_coefficient_add(a, polynomial_neg(a), s);
        lemma_coefficient_neg_from(a, s, 0);
    }
    lemma_canonical_unique(x, zero);
}

/// Adding zero to a canonical polynomial, on either side, gives the same
/// sequence of terms again.
pub proof fn lemma_add_zero(a: PolynomialView)
    requires
        polynomial_wf(a),
    ensures
        polynomial_add(a, Seq::empty()) == a,
        polynomial_add(Seq::empty(), a) == a,
{
    let zero = Seq::<MonomialView>::empty();
    lemma_add_wf(a, zero);
    lemma_add_wf(zero, a);
    assert forall|s: Shape| coefficient(polynomial_add(a, zero), s) == coefficient(a, s) by {
        lemma_coefficient_add(a, zero, s);
    }
    assert forall|s: Shape| coefficient(polynomial_add(zero, a), s) == coefficient(a, s) by {
        lemma_coefficient_add(zero, a, s);
    }
    lemma_canonical_unique(polynomial_add(a, zero), a);
    lemma_canonical_unique(polynomial_add(zero, a), a);
}

/// Negating a canonical polynomial twice gives the same sequence of terms
/// again.
pub proof fn lemma_neg_neg(a: PolynomialView)
    ensures
        polynomial_neg(polynomial_neg(a)) == a,
{
    assert(polynomial_neg(polynomial_neg(a)) =~= a);
}

/// The dividend is the product of the quotient found so far and the
/// divisor, plus what is left, plus the remainder found so far.
pub open spec fn division_balanced(s: Division, a: PolynomialView, b: PolynomialView) -> bool {
    forall|sh: Shape| #[trigger]
        coefficient(a, sh) == mul_sum_from(s.quotient, b, sh, 0) + coefficient(s.work, sh)
            + coefficient(s.remainder, sh)
}

/// A step of the division keeps the balance.
pub proof fn lemma_division_step_balanced(s: Division, a: PolynomialView, b: PolynomialView)
    requires
        division_balanced(s, a, b),
        s.work.len() > 0,
        b.len() > 0,
    ensures
        division_balanced(division_step(s, b), a, b),
{
    let next = division_step(s, b);
    assert forall|sh: Shape| #[trigger]
        coefficient(a, sh) == mul_sum_from(next.quotient, b, sh, 0) + coefficient(next.work, sh)
            + coefficient(next.remainder, sh) by {
        assert(coefficient(a, sh) == mul_sum_from(s.quotient, b, sh, 0) + coefficient(s.work, sh)
            + coefficient(s.remainder, sh));
        match monomial_checked_div(s.work[0], b[0]) {
            Some(t) => {
                let tb = monomial_times(t, b);
                lemma_mul_sum_add_left(s.quotient, single(t), b, 0, 0, sh);
                lemma_mul_sum_single(t, b, sh);
                lemma_times_coefficient(t, b, sh);
                lemma_coefficient_add(s.work, polynomial_neg(tb), sh);
                lemma_coefficient_neg_from(tb, sh, 0);
            },
            None => {
                lemma_coefficient_subrange(s.work, sh, 1, 0);
                lemma_coefficient_add(s.remainder, single(s.work[0]), sh);
                lemma_coefficient_single(s.work[0], sh);
            },
        }
    }
}

/// A division that ends keeps the balance and the canonical form up to its
/// last state, in which nothing is left of the dividend.
pub proof fn lemma_division_run_balanced(
    s: Division,
    a: PolynomialView,
    b: PolynomialView,
    n: nat,
)
    requires
        division_balanced(s, a, b),
        division_wf(s),
        polynomial_wf(b),
        b.len() > 0,
        division_run(s, b, n) is Some,
    ensures
        division_balanced(division_run(s, b, n).unwrap(), a, b),
        division_wf(division_run(s, b, n).unwrap()),
        division_run(s, b, n).unwrap().work.len() == 0,
    decreases n,
{
    if s.work.len() > 0 {
        lemma_division_step_balanced(s, a, b);
        lemma_division_step_wf(s, b);
        lemma_division_run_balanced(division_step(s, b), a, b, (n - 1) as nat);
    }
}

/// The quotient and the remainder of a division are canonical.
pub proof fn lemma_long_division_wf(a: PolynomialView, b: PolynomialView)
    requires
        polynomial_wf(a),
        polynomial_wf(b),
        division_in_range(a, b),
    ensures
        polynomial_wf(long_division(a, b).0),
        polynomial_wf(long_division(a, b).1),
{
    let n = choose|n: nat| division_completes(a, b, n);
    let start = division_start(a);
    assert forall|sh: Shape| #[trigger]
        coefficient(a, sh) == mul_sum_from(start.quotient, b, sh, 0) + coefficient(start.work, sh)
            + coefficient(start.remainder, sh) by {}
    lemma_division_run_balanced(start, a, b, n);
}

/// The division identity: the quotient times the divisor, plus the
/// remainder, is the dividend: `q * b + r == a`.
pub proof fn lemma_division_identity(a: PolynomialView, b: PolynomialView)
    requires
        polynomial_wf(a),
        polynomial_wf(b),
        division_in_range(a, b),
    ensures
        polynomial_add(polynomial_mul(long_division(a, b).0, b), long_division(a, b).1) == a,
{
    let n = choose|n: nat| division_completes(a, b, n);
    let start = division_start(a);
    assert forall|sh: Shape| #[trigger]
        coefficient(a, sh) == mul_sum_from(start.quotient, b, sh, 0) + coefficient(start.work, sh)
            + coefficient(start.remainder, sh) by {}
    lemma_division_run_balanced(start, a, b, n);
    let end = division_run(start, b, n).unwrap();
    let q = end.quotient;
    let r = end.remainder;
    let x = polynomial_add(polynomial_mul(q, b), r);
    lemma_mul_wf(q, b);
    lemma_add_wf(polynomial_mul(q, b), r);
    assert forall|sh: Shape| coefficient(x, sh) == coefficient(a, sh) by {
        assert(coefficient(a, sh) == mul_sum_from(q, b, sh, 0) + coefficient(end.work, sh)
            + coefficient(r, sh));
        lemma_mul_coefficient(q, b, sh);
        lemma_coefficient_add(polynomial_mul(q, b), r, sh);
    }
    lemma_canonical_unique(x, a);
}

} // verus!
