//! Long division of polynomials by the order of their terms.
use vstd::prelude::*;
use crate::algebra::{
    lemma_add_wf, lemma_mul_wf, lemma_single_wf, lemma_sub_wf, lemma_times_prefix_wf,
    monomial_times, polynomial_add, polynomial_mul, polynomial_sub, single, times_fits,
};
use crate::laws::{lemma_add_zero, lemma_division_identity};
use crate::model::{
    monomial_fits, polynomial_fits, polynomial_wf, shape_wf, term_wf, MonomialView, PolynomialView,
};
use crate::monomial::monomial_checked_div;
use crate::primitives::Polynomial;
use crate::rank::{all_factors, lemma_all_factors, terms_supported};
use crate::remainder::{indivisible, lemma_remainder_indivisible};
use crate::shape::lemma_shape_div_wf;
use crate::termination::{
    lead_rank, lemma_division_step_decreases, lemma_view_bounded, terms_bounded,
};

verus! {

/// The state of a long division: what is left of the dividend, and the
/// quotient and the remainder found so far.
pub struct Division {
    pub work: PolynomialView,
    pub quotient: PolynomialView,
    pub remainder: PolynomialView,
}

/// The state before the first step of the division of `a`.
pub open spec fn division_start(a: PolynomialView) -> Division {
    Division { work: a, quotient: Seq::empty(), remainder: Seq::empty() }
}

/// One step of the division by `b`. Where the leading term of `b` divides
/// the leading term of what is left, and their quotient fits the machine
/// types, this quotient `t` goes to the quotient and `t * b` is taken from
/// what is left; where it does not, the leading term of what is left goes
/// to the remainder.
pub open spec fn division_step(s: Division, b: PolynomialView) -> Division
    recommends
        s.work.len() > 0,
        b.len() > 0,
{
    match monomial_checked_div(s.work[0], b[0]) {
        Some(t) => Division {
            work: polynomial_sub(s.work, monomial_times(t, b)),
            quotient: polynomial_add(s.quotient, single(t)),
            remainder: s.remainder,
        },
        None => Division {
            work: s.work.subrange(1, s.work.len() as int),
            quotient: s.quotient,
            remainder: polynomial_add(s.remainder, single(s.work[0])),
        },
    }
}

/// Whether every coefficient and power that arises in one step of the
/// division by `b` fits the machine types.
pub open spec fn division_step_fits(s: Division, b: PolynomialView) -> bool
    recommends
        s.work.len() > 0,
        b.len() > 0,
{
    match monomial_checked_div(s.work[0], b[0]) {
        Some(t) => {
            &&& times_fits(t, b)
            &&& polynomial_fits(polynomial_sub(s.work, monomial_times(t, b)))
            &&& polynomial_fits(polynomial_add(s.quotient, single(t)))
        },
        None => polynomial_fits(polynomial_add(s.remainder, single(s.work[0]))),
    }
}

/// The state in which the division by `b` ends when it starts in `s`, takes
/// at most `n` steps and stays within the machine types.
pub open spec fn division_run(s: Division, b: PolynomialView, n: nat) -> Option<Division>
    decreases n,
{
    if s.work.len() == 0 {
        Some(s)
    } else if n == 0 || !division_step_fits(s, b) {
        None
    } else {
        division_run(division_step(s, b), b, (n - 1) as nat)
    }
}

/// Whether the division of `a` by `b` ends within `n` steps and within the
/// machine types. The divisor is not zero.
pub open spec fn division_completes(a: PolynomialView, b: PolynomialView, n: nat) -> bool {
    b.len() > 0 && division_run(division_start(a), b, n) is Some
}

/// Whether the division of `a` by `b` ends and stays within the machine
/// types.
pub open spec fn division_in_range(a: PolynomialView, b: PolynomialView) -> bool {
    exists|n: nat| division_completes(a, b, n)
}

/// The quotient and the remainder of the division of `a` by `b`.
pub open spec fn long_division(a: PolynomialView, b: PolynomialView) -> (
    PolynomialView,
    PolynomialView,
)
    recommends
        division_in_range(a, b),
{
    let n = choose|n: nat| division_completes(a, b, n);
    let s = division_run(division_start(a), b, n).unwrap();
    (s.quotient, s.remainder)
}

/// The three polynomials of a state are canonical.
pub open spec fn division_wf(s: Division) -> bool {
    polynomial_wf(s.work) && polynomial_wf(s.quotient) && polynomial_wf(s.remainder)
}

/// A step of the division keeps the three polynomials canonical.
pub proof fn lemma_division_step_wf(s: Division, b: PolynomialView)
    requires
        division_wf(s),
        polynomial_wf(b),
        s.work.len() > 0,
        b.len() > 0,
    ensures
        division_wf(division_step(s, b)),
{
    assert(term_wf(s.work[0]));
    assert(term_wf(b[0]));
    match monomial_checked_div(s.work[0], b[0]) {
        Some(t) => {
            lemma_shape_div_wf(s.work[0].powers, b[0].powers);
            lemma_times_prefix_wf(t, b, b.len() as int);
            lemma_sub_wf(s.work, monomial_times(t, b));
            lemma_single_wf(t);
            lemma_add_wf(s.quotient, single(t));
        },
        None => {
            let rest = s.work.subrange(1, s.work.len() as int);
            assert forall|i: int| 0 <= i < rest.len() implies term_wf(#[trigger] rest[i]) by {
                assert(rest[i] == s.work[i + 1]);
            }
            assert forall|i: int, j: int| 0 <= i < j < rest.len() implies crate::model::shape_order(
                (#[trigger] rest[i]).powers,
                (#[trigger] rest[j]).powers,
            ) > 0 by {
                assert(rest[i] == s.work[i + 1]);
                assert(rest[j] == s.work[j + 1]);
            }
            lemma_single_wf(s.work[0]);
            lemma_add_wf(s.remainder, single(s.work[0]));
        },
    }
}

/// The view of a polynomial fits the machine types.
pub proof fn lemma_view_fits(p: &Polynomial)
    ensures
        polynomial_fits(p@),
{
    assert forall|i: int| 0 <= i < p@.len() implies monomial_fits(#[trigger] p@[i]) by {}
}

/// The division that starts in `start` is in the state `s` after `steps`
/// steps.
pub open spec fn reached(start: Division, b: PolynomialView, s: Division, steps: nat) -> bool {
    &&& forall|m: nat|
        m >= steps ==> #[trigger] division_run(start, b, m) == division_run(
            s,
            b,
            (m - steps) as nat,
        )
    &&& forall|m: nat| m < steps ==> (#[trigger] division_run(start, b, m)) is None
}

/// A step that fits leads from a state that the division reaches to the
/// next state that it reaches.
pub proof fn lemma_reached_step(start: Division, b: PolynomialView, s: Division, steps: nat)
    requires
        reached(start, b, s, steps),
        s.work.len() > 0,
        division_step_fits(s, b),
    ensures
        reached(start, b, division_step(s, b), steps + 1),
{
    let next = division_step(s, b);
    assert forall|m: nat| m >= steps + 1 implies #[trigger] division_run(start, b, m)
        == division_run(next, b, (m - (steps + 1)) as nat) by {
        assert(division_run(start, b, m) == division_run(s, b, (m - steps) as nat));
    }
    assert forall|m: nat| m < steps + 1 implies (#[trigger] division_run(start, b, m)) is None by {
        if m == steps {
            assert(division_run(start, b, m) == division_run(s, b, (m - steps) as nat));
        }
    }
}

/// A division that reaches a state whose step does not fit does not stay
/// within the machine types.
pub proof fn lemma_reached_stuck(a: PolynomialView, b: PolynomialView, s: Division, steps: nat)
    requires
        reached(division_start(a), b, s, steps),
        s.work.len() > 0,
        !division_step_fits(s, b),
    ensures
        !division_in_range(a, b),
{
    let start = division_start(a);
    assert forall|n: nat| !division_completes(a, b, n) by {
        if n >= steps {
            assert(division_run(start, b, n) == division_run(s, b, (n - steps) as nat));
        }
    }
}

/// A division that reaches a state in which nothing is left ends there.
pub proof fn lemma_reached_end(a: PolynomialView, b: PolynomialView, s: Division, steps: nat)
    requires
        reached(division_start(a), b, s, steps),
        s.work.len() == 0,
        b.len() > 0,
    ensures
        division_in_range(a, b),
        long_division(a, b) == (s.quotient, s.remainder),
{
    let start = division_start(a);
    assert(division_run(start, b, steps) == division_run(s, b, (steps - steps) as nat));
    assert(division_completes(a, b, steps));
    let n = choose|n: nat| division_completes(a, b, n);
    if n >= steps {
        assert(division_run(start, b, n) == division_run(s, b, (n - steps) as nat));
    }
}

impl Polynomial {
    /// Divides the polynomial by `divisor`: the quotient and the remainder
    /// of the long division that takes the leading term of what is left of
    /// the dividend, step by step. `None` where the divisor is zero or a
    /// coefficient or power that arises does not fit the machine types.
    pub fn checked_div_rem(&self, divisor: &Polynomial) -> (r: Option<(Polynomial, Polynomial)>)
        requires
            self.wf(),
            divisor.wf(),
        ensures
            r is Some <==> division_in_range(self@, divisor@),
            r matches Some(qr) ==> {
                &&& (qr.0@, qr.1@) == long_division(self@, divisor@)
                &&& qr.0.wf()
                &&& qr.1.wf()
                &&& polynomial_add(polynomial_mul(qr.0@, divisor@), qr.1@) == self@
                &&& indivisible(qr.1@, divisor@[0])
            },
    {
        if divisor.monomials.len() == 0 {
            proof {
                assert forall|n: nat| !division_completes(self@, divisor@, n) by {}
            }
            return None;
        }
        let ghost a = self@;
        let ghost b = divisor@;
        let ghost u = all_factors(a, b);
        let ghost start = division_start(a);
        proof {
            lemma_all_factors(a, b);
            lemma_view_bounded(divisor);
        }
        let mut work = self.clone();
        let mut quotient = Polynomial::zero();
        let mut remainder = Polynomial::zero();
        let ghost mut steps: nat = 0;
        while work.monomials.len() > 0
            invariant
                a == self@,
                b == divisor@,
                b.len() > 0,
                start == division_start(a),
                divisor.wf(),
                work.wf(),
                quotient.wf(),
                remainder.wf(),
                shape_wf(u),
                terms_supported(b, u),
                terms_bounded(b),
                terms_supported(work@, u),
                reached(
                    start,
                    b,
                    Division { work: work@, quotient: quotient@, remainder: remainder@ },
                    steps,
                ),
            decreases lead_rank(work@, u),
        {
            let ghost s = Division { work: work@, quotient: quotient@, remainder: remainder@ };
            proof {
                lemma_view_bounded(&work);
                lemma_division_step_wf(s, b);
                lemma_division_step_decreases(s, b, u);
            }
            match work.monomials[0].checked_div(&divisor.monomials[0]) {
                Some(t) => {
                    let part = match divisor.checked_mul_monomial(&t) {
                        Some(part) => part,
                        None => {
                            proof {
                                lemma_reached_stuck(a, b, s, steps);
                            }
                            return None;
                        },
                    };
                    let next = match work.checked_sub(&part) {
                        Some(next) => next,
                        None => {
                            proof {
                                lemma_reached_stuck(a, b, s, steps);
                            }
                            return None;
                        },
                    };
                    let more = match quotient.checked_add(&Polynomial::from_monomial(&t)) {
                        Some(more) => more,
                        None => {
                            proof {
                                lemma_reached_stuck(a, b, s, steps);
                            }
                            return None;
                        },
                    };
                    work = next;
                    quotient = more;
                },
                None => {
                    let more = match remainder.checked_add(
                        &Polynomial::from_monomial(&work.monomials[0]),
                    ) {
                        Some(more) => more,
                        None => {
                            proof {
                                lemma_reached_stuck(a, b, s, steps);
                            }
                            return None;
                        },
                    };
                    remainder = more;
                    work.monomials.remove(0);
                    assert(work@ =~= s.work.subrange(1, s.work.len() as int));
                },
            }
            proof {
                lemma_reached_step(start, b, s, steps);
                steps = steps + 1;
            }
        }
        proof {
            lemma_reached_end(
                a,
                b,
                Division { work: work@, quotient: quotient@, remainder: remainder@ },
                steps,
            );
            lemma_division_identity(a, b);
            lemma_view_fits(self);
            lemma_view_fits(divisor);
            lemma_remainder_indivisible(a, b);
        }
        Some((quotient, remainder))
    }

    /// Divides the polynomial by `divisor`: the quotient and the remainder
    /// of the long division.
    pub fn div_rem(&self, divisor: &Polynomial) -> (r: (Polynomial, Polynomial))
        requires
            self.wf(),
            divisor.wf(),
            division_in_range(self@, divisor@),
        ensures
            (r.0@, r.1@) == long_division(self@, divisor@),
            r.0.wf(),
            r.1.wf(),
            polynomial_add(polynomial_mul(r.0@, divisor@), r.1@) == self@,
            indivisible(r.1@, divisor@[0]),
    {
        match self.checked_div_rem(divisor) {
            Some(r) => r,
            None => vstd::pervasive::unreached(),
        }
    }

    /// The quotient of the polynomial by `divisor`, where the long division
    /// leaves no remainder; `None` where it leaves one, the divisor is zero,
    /// or a coefficient or power that arises does not fit the machine
    /// types.
    pub fn checked_div(&self, divisor: &Polynomial) -> (r: Option<Polynomial>)
        requires
            self.wf(),
            divisor.wf(),
        ensures
            r is Some <==> division_in_range(self@, divisor@) && long_division(
                self@,
                divisor@,
            ).1.len() == 0,
            r matches Some(q) ==> q@ == long_division(self@, divisor@).0 && q.wf()
                && polynomial_mul(q@, divisor@) == self@,
    {
        match self.checked_div_rem(divisor) {
            Some((quotient, remainder)) => {
                if remainder.monomials.len() == 0 {
                    proof {
                        lemma_mul_wf(quotient@, divisor@);
                        lemma_add_zero(polynomial_mul(quotient@, divisor@));
                        assert(remainder@ =~= Seq::<MonomialView>::empty());
                    }
                    Some(quotient)
                } else {
                    None
                }
            },
            None => None,
        }
    }
}

} // verus!
