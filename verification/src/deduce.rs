//! Deduction of the values of identifiers from observed values of
//! polynomials.
use std::collections::HashMap;
use vstd::arithmetic::power::pow;
use vstd::prelude::*;
use crate::eval::{composite_eval, polynomial_eval, EvalError};
use crate::eval_laws::lemma_missing_polynomial;
use crate::identifiers::polynomial_identifiers;
use crate::model::{CompositeView, PolynomialView, Shape};
use crate::numeric::{checked_pow, div_rem, exact_div, fits_i64, lemma_exact_div};
use crate::primitives::{Composite, Monomial, Polynomial};

verus! {

/// Why a deduction failed.
#[derive(Debug, Clone, Copy, PartialEq, Eq, Structural)]
pub enum DeduceError {
    /// The equations do not determine every identifier: when no further
    /// equation can be solved, one of them still holds an identifier
    /// without a value.
    Underdetermined,
    /// The equations contradict each other: under the values found, one of
    /// them does not evaluate to its observed value.
    Inconsistent,
}

/// What is left of a term when the known values are put in, from the factor
/// at index `i` on: the coefficient with the values of the known factors
/// folded into `acc`, and the one unknown identifier, which occurs with the
/// power one. `None` where a factor other than a variable has no value, an
/// unknown identifier occurs with a higher power, there are two unknown
/// identifiers, or a product does not fit the coefficient type.
pub open spec fn term_form_from(
    s: Shape,
    known: Map<u16, i64>,
    i: int,
    acc: int,
    unknown: Option<u16>,
) -> Option<(i64, Option<u16>)>
    decreases s.len() - i,
{
    if i < 0 || i >= s.len() {
        if fits_i64(acc) {
            Some((acc as i64, unknown))
        } else {
            None
        }
    } else {
        match composite_eval(s[i].0, known) {
            Ok(v) => {
                let p = pow(v as int, s[i].1);
                if fits_i64(p) && fits_i64(acc * p) {
                    term_form_from(s, known, i + 1, acc * p, unknown)
                } else {
                    None
                }
            },
            Err(_) => match s[i].0 {
                CompositeView::Variable(id) => if s[i].1 == 1 && unknown is None {
                    term_form_from(s, known, i + 1, acc, Some(id))
                } else {
                    None
                },
                _ => None,
            },
        }
    }
}

/// What is left of a polynomial when the known values are put in, from the
/// term at index `i` on: the sum `constant` of the terms without an unknown
/// identifier, and the sum `slope` of the coefficients of the terms with the
/// one unknown identifier `id`. `None` where a term leaves no such form,
/// the terms hold different unknown identifiers, or a sum does not fit the
/// coefficient type.
pub open spec fn linear_form_from(
    p: PolynomialView,
    known: Map<u16, i64>,
    i: int,
    constant: int,
    id: Option<u16>,
    slope: int,
) -> Option<(i64, Option<u16>, i64)>
    decreases p.len() - i,
{
    if i < 0 || i >= p.len() {
        if fits_i64(constant) && fits_i64(slope) {
            Some((constant as i64, id, slope as i64))
        } else {
            None
        }
    } else {
        match term_form_from(p[i].powers, known, 0, p[i].coefficient, None) {
            None => None,
            Some((c, None)) => if fits_i64(constant + c) {
                linear_form_from(p, known, i + 1, constant + c, id, slope)
            } else {
                None
            },
            Some((c, Some(x))) => if (id is None || id == Some(x)) && fits_i64(slope + c) {
                linear_form_from(p, known, i + 1, constant, Some(x), slope + c)
            } else {
                None
            },
        }
    }
}

/// The identifier and the value that the equation `p == observed` gives
/// when the known values are put in: what is left of `p` is
/// `slope * x + constant` for one unknown identifier `x`, and `slope` is
/// not zero and divides `observed - constant` exactly.
pub open spec fn solvable(p: PolynomialView, observed: i64, known: Map<u16, i64>) -> Option<
    (u16, i64),
> {
    match linear_form_from(p, known, 0, 0, None, 0) {
        Some((constant, Some(x), slope)) => match exact_div(observed - constant, slope as int) {
            Some(q) => if fits_i64(observed - constant) && fits_i64(q) {
                Some((x, q as i64))
            } else {
                None
            },
            None => None,
        },
        _ => None,
    }
}

/// The values found by solving the equations with the indices `steps`, one
/// after the other, each with the values found before it.
pub open spec fn derivation(pairs: Seq<(PolynomialView, i64)>, steps: Seq<int>) -> Option<
    Map<u16, i64>,
>
    decreases steps.len(),
{
    if steps.len() == 0 {
        Some(Map::empty())
    } else {
        match derivation(pairs, steps.drop_last()) {
            None => None,
            Some(known) => {
                let i = steps.last();
                if 0 <= i < pairs.len() {
                    match solvable(pairs[i].0, pairs[i].1, known) {
                        Some((x, v)) => Some(known.insert(x, v)),
                        None => None,
                    }
                } else {
                    None
                }
            },
        }
    }
}

/// No equation that the derivation has not used can be solved with the
/// values found.
pub open spec fn saturated(
    pairs: Seq<(PolynomialView, i64)>,
    steps: Seq<int>,
    known: Map<u16, i64>,
) -> bool {
    forall|i: int|
        0 <= i < pairs.len() && !steps.contains(i) ==> (#[trigger] solvable(
            pairs[i].0,
            pairs[i].1,
            known,
        )) is None
}

/// The equation evaluates to something else than its observed value, or
/// fails for another reason than a missing identifier.
pub open spec fn contradicts(pair: (PolynomialView, i64), known: Map<u16, i64>) -> bool {
    match polynomial_eval(pair.0, known) {
        Ok(v) => v != pair.1,
        Err(EvalError::MissingIdentifier(_)) => false,
        Err(_) => true,
    }
}

/// The equation holds an identifier without a value.
pub open spec fn undetermined(pair: (PolynomialView, i64), known: Map<u16, i64>) -> bool {
    polynomial_eval(pair.0, known) matches Err(EvalError::MissingIdentifier(_))
}

/// How a deduction that found the values `known` ends: with `Inconsistent`
/// where an equation contradicts them, else with `Underdetermined` where an
/// equation holds an identifier without a value, else with success.
pub open spec fn verdict(pairs: Seq<(PolynomialView, i64)>, known: Map<u16, i64>) -> Option<
    DeduceError,
> {
    if exists|i: int| 0 <= i < pairs.len() && contradicts(#[trigger] pairs[i], known) {
        Some(DeduceError::Inconsistent)
    } else if exists|i: int| 0 <= i < pairs.len() && undetermined(#[trigger] pairs[i], known) {
        Some(DeduceError::Underdetermined)
    } else {
        None
    }
}

/// The view of a vector of equations.
pub open spec fn pairs_model(v: Seq<(Polynomial, i64)>) -> Seq<(PolynomialView, i64)> {
    Seq::new(v.len(), |i: int| (v[i].0@, v[i].1))
}

/// The number of equations that are not yet solved.
pub open spec fn open_count(resolved: Seq<bool>) -> nat
    decreases resolved.len(),
{
    if resolved.len() == 0 {
        0
    } else {
        open_count(resolved.drop_last()) + if resolved.last() {
            0nat
        } else {
            1nat
        }
    }
}

/// Solving one more equation leaves one open equation less.
pub proof fn lemma_open_count_update(resolved: Seq<bool>, i: int)
    requires
        0 <= i < resolved.len(),
        !resolved[i],
    ensures
        open_count(resolved.update(i, true)) + 1 == open_count(resolved),
    decreases resolved.len(),
{
    let after = resolved.update(i, true);
    if i == resolved.len() - 1 {
        assert(after.drop_last() =~= resolved.drop_last());
    } else {
        assert(after.drop_last() =~= resolved.drop_last().update(i, true));
        lemma_open_count_update(resolved.drop_last(), i);
    }
}

impl Composite {
    /// The identifier, where the factor is a variable.
    pub fn identifier(&self) -> (r: Option<u16>)
        ensures
            r == match self@ {
                CompositeView::Variable(id) => Some(id),
                _ => None::<u16>,
            },
    {
        match self {
            Composite::Variable(id) => Some(*id),
            _ => None,
        }
    }
}

/// What is left of a term when the known values are put in.
pub fn term_form(m: &Monomial, known: &HashMap<u16, i64>) -> (r: Option<(i64, Option<u16>)>)
    ensures
        r == term_form_from(m@.powers, known@, 0, m@.coefficient, None),
{
    let mut acc: i64 = m.coefficient;
    let mut unknown: Option<u16> = None;
    let mut i: usize = 0;
    while i < m.powers.len()
        invariant
            0 <= i <= m.powers.len(),
            term_form_from(m@.powers, known@, i as int, acc as int, unknown) == term_form_from(
                m@.powers,
                known@,
                0,
                m@.coefficient,
                None,
            ),
        decreases m.powers.len() - i,
    {
        match m.powers[i].0.eval(known) {
            Ok(v) => {
                let p: i64 = match checked_pow(v, m.powers[i].1 as usize) {
                    Some(p) => p,
                    None => {
                        return None;
                    },
                };
                acc = match acc.checked_mul(p) {
                    Some(x) => x,
                    None => {
                        return None;
                    },
                };
            },
            Err(_) => {
                match m.powers[i].0.identifier() {
                    Some(id) => {
                        if m.powers[i].1 == 1 && unknown.is_none() {
                            unknown = Some(id);
                        } else {
                            return None;
                        }
                    },
                    None => {
                        return None;
                    },
                }
            },
        }
        i += 1;
    }
    Some((acc, unknown))
}

/// The identifier and the value that the equation `p == observed` gives
/// when the known values are put in, where it gives one.
pub fn solve_equation(p: &Polynomial, observed: i64, known: &HashMap<u16, i64>) -> (r: Option<
    (u16, i64),
>)
    ensures
        r == solvable(p@, observed, known@),
{
    let mut constant: i64 = 0;
    let mut slope: i64 = 0;
    let mut id: Option<u16> = None;
    let mut i: usize = 0;
    while i < p.monomials.len()
        invariant
            0 <= i <= p.monomials.len(),
            linear_form_from(p@, known@, i as int, constant as int, id, slope as int)
                == linear_form_from(p@, known@, 0, 0, None, 0),
        decreases p.monomials.len() - i,
    {
        match term_form(&p.monomials[i], known) {
            None => {
                return None;
            },
            Some((c, None)) => {
                constant = match constant.checked_add(c) {
                    Some(x) => x,
                    None => {
                        return None;
                    },
                };
            },
            Some((c, Some(x))) => {
                match id {
                    Some(y) => {
                        if x != y {
                            return None;
                        }
                    },
                    None => {},
                }
                id = Some(x);
                slope = match slope.checked_add(c) {
                    Some(s) => s,
                    None => {
                        return None;
                    },
                };
            },
        }
        i += 1;
    }
    let x: u16 = match id {
        Some(x) => x,
        None => {
            return None;
        },
    };
    if slope == 0 {
        return None;
    }
    let difference: i64 = match observed.checked_sub(constant) {
        Some(d) => d,
        None => {
            return None;
        },
    };
    if difference == i64::MIN && slope == -1 {
        proof {
            lemma_exact_div(difference as int, -1, -(difference as int), 0);
        }
        return None;
    }
    let (q, rem) = div_rem(difference, slope);
    proof {
        lemma_exact_div(difference as int, slope as int, q as int, rem as int);
    }
    if rem != 0 {
        return None;
    }
    Some((x, q))
}

/// Deduces the values of the identifiers from the observed values of
/// polynomials. An equation is solved when, with the values found so far
/// put in, one identifier is left in it, with the power one. This is
/// repeated until no equation that is left can be solved. The deduction
/// succeeds with the values found where every polynomial then evaluates to
/// its observed value; every identifier of the polynomials then has a value.
pub fn deduce_values(pairs: &Vec<(Polynomial, i64)>) -> (r: Result<HashMap<u16, i64>, DeduceError>)
    ensures
        exists|steps: Seq<int>, known: Map<u16, i64>|
            {
                &&& derivation(pairs_model(pairs@), steps) == Some(known)
                &&& saturated(pairs_model(pairs@), steps, known)
                &&& match r {
                    Ok(m) => m@ == known && verdict(pairs_model(pairs@), known) is None,
                    Err(e) => verdict(pairs_model(pairs@), known) == Some(e),
                }
            },
        r matches Ok(m) ==> forall|i: int|
            0 <= i < pairs@.len() ==> polynomial_eval((#[trigger] pairs@[i]).0@, m@) == Ok::<
                i64,
                EvalError,
            >(pairs@[i].1) && polynomial_identifiers(pairs@[i].0@).subset_of(m@.dom()),
{
    broadcast use vstd::std_specs::hash::group_hash_axioms;

    let ghost eqs = pairs_model(pairs@);
    let n: usize = pairs.len();
    let mut known: HashMap<u16, i64> = HashMap::new();
    let mut resolved: Vec<bool> = Vec::new();
    let mut k: usize = 0;
    while k < n
        invariant
            0 <= k <= n,
            resolved.len() == k,
            forall|j: int| 0 <= j < k ==> !resolved@[j],
        decreases n - k,
    {
        resolved.push(false);
        k += 1;
    }
    let ghost mut steps: Seq<int> = Seq::empty();
    let mut progress: bool = true;
    while progress
        invariant
            n == pairs.len(),
            eqs == pairs_model(pairs@),
            resolved.len() == n,
            derivation(eqs, steps) == Some(known@),
            forall|j: int| 0 <= j < n ==> (#[trigger] resolved@[j] <==> steps.contains(j)),
            !progress ==> saturated(eqs, steps, known@),
        decreases open_count(resolved@) + if progress { 1nat } else { 0nat },
    {
        progress = false;
        let ghost before = open_count(resolved@);
        let mut i: usize = 0;
        while i < n
            invariant
                0 <= i <= n,
                n == pairs.len(),
                eqs == pairs_model(pairs@),
                resolved.len() == n,
                derivation(eqs, steps) == Some(known@),
                forall|j: int| 0 <= j < n ==> (#[trigger] resolved@[j] <==> steps.contains(j)),
                !progress ==> open_count(resolved@) == before,
                progress ==> open_count(resolved@) < before,
                !progress ==> forall|j: int|
                    0 <= j < i && !steps.contains(j) ==> (#[trigger] solvable(
                        eqs[j].0,
                        eqs[j].1,
                        known@,
                    )) is None,
            decreases n - i,
        {
            if !resolved[i] {
                match solve_equation(&pairs[i].0, pairs[i].1, &known) {
                    Some((x, v)) => {
                        proof {
                            lemma_open_count_update(resolved@, i as int);
                            let next = steps.push(i as int);
                            assert(next.drop_last() =~= steps);
                            assert forall|j: int| 0 <= j < n implies (resolved@.update(
                                i as int,
                                true,
                            )[j] <==> next.contains(j)) by {
                                if j == i {
                                    assert(next[steps.len() as int] == j);
                                } else {
                                    if steps.contains(j) {
                                        let w = choose|w: int| 0 <= w < steps.len() && steps[w] == j;
                                        assert(next[w] == j);
                                    }
                                    if next.contains(j) {
                                        let w = choose|w: int| 0 <= w < next.len() && next[w] == j;
                                        assert(steps[w] == j);
                                    }
                                }
                            }
                            steps = next;
                        }
                        known.insert(x, v);
                        resolved.set(i, true);
                        progress = true;
                    },
                    None => {},
                }
            }
            i += 1;
        }
    }
    let mut contradiction: bool = false;
    let mut missing: bool = false;
    let mut i: usize = 0;
    while i < n
        invariant
            0 <= i <= n,
            n == pairs.len(),
            eqs == pairs_model(pairs@),
            contradiction <==> exists|j: int| 0 <= j < i && contradicts(#[trigger] eqs[j], known@),
            missing <==> exists|j: int| 0 <= j < i && undetermined(#[trigger] eqs[j], known@),
        decreases n - i,
    {
        match pairs[i].0.eval(&known) {
            Ok(v) => {
                if v != pairs[i].1 {
                    contradiction = true;
                }
            },
            Err(EvalError::MissingIdentifier(_)) => {
                missing = true;
            },
            Err(_) => {
                contradiction = true;
            },
        }
        proof {
            let j0 = i as int;
            assert(eqs[j0] == (pairs@[j0].0@, pairs@[j0].1));
        }
        i += 1;
    }
    if contradiction {
        Err(DeduceError::Inconsistent)
    } else if missing {
        Err(DeduceError::Underdetermined)
    } else {
        proof {
            assert forall|i: int| 0 <= i < pairs@.len() implies polynomial_eval(
                (#[trigger] pairs@[i]).0@,
                known@,
            ) == Ok::<i64, EvalError>(pairs@[i].1) && polynomial_identifiers(
                pairs@[i].0@,
            ).subset_of(known@.dom()) by {
                assert(!contradicts(eqs[i], known@));
                assert(!undetermined(eqs[i], known@));
                lemma_missing_polynomial(pairs@[i].0@, known@);
            }
        }
        Ok(known)
    }
}

} // verus!
