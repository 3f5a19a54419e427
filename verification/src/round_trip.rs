//! A deduction from observations of one assignment finds the values of
//! that assignment.
use vstd::arithmetic::power::{lemma_pow1, pow};
use vstd::prelude::*;
use crate::deduce::{
    contradicts, derivation, linear_form_from, solvable, term_form_from, undetermined, verdict,
    DeduceError,
};
use crate::eval::{
    composite_eval, monomial_eval, polynomial_eval, polynomial_eval_from, powers_eval_from,
    EvalError,
};
use crate::eval_laws::lemma_missing_polynomial;
use crate::identifiers::{
    composite_identifiers, monomial_identifiers, polynomial_identifiers,
    polynomial_identifiers_from, shape_identifiers_from,
};
use crate::model::{CompositeView, PolynomialView, Shape};
use crate::numeric::exact_div;
use crate::semantics::{
    agrees, composite_value, lemma_eval_composite, lemma_eval_polynomial, monomial_value,
    polynomial_value, polynomial_value_from, shape_value_from,
};

verus! {

/// The assignment that gives every identifier with a value in `m` that
/// value, and every other identifier zero.
pub open spec fn assignment(m: Map<u16, i64>) -> spec_fn(u16) -> int {
    |id: u16|
        if m.contains_key(id) {
            m[id] as int
        } else {
            0
        }
}

/// Every value of `small` is a value of `big`.
pub open spec fn extends(big: Map<u16, i64>, small: Map<u16, i64>) -> bool {
    forall|x: u16| #[trigger] small.contains_key(x) ==> big.contains_key(x) && big[x] == small[x]
}

/// The value of the unknown identifier of a term; one where there is none.
spec fn unknown_value(u: Option<u16>, env: spec_fn(u16) -> int) -> int {
    match u {
        Some(x) => env(x),
        None => 1,
    }
}

/// The value of `constant + slope * x` for the unknown identifier `x`.
spec fn linear_value(constant: int, id: Option<u16>, slope: int, env: spec_fn(u16) -> int) -> int {
    match id {
        Some(x) => constant + slope * env(x),
        None => constant,
    }
}

proof fn lemma_term_form_value(
    s: Shape,
    known: Map<u16, i64>,
    env: spec_fn(u16) -> int,
    i: int,
    acc: int,
    unknown: Option<u16>,
)
    requires
        agrees(env, known),
        0 <= i <= s.len(),
        term_form_from(s, known, i, acc, unknown) is Some,
    ensures
        ({
            let (c, u) = term_form_from(s, known, i, acc, unknown).unwrap();
            &&& c * unknown_value(u, env) == acc * unknown_value(unknown, env) * shape_value_from(
                s,
                env,
                i,
            )
            &&& unknown is Some ==> u == unknown
            &&& u matches Some(x) ==> unknown == Some(x) || (shape_identifiers_from(s, i).contains(x)
                && !known.contains_key(x))
        }),
    decreases s.len() - i,
{
    let f = unknown_value(unknown, env);
    if i < s.len() {
        let rest = shape_value_from(s, env, i + 1);
        assert(shape_identifiers_from(s, i) == composite_identifiers(s[i].0).union(
            shape_identifiers_from(s, i + 1),
        ));
        match composite_eval(s[i].0, known) {
            Ok(v) => {
                lemma_eval_composite(s[i].0, known, env);
                let p = pow(v as int, s[i].1);
                lemma_term_form_value(s, known, env, i + 1, acc * p, unknown);
                assert((acc * p) * f * rest == acc * f * (p * rest)) by (nonlinear_arith);
            },
            Err(_) => {
                match s[i].0 {
                    CompositeView::Variable(id) => {
                        assert(composite_identifiers(s[i].0).contains(id));
                        lemma_term_form_value(s, known, env, i + 1, acc, Some(id));
                        lemma_pow1(env(id));
                        assert(composite_value(s[i].0, env) == env(id));
                        assert(acc * env(id) * rest == acc * 1 * (env(id) * rest))
                            by (nonlinear_arith);
                    },
                    _ => {},
                }
            },
        }
    } else {
        assert(acc * f * 1 == acc * f) by (nonlinear_arith);
    }
}

proof fn lemma_linear_form_value(
    p: PolynomialView,
    known: Map<u16, i64>,
    env: spec_fn(u16) -> int,
    i: int,
    constant: int,
    id: Option<u16>,
    slope: int,
)
    requires
        agrees(env, known),
        0 <= i <= p.len(),
        linear_form_from(p, known, i, constant, id, slope) is Some,
        id is None ==> slope == 0,
    ensures
        ({
            let (c, x, s) = linear_form_from(p, known, i, constant, id, slope).unwrap();
            &&& linear_value(c as int, x, s as int, env) == linear_value(constant, id, slope, env)
                + polynomial_value_from(p, env, i)
            &&& x matches Some(y) ==> id == Some(y) || (polynomial_identifiers_from(p, i).contains(
                y,
            ) && !known.contains_key(y))
        }),
    decreases p.len() - i,
{
    if i < p.len() {
        lemma_term_form_value(p[i].powers, known, env, 0, p[i].coefficient, None);
        let (tc, tu) = term_form_from(p[i].powers, known, 0, p[i].coefficient, None).unwrap();
        let sv = shape_value_from(p[i].powers, env, 0);
        assert(monomial_value(p[i], env) == p[i].coefficient * sv);
        assert(polynomial_identifiers_from(p, i) == monomial_identifiers(p[i]).union(
            polynomial_identifiers_from(p, i + 1),
        ));
        assert(monomial_identifiers(p[i]) == shape_identifiers_from(p[i].powers, 0));
        assert(p[i].coefficient * 1 * sv == p[i].coefficient * sv) by (nonlinear_arith);
        match tu {
            None => {
                lemma_linear_form_value(p, known, env, i + 1, constant + tc, id, slope);
                assert(tc * 1 == tc);
            },
            Some(x) => {
                lemma_linear_form_value(p, known, env, i + 1, constant, Some(x), slope + tc);
                assert((slope + tc) * env(x) == slope * env(x) + tc * env(x)) by (nonlinear_arith);
            },
        }
    }
}

/// The equation `p == v` gives an identifier that occurs in `p` and has no
/// value yet, and the value that every assignment has for it which agrees
/// with the known values and satisfies the equation.
pub proof fn lemma_solvable_value(
    p: PolynomialView,
    v: i64,
    known: Map<u16, i64>,
    env: spec_fn(u16) -> int,
)
    requires
        agrees(env, known),
        solvable(p, v, known) is Some,
        polynomial_value(p, env) == v,
    ensures
        env(solvable(p, v, known).unwrap().0) == solvable(p, v, known).unwrap().1,
        polynomial_identifiers(p).contains(solvable(p, v, known).unwrap().0),
        !known.contains_key(solvable(p, v, known).unwrap().0),
{
    lemma_linear_form_value(p, known, env, 0, 0, None, 0);
    let (c, id, s) = linear_form_from(p, known, 0, 0, None, 0).unwrap();
    let x = id.unwrap();
    let q = exact_div(v - c, s as int).unwrap();
    let d = v - c;
    vstd::arithmetic::div_mod::lemma_fundamental_div_mod(d, s as int);
    assert(env(x) == q) by (nonlinear_arith)
        requires
            d == s * (d / (s as int)) + d % (s as int),
            d % (s as int) == 0,
            q == d / (s as int),
            s != 0,
            c + s * env(x) == v,
            d == v - c,
    ;
}

/// The values that a derivation finds are the values of every assignment
/// that satisfies the equations.
pub proof fn lemma_derivation_agrees(
    pairs: Seq<(PolynomialView, i64)>,
    steps: Seq<int>,
    env: spec_fn(u16) -> int,
)
    requires
        derivation(pairs, steps) is Some,
        forall|i: int| 0 <= i < pairs.len() ==> polynomial_value((#[trigger] pairs[i]).0, env)
            == pairs[i].1,
    ensures
        agrees(env, derivation(pairs, steps).unwrap()),
        forall|x: u16| #[trigger]
            derivation(pairs, steps).unwrap().contains_key(x) ==> exists|i: int|
                0 <= i < pairs.len() && polynomial_identifiers((#[trigger] pairs[i]).0).contains(x),
    decreases steps.len(),
{
    if steps.len() > 0 {
        lemma_derivation_agrees(pairs, steps.drop_last(), env);
        let known = derivation(pairs, steps.drop_last()).unwrap();
        let i = steps.last();
        lemma_solvable_value(pairs[i].0, pairs[i].1, known, env);
        let (x, q) = solvable(pairs[i].0, pairs[i].1, known).unwrap();
        let next = derivation(pairs, steps).unwrap();
        assert(next == known.insert(x, q));
        assert forall|y: u16| #[trigger] next.contains_key(y) implies exists|k: int|
            0 <= k < pairs.len() && polynomial_identifiers((#[trigger] pairs[k]).0).contains(y) by {
            if y == x {
                assert(polynomial_identifiers(pairs[i].0).contains(y));
            } else {
                assert(known.contains_key(y));
            }
        }
    }
}

proof fn lemma_extends_composite(c: CompositeView, small: Map<u16, i64>, big: Map<u16, i64>)
    requires
        extends(big, small),
    ensures
        composite_eval(c, small) is Err ==> composite_eval(c, small) matches Err(
            EvalError::MissingIdentifier(_),
        ) || composite_eval(c, small) == composite_eval(c, big),
        composite_eval(c, small) is Ok ==> composite_eval(c, small) == composite_eval(c, big),
    decreases c, 0nat, 0nat,
{
    match c {
        CompositeView::Variable(_) => {},
        CompositeView::Floor(l, r)
        | CompositeView::Ceil(l, r)
        | CompositeView::Min(l, r)
        | CompositeView::Max(l, r) => {
            lemma_extends_polynomial_from(l, small, big, 0, 0);
            lemma_extends_polynomial_from(r, small, big, 0, 0);
        },
    }
}

proof fn lemma_extends_powers_from(
    s: Shape,
    small: Map<u16, i64>,
    big: Map<u16, i64>,
    i: int,
    acc: int,
)
    requires
        extends(big, small),
        0 <= i <= s.len(),
    ensures
        powers_eval_from(s, small, i, acc) matches Err(EvalError::MissingIdentifier(_))
            || powers_eval_from(s, small, i, acc) == powers_eval_from(s, big, i, acc),
    decreases s, s.len() - i, 0nat,
{
    if i < s.len() {
        lemma_extends_composite(s[i].0, small, big);
        match composite_eval(s[i].0, small) {
            Ok(v) => {
                let p = pow(v as int, s[i].1);
                lemma_extends_powers_from(s, small, big, i + 1, acc * p);
            },
            Err(_) => {},
        }
    }
}

proof fn lemma_extends_polynomial_from(
    p: PolynomialView,
    small: Map<u16, i64>,
    big: Map<u16, i64>,
    i: int,
    acc: int,
)
    requires
        extends(big, small),
        0 <= i <= p.len(),
    ensures
        polynomial_eval_from(p, small, i, acc) matches Err(EvalError::MissingIdentifier(_))
            || polynomial_eval_from(p, small, i, acc) == polynomial_eval_from(p, big, i, acc),
    decreases p, p.len() - i, 0nat,
{
    if i < p.len() {
        lemma_extends_powers_from(p[i].powers, small, big, 0, p[i].coefficient);
        assert(monomial_eval(p[i], small) == powers_eval_from(
            p[i].powers,
            small,
            0,
            p[i].coefficient,
        ));
        assert(monomial_eval(p[i], big) == powers_eval_from(p[i].powers, big, 0, p[i].coefficient));
        match monomial_eval(p[i], small) {
            Ok(v) => {
                lemma_extends_polynomial_from(p, small, big, i + 1, acc + v);
            },
            Err(_) => {},
        }
    }
}

/// With fewer values an evaluation misses an identifier or gives what it
/// gives with all values.
pub proof fn lemma_extends_polynomial(p: PolynomialView, small: Map<u16, i64>, big: Map<u16, i64>)
    requires
        extends(big, small),
    ensures
        polynomial_eval(p, small) matches Err(EvalError::MissingIdentifier(_)) || polynomial_eval(
            p,
            small,
        ) == polynomial_eval(p, big),
{
    lemma_extends_polynomial_from(p, small, big, 0, 0);
}

/// The round trip: where every polynomial evaluates to its observed value
/// under the assignment `origin`, the values that a derivation finds are
/// values of `origin`, no equation contradicts them, and where no equation
/// is left undetermined every identifier of the polynomials has its value
/// of `origin`.
pub proof fn lemma_deduction_round_trip(
    pairs: Seq<(PolynomialView, i64)>,
    steps: Seq<int>,
    origin: Map<u16, i64>,
)
    requires
        derivation(pairs, steps) is Some,
        forall|i: int|
            0 <= i < pairs.len() ==> polynomial_eval((#[trigger] pairs[i]).0, origin) == Ok::<
                i64,
                EvalError,
            >(pairs[i].1),
    ensures
        extends(origin, derivation(pairs, steps).unwrap()),
        verdict(pairs, derivation(pairs, steps).unwrap()) != Some(DeduceError::Inconsistent),
        verdict(pairs, derivation(pairs, steps).unwrap()) is None ==> forall|i: int, x: u16|
            0 <= i < pairs.len() && #[trigger] polynomial_identifiers(pairs[i].0).contains(x)
                ==> derivation(pairs, steps).unwrap().contains_key(x) && derivation(
                pairs,
                steps,
            ).unwrap()[x] == origin[x],
{
    let known = derivation(pairs, steps).unwrap();
    let env = assignment(origin);
    assert(agrees(env, origin));
    assert forall|i: int| 0 <= i < pairs.len() implies polynomial_value(
        (#[trigger] pairs[i]).0,
        env,
    ) == pairs[i].1 by {
        lemma_eval_polynomial(pairs[i].0, origin, env);
    }
    lemma_derivation_agrees(pairs, steps, env);
    assert forall|x: u16| #[trigger] known.contains_key(x) implies origin.contains_key(x)
        && origin[x] == known[x] by {
        let i = choose|i: int|
            0 <= i < pairs.len() && polynomial_identifiers((#[trigger] pairs[i]).0).contains(x);
        lemma_missing_polynomial(pairs[i].0, origin);
        assert(origin.dom().contains(x));
        assert(env(x) == known[x]);
    }
    assert forall|i: int| 0 <= i < pairs.len() implies !contradicts(#[trigger] pairs[i], known) by {
        lemma_extends_polynomial(pairs[i].0, known, origin);
    }
    if verdict(pairs, known) is None {
        assert forall|i: int, x: u16|
            0 <= i < pairs.len() && #[trigger] polynomial_identifiers(pairs[i].0).contains(
                x,
            ) implies known.contains_key(x) && known[x] == origin[x] by {
            assert(!undetermined(pairs[i], known));
            lemma_extends_polynomial(pairs[i].0, known, origin);
            lemma_missing_polynomial(pairs[i].0, known);
            assert(known.dom().contains(x));
        }
    }
}

} // verus!
