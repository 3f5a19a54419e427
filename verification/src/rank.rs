//! A number for every power vector that grows with the order of power
//! vectors: the measure by which the long division ends.
use vstd::prelude::*;
use crate::algebra::{add_from, polynomial_neg, single, times_prefix};
use crate::exponent::{
    exponent, lemma_exponent_mul, lemma_exponent_own, lemma_exponent_skip, lemma_order_witness,
    outgrows,
};
use crate::model::{
    composite_order, polynomial_wf, shape_order, shape_wf, term_wf, CompositeView, MonomialView,
    PolynomialView, Shape,
};
use crate::shape::{lemma_shape_mul_wf, monomial_mul, shape_mul};

verus! {

/// Every factor of `s` is a factor of `u`.
pub open spec fn supported(s: Shape, u: Shape) -> bool {
    forall|f: CompositeView| #[trigger] exponent(s, f) > 0 ==> exponent(u, f) > 0
}

/// No factor of `s` has a power above 255.
pub open spec fn bounded(s: Shape) -> bool {
    forall|f: CompositeView| #[trigger] exponent(s, f) <= u8::MAX
}

/// No pair of `s` holds a power above 255.
pub open spec fn shape_fits(s: Shape) -> bool {
    forall|i: int| 0 <= i < s.len() ==> (#[trigger] s[i]).1 <= u8::MAX
}

/// 256 to the power `n`.
pub open spec fn digit_weight(n: nat) -> nat
    decreases n,
{
    if n == 0 {
        1
    } else {
        256 * digit_weight((n - 1) as nat)
    }
}

/// The number whose digits to the base 256 are the powers that `s` gives to
/// the factors of `u` from index `k` on, the first factor standing for the
/// highest digit.
pub open spec fn rank_from(s: Shape, u: Shape, k: int) -> nat
    decreases u.len() - k,
{
    if k < 0 || k >= u.len() {
        0
    } else {
        exponent(s, u[k].0) * digit_weight((u.len() - 1 - k) as nat) + rank_from(s, u, k + 1)
    }
}

/// The rank of the power vector `s` among the power vectors over the
/// factors of `u`.
pub open spec fn rank(s: Shape, u: Shape) -> nat {
    rank_from(s, u, 0)
}

/// A factor has the power zero in a canonical power vector, or stands in
/// it with its power.
pub proof fn lemma_exponent_cases(s: Shape, f: CompositeView)
    requires
        shape_wf(s),
    ensures
        exponent(s, f) == 0 || exists|i: int| 0 <= i < s.len() && #[trigger] s[i] == (
            f,
            exponent(s, f),
        ),
{
    if exists|i: int| 0 <= i < s.len() && (#[trigger] s[i]).0 == f {
        let i = choose|i: int| 0 <= i < s.len() && (#[trigger] s[i]).0 == f;
        lemma_exponent_own(s, i);
        assert(s[i] == (f, exponent(s, f)));
    } else {
        lemma_exponent_skip(s, f, 0, s.len() as int);
    }
}

/// A canonical power vector whose pairs hold powers up to 255 gives no
/// factor a higher power.
pub proof fn lemma_bounded(s: Shape)
    requires
        shape_wf(s),
        shape_fits(s),
    ensures
        bounded(s),
{
    assert forall|f: CompositeView| #[trigger] exponent(s, f) <= u8::MAX by {
        lemma_exponent_cases(s, f);
    }
}

/// The digits from index `k` on make a number below the weight of the
/// digit before them.
pub proof fn lemma_rank_bound(s: Shape, u: Shape, k: int)
    requires
        bounded(s),
        0 <= k <= u.len(),
    ensures
        rank_from(s, u, k) < digit_weight((u.len() - k) as nat),
    decreases u.len() - k,
{
    if k < u.len() {
        lemma_rank_bound(s, u, k + 1);
        let d = exponent(s, u[k].0);
        let w = digit_weight((u.len() - 1 - k) as nat);
        assert(d <= 255);
        assert(d * w + rank_from(s, u, k + 1) < 256 * w) by (nonlinear_arith)
            requires
                d <= 255,
                rank_from(s, u, k + 1) < w,
        ;
    }
}

/// The rank of a product is the sum of the ranks.
pub proof fn lemma_rank_mul(x: Shape, y: Shape, u: Shape, k: int)
    requires
        0 <= k <= u.len(),
    ensures
        rank_from(shape_mul(x, y), u, k) == rank_from(x, u, k) + rank_from(y, u, k),
    decreases u.len() - k,
{
    if k < u.len() {
        lemma_rank_mul(x, y, u, k + 1);
        lemma_exponent_mul(x, y, u[k].0);
        let w = digit_weight((u.len() - 1 - k) as nat);
        let a = exponent(x, u[k].0);
        let b = exponent(y, u[k].0);
        assert((a + b) * w == a * w + b * w) by (nonlinear_arith);
    }
}

proof fn lemma_rank_outgrows_from(x: Shape, y: Shape, u: Shape, f: CompositeView, at: int, k: int)
    requires
        shape_wf(u),
        0 <= k <= at < u.len(),
        u[at].0 == f,
        outgrows(x, y, f),
        bounded(y),
    ensures
        rank_from(x, u, k) > rank_from(y, u, k),
    decreases at - k,
{
    let w = digit_weight((u.len() - 1 - k) as nat);
    let a = exponent(x, u[k].0);
    let b = exponent(y, u[k].0);
    if k < at {
        lemma_rank_outgrows_from(x, y, u, f, at, k + 1);
        assert(composite_order(u[k].0, u[at].0) > 0);
        assert(a == b);
    } else {
        lemma_rank_bound(y, u, k + 1);
        assert(a * w >= (b + 1) * w) by (nonlinear_arith)
            requires
                a >= b + 1,
        ;
        assert((b + 1) * w == b * w + w) by (nonlinear_arith);
    }
}

/// The rank grows with the order: of two canonical power vectors over the
/// factors of `u`, the greater one has the higher rank.
pub proof fn lemma_rank_monotone(x: Shape, y: Shape, u: Shape)
    requires
        shape_wf(x),
        shape_wf(y),
        shape_wf(u),
        supported(x, u),
        bounded(y),
        shape_order(x, y) > 0,
    ensures
        rank(x, u) > rank(y, u),
{
    let f = lemma_order_witness(x, y, 0);
    assert(exponent(x, f) > 0);
    assert(exponent(u, f) > 0);
    lemma_exponent_cases(u, f);
    let at = choose|i: int| 0 <= i < u.len() && #[trigger] u[i] == (f, exponent(u, f));
    lemma_rank_outgrows_from(x, y, u, f, at, 0);
}

/// The factors of a product are the factors of the two power vectors.
pub proof fn lemma_supported_mul(x: Shape, y: Shape, u: Shape)
    requires
        supported(x, u),
        supported(y, u),
    ensures
        supported(shape_mul(x, y), u),
{
    assert forall|f: CompositeView| #[trigger] exponent(shape_mul(x, y), f) > 0 implies exponent(
        u,
        f,
    ) > 0 by {
        lemma_exponent_mul(x, y, f);
        if exponent(x, f) > 0 {
        } else {
            assert(exponent(y, f) > 0);
        }
    }
}

/// The product of the power vectors of the terms of `p` from index `i` on.
pub open spec fn all_factors_from(p: PolynomialView, i: int) -> Shape
    decreases p.len() - i,
{
    if i < 0 || i >= p.len() {
        Seq::empty()
    } else {
        shape_mul(p[i].powers, all_factors_from(p, i + 1))
    }
}

/// A power vector that holds every factor of the two polynomials.
pub open spec fn all_factors(a: PolynomialView, b: PolynomialView) -> Shape {
    shape_mul(all_factors_from(a, 0), all_factors_from(b, 0))
}

/// Every term of `p` has its power vector over the factors of `u`.
pub open spec fn terms_supported(p: PolynomialView, u: Shape) -> bool {
    forall|k: int| 0 <= k < p.len() ==> supported((#[trigger] p[k]).powers, u)
}

proof fn lemma_all_factors_from(p: PolynomialView, i: int)
    requires
        polynomial_wf(p),
        0 <= i <= p.len(),
    ensures
        shape_wf(all_factors_from(p, i)),
        forall|k: int| i <= k < p.len() ==> supported((#[trigger] p[k]).powers, all_factors_from(p, i)),
    decreases p.len() - i,
{
    if i < p.len() {
        lemma_all_factors_from(p, i + 1);
        let rest = all_factors_from(p, i + 1);
        let u = all_factors_from(p, i);
        assert(term_wf(p[i]));
        lemma_shape_mul_wf(p[i].powers, rest);
        assert forall|k: int| i <= k < p.len() implies supported((#[trigger] p[k]).powers, u) by {
            assert forall|f: CompositeView| #[trigger] exponent(p[k].powers, f) > 0 implies exponent(
                u,
                f,
            ) > 0 by {
                lemma_exponent_mul(p[i].powers, rest, f);
                if k > i {
                    assert(supported(p[k].powers, rest));
                }
            }
        }
    }
}

/// The power vector of all factors is canonical and holds the factors of
/// every term of the two polynomials.
pub proof fn lemma_all_factors(a: PolynomialView, b: PolynomialView)
    requires
        polynomial_wf(a),
        polynomial_wf(b),
    ensures
        shape_wf(all_factors(a, b)),
        terms_supported(a, all_factors(a, b)),
        terms_supported(b, all_factors(a, b)),
{
    lemma_all_factors_from(a, 0);
    lemma_all_factors_from(b, 0);
    let ua = all_factors_from(a, 0);
    let ub = all_factors_from(b, 0);
    let u = all_factors(a, b);
    lemma_shape_mul_wf(ua, ub);
    assert forall|k: int| 0 <= k < a.len() implies supported((#[trigger] a[k]).powers, u) by {
        assert forall|f: CompositeView| #[trigger] exponent(a[k].powers, f) > 0 implies exponent(
            u,
            f,
        ) > 0 by {
            lemma_exponent_mul(ua, ub, f);
            assert(supported(a[k].powers, ua));
        }
    }
    assert forall|k: int| 0 <= k < b.len() implies supported((#[trigger] b[k]).powers, u) by {
        assert forall|f: CompositeView| #[trigger] exponent(b[k].powers, f) > 0 implies exponent(
            u,
            f,
        ) > 0 by {
            lemma_exponent_mul(ua, ub, f);
            assert(supported(b[k].powers, ub));
        }
    }
}

/// Every term of `p` from index `i` on has a power vector of which `holds`
/// holds.
pub open spec fn every_term(p: PolynomialView, i: int, holds: spec_fn(Shape) -> bool) -> bool {
    forall|k: int| i <= k < p.len() ==> holds((#[trigger] p[k]).powers)
}

/// What holds of the power vectors of the terms of two polynomials holds
/// of the power vectors of the terms of their sum.
pub proof fn lemma_add_from_every(
    a: PolynomialView,
    b: PolynomialView,
    i: int,
    j: int,
    holds: spec_fn(Shape) -> bool,
)
    requires
        0 <= i <= a.len(),
        0 <= j <= b.len(),
        every_term(a, i, holds),
        every_term(b, j, holds),
    ensures
        every_term(add_from(a, b, i, j), 0, holds),
    decreases a.len() - i + b.len() - j,
{
    let r = add_from(a, b, i, j);
    if i >= a.len() && j >= b.len() {
    } else {
        let in_a = i < a.len() && (j >= b.len() || shape_order(a[i].powers, b[j].powers) >= 0);
        let in_b = j < b.len() && (i >= a.len() || shape_order(a[i].powers, b[j].powers) <= 0);
        let i2 = if in_a {
            i + 1
        } else {
            i
        };
        let j2 = if in_b {
            j + 1
        } else {
            j
        };
        let rest = add_from(a, b, i2, j2);
        lemma_add_from_every(a, b, i2, j2, holds);
        if r.len() != rest.len() {
            assert(r =~= seq![r[0]] + rest);
            assert(r[0].powers == if in_a {
                a[i].powers
            } else {
                b[j].powers
            });
            assert forall|k: int| 0 <= k < r.len() implies holds((#[trigger] r[k]).powers) by {
                if k > 0 {
                    assert(r[k] == rest[k - 1]);
                }
            }
        }
    }
}

/// What holds of the power vectors of the products of `m` and the first
/// `n` terms of `b` holds of the power vectors of the terms of their sum.
pub proof fn lemma_times_prefix_every(
    m: MonomialView,
    b: PolynomialView,
    n: int,
    holds: spec_fn(Shape) -> bool,
)
    requires
        0 <= n <= b.len(),
        forall|k: int| 0 <= k < n ==> holds(#[trigger] shape_mul(m.powers, b[k].powers)),
    ensures
        every_term(times_prefix(m, b, n), 0, holds),
    decreases n,
{
    if n > 0 {
        lemma_times_prefix_every(m, b, n - 1, holds);
        let t = monomial_mul(m, b[n - 1]);
        assert(holds(shape_mul(m.powers, b[n - 1].powers)));
        assert(every_term(single(t), 0, holds));
        lemma_add_from_every(times_prefix(m, b, n - 1), single(t), 0, 0, holds);
    }
}

/// What holds of the power vectors of the terms of a polynomial holds of
/// those of its negation.
pub proof fn lemma_neg_every(a: PolynomialView, holds: spec_fn(Shape) -> bool)
    requires
        every_term(a, 0, holds),
    ensures
        every_term(polynomial_neg(a), 0, holds),
{
    let r = polynomial_neg(a);
    assert forall|k: int| 0 <= k < r.len() implies holds((#[trigger] r[k]).powers) by {
        assert(r[k].powers == a[k].powers);
    }
}

} // verus!
