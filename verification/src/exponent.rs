//! The power with which a factor occurs in a power vector.
use vstd::prelude::*;
use crate::model::{composite_order, shape_order, shape_order_from, shape_wf, CompositeView, Shape};
use crate::order::{
    lemma_composite_order_flip, lemma_composite_order_trans, lemma_composite_order_zero,
    lemma_shape_order_flip, lemma_shape_order_zero,
};
use crate::shape::{
    dominates, lemma_shape_mul_wf, shape_div, shape_div_from, shape_mul, shape_mul_from,
};

verus! {

/// The sum of the powers with which the factor `f` occurs in the power
/// vector `s` from index `i` on.
pub open spec fn exponent_from(s: Shape, f: CompositeView, i: int) -> nat
    decreases s.len() - i,
{
    if i < 0 || i >= s.len() {
        0
    } else {
        (if s[i].0 == f {
            s[i].1
        } else {
            0nat
        }) + exponent_from(s, f, i + 1)
    }
}

/// The power with which the factor `f` occurs in the power vector `s`; zero
/// where it does not occur.
pub open spec fn exponent(s: Shape, f: CompositeView) -> nat {
    exponent_from(s, f, 0)
}

proof fn lemma_exponent_shift(
    h: (CompositeView, nat),
    rest: Shape,
    f: CompositeView,
    k: int,
)
    requires
        0 <= k <= rest.len(),
    ensures
        exponent_from(seq![h] + rest, f, k + 1) == exponent_from(rest, f, k),
    decreases rest.len() - k,
{
    let s = seq![h] + rest;
    if k < rest.len() {
        lemma_exponent_shift(h, rest, f, k + 1);
        assert(s[k + 1] == rest[k]);
    }
}

/// The powers of a power vector with one more pair in front.
pub proof fn lemma_exponent_prepend(h: (CompositeView, nat), rest: Shape, f: CompositeView)
    ensures
        exponent(seq![h] + rest, f) == (if h.0 == f {
            h.1
        } else {
            0nat
        }) + exponent(rest, f),
{
    let s = seq![h] + rest;
    lemma_exponent_shift(h, rest, f, 0);
    assert(s[0] == h);
}

/// In a product every factor has the sum of its powers in the two power
/// vectors.
pub proof fn lemma_exponent_mul_from(a: Shape, b: Shape, i: int, j: int, f: CompositeView)
    requires
        0 <= i <= a.len(),
        0 <= j <= b.len(),
    ensures
        exponent(shape_mul_from(a, b, i, j), f) == exponent_from(a, f, i) + exponent_from(b, f, j),
    decreases a.len() - i + b.len() - j,
{
    let r = shape_mul_from(a, b, i, j);
    if i >= a.len() && j >= b.len() {
    } else {
        let in_a = i < a.len() && (j >= b.len() || composite_order(a[i].0, b[j].0) >= 0);
        let in_b = j < b.len() && (i >= a.len() || composite_order(a[i].0, b[j].0) <= 0);
        let i2 = if in_a {
            i + 1
        } else {
            i
        };
        let j2 = if in_b {
            j + 1
        } else {
            j
        };
        let rest = shape_mul_from(a, b, i2, j2);
        lemma_exponent_mul_from(a, b, i2, j2, f);
        if in_a && in_b {
            lemma_composite_order_zero(a[i].0, b[j].0);
        }
        assert(r =~= seq![r[0]] + rest);
        lemma_exponent_prepend(r[0], rest, f);
    }
}

/// In a product every factor has the sum of its powers in the two power
/// vectors.
pub proof fn lemma_exponent_mul(a: Shape, b: Shape, f: CompositeView)
    ensures
        exponent(shape_mul(a, b), f) == exponent(a, f) + exponent(b, f),
{
    lemma_exponent_mul_from(a, b, 0, 0, f);
}

/// In a quotient every factor has the difference of its powers in the two
/// power vectors.
pub proof fn lemma_exponent_div_from(a: Shape, b: Shape, i: int, j: int, f: CompositeView)
    requires
        0 <= i <= a.len(),
        0 <= j <= b.len(),
        shape_div_from(a, b, i, j) is Some,
    ensures
        exponent(shape_div_from(a, b, i, j).unwrap(), f) + exponent_from(b, f, j) == exponent_from(
            a,
            f,
            i,
        ),
    decreases a.len() - i + b.len() - j,
{
    let q = shape_div_from(a, b, i, j).unwrap();
    if i < a.len() {
        let c = if j < b.len() {
            composite_order(a[i].0, b[j].0)
        } else {
            1
        };
        let j2 = if c > 0 {
            j
        } else {
            j + 1
        };
        lemma_exponent_div_from(a, b, i + 1, j2, f);
        let rest = shape_div_from(a, b, i + 1, j2).unwrap();
        if c == 0 {
            lemma_composite_order_zero(a[i].0, b[j].0);
        }
        if q.len() != rest.len() {
            assert(q =~= seq![q[0]] + rest);
            lemma_exponent_prepend(q[0], rest, f);
        }
    }
}

/// In a quotient every factor has the difference of its powers in the two
/// power vectors.
pub proof fn lemma_exponent_div(a: Shape, b: Shape, f: CompositeView)
    requires
        shape_div(a, b) is Some,
    ensures
        exponent(shape_div(a, b).unwrap(), f) + exponent(b, f) == exponent(a, f),
{
    lemma_exponent_div_from(a, b, 0, 0, f);
}

/// A factor that is greater than every factor from index `i` on does not
/// occur there.
pub proof fn lemma_exponent_absent(s: Shape, f: CompositeView, i: int)
    requires
        0 <= i <= s.len(),
        dominates(f, s, i),
    ensures
        exponent_from(s, f, i) == 0,
    decreases s.len() - i,
{
    if i < s.len() {
        lemma_exponent_absent(s, f, i + 1);
        lemma_composite_order_zero(f, s[i].0);
    }
}

/// Positions that do not hold the factor add nothing to its power.
pub proof fn lemma_exponent_skip(s: Shape, f: CompositeView, k: int, i: int)
    requires
        0 <= k <= i <= s.len(),
        forall|j: int| k <= j < i ==> (#[trigger] s[j]).0 != f,
    ensures
        exponent_from(s, f, k) == exponent_from(s, f, i),
    decreases i - k,
{
    if k < i {
        lemma_exponent_skip(s, f, k + 1, i);
    }
}

/// Two power vectors with the same first `i` pairs give a factor the same
/// power within them.
pub proof fn lemma_exponent_prefix(x: Shape, y: Shape, f: CompositeView, k: int, i: int)
    requires
        0 <= k <= i <= x.len(),
        i <= y.len(),
        forall|j: int| 0 <= j < i ==> x[j] == y[j],
    ensures
        exponent_from(x, f, k) - exponent_from(x, f, i) == exponent_from(y, f, k) - exponent_from(
            y,
            f,
            i,
        ),
    decreases i - k,
{
    if k < i {
        lemma_exponent_prefix(x, y, f, k + 1, i);
    }
}

/// In a canonical power vector a factor has the power that stands with it.
pub proof fn lemma_exponent_own(s: Shape, i: int)
    requires
        shape_wf(s),
        0 <= i < s.len(),
    ensures
        exponent(s, s[i].0) == s[i].1,
        s[i].1 > 0,
{
    let f = s[i].0;
    assert(dominates(f, s, i + 1));
    lemma_exponent_absent(s, f, i + 1);
    assert forall|j: int| 0 <= j < i implies (#[trigger] s[j]).0 != f by {
        lemma_composite_order_zero(s[j].0, f);
    }
    lemma_exponent_skip(s, f, 0, i);
}

/// A factor that is greater than a factor which is at least as great as
/// every factor from index `i` on is greater than each of them.
pub proof fn lemma_dominates_above(g: CompositeView, f: CompositeView, s: Shape, i: int)
    requires
        composite_order(g, f) > 0,
        forall|k: int| i <= k < s.len() ==> composite_order(f, (#[trigger] s[k]).0) >= 0,
    ensures
        dominates(g, s, i),
{
    assert forall|k: int| i <= k < s.len() implies composite_order(g, (#[trigger] s[k]).0)
        > 0 by {
        lemma_composite_order_zero(f, s[k].0);
        if composite_order(f, s[k].0) > 0 {
            lemma_composite_order_trans(g, f, s[k].0);
        }
    }
}

/// The factor at index `i` of a canonical power vector is at least as
/// great as every factor from there on.
pub proof fn lemma_head_bounds(s: Shape, i: int)
    requires
        shape_wf(s),
        0 <= i < s.len(),
    ensures
        forall|k: int| i <= k < s.len() ==> composite_order(s[i].0, (#[trigger] s[k]).0) >= 0,
{
    assert forall|k: int| i <= k < s.len() implies composite_order(s[i].0, (#[trigger] s[k]).0)
        >= 0 by {
        if k == i {
            lemma_composite_order_zero(s[i].0, s[k].0);
        }
    }
}

/// The power vector `x` has a higher power of `f` than `y`, and the two
/// agree on every factor that is greater than `f`.
pub open spec fn outgrows(x: Shape, y: Shape, f: CompositeView) -> bool {
    &&& exponent(x, f) > exponent(y, f)
    &&& forall|g: CompositeView|
        composite_order(g, f) > 0 ==> #[trigger] exponent(x, g) == exponent(y, g)
}

/// Two power vectors with the same first `i` pairs agree on every factor
/// that is greater than a factor `f` which bounds what follows in both.
pub proof fn lemma_agree_above(x: Shape, y: Shape, i: int, f: CompositeView)
    requires
        0 <= i <= x.len(),
        i <= y.len(),
        forall|j: int| 0 <= j < i ==> x[j] == y[j],
        forall|k: int| i <= k < x.len() ==> composite_order(f, (#[trigger] x[k]).0) >= 0,
        forall|k: int| i <= k < y.len() ==> composite_order(f, (#[trigger] y[k]).0) >= 0,
    ensures
        forall|g: CompositeView|
            composite_order(g, f) > 0 ==> #[trigger] exponent(x, g) == exponent(y, g),
{
    assert forall|g: CompositeView| composite_order(g, f) > 0 implies #[trigger] exponent(x, g)
        == exponent(y, g) by {
        lemma_dominates_above(g, f, x, i);
        lemma_dominates_above(g, f, y, i);
        lemma_exponent_absent(x, g, i);
        lemma_exponent_absent(y, g, i);
        lemma_exponent_prefix(x, y, g, 0, i);
    }
}

/// The greater of two canonical power vectors has a higher power of some
/// factor, and the two agree on every factor that is greater than it.
pub proof fn lemma_order_witness(x: Shape, y: Shape, i: int) -> (f: CompositeView)
    requires
        shape_wf(x),
        shape_wf(y),
        0 <= i <= x.len(),
        i <= y.len(),
        forall|j: int| 0 <= j < i ==> x[j] == y[j],
        shape_order_from(x, y, i) > 0,
    ensures
        outgrows(x, y, f),
    decreases x.len() - i,
{
    // the first vector cannot end here: it would not be the greater one
    assert(i < x.len());
    let f = x[i].0;
    lemma_exponent_own(x, i);
    lemma_head_bounds(x, i);
    if i >= y.len() {
        assert forall|j: int| 0 <= j < y.len() implies (#[trigger] y[j]).0 != f by {
            assert(y[j] == x[j]);
            lemma_composite_order_zero(x[j].0, f);
        }
        lemma_exponent_skip(y, f, 0, y.len() as int);
        lemma_agree_above(x, y, i, f);
        f
    } else {
        let c = composite_order(x[i].0, y[i].0);
        lemma_head_bounds(y, i);
        if c > 0 {
            // f is greater than everything that is left of y
            assert forall|k: int| i <= k < y.len() implies composite_order(
                f,
                (#[trigger] y[k]).0,
            ) >= 0 by {
                lemma_composite_order_zero(y[i].0, y[k].0);
                if composite_order(y[i].0, y[k].0) > 0 {
                    lemma_composite_order_trans(f, y[i].0, y[k].0);
                }
            }
            assert(dominates(f, y, i)) by {
                assert forall|k: int| i <= k < y.len() implies composite_order(
                    f,
                    (#[trigger] y[k]).0,
                ) > 0 by {
                    lemma_composite_order_zero(y[i].0, y[k].0);
                    if composite_order(y[i].0, y[k].0) > 0 {
                        lemma_composite_order_trans(f, y[i].0, y[k].0);
                    }
                }
            }
            lemma_exponent_absent(y, f, i);
            assert forall|j: int| 0 <= j < i implies (#[trigger] y[j]).0 != f by {
                assert(y[j] == x[j]);
                lemma_composite_order_zero(x[j].0, f);
            }
            lemma_exponent_skip(y, f, 0, i);
            lemma_agree_above(x, y, i, f);
            f
        } else {
            assert(c == 0);
            lemma_composite_order_zero(x[i].0, y[i].0);
            if x[i].1 != y[i].1 {
                lemma_exponent_own(y, i);
                lemma_agree_above(x, y, i, f);
                f
            } else {
                assert(x[i] == y[i]);
                lemma_order_witness(x, y, i + 1)
            }
        }
    }
}

/// Two canonical power vectors that give every factor the same power are
/// the same.
pub proof fn lemma_exponents_unique(x: Shape, y: Shape)
    requires
        shape_wf(x),
        shape_wf(y),
        forall|f: CompositeView| exponent(x, f) == exponent(y, f),
    ensures
        x == y,
{
    lemma_shape_order_zero(x, y);
    lemma_shape_order_flip(x, y);
    if shape_order(x, y) > 0 {
        let f = lemma_order_witness(x, y, 0);
        assert(exponent(x, f) == exponent(y, f));
    } else if shape_order(x, y) < 0 {
        let f = lemma_order_witness(y, x, 0);
        assert(exponent(x, f) == exponent(y, f));
    }
}

/// The quotient of two canonical power vectors times the divisor is the
/// dividend.
pub proof fn lemma_shape_div_mul(x: Shape, y: Shape)
    requires
        shape_wf(x),
        shape_wf(y),
        shape_div(x, y) is Some,
    ensures
        shape_mul(shape_div(x, y).unwrap(), y) == x,
{
    let q = shape_div(x, y).unwrap();
    crate::shape::lemma_shape_div_wf(x, y);
    lemma_shape_mul_wf(q, y);
    assert forall|f: CompositeView| exponent(shape_mul(q, y), f) == exponent(x, f) by {
        lemma_exponent_mul(q, y, f);
        lemma_exponent_div(x, y, f);
    }
    lemma_exponents_unique(shape_mul(q, y), x);
}

/// The product of power vectors is commutative.
pub proof fn lemma_shape_mul_commutative(x: Shape, y: Shape)
    requires
        shape_wf(x),
        shape_wf(y),
    ensures
        shape_mul(x, y) == shape_mul(y, x),
{
    lemma_shape_mul_wf(x, y);
    lemma_shape_mul_wf(y, x);
    assert forall|f: CompositeView| exponent(shape_mul(x, y), f) == exponent(
        shape_mul(y, x),
        f,
    ) by {
        lemma_exponent_mul(x, y, f);
        lemma_exponent_mul(y, x, f);
    }
    lemma_exponents_unique(shape_mul(x, y), shape_mul(y, x));
}

/// The product of power vectors is associative.
pub proof fn lemma_shape_mul_associative(x: Shape, y: Shape, z: Shape)
    requires
        shape_wf(x),
        shape_wf(y),
        shape_wf(z),
    ensures
        shape_mul(shape_mul(x, y), z) == shape_mul(x, shape_mul(y, z)),
{
    lemma_shape_mul_wf(x, y);
    lemma_shape_mul_wf(y, z);
    lemma_shape_mul_wf(shape_mul(x, y), z);
    lemma_shape_mul_wf(x, shape_mul(y, z));
    assert forall|f: CompositeView| exponent(shape_mul(shape_mul(x, y), z), f) == exponent(
        shape_mul(x, shape_mul(y, z)),
        f,
    ) by {
        lemma_exponent_mul(x, y, f);
        lemma_exponent_mul(shape_mul(x, y), z, f);
        lemma_exponent_mul(y, z, f);
        lemma_exponent_mul(x, shape_mul(y, z), f);
    }
    lemma_exponents_unique(shape_mul(shape_mul(x, y), z), shape_mul(x, shape_mul(y, z)));
}

/// The empty power vector is the unit of the product.
pub proof fn lemma_shape_mul_unit(x: Shape)
    requires
        shape_wf(x),
    ensures
        shape_mul(x, Seq::empty()) == x,
        shape_mul(Seq::empty(), x) == x,
{
    let unit = Seq::<(CompositeView, nat)>::empty();
    lemma_shape_mul_wf(x, unit);
    lemma_shape_mul_wf(unit, x);
    assert forall|f: CompositeView| exponent(shape_mul(x, unit), f) == exponent(x, f) by {
        lemma_exponent_mul(x, unit, f);
    }
    assert forall|f: CompositeView| exponent(shape_mul(unit, x), f) == exponent(x, f) by {
        lemma_exponent_mul(unit, x, f);
    }
    lemma_exponents_unique(shape_mul(x, unit), x);
    lemma_exponents_unique(shape_mul(unit, x), x);
}

/// In a canonical power vector the factor at index `i` does not occur
/// again behind it.
pub proof fn lemma_exponent_behind(s: Shape, i: int)
    requires
        shape_wf(s),
        0 <= i < s.len(),
    ensures
        exponent_from(s, s[i].0, i + 1) == 0,
        exponent_from(s, s[i].0, i) == s[i].1,
{
    assert(dominates(s[i].0, s, i + 1));
    lemma_exponent_absent(s, s[i].0, i + 1);
}

/// A power vector divides another where it gives no factor a higher
/// power.
pub proof fn lemma_shape_div_criterion_from(a: Shape, b: Shape, i: int, j: int)
    requires
        shape_wf(a),
        shape_wf(b),
        0 <= i <= a.len(),
        0 <= j <= b.len(),
        forall|f: CompositeView| #[trigger] exponent_from(b, f, j) <= exponent_from(a, f, i),
    ensures
        shape_div_from(a, b, i, j) is Some,
    decreases a.len() - i + b.len() - j,
{
    if j >= b.len() {
        if i < a.len() {
            assert forall|f: CompositeView| #[trigger]
                exponent_from(b, f, j) <= exponent_from(a, f, i + 1) by {}
            lemma_shape_div_criterion_from(a, b, i + 1, j);
        }
    } else {
        let g = b[j].0;
        lemma_exponent_behind(b, j);
        assert(exponent_from(b, g, j) <= exponent_from(a, g, i));
        if i >= a.len() {
            assert(false);
        } else {
            let h = a[i].0;
            lemma_exponent_behind(a, i);
            lemma_head_bounds(a, i);
            lemma_head_bounds(b, j);
            let c = composite_order(h, g);
            lemma_composite_order_zero(h, g);
            lemma_composite_order_flip(h, g);
            if c < 0 {
                // the factor of the divisor is greater than every factor
                // that is left of the dividend
                lemma_dominates_above(g, h, a, i);
                lemma_exponent_absent(a, g, i);
                assert(false);
            } else if c > 0 {
                lemma_dominates_above(h, g, b, j);
                lemma_exponent_absent(b, h, j);
                assert forall|f: CompositeView| #[trigger]
                    exponent_from(b, f, j) <= exponent_from(a, f, i + 1) by {
                    assert(exponent_from(b, f, j) <= exponent_from(a, f, i));
                }
                lemma_shape_div_criterion_from(a, b, i + 1, j);
            } else {
                assert forall|f: CompositeView| #[trigger]
                    exponent_from(b, f, j + 1) <= exponent_from(a, f, i + 1) by {
                    assert(exponent_from(b, f, j) <= exponent_from(a, f, i));
                }
                lemma_shape_div_criterion_from(a, b, i + 1, j + 1);
            }
        }
    }
}

/// The product of two canonical power vectors divided by the second is the
/// first.
pub proof fn lemma_shape_div_of_product(x: Shape, y: Shape)
    requires
        shape_wf(x),
        shape_wf(y),
    ensures
        shape_div(shape_mul(x, y), y) == Some(x),
{
    let p = shape_mul(x, y);
    lemma_shape_mul_wf(x, y);
    assert forall|f: CompositeView| #[trigger] exponent_from(y, f, 0) <= exponent_from(
        p,
        f,
        0,
    ) by {
        lemma_exponent_mul(x, y, f);
    }
    lemma_shape_div_criterion_from(p, y, 0, 0);
    let q = shape_div(p, y).unwrap();
    crate::shape::lemma_shape_div_wf(p, y);
    assert forall|f: CompositeView| exponent(q, f) == exponent(x, f) by {
        lemma_exponent_mul(x, y, f);
        lemma_exponent_div(p, y, f);
    }
    lemma_exponents_unique(q, x);
}

} // verus!
