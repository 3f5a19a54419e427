//! Products and quotients of power vectors.
use vstd::prelude::*;
use crate::model::{composite_order, composite_wf, shape_wf, CompositeView, MonomialView, Shape};
use crate::order::{
    lemma_composite_order_flip, lemma_composite_order_trans, lemma_composite_order_zero,
};

verus! {

/// The product of the parts of two power vectors from the indices `i` and
/// `j` on: the two descending vectors are merged, and the powers of a factor
/// that occurs in both are added.
pub open spec fn shape_mul_from(a: Shape, b: Shape, i: int, j: int) -> Shape
    decreases a.len() - i + b.len() - j,
{
    if i < 0 || j < 0 || i > a.len() || j > b.len() || (i >= a.len() && j >= b.len()) {
        Seq::empty()
    } else if i >= a.len() {
        seq![b[j]] + shape_mul_from(a, b, i, j + 1)
    } else if j >= b.len() {
        seq![a[i]] + shape_mul_from(a, b, i + 1, j)
    } else {
        let c = composite_order(a[i].0, b[j].0);
        if c > 0 {
            seq![a[i]] + shape_mul_from(a, b, i + 1, j)
        } else if c < 0 {
            seq![b[j]] + shape_mul_from(a, b, i, j + 1)
        } else {
            seq![(a[i].0, a[i].1 + b[j].1)] + shape_mul_from(a, b, i + 1, j + 1)
        }
    }
}

/// The product of two power vectors.
pub open spec fn shape_mul(a: Shape, b: Shape) -> Shape {
    shape_mul_from(a, b, 0, 0)
}

/// A power vector with one more pair in front, where there is a vector.
pub open spec fn prepend(x: (CompositeView, nat), rest: Option<Shape>) -> Option<Shape> {
    match rest {
        Some(s) => Some(seq![x] + s),
        None => None,
    }
}

/// The quotient of the parts of two power vectors from the indices `i` and
/// `j` on, where the divisor's part divides the dividend's: every factor of
/// the divisor occurs in the dividend with at least the same power. The
/// powers are subtracted and a factor whose power becomes zero is left out.
pub open spec fn shape_div_from(a: Shape, b: Shape, i: int, j: int) -> Option<Shape>
    decreases a.len() - i + b.len() - j,
{
    if i < 0 || j < 0 || i > a.len() || j > b.len() {
        None
    } else if j >= b.len() {
        if i >= a.len() {
            Some(Seq::empty())
        } else {
            prepend(a[i], shape_div_from(a, b, i + 1, j))
        }
    } else if i >= a.len() {
        None
    } else {
        let c = composite_order(a[i].0, b[j].0);
        if c < 0 {
            None
        } else if c > 0 {
            prepend(a[i], shape_div_from(a, b, i + 1, j))
        } else if a[i].1 < b[j].1 {
            None
        } else if a[i].1 == b[j].1 {
            shape_div_from(a, b, i + 1, j + 1)
        } else {
            prepend((a[i].0, (a[i].1 - b[j].1) as nat), shape_div_from(a, b, i + 1, j + 1))
        }
    }
}

/// The quotient of two power vectors, where the second divides the first.
pub open spec fn shape_div(a: Shape, b: Shape) -> Option<Shape> {
    shape_div_from(a, b, 0, 0)
}

/// The product of two monomials.
pub open spec fn monomial_mul(a: MonomialView, b: MonomialView) -> MonomialView {
    MonomialView {
        coefficient: a.coefficient * b.coefficient,
        powers: shape_mul(a.powers, b.powers),
    }
}

/// The factor `x` is greater than every factor of `s` from index `i` on.
pub open spec fn dominates(x: CompositeView, s: Shape, i: int) -> bool {
    forall|k: int| i <= k < s.len() ==> composite_order(x, (#[trigger] s[k]).0) > 0
}

/// A factor that is greater than what is left of both vectors is greater
/// than every factor of their product.
pub proof fn lemma_shape_mul_from_dominated(a: Shape, b: Shape, i: int, j: int, x: CompositeView)
    requires
        0 <= i <= a.len(),
        0 <= j <= b.len(),
        dominates(x, a, i),
        dominates(x, b, j),
    ensures
        dominates(x, shape_mul_from(a, b, i, j), 0),
    decreases a.len() - i + b.len() - j,
{
    let r = shape_mul_from(a, b, i, j);
    if i >= a.len() && j >= b.len() {
    } else if i >= a.len() {
        lemma_shape_mul_from_dominated(a, b, i, j + 1, x);
        let rest = shape_mul_from(a, b, i, j + 1);
        assert forall|k: int| 0 <= k < r.len() implies composite_order(x, (#[trigger] r[k]).0)
            > 0 by {
            if k > 0 {
                assert(r[k] == rest[k - 1]);
            }
        }
    } else if j >= b.len() {
        lemma_shape_mul_from_dominated(a, b, i + 1, j, x);
        let rest = shape_mul_from(a, b, i + 1, j);
        assert forall|k: int| 0 <= k < r.len() implies composite_order(x, (#[trigger] r[k]).0)
            > 0 by {
            if k > 0 {
                assert(r[k] == rest[k - 1]);
            }
        }
    } else {
        let c = composite_order(a[i].0, b[j].0);
        let rest = if c > 0 {
            shape_mul_from(a, b, i + 1, j)
        } else if c < 0 {
            shape_mul_from(a, b, i, j + 1)
        } else {
            shape_mul_from(a, b, i + 1, j + 1)
        };
        if c > 0 {
            lemma_shape_mul_from_dominated(a, b, i + 1, j, x);
        } else if c < 0 {
            lemma_shape_mul_from_dominated(a, b, i, j + 1, x);
        } else {
            lemma_shape_mul_from_dominated(a, b, i + 1, j + 1, x);
        }
        assert forall|k: int| 0 <= k < r.len() implies composite_order(x, (#[trigger] r[k]).0)
            > 0 by {
            if k > 0 {
                assert(r[k] == rest[k - 1]);
            }
        }
    }
}

/// The product of two canonical power vectors is canonical.
pub proof fn lemma_shape_mul_from_wf(a: Shape, b: Shape, i: int, j: int)
    requires
        shape_wf(a),
        shape_wf(b),
        0 <= i <= a.len(),
        0 <= j <= b.len(),
    ensures
        shape_wf(shape_mul_from(a, b, i, j)),
    decreases a.len() - i + b.len() - j,
{
    let r = shape_mul_from(a, b, i, j);
    if i >= a.len() && j >= b.len() {
    } else {
        let in_a = i < a.len() && (j >= b.len() || composite_order(a[i].0, b[j].0) >= 0);
        let in_b = j < b.len() && (i >= a.len() || composite_order(a[i].0, b[j].0) <= 0);
        let i2 = if in_a {
            i + 1
        } else {
            i
        };
        let j2 = if in_b {
            j + 1
        } else {
            j
        };
        let rest = shape_mul_from(a, b, i2, j2);
        let head = r[0];
        assert(r =~= seq![head] + rest);
        lemma_shape_mul_from_wf(a, b, i2, j2);
        // the head is greater than everything that is left of both vectors
        assert(dominates(head.0, a, i2)) by {
            assert forall|k: int| i2 <= k < a.len() implies composite_order(
                head.0,
                (#[trigger] a[k]).0,
            ) > 0 by {
                if in_a {
                    assert(head.0 == a[i].0);
                } else {
                    // head is b[j], which is greater than a[i]
                    lemma_composite_order_flip(a[i].0, b[j].0);
                    if k > i {
                        lemma_composite_order_trans(b[j].0, a[i].0, a[k].0);
                    }
                }
            }
        }
        assert(dominates(head.0, b, j2)) by {
            assert forall|k: int| j2 <= k < b.len() implies composite_order(
                head.0,
                (#[trigger] b[k]).0,
            ) > 0 by {
                if in_b {
                    assert(head.0 == b[j].0) by {
                        if in_a {
                            lemma_composite_order_zero(a[i].0, b[j].0);
                        }
                    }
                } else {
                    if k > j {
                        lemma_composite_order_trans(a[i].0, b[j].0, b[k].0);
                    }
                }
            }
        }
        lemma_shape_mul_from_dominated(a, b, i2, j2, head.0);
        assert forall|k: int| 0 <= k < r.len() implies (#[trigger] r[k]).1 > 0 && composite_wf(
            r[k].0,
        ) by {
            if k > 0 {
                assert(r[k] == rest[k - 1]);
            } else {
                if in_a {
                    assert(a[i].1 > 0 && composite_wf(a[i].0));
                } else {
                    assert(b[j].1 > 0 && composite_wf(b[j].0));
                }
            }
        }
        assert forall|k: int, l: int| 0 <= k < l < r.len() implies composite_order(
            (#[trigger] r[k]).0,
            (#[trigger] r[l]).0,
        ) > 0 by {
            assert(r[l] == rest[l - 1]);
            if k > 0 {
                assert(r[k] == rest[k - 1]);
            }
        }
    }
}

/// The product of two canonical power vectors is canonical.
pub proof fn lemma_shape_mul_wf(a: Shape, b: Shape)
    requires
        shape_wf(a),
        shape_wf(b),
    ensures
        shape_wf(shape_mul(a, b)),
{
    lemma_shape_mul_from_wf(a, b, 0, 0);
}

/// A factor that is greater than what is left of the dividend is greater
/// than every factor of the quotient.
pub proof fn lemma_shape_div_from_dominated(a: Shape, b: Shape, i: int, j: int, x: CompositeView)
    requires
        0 <= i <= a.len(),
        0 <= j <= b.len(),
        dominates(x, a, i),
        shape_div_from(a, b, i, j) is Some,
    ensures
        dominates(x, shape_div_from(a, b, i, j).unwrap(), 0),
    decreases a.len() - i + b.len() - j,
{
    let r = shape_div_from(a, b, i, j).unwrap();
    if i < a.len() {
        let c = if j < b.len() {
            composite_order(a[i].0, b[j].0)
        } else {
            1
        };
        let j2 = if c > 0 {
            j
        } else {
            j + 1
        };
        lemma_shape_div_from_dominated(a, b, i + 1, j2, x);
        let rest = shape_div_from(a, b, i + 1, j2).unwrap();
        assert forall|k: int| 0 <= k < r.len() implies composite_order(x, (#[trigger] r[k]).0)
            > 0 by {
            if r.len() == rest.len() {
            } else if k > 0 {
                assert(r[k] == rest[k - 1]);
            } else {
                assert(r[0].0 == a[i].0);
            }
        }
    }
}

/// The quotient of a canonical power vector is canonical.
pub proof fn lemma_shape_div_from_wf(a: Shape, b: Shape, i: int, j: int)
    requires
        shape_wf(a),
        0 <= i <= a.len(),
        0 <= j <= b.len(),
        shape_div_from(a, b, i, j) is Some,
    ensures
        shape_wf(shape_div_from(a, b, i, j).unwrap()),
    decreases a.len() - i + b.len() - j,
{
    let r = shape_div_from(a, b, i, j).unwrap();
    if i < a.len() {
        let c = if j < b.len() {
            composite_order(a[i].0, b[j].0)
        } else {
            1
        };
        let j2 = if c > 0 {
            j
        } else {
            j + 1
        };
        lemma_shape_div_from_wf(a, b, i + 1, j2);
        let rest = shape_div_from(a, b, i + 1, j2).unwrap();
        if r.len() != rest.len() {
            assert(r =~= seq![r[0]] + rest);
            assert(r[0].0 == a[i].0);
            assert(dominates(a[i].0, a, i + 1));
            lemma_shape_div_from_dominated(a, b, i + 1, j2, a[i].0);
            assert forall|k: int| 0 <= k < r.len() implies (#[trigger] r[k]).1 > 0
                && composite_wf(r[k].0) by {
                if k > 0 {
                    assert(r[k] == rest[k - 1]);
                } else {
                    assert(a[i].1 > 0 && composite_wf(a[i].0));
                }
            }
            assert forall|k: int, l: int| 0 <= k < l < r.len() implies composite_order(
                (#[trigger] r[k]).0,
                (#[trigger] r[l]).0,
            ) > 0 by {
                assert(r[l] == rest[l - 1]);
                if k > 0 {
                    assert(r[k] == rest[k - 1]);
                }
            }
        }
    }
}

/// The quotient of a canonical power vector is canonical.
pub proof fn lemma_shape_div_wf(a: Shape, b: Shape)
    requires
        shape_wf(a),
        shape_div(a, b) is Some,
    ensures
        shape_wf(shape_div(a, b).unwrap()),
{
    lemma_shape_div_from_wf(a, b, 0, 0);
}

} // verus!
