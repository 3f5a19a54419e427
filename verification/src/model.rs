//! The mathematical model of symbolic expressions.
//!
//! Executable values are described by views over unbounded integers and
//! sequences. Every contract of the library is stated over these views.
use vstd::prelude::*;
use crate::functions::unfolded;

verus! {

/// The view of a symbolic factor: an identifier, or one of the four binary
/// operations applied to two polynomial views.
pub enum CompositeView {
    Variable(u16),
    Floor(Seq<MonomialView>, Seq<MonomialView>),
    Ceil(Seq<MonomialView>, Seq<MonomialView>),
    Min(Seq<MonomialView>, Seq<MonomialView>),
    Max(Seq<MonomialView>, Seq<MonomialView>),
}

/// The view of a monomial: an integer coefficient times a product of factors
/// raised to natural powers.
pub struct MonomialView {
    pub coefficient: int,
    pub powers: Seq<(CompositeView, nat)>,
}

/// The power vector of a monomial, without its coefficient.
pub type Shape = Seq<(CompositeView, nat)>;

/// The view of a polynomial: its monomials, leading monomial first.
pub type PolynomialView = Seq<MonomialView>;

/// The sign of an integer: -1, 0 or 1.
pub open spec fn sign(x: int) -> int {
    if x < 0 {
        -1
    } else if x == 0 {
        0
    } else {
        1
    }
}

impl CompositeView {
    /// The position of the variant in the fixed ranking
    /// `Variable < Floor < Ceil < Min < Max`.
    pub open spec fn rank(self) -> int {
        match self {
            CompositeView::Variable(_) => 0,
            CompositeView::Floor(_, _) => 1,
            CompositeView::Ceil(_, _) => 2,
            CompositeView::Min(_, _) => 3,
            CompositeView::Max(_, _) => 4,
        }
    }

    /// The left operand of a binary factor (empty for a variable).
    pub open spec fn left(self) -> PolynomialView {
        match self {
            CompositeView::Variable(_) => Seq::empty(),
            CompositeView::Floor(l, _) => l,
            CompositeView::Ceil(l, _) => l,
            CompositeView::Min(l, _) => l,
            CompositeView::Max(l, _) => l,
        }
    }

    /// The right operand of a binary factor (empty for a variable).
    pub open spec fn right(self) -> PolynomialView {
        match self {
            CompositeView::Variable(_) => Seq::empty(),
            CompositeView::Floor(_, r) => r,
            CompositeView::Ceil(_, r) => r,
            CompositeView::Min(_, r) => r,
            CompositeView::Max(_, r) => r,
        }
    }
}

/// Three-way comparison of two factors: 1 when `a` is greater, -1 when it is
/// smaller, 0 when they are equal.
///
/// Different variants compare by rank. Two variables compare by identifier,
/// the smaller identifier being the greater factor. Two binary factors of the
/// same variant compare by their left operands, then by their right operands.
pub open spec fn composite_order(a: CompositeView, b: CompositeView) -> int
    decreases a, 0nat, 0nat,
{
    if a.rank() != b.rank() {
        sign(a.rank() - b.rank())
    } else {
        match a {
            CompositeView::Variable(x) => match b {
                CompositeView::Variable(y) => sign(y - x),
                _ => 0,
            },
            CompositeView::Floor(l, r)
            | CompositeView::Ceil(l, r)
            | CompositeView::Min(l, r)
            | CompositeView::Max(l, r) => {
                let c = polynomial_order_from(l, b.left(), 0);
                if c != 0 {
                    c
                } else {
                    polynomial_order_from(r, b.right(), 0)
                }
            },
        }
    }
}

/// Comparison of two power vectors from index `i` on: the first position at
/// which factor or power differ decides; where one vector ends first, the
/// longer one is greater.
pub open spec fn shape_order_from(a: Shape, b: Shape, i: int) -> int
    decreases a, a.len() - i, 0nat,
{
    if i < 0 || i >= a.len() || i >= b.len() {
        sign(a.len() - b.len())
    } else {
        let c = composite_order(a[i].0, b[i].0);
        if c != 0 {
            c
        } else if a[i].1 != b[i].1 {
            sign(a[i].1 - b[i].1)
        } else {
            shape_order_from(a, b, i + 1)
        }
    }
}

/// Three-way comparison of two power vectors.
pub open spec fn shape_order(a: Shape, b: Shape) -> int {
    shape_order_from(a, b, 0)
}

/// Three-way comparison of two monomials: by power vector, then by
/// coefficient.
pub open spec fn monomial_order(a: MonomialView, b: MonomialView) -> int
    decreases a, 0nat, 1nat,
{
    let c = shape_order_from(a.powers, b.powers, 0);
    if c != 0 {
        c
    } else {
        sign(a.coefficient - b.coefficient)
    }
}

/// Comparison of two polynomials from index `i` on: the first position at
/// which the monomials differ decides; where one polynomial ends first, the
/// longer one is greater.
pub open spec fn polynomial_order_from(a: PolynomialView, b: PolynomialView, i: int) -> int
    decreases a, a.len() - i, 0nat,
{
    if i < 0 || i >= a.len() || i >= b.len() {
        sign(a.len() - b.len())
    } else {
        let c = monomial_order(a[i], b[i]);
        if c != 0 {
            c
        } else {
            polynomial_order_from(a, b, i + 1)
        }
    }
}

/// Three-way comparison of two polynomials.
pub open spec fn polynomial_order(a: PolynomialView, b: PolynomialView) -> int {
    polynomial_order_from(a, b, 0)
}

/// A factor is canonical when the operands of a binary factor are canonical
/// polynomials and the operation on them cannot be folded: it gives this
/// factor, not a constant or a quotient.
pub open spec fn composite_wf(c: CompositeView) -> bool
    decreases c, 0nat, 0nat,
{
    match c {
        CompositeView::Variable(_) => true,
        CompositeView::Floor(l, r)
        | CompositeView::Ceil(l, r)
        | CompositeView::Min(l, r)
        | CompositeView::Max(l, r) => polynomial_wf(l) && polynomial_wf(r) && unfolded(c),
    }
}

/// A power vector is canonical when its factors are canonical and strictly
/// descending, and no power is zero.
pub open spec fn shape_wf(s: Shape) -> bool
    decreases s, 0nat, 0nat,
{
    &&& forall|i: int| 0 <= i < s.len() ==> (#[trigger] s[i]).1 > 0 && composite_wf(s[i].0)
    &&& forall|i: int, j: int|
        0 <= i < j < s.len() ==> composite_order((#[trigger] s[i]).0, (#[trigger] s[j]).0) > 0
}

/// A term of a canonical polynomial: a canonical power vector with a
/// coefficient that is not zero.
pub open spec fn term_wf(m: MonomialView) -> bool
    decreases m, 0nat, 1nat,
{
    m.coefficient != 0 && shape_wf(m.powers)
}

/// A polynomial is canonical when its terms are canonical and their power
/// vectors are strictly descending: no power vector occurs twice and no
/// coefficient is zero.
pub open spec fn polynomial_wf(p: PolynomialView) -> bool
    decreases p, 0nat, 2nat,
{
    &&& forall|i: int| 0 <= i < p.len() ==> term_wf(#[trigger] p[i])
    &&& forall|i: int, j: int|
        0 <= i < j < p.len() ==> shape_order((#[trigger] p[i]).powers, (#[trigger] p[j]).powers)
            > 0
}

/// Whether a coefficient and the powers of a monomial fit the machine types
/// that hold them.
pub open spec fn monomial_fits(m: MonomialView) -> bool {
    &&& i64::MIN <= m.coefficient <= i64::MAX
    &&& forall|i: int| 0 <= i < m.powers.len() ==> (#[trigger] m.powers[i]).1 <= u8::MAX
}

/// Whether every term of a polynomial fits the machine types.
pub open spec fn polynomial_fits(p: PolynomialView) -> bool {
    forall|i: int| 0 <= i < p.len() ==> monomial_fits(#[trigger] p[i])
}

} // verus!
