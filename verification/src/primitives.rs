//! The executable data types and their views.
use std::rc::Rc;
use vstd::prelude::*;
use crate::model::{
    composite_order, monomial_order, polynomial_order, polynomial_order_from, polynomial_wf,
    shape_order, shape_order_from, shape_wf, CompositeView, MonomialView, PolynomialView,
};

verus! {

/// A symbolic monomial `C * a_1^p_1 * a_2^p_2 * ... * a_n^p_n`.
#[derive(Debug, PartialEq, Eq)]
pub struct Monomial {
    /// The constant coefficient `C`.
    pub coefficient: i64,
    /// The pairs `(a_i, p_i)`, strictly descending in the order of factors.
    pub powers: Vec<(Composite, u8)>,
}

/// A symbolic polynomial: a sum of monomials, leading monomial first.
#[derive(Debug, PartialEq, Eq)]
pub struct Polynomial {
    pub monomials: Vec<Monomial>,
}

/// A symbolic factor: an identifier, or an operation on two polynomials that
/// polynomial arithmetic treats as an indivisible unknown.
#[derive(Debug, PartialEq, Eq)]
pub enum Composite {
    Variable(u16),
    Floor(Rc<Polynomial>, Rc<Polynomial>),
    Ceil(Rc<Polynomial>, Rc<Polynomial>),
    Min(Rc<Polynomial>, Rc<Polynomial>),
    Max(Rc<Polynomial>, Rc<Polynomial>),
}

impl Composite {
    /// The view of the factor.
    pub open spec fn model(&self) -> CompositeView
        decreases self,
    {
        match self {
            Composite::Variable(id) => CompositeView::Variable(*id),
            Composite::Floor(l, r) => CompositeView::Floor((**l).model(), (**r).model()),
            Composite::Ceil(l, r) => CompositeView::Ceil((**l).model(), (**r).model()),
            Composite::Min(l, r) => CompositeView::Min((**l).model(), (**r).model()),
            Composite::Max(l, r) => CompositeView::Max((**l).model(), (**r).model()),
        }
    }
}

impl Monomial {
    /// The view of the monomial: its coefficient as an integer, its powers
    /// as natural numbers.
    pub open spec fn model(&self) -> MonomialView
        decreases self,
    {
        MonomialView {
            coefficient: self.coefficient as int,
            powers: Seq::new(
                self.powers@.len(),
                |i: int|
                    if 0 <= i < self.powers@.len() {
                        (self.powers@[i].0.model(), self.powers@[i].1 as nat)
                    } else {
                        (CompositeView::Variable(0), 0nat)
                    },
            ),
        }
    }

    /// The monomial is canonical: its power vector is.
    pub open spec fn wf(&self) -> bool {
        shape_wf(self@.powers)
    }
}

impl Polynomial {
    /// The view of the polynomial: the views of its monomials.
    pub open spec fn model(&self) -> PolynomialView
        decreases self,
    {
        Seq::new(
            self.monomials@.len(),
            |i: int|
                if 0 <= i < self.monomials@.len() {
                    self.monomials@[i].model()
                } else {
                    MonomialView { coefficient: 0, powers: Seq::empty() }
                },
        )
    }

    /// The polynomial is in canonical form.
    pub open spec fn wf(&self) -> bool {
        polynomial_wf(self@)
    }
}

impl View for Composite {
    type V = CompositeView;

    open spec fn view(&self) -> CompositeView {
        self.model()
    }
}

impl View for Monomial {
    type V = MonomialView;

    open spec fn view(&self) -> MonomialView {
        self.model()
    }
}

impl View for Polynomial {
    type V = PolynomialView;

    open spec fn view(&self) -> PolynomialView {
        self.model()
    }
}

/// `Rc::clone`: a second handle to the same shared polynomial.
#[verifier::external_body]
fn share(p: &Rc<Polynomial>) -> (r: Rc<Polynomial>)
    ensures
        r == *p,
{
    Rc::clone(p)
}

impl Clone for Composite {
    fn clone(&self) -> (r: Self)
        ensures
            r@ == self@,
    {
        match self {
            Composite::Variable(id) => Composite::Variable(*id),
            Composite::Floor(l, r) => Composite::Floor(share(l), share(r)),
            Composite::Ceil(l, r) => Composite::Ceil(share(l), share(r)),
            Composite::Min(l, r) => Composite::Min(share(l), share(r)),
            Composite::Max(l, r) => Composite::Max(share(l), share(r)),
        }
    }
}

impl Clone for Monomial {
    fn clone(&self) -> (r: Self)
        ensures
            r@ == self@,
    {
        let mut powers: Vec<(Composite, u8)> = Vec::new();
        let mut i: usize = 0;
        while i < self.powers.len()
            invariant
                0 <= i <= self.powers.len(),
                powers.len() == i,
                forall|k: int|
                    0 <= k < i ==> (#[trigger] powers@[k]).0@ == self.powers@[k].0@ && powers@[k].1
                        == self.powers@[k].1,
            decreases self.powers.len() - i,
        {
            powers.push((self.powers[i].0.clone(), self.powers[i].1));
            i += 1;
        }
        let r = Monomial { coefficient: self.coefficient, powers };
        assert(r@.powers =~= self@.powers);
        r
    }
}

impl Clone for Polynomial {
    fn clone(&self) -> (r: Self)
        ensures
            r@ == self@,
    {
        let mut monomials: Vec<Monomial> = Vec::new();
        let mut i: usize = 0;
        while i < self.monomials.len()
            invariant
                0 <= i <= self.monomials.len(),
                monomials.len() == i,
                forall|k: int| 0 <= k < i ==> (#[trigger] monomials@[k])@ == self.monomials@[k]@,
            decreases self.monomials.len() - i,
        {
            monomials.push(self.monomials[i].clone());
            i += 1;
        }
        let r = Polynomial { monomials };
        assert(r@ =~= self@);
        r
    }
}

impl Default for Monomial {
    /// The constant monomial zero.
    fn default() -> (r: Monomial)
        ensures
            r@ == (MonomialView { coefficient: 0, powers: Seq::empty() }),
            r.wf(),
    {
        let r = Monomial { coefficient: 0, powers: Vec::new() };
        assert(r@.powers =~= Seq::empty());
        r
    }
}

impl Default for Polynomial {
    /// The zero polynomial.
    fn default() -> (r: Polynomial)
        ensures
            r@ == Seq::<MonomialView>::empty(),
            r.wf(),
    {
        let r = Polynomial { monomials: Vec::new() };
        assert(r@ =~= Seq::<MonomialView>::empty());
        r
    }
}

impl Composite {
    /// The position of the variant in the fixed ranking of variants.
    fn rank(&self) -> (r: u8)
        ensures
            r == self@.rank(),
    {
        match self {
            Composite::Variable(_) => 0,
            Composite::Floor(_, _) => 1,
            Composite::Ceil(_, _) => 2,
            Composite::Min(_, _) => 3,
            Composite::Max(_, _) => 4,
        }
    }

    /// Three-way comparison in the order of factors.
    pub fn compare(&self, other: &Composite) -> (r: i8)
        ensures
            r == composite_order(self@, other@),
        decreases self,
    {
        let ra: u8 = self.rank();
        let rb: u8 = other.rank();
        if ra < rb {
            return -1;
        }
        if ra > rb {
            return 1;
        }
        match self {
            Composite::Variable(x) => match other {
                Composite::Variable(y) => if *x < *y {
                    1
                } else if *x == *y {
                    0
                } else {
                    -1
                },
                _ => 0,
            },
            Composite::Floor(l, r)
            | Composite::Ceil(l, r)
            | Composite::Min(l, r)
            | Composite::Max(l, r) => match other {
                Composite::Floor(l2, r2)
                | Composite::Ceil(l2, r2)
                | Composite::Min(l2, r2)
                | Composite::Max(l2, r2) => {
                    let c: i8 = l.compare(l2);
                    if c != 0 {
                        c
                    } else {
                        r.compare(r2)
                    }
                },
                _ => 0,
            },
        }
    }
}

impl Monomial {
    /// Three-way comparison of the power vectors alone.
    pub fn compare_shape(&self, other: &Monomial) -> (r: i8)
        ensures
            r == shape_order(self@.powers, other@.powers),
        decreases self, 0nat,
    {
        let mut i: usize = 0;
        while i < self.powers.len() && i < other.powers.len()
            invariant
                0 <= i <= self.powers.len(),
                i <= other.powers.len(),
                shape_order_from(self@.powers, other@.powers, i as int) == shape_order(
                    self@.powers,
                    other@.powers,
                ),
            decreases self.powers.len() - i,
        {
            let c: i8 = self.powers[i].0.compare(&other.powers[i].0);
            if c != 0 {
                return c;
            }
            if self.powers[i].1 < other.powers[i].1 {
                return -1;
            }
            if self.powers[i].1 > other.powers[i].1 {
                return 1;
            }
            i += 1;
        }
        if self.powers.len() < other.powers.len() {
            -1
        } else if self.powers.len() == other.powers.len() {
            0
        } else {
            1
        }
    }

    /// Three-way comparison in the order of monomials: by power vector, then
    /// by coefficient.
    pub fn compare(&self, other: &Monomial) -> (r: i8)
        ensures
            r == monomial_order(self@, other@),
        decreases self, 1nat,
    {
        let c: i8 = self.compare_shape(other);
        if c != 0 {
            c
        } else if self.coefficient < other.coefficient {
            -1
        } else if self.coefficient == other.coefficient {
            0
        } else {
            1
        }
    }
}

impl Polynomial {
    /// Three-way comparison in the order of polynomials: monomial by
    /// monomial, the longer polynomial being greater where one is a prefix of
    /// the other.
    pub fn compare(&self, other: &Polynomial) -> (r: i8)
        ensures
            r == polynomial_order(self@, other@),
        decreases self,
    {
        let mut i: usize = 0;
        while i < self.monomials.len() && i < other.monomials.len()
            invariant
                0 <= i <= self.monomials.len(),
                i <= other.monomials.len(),
                polynomial_order_from(self@, other@, i as int) == polynomial_order(self@, other@),
            decreases self.monomials.len() - i,
        {
            let c: i8 = self.monomials[i].compare(&other.monomials[i]);
            if c != 0 {
                return c;
            }
            i += 1;
        }
        if self.monomials.len() < other.monomials.len() {
            -1
        } else if self.monomials.len() == other.monomials.len() {
            0
        } else {
            1
        }
    }
}

} // verus!
