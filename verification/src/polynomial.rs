//! Arithmetic on polynomials in canonical form.
use vstd::prelude::*;
use crate::algebra::{
    add_from, lemma_add_wf, lemma_mul_prefix_wf, lemma_neg_wf, lemma_scale_wf,
    lemma_times_prefix_wf, monomial_times, mul_fits, mul_prefix, polynomial_add, polynomial_mul,
    polynomial_neg, polynomial_scale, polynomial_sub, single, times_fits, times_prefix,
};
use crate::model::{
    monomial_fits, polynomial_fits, shape_order, shape_wf, term_wf, CompositeView, MonomialView,
    PolynomialView,
};
use crate::monomial::{constant_monomial, factor_monomial, monomial_neg, monomial_scale};
use crate::numeric::{div_rem, exact_div, fits_i64, lemma_exact_div};
use crate::primitives::{Composite, Monomial, Polynomial};
use crate::shape::monomial_mul;

verus! {

/// The view of a vector of monomials.
pub open spec fn monomials_model(v: Seq<Monomial>) -> PolynomialView {
    Seq::new(v.len(), |i: int| v[i]@)
}

/// The polynomial `b`, negated where `negate` holds.
pub open spec fn signed(b: PolynomialView, negate: bool) -> PolynomialView {
    if negate {
        polynomial_neg(b)
    } else {
        b
    }
}

/// Whether the polynomial is a constant: zero, or one term without factors.
pub open spec fn polynomial_is_constant(p: PolynomialView) -> bool {
    p.len() == 0 || (p.len() == 1 && p[0].powers.len() == 0)
}

/// The value of a constant polynomial.
pub open spec fn constant_value(p: PolynomialView) -> int {
    if p.len() == 0 {
        0
    } else {
        p[0].coefficient
    }
}

impl Polynomial {
    /// The zero polynomial.
    pub fn zero() -> (r: Polynomial)
        ensures
            r@ == Seq::<MonomialView>::empty(),
            r.wf(),
    {
        let r = Polynomial { monomials: Vec::new() };
        assert(r@ =~= Seq::<MonomialView>::empty());
        r
    }

    /// The polynomial of the one term `m`, or zero where the coefficient of
    /// `m` is zero.
    pub fn from_monomial(m: &Monomial) -> (r: Polynomial)
        ensures
            r@ == single(m@),
            m.wf() ==> r.wf(),
    {
        let mut monomials: Vec<Monomial> = Vec::new();
        if m.coefficient != 0 {
            monomials.push(m.clone());
        }
        let r = Polynomial { monomials };
        assert(r@ =~= single(m@));
        r
    }

    /// The constant polynomial `value`.
    pub fn constant(value: i64) -> (r: Polynomial)
        ensures
            r@ == single(constant_monomial(value as int)),
            r.wf(),
    {
        Polynomial::from_monomial(&Monomial::constant(value))
    }

    /// Whether the polynomial is a constant: zero, or one term without
    /// factors.
    pub fn is_constant(&self) -> (r: bool)
        ensures
            r == polynomial_is_constant(self@),
    {
        if self.monomials.len() == 0 {
            true
        } else if self.monomials.len() == 1 {
            self.monomials[0].is_constant()
        } else {
            false
        }
    }

    /// The sum of `self` and `rhs`, or of `self` and the negation of `rhs`
    /// where `negate` holds, by one merge of the two descending sequences of
    /// terms; `None` where a coefficient of the result does not fit the
    /// coefficient type.
    fn checked_merge(&self, rhs: &Polynomial, negate: bool) -> (r: Option<Polynomial>)
        ensures
            r is Some <==> polynomial_fits(polynomial_add(self@, signed(rhs@, negate))),
            r matches Some(p) ==> p@ == polynomial_add(self@, signed(rhs@, negate)),
    {
        let ghost a = self@;
        let ghost b = signed(rhs@, negate);
        let ghost whole = polynomial_add(a, b);
        let mut monomials: Vec<Monomial> = Vec::new();
        let mut i: usize = 0;
        let mut j: usize = 0;
        assert(monomials_model(monomials@) + add_from(a, b, 0, 0) =~= polynomial_add(a, b));
        while i < self.monomials.len() || j < rhs.monomials.len()
            invariant
                0 <= i <= self.monomials.len(),
                0 <= j <= rhs.monomials.len(),
                a == self@,
                b == signed(rhs@, negate),
                b.len() == rhs.monomials.len(),
                whole == polynomial_add(a, b),
                monomials_model(monomials@) + add_from(a, b, i as int, j as int) == whole,
            decreases self.monomials.len() - i + rhs.monomials.len() - j,
        {
            let ghost before = monomials_model(monomials@);
            let ghost tail = add_from(a, b, i as int, j as int);
            let ghost i0 = i as int;
            let ghost j0 = j as int;
            let take_left: bool;
            let take_right: bool;
            if i >= self.monomials.len() {
                take_left = false;
                take_right = true;
            } else if j >= rhs.monomials.len() {
                take_left = true;
                take_right = false;
            } else {
                let c: i8 = self.monomials[i].compare_shape(&rhs.monomials[j]);
                take_left = c >= 0;
                take_right = c <= 0;
            }
            if take_left && take_right {
                let x: i64 = self.monomials[i].coefficient;
                let y: i64 = rhs.monomials[j].coefficient;
                let sum: Option<i64> = if negate {
                    x.checked_sub(y)
                } else {
                    x.checked_add(y)
                };
                let s: i64 = match sum {
                    Some(s) => s,
                    None => {
                        proof {
                            assert(whole[before.len() as int] == tail[0]);
                            assert(!monomial_fits(whole[before.len() as int]));
                        }
                        return None;
                    },
                };
                if s != 0 {
                    let mut m = self.monomials[i].clone();
                    m.coefficient = s;
                    monomials.push(m);
                }
                i += 1;
                j += 1;
            } else if take_left {
                monomials.push(self.monomials[i].clone());
                i += 1;
            } else {
                if negate {
                    if rhs.monomials[j].coefficient == i64::MIN {
                        proof {
                            assert(whole[before.len() as int] == tail[0]);
                            assert(!monomial_fits(whole[before.len() as int]));
                        }
                        return None;
                    }
                    monomials.push(rhs.monomials[j].neg());
                } else {
                    monomials.push(rhs.monomials[j].clone());
                }
                j += 1;
            }
            proof {
                let rest = add_from(a, b, i as int, j as int);
                if monomials@.len() == before.len() {
                    assert(tail == rest);
                    assert(monomials_model(monomials@) =~= before);
                } else {
                    assert(tail =~= seq![tail[0]] + rest);
                    assert(monomials_model(monomials@) =~= before.push(tail[0]));
                    assert(monomials_model(monomials@) + rest =~= before + tail);
                }
            }
        }
        let r = Polynomial { monomials };
        proof {
            assert(r@ =~= monomials_model(monomials@));
            assert(monomials_model(monomials@) =~= polynomial_add(a, b));
        }
        Some(r)
    }

    /// The sum of two polynomials, where its coefficients fit the
    /// coefficient type.
    pub fn checked_add(&self, rhs: &Polynomial) -> (r: Option<Polynomial>)
        ensures
            r is Some <==> polynomial_fits(polynomial_add(self@, rhs@)),
            r matches Some(p) ==> p@ == polynomial_add(self@, rhs@) && (self.wf() && rhs.wf()
                ==> p.wf()),
    {
        proof {
            if self.wf() && rhs.wf() {
                lemma_add_wf(self@, rhs@);
            }
        }
        self.checked_merge(rhs, false)
    }

    /// The difference of two polynomials, where its coefficients fit the
    /// coefficient type.
    pub fn checked_sub(&self, rhs: &Polynomial) -> (r: Option<Polynomial>)
        ensures
            r is Some <==> polynomial_fits(polynomial_sub(self@, rhs@)),
            r matches Some(p) ==> p@ == polynomial_sub(self@, rhs@) && (self.wf() && rhs.wf()
                ==> p.wf()),
    {
        proof {
            if self.wf() && rhs.wf() {
                lemma_neg_wf(rhs@);
                lemma_add_wf(self@, polynomial_neg(rhs@));
            }
        }
        self.checked_merge(rhs, true)
    }

    /// The sum of two polynomials.
    pub fn add(&self, rhs: &Polynomial) -> (r: Polynomial)
        requires
            polynomial_fits(polynomial_add(self@, rhs@)),
        ensures
            r@ == polynomial_add(self@, rhs@),
            self.wf() && rhs.wf() ==> r.wf(),
    {
        match self.checked_add(rhs) {
            Some(r) => r,
            None => vstd::pervasive::unreached(),
        }
    }

    /// The difference of two polynomials.
    pub fn sub(&self, rhs: &Polynomial) -> (r: Polynomial)
        requires
            polynomial_fits(polynomial_sub(self@, rhs@)),
        ensures
            r@ == polynomial_sub(self@, rhs@),
            self.wf() && rhs.wf() ==> r.wf(),
    {
        match self.checked_sub(rhs) {
            Some(r) => r,
            None => vstd::pervasive::unreached(),
        }
    }

    /// The polynomial with every coefficient negated.
    pub fn neg(&self) -> (r: Polynomial)
        requires
            polynomial_fits(polynomial_neg(self@)),
        ensures
            r@ == polynomial_neg(self@),
            self.wf() ==> r.wf(),
    {
        let mut monomials: Vec<Monomial> = Vec::new();
        let mut i: usize = 0;
        while i < self.monomials.len()
            invariant
                0 <= i <= self.monomials.len(),
                monomials.len() == i,
                polynomial_fits(polynomial_neg(self@)),
                forall|k: int| 0 <= k < i ==> (#[trigger] monomials@[k])@ == monomial_neg(self@[k]),
            decreases self.monomials.len() - i,
        {
            proof {
                assert(monomial_fits(polynomial_neg(self@)[i as int]));
            }
            monomials.push(self.monomials[i].neg());
            i += 1;
        }
        let r = Polynomial { monomials };
        proof {
            assert(r@ =~= polynomial_neg(self@));
            if self.wf() {
                lemma_neg_wf(self@);
            }
        }
        r
    }

    /// The polynomial with every coefficient multiplied by `c`.
    pub fn scale(&self, c: i64) -> (r: Polynomial)
        requires
            polynomial_fits(polynomial_scale(self@, c as int)),
        ensures
            r@ == polynomial_scale(self@, c as int),
            self.wf() ==> r.wf(),
    {
        let mut monomials: Vec<Monomial> = Vec::new();
        if c != 0 {
            let mut i: usize = 0;
            while i < self.monomials.len()
                invariant
                    0 <= i <= self.monomials.len(),
                    monomials.len() == i,
                    c != 0,
                    polynomial_fits(polynomial_scale(self@, c as int)),
                    forall|k: int|
                        0 <= k < i ==> (#[trigger] monomials@[k])@ == monomial_scale(
                            self@[k],
                            c as int,
                        ),
                decreases self.monomials.len() - i,
            {
                proof {
                    assert(monomial_fits(polynomial_scale(self@, c as int)[i as int]));
                }
                monomials.push(self.monomials[i].scale(c));
                i += 1;
            }
        }
        let r = Polynomial { monomials };
        proof {
            assert(r@ =~= polynomial_scale(self@, c as int));
            if self.wf() {
                lemma_scale_wf(self@, c as int);
            }
        }
        r
    }

    /// The sum of the polynomial and one monomial.
    pub fn add_monomial(&self, m: &Monomial) -> (r: Polynomial)
        requires
            polynomial_fits(polynomial_add(self@, single(m@))),
        ensures
            r@ == polynomial_add(self@, single(m@)),
            self.wf() && m.wf() ==> r.wf(),
    {
        self.add(&Polynomial::from_monomial(m))
    }

    /// The sum of the polynomial and a constant.
    pub fn add_constant(&self, value: i64) -> (r: Polynomial)
        requires
            polynomial_fits(polynomial_add(self@, single(constant_monomial(value as int)))),
        ensures
            r@ == polynomial_add(self@, single(constant_monomial(value as int))),
            self.wf() ==> r.wf(),
    {
        self.add(&Polynomial::constant(value))
    }

    /// The product of the polynomial and one monomial, summed term by term,
    /// where every coefficient and power that arises fits the machine
    /// types.
    pub fn checked_mul_monomial(&self, m: &Monomial) -> (r: Option<Polynomial>)
        ensures
            r is Some <==> times_fits(m@, self@),
            r matches Some(p) ==> p@ == monomial_times(m@, self@) && (self.wf() && m.wf()
                ==> p.wf()),
    {
        let mut acc = Polynomial::zero();
        let mut n: usize = 0;
        while n < self.monomials.len()
            invariant
                0 <= n <= self.monomials.len(),
                acc@ == times_prefix(m@, self@, n as int),
                forall|j: int| 0 <= j < n ==> monomial_fits(#[trigger] monomial_mul(m@, self@[j])),
                forall|k: int| 0 <= k <= n ==> polynomial_fits(#[trigger] times_prefix(m@, self@, k)),
            decreases self.monomials.len() - n,
        {
            let term = match m.checked_mul(&self.monomials[n]) {
                Some(term) => term,
                None => {
                    proof {
                        assert(!monomial_fits(monomial_mul(m@, self@[n as int])));
                    }
                    return None;
                },
            };
            let next = match acc.checked_add(&Polynomial::from_monomial(&term)) {
                Some(next) => next,
                None => {
                    proof {
                        assert(!polynomial_fits(times_prefix(m@, self@, n as int + 1)));
                    }
                    return None;
                },
            };
            acc = next;
            n += 1;
        }
        proof {
            if self.wf() && m.wf() {
                lemma_times_prefix_wf(m@, self@, self@.len() as int);
            }
        }
        Some(acc)
    }

    /// The product of the polynomial and one monomial.
    pub fn mul_monomial(&self, m: &Monomial) -> (r: Polynomial)
        requires
            times_fits(m@, self@),
        ensures
            r@ == monomial_times(m@, self@),
            self.wf() && m.wf() ==> r.wf(),
    {
        match self.checked_mul_monomial(m) {
            Some(r) => r,
            None => vstd::pervasive::unreached(),
        }
    }

    /// The product of two polynomials: every term of `self` times `rhs`,
    /// summed term by term, where every coefficient and power that arises
    /// fits the machine types.
    pub fn checked_mul(&self, rhs: &Polynomial) -> (r: Option<Polynomial>)
        ensures
            r is Some <==> mul_fits(self@, rhs@),
            r matches Some(p) ==> p@ == polynomial_mul(self@, rhs@) && (self.wf() && rhs.wf()
                ==> p.wf()),
    {
        let mut acc = Polynomial::zero();
        let mut n: usize = 0;
        while n < self.monomials.len()
            invariant
                0 <= n <= self.monomials.len(),
                acc@ == mul_prefix(self@, rhs@, n as int),
                forall|i: int| 0 <= i < n ==> times_fits(#[trigger] self@[i], rhs@),
                forall|k: int| 0 <= k <= n ==> polynomial_fits(#[trigger] mul_prefix(self@, rhs@, k)),
            decreases self.monomials.len() - n,
        {
            let part = match rhs.checked_mul_monomial(&self.monomials[n]) {
                Some(part) => part,
                None => {
                    proof {
                        assert(!times_fits(self@[n as int], rhs@));
                    }
                    return None;
                },
            };
            let next = match acc.checked_add(&part) {
                Some(next) => next,
                None => {
                    proof {
                        assert(!polynomial_fits(mul_prefix(self@, rhs@, n as int + 1)));
                    }
                    return None;
                },
            };
            acc = next;
            n += 1;
        }
        proof {
            if self.wf() && rhs.wf() {
                lemma_mul_prefix_wf(self@, rhs@, self@.len() as int);
            }
        }
        Some(acc)
    }

    /// The product of two polynomials.
    pub fn mul(&self, rhs: &Polynomial) -> (r: Polynomial)
        requires
            mul_fits(self@, rhs@),
        ensures
            r@ == polynomial_mul(self@, rhs@),
            self.wf() && rhs.wf() ==> r.wf(),
    {
        match self.checked_mul(rhs) {
            Some(r) => r,
            None => vstd::pervasive::unreached(),
        }
    }
}

/// The polynomial `1 * x` for the identifier `id`.
pub fn variable(id: u16) -> (r: Polynomial)
    ensures
        r@ == seq![factor_monomial(CompositeView::Variable(id))],
        r.wf(),
{
    let m = Monomial::factor(Composite::Variable(id));
    let r = Polynomial::from_monomial(&m);
    proof {
        assert(shape_wf(m@.powers));
    }
    r
}

/// The polynomial `1 * x` for the identifier `id`.
pub fn primitive(id: u16) -> (r: Polynomial)
    ensures
        r@ == seq![factor_monomial(CompositeView::Variable(id))],
        r.wf(),
{
    variable(id)
}

/// Whether `c` is not zero and divides every coefficient of `p` exactly,
/// with quotients that fit the coefficient type.
pub open spec fn divisible_by(p: PolynomialView, c: int) -> bool {
    forall|i: int|
        0 <= i < p.len() ==> exact_div((#[trigger] p[i]).coefficient, c) is Some && fits_i64(
            p[i].coefficient / c,
        )
}

/// The polynomial with every coefficient divided by `c`.
pub open spec fn polynomial_div_constant(p: PolynomialView, c: int) -> PolynomialView {
    Seq::new(
        p.len(),
        |i: int| MonomialView { coefficient: p[i].coefficient / c, powers: p[i].powers },
    )
}

impl Polynomial {
    /// The polynomial with every coefficient divided by `c`, where `c` is
    /// not zero and divides every coefficient exactly.
    pub fn checked_div_constant(&self, c: i64) -> (r: Option<Polynomial>)
        ensures
            r is Some <==> c != 0 && divisible_by(self@, c as int),
            r matches Some(p) ==> p@ == polynomial_div_constant(self@, c as int) && (self.wf()
                ==> p.wf()),
    {
        if c == 0 {
            return None;
        }
        let mut monomials: Vec<Monomial> = Vec::new();
        let mut i: usize = 0;
        while i < self.monomials.len()
            invariant
                0 <= i <= self.monomials.len(),
                c != 0,
                monomials.len() == i,
                forall|k: int|
                    0 <= k < i ==> exact_div((#[trigger] self@[k]).coefficient, c as int) is Some
                        && fits_i64(self@[k].coefficient / (c as int)),
                forall|k: int|
                    0 <= k < i ==> (#[trigger] monomials@[k])@ == (MonomialView {
                        coefficient: self@[k].coefficient / (c as int),
                        powers: self@[k].powers,
                    }),
            decreases self.monomials.len() - i,
        {
            let x: i64 = self.monomials[i].coefficient;
            if x == i64::MIN && c == -1 {
                proof {
                    lemma_exact_div(x as int, -1, -(x as int), 0);
                    assert(!fits_i64(self@[i as int].coefficient / (c as int)));
                }
                return None;
            }
            let (q, rem) = div_rem(x, c);
            proof {
                lemma_exact_div(x as int, c as int, q as int, rem as int);
            }
            if rem != 0 {
                proof {
                    assert(exact_div(self@[i as int].coefficient, c as int) is None);
                }
                return None;
            }
            let mut m = self.monomials[i].clone();
            m.coefficient = q;
            monomials.push(m);
            i += 1;
        }
        let r = Polynomial { monomials };
        proof {
            let quotient = polynomial_div_constant(self@, c as int);
            assert(r@ =~= quotient);
            if self.wf() {
                assert forall|k: int| 0 <= k < quotient.len() implies term_wf(
                    #[trigger] quotient[k],
                ) by {
                    assert(term_wf(self@[k]));
                    let x = self@[k].coefficient;
                    let d = c as int;
                    vstd::arithmetic::div_mod::lemma_fundamental_div_mod(x, d);
                    assert(x / d != 0) by (nonlinear_arith)
                        requires
                            x == d * (x / d) + x % d,
                            x % d == 0,
                            x != 0,
                    ;
                }
                assert forall|k: int, l: int| 0 <= k < l < quotient.len() implies shape_order(
                    (#[trigger] quotient[k]).powers,
                    (#[trigger] quotient[l]).powers,
                ) > 0 by {
                    assert(shape_order(self@[k].powers, self@[l].powers) > 0);
                }
            }
        }
        Some(r)
    }

    /// The difference of the polynomial and one monomial.
    pub fn sub_monomial(&self, m: &Monomial) -> (r: Polynomial)
        requires
            polynomial_fits(polynomial_sub(self@, single(m@))),
        ensures
            r@ == polynomial_sub(self@, single(m@)),
            self.wf() && m.wf() ==> r.wf(),
    {
        self.sub(&Polynomial::from_monomial(m))
    }

    /// The difference of the polynomial and a constant.
    pub fn sub_constant(&self, value: i64) -> (r: Polynomial)
        requires
            polynomial_fits(polynomial_sub(self@, single(constant_monomial(value as int)))),
        ensures
            r@ == polynomial_sub(self@, single(constant_monomial(value as int))),
            self.wf() ==> r.wf(),
    {
        self.sub(&Polynomial::constant(value))
    }
}

impl Monomial {
    /// The sum of two monomials: a polynomial of two terms in descending
    /// order where their power vectors differ, of one term where they are
    /// the same, and zero where the coefficients cancel.
    pub fn add(&self, rhs: &Monomial) -> (r: Polynomial)
        requires
            polynomial_fits(polynomial_add(single(self@), single(rhs@))),
        ensures
            r@ == polynomial_add(single(self@), single(rhs@)),
            self.wf() && rhs.wf() ==> r.wf(),
    {
        Polynomial::from_monomial(self).add(&Polynomial::from_monomial(rhs))
    }

    /// The difference of two monomials, as a polynomial.
    pub fn sub(&self, rhs: &Monomial) -> (r: Polynomial)
        requires
            polynomial_fits(polynomial_sub(single(self@), single(rhs@))),
        ensures
            r@ == polynomial_sub(single(self@), single(rhs@)),
            self.wf() && rhs.wf() ==> r.wf(),
    {
        Polynomial::from_monomial(self).sub(&Polynomial::from_monomial(rhs))
    }

    /// The sum of the monomial and a constant, as a polynomial.
    pub fn add_constant(&self, value: i64) -> (r: Polynomial)
        requires
            polynomial_fits(polynomial_add(single(self@), single(constant_monomial(value as int)))),
        ensures
            r@ == polynomial_add(single(self@), single(constant_monomial(value as int))),
            self.wf() ==> r.wf(),
    {
        Polynomial::from_monomial(self).add(&Polynomial::constant(value))
    }

    /// The difference of the monomial and a constant, as a polynomial.
    pub fn sub_constant(&self, value: i64) -> (r: Polynomial)
        requires
            polynomial_fits(polynomial_sub(single(self@), single(constant_monomial(value as int)))),
        ensures
            r@ == polynomial_sub(single(self@), single(constant_monomial(value as int))),
            self.wf() ==> r.wf(),
    {
        Polynomial::from_monomial(self).sub(&Polynomial::constant(value))
    }
}

} // verus!
