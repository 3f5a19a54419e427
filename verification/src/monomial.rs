//! Operations on a single monomial.
use vstd::prelude::*;
use crate::model::{composite_wf, monomial_fits, CompositeView, MonomialView, Shape};
use crate::numeric::{div_rem, exact_div, fits_i64, lemma_exact_div};
use crate::order::lemma_shape_order_zero;
use crate::primitives::{Composite, Monomial};
use crate::shape::{
    lemma_shape_div_wf, lemma_shape_mul_wf, monomial_mul, shape_div, shape_div_from, shape_mul,
    shape_mul_from,
};

verus! {

/// The view of a vector of pairs of factor and power.
pub open spec fn powers_model(v: Seq<(Composite, u8)>) -> Shape {
    Seq::new(v.len(), |i: int| (v[i].0@, v[i].1 as nat))
}

/// The monomial with the opposite coefficient.
pub open spec fn monomial_neg(a: MonomialView) -> MonomialView {
    MonomialView { coefficient: -a.coefficient, powers: a.powers }
}

/// The monomial with its coefficient multiplied by `c`.
pub open spec fn monomial_scale(a: MonomialView, c: int) -> MonomialView {
    MonomialView { coefficient: a.coefficient * c, powers: a.powers }
}

/// The constant monomial.
pub open spec fn constant_monomial(c: int) -> MonomialView {
    MonomialView { coefficient: c, powers: Seq::empty() }
}

/// The monomial `1 * x` for the factor `x`.
pub open spec fn factor_monomial(x: CompositeView) -> MonomialView {
    MonomialView { coefficient: 1, powers: seq![(x, 1nat)] }
}

/// The quotient of two monomials, where the divisor's coefficient is not
/// zero and divides the dividend's, and the divisor's power vector divides
/// the dividend's.
pub open spec fn monomial_div(a: MonomialView, b: MonomialView) -> Option<MonomialView> {
    match (exact_div(a.coefficient, b.coefficient), shape_div(a.powers, b.powers)) {
        (Some(c), Some(s)) => Some(MonomialView { coefficient: c, powers: s }),
        _ => None,
    }
}

/// The quotient of two monomials as the machine gives it: the quotient,
/// where there is one and its coefficient fits the coefficient type.
pub open spec fn monomial_checked_div(a: MonomialView, b: MonomialView) -> Option<MonomialView> {
    match monomial_div(a, b) {
        Some(q) => if fits_i64(q.coefficient) {
            Some(q)
        } else {
            None
        },
        None => None,
    }
}

/// A prefix in front of a power vector, where there is a vector.
pub open spec fn with_prefix(prefix: Shape, rest: Option<Shape>) -> Option<Shape> {
    match rest {
        Some(s) => Some(prefix + s),
        None => None,
    }
}

impl Monomial {
    /// The constant monomial `value`.
    pub fn constant(value: i64) -> (r: Monomial)
        ensures
            r@ == constant_monomial(value as int),
            r.wf(),
    {
        let r = Monomial { coefficient: value, powers: Vec::new() };
        assert(r@.powers =~= Seq::empty());
        r
    }

    /// The monomial `1 * x` for the factor `x`.
    pub fn factor(x: Composite) -> (r: Monomial)
        ensures
            r@ == factor_monomial(x@),
            composite_wf(x@) ==> r.wf(),
    {
        let mut powers: Vec<(Composite, u8)> = Vec::new();
        powers.push((x, 1));
        let r = Monomial { coefficient: 1, powers };
        assert(r@.powers =~= seq![(x@, 1nat)]);
        r
    }

    /// Whether the two monomials have the same power vector, whatever their
    /// coefficients.
    pub fn up_to_coefficient(&self, other: &Monomial) -> (r: bool)
        ensures
            r == (self@.powers == other@.powers),
    {
        proof {
            lemma_shape_order_zero(self@.powers, other@.powers);
        }
        self.compare_shape(other) == 0
    }

    /// Whether the monomial has no symbolic factor.
    pub fn is_constant(&self) -> (r: bool)
        ensures
            r == (self@.powers.len() == 0),
    {
        self.powers.len() == 0
    }

    /// The monomial with the opposite coefficient.
    pub fn neg(&self) -> (r: Monomial)
        requires
            self.coefficient != i64::MIN,
        ensures
            r@ == monomial_neg(self@),
            self.wf() ==> r.wf(),
    {
        let mut r = self.clone();
        r.coefficient = -self.coefficient;
        r
    }

    /// The monomial with its coefficient multiplied by `c`.
    pub fn scale(&self, c: i64) -> (r: Monomial)
        requires
            fits_i64(self.coefficient * c),
        ensures
            r@ == monomial_scale(self@, c as int),
            self.wf() ==> r.wf(),
    {
        let mut r = self.clone();
        r.coefficient = self.coefficient * c;
        r
    }

    /// The product of two monomials, where its coefficient and its powers
    /// fit the machine types: the coefficients are multiplied and the power
    /// vectors merged, the powers of a factor of both being added.
    pub fn checked_mul(&self, rhs: &Monomial) -> (r: Option<Monomial>)
        ensures
            r is Some <==> monomial_fits(monomial_mul(self@, rhs@)),
            r matches Some(m) ==> m@ == monomial_mul(self@, rhs@) && (self.wf() && rhs.wf()
                ==> m.wf()),
    {
        let ghost a = self@.powers;
        let ghost b = rhs@.powers;
        let ghost whole = monomial_mul(self@, rhs@).powers;
        let coefficient: i64 = match self.coefficient.checked_mul(rhs.coefficient) {
            Some(c) => c,
            None => {
                return None;
            },
        };
        let mut powers: Vec<(Composite, u8)> = Vec::new();
        let mut i: usize = 0;
        let mut j: usize = 0;
        assert(powers_model(powers@) + shape_mul_from(a, b, 0, 0) =~= shape_mul(a, b));
        while i < self.powers.len() || j < rhs.powers.len()
            invariant
                0 <= i <= self.powers.len(),
                0 <= j <= rhs.powers.len(),
                a == self@.powers,
                b == rhs@.powers,
                whole == shape_mul(a, b),
                powers_model(powers@) + shape_mul_from(a, b, i as int, j as int) == whole,
            decreases self.powers.len() - i + rhs.powers.len() - j,
        {
            let ghost before = powers_model(powers@);
            let ghost tail = shape_mul_from(a, b, i as int, j as int);
            let ghost i0 = i as int;
            let ghost j0 = j as int;
            assert(whole[before.len() as int] == tail[0]);
            let take_left: bool;
            let take_right: bool;
            if i >= self.powers.len() {
                take_left = false;
                take_right = true;
            } else if j >= rhs.powers.len() {
                take_left = true;
                take_right = false;
            } else {
                let c: i8 = self.powers[i].0.compare(&rhs.powers[j].0);
                take_left = c >= 0;
                take_right = c <= 0;
            }
            if take_left && take_right {
                proof {
                    assert(tail[0] == (a[i0].0, a[i0].1 + b[j0].1));
                }
                let p: u8 = match self.powers[i].1.checked_add(rhs.powers[j].1) {
                    Some(p) => p,
                    None => {
                        proof {
                            let product = monomial_mul(self@, rhs@);
                            assert(product.powers[before.len() as int].1 > u8::MAX);
                            assert(!monomial_fits(product));
                        }
                        return None;
                    },
                };
                powers.push((self.powers[i].0.clone(), p));
                i += 1;
                j += 1;
            } else if take_left {
                powers.push((self.powers[i].0.clone(), self.powers[i].1));
                i += 1;
            } else {
                powers.push((rhs.powers[j].0.clone(), rhs.powers[j].1));
                j += 1;
            }
            proof {
                let rest = shape_mul_from(a, b, i as int, j as int);
                assert(tail =~= seq![tail[0]] + rest);
                assert(powers_model(powers@) =~= before.push(tail[0]));
                assert(powers_model(powers@) + rest =~= before + tail);
            }
        }
        let r = Monomial { coefficient, powers };
        proof {
            assert(r@.powers =~= powers_model(powers@));
            assert(powers_model(powers@) =~= shape_mul(a, b));
            if self.wf() && rhs.wf() {
                lemma_shape_mul_wf(a, b);
            }
        }
        Some(r)
    }

    /// The product of two monomials.
    pub fn mul(&self, rhs: &Monomial) -> (r: Monomial)
        requires
            monomial_fits(monomial_mul(self@, rhs@)),
        ensures
            r@ == monomial_mul(self@, rhs@),
            self.wf() && rhs.wf() ==> r.wf(),
    {
        match self.checked_mul(rhs) {
            Some(r) => r,
            None => vstd::pervasive::unreached(),
        }
    }

    /// The quotient of the monomial by `rhs`, where `rhs` divides it:
    /// the coefficient of `rhs` is not zero and divides the coefficient
    /// exactly, and every factor of `rhs` occurs with at least the same
    /// power. `None` where it does not, or where the quotient of the
    /// coefficients does not fit the coefficient type.
    pub fn checked_div(&self, rhs: &Monomial) -> (r: Option<Monomial>)
        ensures
            r is Some <==> monomial_checked_div(self@, rhs@) is Some,
            r matches Some(q) ==> monomial_checked_div(self@, rhs@) == Some(q@) && (self.wf()
                ==> q.wf()),
    {
        if rhs.coefficient == 0 {
            return None;
        }
        if self.coefficient == i64::MIN && rhs.coefficient == -1 {
            proof {
                lemma_exact_div(self.coefficient as int, -1, -(self.coefficient as int), 0);
            }
            return None;
        }
        let (d, rem) = div_rem(self.coefficient, rhs.coefficient);
        proof {
            lemma_exact_div(self.coefficient as int, rhs.coefficient as int, d as int, rem as int);
        }
        if rem != 0 {
            return None;
        }
        let ghost a = self@.powers;
        let ghost b = rhs@.powers;
        let mut powers: Vec<(Composite, u8)> = Vec::new();
        let mut i: usize = 0;
        let mut j: usize = 0;
        assert(with_prefix(powers_model(powers@), shape_div_from(a, b, 0, 0)) =~= shape_div(a, b))
            by {
            if shape_div(a, b) is Some {
                assert(powers_model(powers@) + shape_div(a, b).unwrap() =~= shape_div(
                    a,
                    b,
                ).unwrap());
            }
        }
        while i < self.powers.len()
            invariant
                0 <= i <= self.powers.len(),
                0 <= j <= rhs.powers.len(),
                a == self@.powers,
                b == rhs@.powers,
                with_prefix(powers_model(powers@), shape_div_from(a, b, i as int, j as int))
                    == shape_div(a, b),
            decreases self.powers.len() - i,
        {
            let ghost before = powers_model(powers@);
            let ghost tail = shape_div_from(a, b, i as int, j as int);
            let c: i8 = if j < rhs.powers.len() {
                self.powers[i].0.compare(&rhs.powers[j].0)
            } else {
                1
            };
            if c < 0 {
                return None;
            }
            let ghost j0 = j as int;
            if c > 0 {
                powers.push((self.powers[i].0.clone(), self.powers[i].1));
            } else {
                if self.powers[i].1 < rhs.powers[j].1 {
                    return None;
                }
                if self.powers[i].1 > rhs.powers[j].1 {
                    let p: u8 = self.powers[i].1 - rhs.powers[j].1;
                    powers.push((self.powers[i].0.clone(), p));
                }
                j += 1;
            }
            i += 1;
            proof {
                let rest = shape_div_from(a, b, i as int, j as int);
                if rest is Some {
                    if powers@.len() == before.len() {
                        assert(tail == rest);
                    } else {
                        let x = powers_model(powers@)[before.len() as int];
                        assert(tail == Some(seq![x] + rest.unwrap()));
                        assert(powers_model(powers@) =~= before.push(x));
                        assert(powers_model(powers@) + rest.unwrap() =~= before + tail.unwrap());
                    }
                } else {
                    assert(tail is None);
                }
            }
        }
        if j < rhs.powers.len() {
            return None;
        }
        let q = Monomial { coefficient: d, powers };
        proof {
            assert(shape_div_from(a, b, i as int, j as int) == Some(Seq::<(CompositeView, nat)>::empty()));
            assert(powers_model(powers@) + Seq::<(CompositeView, nat)>::empty() =~= powers_model(
                powers@,
            ));
            assert(q@.powers =~= powers_model(powers@));
            if self.wf() {
                lemma_shape_div_wf(a, b);
            }
        }
        Some(q)
    }
}

} // verus!
