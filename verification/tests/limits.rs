use std::collections::HashMap;
use symbolic_polynomials::{ceil, floor, variable};
use symbolic_polynomials::{Composite, EvalError, Monomial, Polynomial};

const A: u16 = 0;
const B: u16 = 1;

fn constant(value: i64) -> Polynomial {
    Polynomial::constant(value)
}

#[test]
fn checked_sum_at_the_limits() {
    let a = variable(A);
    let large = a.scale(i64::MAX);
    assert!(large.checked_add(&a).is_none());
    assert_eq!(large.checked_add(&a.neg()).unwrap(), a.scale(i64::MAX - 1));
    assert_eq!(large.checked_sub(&large).unwrap(), Polynomial::zero());
    assert!(large.neg().checked_sub(&a.scale(2)).is_none());
    let small = a.scale(i64::MIN);
    assert!(Polynomial::zero().checked_sub(&small).is_none());
    assert_eq!(small.checked_add(&a).unwrap(), a.scale(i64::MIN + 1));
    assert_eq!(a.checked_add(&variable(B)).unwrap(), a.add(&variable(B)));
    assert_eq!(a.checked_sub(&variable(B)).unwrap(), a.sub(&variable(B)));
}

#[test]
fn checked_product_at_the_limits() {
    let a = Monomial::factor(Composite::Variable(A));
    let high = Monomial { coefficient: 1, powers: vec![(Composite::Variable(A), 255)] };
    assert!(high.checked_mul(&a).is_none());
    let below = Monomial { coefficient: 1, powers: vec![(Composite::Variable(A), 254)] };
    assert_eq!(below.checked_mul(&a).unwrap(), high);
    let big = a.scale(1 << 40);
    assert!(big.checked_mul(&big).is_none());
    assert_eq!(a.scale(3).checked_mul(&a.scale(-4)).unwrap(), a.mul(&a).scale(-12));

    let p = Polynomial::from_monomial(&high).add_constant(1);
    assert!(p.checked_mul(&variable(A)).is_none());
    assert!(p.checked_mul_monomial(&a).is_none());
    let q = variable(A).scale(1 << 40).add_constant(1);
    assert!(q.checked_mul(&q).is_none());
    let r = variable(A).add_constant(1);
    assert_eq!(r.checked_mul(&r).unwrap(), r.mul(&r));
    assert_eq!(r.checked_mul_monomial(&a).unwrap(), r.mul_monomial(&a));
}

#[test]
fn checked_division_at_the_limits() {
    let a = variable(A);
    let b = variable(B);
    let p = a.mul(&b).add(&a).add_constant(3);
    assert!(p.checked_div_rem(&Polynomial::zero()).is_none());
    let (q, r) = p.checked_div_rem(&a).unwrap();
    assert_eq!(q, b.add_constant(1));
    assert_eq!(r, constant(3));
    assert_eq!(p.div_rem(&a), (q, r));
    // the product of the quotient term and the divisor leaves the range of
    // the powers
    let high = Polynomial::from_monomial(&Monomial {
        coefficient: 1,
        powers: vec![(Composite::Variable(A), 2), (Composite::Variable(B), 255)],
    });
    assert!(high.checked_div_rem(&a.add(&b)).is_none());
    assert!(high.checked_div(&a.add(&b)).is_none());
    // the quotient of the coefficients leaves their range: the term is not
    // divided
    let least = a.scale(i64::MIN);
    let (q, r) = least.checked_div_rem(&a.neg()).unwrap();
    assert_eq!(q, Polynomial::zero());
    assert_eq!(r, least);
    assert_eq!(least.checked_div(&a).unwrap(), constant(i64::MIN));
}

#[test]
fn operations_fall_back_to_a_factor() {
    let a = variable(A);
    let b = variable(B);
    let high = Polynomial::from_monomial(&Monomial {
        coefficient: 1,
        powers: vec![(Composite::Variable(A), 2), (Composite::Variable(B), 255)],
    });
    let divisor = a.add(&b);
    let f = floor(&high, &divisor);
    assert!(matches!(f.monomials[0].powers[0].0, Composite::Floor(_, _)));
    let c = ceil(&high, &divisor);
    assert!(matches!(c.monomials[0].powers[0].0, Composite::Ceil(_, _)));
    let mut values = HashMap::new();
    values.insert(A, 1);
    values.insert(B, 1);
    assert_eq!(f.eval(&values), Ok(0));
    assert_eq!(c.eval(&values), Ok(1));
    values.insert(B, -1);
    assert_eq!(f.eval(&values), Err(EvalError::DivisionByZero));
    // the zero polynomial as a divisor
    let g = floor(&a, &Polynomial::zero());
    assert!(matches!(g.monomials[0].powers[0].0, Composite::Floor(_, _)));
    assert_eq!(g.eval(&values), Err(EvalError::DivisionByZero));
}

#[test]
fn long_division_with_many_steps() {
    let a = variable(A);
    let b = variable(B);
    // (a + b)^6 divided by (a + b)^2 is (a + b)^4
    let s = a.add(&b);
    let s2 = s.mul(&s);
    let s4 = s2.mul(&s2);
    let s6 = s4.mul(&s2);
    assert_eq!(s6.checked_div(&s2).unwrap(), s4);
    let (q, r) = s6.add(&a).add_constant(1).div_rem(&s2);
    assert_eq!(q.mul(&s2).add(&r), s6.add(&a).add_constant(1));
    assert!(r.monomials.len() > 0);
    // a divisor with a greater leading term than the dividend
    let (q, r) = b.div_rem(&a);
    assert_eq!(q, Polynomial::zero());
    assert_eq!(r, b);
}

#[test]
fn division_by_a_constant() {
    let a = variable(A);
    let b = variable(B);
    let p = a.scale(4).add(&b.scale(6)).sub_constant(2);
    assert_eq!(p.checked_div_constant(2).unwrap(), a.scale(2).add(&b.scale(3)).sub_constant(1));
    assert_eq!(p.checked_div_constant(-2).unwrap(), a.scale(-2).sub(&b.scale(3)).add_constant(1));
    assert_eq!(p.checked_div_constant(1).unwrap(), p);
    assert!(p.checked_div_constant(4).is_none());
    assert!(p.checked_div_constant(0).is_none());
    assert!(a.scale(i64::MIN).checked_div_constant(-1).is_none());
    assert_eq!(Polynomial::zero().checked_div_constant(7).unwrap(), Polynomial::zero());
    assert_eq!(p.checked_div_constant(2), p.checked_div(&constant(2)));
}
