use std::collections::{HashMap, HashSet};
use symbolic_polynomials::{ceil, deduce_values, floor, max, min, primitive, variable};
use symbolic_polynomials::{
    CheckedDiv, Composite, DeduceError, EvalError, Evaluable, IsConstant, Monomial, Polynomial,
};

const A: u16 = 0;
const B: u16 = 1;
const C: u16 = 2;
const D: u16 = 3;

fn constant(value: i64) -> Polynomial {
    Polynomial::constant(value)
}

fn letter(id: u16) -> String {
    match id {
        0 => "a".to_string(),
        1 => "b".to_string(),
        2 => "c".to_string(),
        _ => format!("x{}", id),
    }
}

fn example_values() -> HashMap<u16, i64> {
    let mut values = HashMap::new();
    values.insert(A, 3);
    values.insert(B, 2);
    values.insert(C, 5);
    values
}

fn is_canonical(p: &Polynomial) -> bool {
    for m in &p.monomials {
        if m.coefficient == 0 {
            return false;
        }
        for k in 0..m.powers.len() {
            if m.powers[k].1 == 0 {
                return false;
            }
            if k > 0 && m.powers[k - 1].0.compare(&m.powers[k].0) <= 0 {
                return false;
            }
        }
    }
    for k in 1..p.monomials.len() {
        if p.monomials[k - 1].compare_shape(&p.monomials[k]) <= 0 {
            return false;
        }
    }
    true
}

#[test]
fn canonical_form_of_results() {
    let a = variable(A);
    let b = variable(B);
    let c = variable(C);
    let p = a.mul(&b).add(&c.scale(3)).sub_constant(4);
    let q = b.mul(&b).sub(&a).add_constant(9);
    assert!(is_canonical(&p));
    assert!(is_canonical(&q));
    assert!(is_canonical(&p.add(&q)));
    assert!(is_canonical(&p.sub(&q)));
    assert!(is_canonical(&p.mul(&q)));
    assert!(is_canonical(&p.neg()));
    assert!(is_canonical(&p.scale(-2)));
    assert!(is_canonical(&floor(&p, &q)));
    let (quotient, remainder) = p.mul(&q).add(&a).div_rem(&q);
    assert!(is_canonical(&quotient));
    assert!(is_canonical(&remainder));
    // terms with equal power vectors are combined, zero terms dropped
    let sum = a.scale(2).add(&a.scale(-2)).add(&b);
    assert_eq!(sum, b);
    assert_eq!(a.scale(0).monomials.len(), 0);
}

#[test]
fn ring_laws_on_examples() {
    let a = variable(A).mul(&variable(B)).add_constant(1);
    let b = variable(B).scale(3).sub(&variable(C));
    let c = variable(A).mul(&variable(A)).add(&variable(C)).sub_constant(7);
    assert_eq!(a.add(&b), b.add(&a));
    assert_eq!(a.add(&b).add(&c), a.add(&b.add(&c)));
    assert_eq!(a.mul(&b.add(&c)), a.mul(&b).add(&a.mul(&c)));
    assert_eq!(a.sub(&a).monomials.len(), 0);
    assert_eq!(a.sub(&a), Polynomial::zero());
    assert_eq!(a.mul(&b), b.mul(&a));
}

#[test]
fn division_identity_on_examples() {
    let a = variable(A);
    let b = variable(B);
    let dividend = a.mul(&a).mul(&b).add(&a.mul(&b).scale(3)).add(&b.mul(&b)).add_constant(5);
    let divisors = vec![a.clone(), b.clone(), a.add(&b), a.mul(&b).add_constant(1), constant(2)];
    for divisor in &divisors {
        let (q, r) = dividend.div_rem(divisor);
        assert_eq!(q.mul(divisor).add(&r), dividend);
        assert_eq!(dividend.checked_div(divisor).is_some(), r.monomials.len() == 0);
    }
    // 3a is not divisible by 2a: the whole term goes to the remainder
    let (q, r) = a.scale(3).div_rem(&a.scale(2));
    assert_eq!(q, Polynomial::zero());
    assert_eq!(r, a.scale(3));
    // the zero polynomial divides nothing
    assert!(dividend.checked_div(&Polynomial::zero()).is_none());
}

#[test]
fn constant_folding() {
    assert_eq!(floor(&constant(7), &constant(2)), constant(3));
    assert_eq!(ceil(&constant(7), &constant(2)), constant(4));
    assert_eq!(max(&constant(3), &constant(5)), constant(5));
    assert_eq!(min(&constant(3), &constant(5)), constant(3));
    // true floor and ceiling, not truncation
    assert_eq!(floor(&constant(-7), &constant(2)), constant(-4));
    assert_eq!(ceil(&constant(-7), &constant(2)), constant(-3));
    assert_eq!(floor(&constant(7), &constant(-2)), constant(-4));
    assert_eq!(ceil(&constant(7), &constant(-2)), constant(-3));
    assert_eq!(floor(&constant(-8), &constant(-2)), constant(4));
    assert_eq!(floor(&Polynomial::zero(), &constant(5)), Polynomial::zero());
    // an exact division of symbolic operands gives the quotient itself
    let a = variable(A);
    let b = variable(B);
    let ab = a.mul(&b);
    assert_eq!(floor(&ab, &a), b);
    assert_eq!(ceil(&ab, &b), a);
    let square = a.add(&b).mul(&a.add(&b));
    assert_eq!(floor(&square, &a.add(&b)), a.add(&b));
    // what cannot be folded is one factor with the power one
    let f = floor(&a, &b);
    assert_eq!(f.monomials.len(), 1);
    assert_eq!(f.monomials[0].coefficient, 1);
    assert_eq!(f.monomials[0].powers.len(), 1);
    assert_eq!(f.monomials[0].powers[0].1, 1);
    assert!(matches!(f.monomials[0].powers[0].0, Composite::Floor(_, _)));
    assert!(matches!(ceil(&a, &b).monomials[0].powers[0].0, Composite::Ceil(_, _)));
    assert!(matches!(min(&a, &b).monomials[0].powers[0].0, Composite::Min(_, _)));
    assert!(matches!(max(&a, &constant(1)).monomials[0].powers[0].0, Composite::Max(_, _)));
}

#[test]
fn folding_that_has_no_value_stays_symbolic() {
    let values: HashMap<u16, i64> = HashMap::new();
    let by_zero = floor(&constant(7), &constant(0));
    assert!(matches!(by_zero.monomials[0].powers[0].0, Composite::Floor(_, _)));
    assert_eq!(by_zero.eval(&values), Err(EvalError::DivisionByZero));
    let too_large = ceil(&constant(i64::MIN), &constant(-1));
    assert!(matches!(too_large.monomials[0].powers[0].0, Composite::Ceil(_, _)));
    assert_eq!(too_large.eval(&values), Err(EvalError::Overflow));
}

#[test]
fn evaluation_of_the_worked_example() {
    let a = variable(A);
    let b = variable(B);
    let c = variable(C);
    let values = example_values();
    assert_eq!(b.scale(5).add_constant(2).eval(&values), Ok(12));
    assert_eq!(a.mul(&b).eval(&values), Ok(6));
    assert_eq!(a.mul(&b).add(&a.mul(&c)).add(&b).add(&c).eval(&values), Ok(28));
    assert_eq!(a.mul(&a).sub(&a.mul(&b)).add_constant(12).eval(&values), Ok(15));
    let poly5 = a.mul(&c).mul(&c).add(&a.scale(3)).add(&b.mul(&c).mul(&c)).add(&b.scale(3)).add(
        &c.mul(&c),
    ).add_constant(3);
    assert_eq!(poly5.eval(&values), Ok(168));
    assert_eq!(floor(&a.mul(&a), &b.mul(&b)).eval(&values), Ok(2));
    assert_eq!(ceil(&a.mul(&a), &b.mul(&b)).eval(&values), Ok(3));
    assert_eq!(min(&a.mul(&b).add_constant(12), &a.mul(&b).add(&a)).eval(&values), Ok(9));
    assert_eq!(max(&a.mul(&b).add_constant(12), &a.mul(&b).add(&a)).eval(&values), Ok(18));
    let poly10 = max(&floor(&a.mul(&a), &b).sub_constant(2), &ceil(&c, &b).add_constant(1));
    assert_eq!(poly10.eval(&values), Ok(4));
    assert_eq!(Polynomial::zero().eval(&values), Ok(0));
    assert_eq!(constant(-9).eval(&values), Ok(-9));
}

#[test]
fn missing_identifier() {
    let values = example_values();
    let p = variable(A).mul(&variable(B)).add(&variable(D)).add_constant(1);
    assert_eq!(p.eval(&values), Err(EvalError::MissingIdentifier(D)));
    assert_eq!(variable(D).eval(&HashMap::new()), Err(EvalError::MissingIdentifier(D)));
    // the left operand is evaluated first
    let f = floor(&variable(D), &variable(7));
    assert_eq!(f.eval(&values), Err(EvalError::MissingIdentifier(D)));
    let m = Monomial::factor(Composite::Variable(D));
    assert_eq!(m.evaluate(&values), Err(EvalError::MissingIdentifier(D)));
}

#[test]
fn division_by_zero() {
    let mut values = example_values();
    values.insert(D, 0);
    let p = variable(A).add_constant(4);
    assert_eq!(floor(&p, &variable(D)).eval(&values), Err(EvalError::DivisionByZero));
    assert_eq!(ceil(&p, &variable(D)).eval(&values), Err(EvalError::DivisionByZero));
    let q = variable(A).sub_constant(3);
    assert_eq!(floor(&p, &q).eval(&values), Err(EvalError::DivisionByZero));
    assert_eq!(min(&p, &variable(D)).eval(&values), Ok(0));
}

#[test]
fn evaluation_overflow() {
    let mut values = HashMap::new();
    values.insert(A, 1i64 << 40);
    values.insert(B, i64::MAX);
    let a = variable(A);
    assert_eq!(a.mul(&a).eval(&values), Err(EvalError::Overflow));
    assert_eq!(a.scale(1 << 30).eval(&values), Err(EvalError::Overflow));
    assert_eq!(variable(B).add_constant(1).eval(&values), Err(EvalError::Overflow));
    assert_eq!(variable(B).eval(&values), Ok(i64::MAX));
}

#[test]
fn powers_are_evaluated() {
    let mut values = HashMap::new();
    values.insert(A, 3);
    values.insert(B, -2);
    let a = Monomial { coefficient: 2, powers: vec![(Composite::Variable(A), 3)] };
    assert_eq!(a.eval(&values), Ok(54));
    let b = Monomial { coefficient: 1, powers: vec![(Composite::Variable(B), 5)] };
    assert_eq!(b.eval(&values), Ok(-32));
    let c = Monomial {
        coefficient: -1,
        powers: vec![(Composite::Variable(A), 2), (Composite::Variable(B), 2)],
    };
    assert_eq!(c.eval(&values), Ok(-36));
    let big = Monomial { coefficient: 1, powers: vec![(Composite::Variable(B), 63)] };
    assert_eq!(big.eval(&values), Ok(i64::MIN));
    let too_big = Monomial { coefficient: 1, powers: vec![(Composite::Variable(B), 64)] };
    assert_eq!(too_big.eval(&values), Err(EvalError::Overflow));
}

#[test]
fn monomial_division_of_coefficients() {
    let a = Monomial::factor(Composite::Variable(A));
    let b = Monomial::factor(Composite::Variable(B));
    let six_ab = a.mul(&b).scale(6);
    let q = six_ab.checked_div(&a.scale(3)).unwrap();
    assert_eq!(q, b.scale(2));
    let q = six_ab.checked_div(&a.scale(-3)).unwrap();
    assert_eq!(q, b.scale(-2));
    assert!(a.scale(-7).checked_div(&a.scale(2)).is_none());
    assert!(a.scale(7).checked_div(&a.scale(0)).is_none());
    assert!(Monomial::constant(i64::MIN).checked_div(&Monomial::constant(-1)).is_none());
    let cube = a.mul(&a).mul(&a);
    assert_eq!(cube.checked_div(&a).unwrap(), a.mul(&a));
    assert_eq!(cube.checked_div(&cube).unwrap(), Monomial::constant(1));
    assert!(a.checked_div(&cube).is_none());
    assert_eq!(CheckedDiv::checked_div(&six_ab, &b).unwrap(), a.scale(6));
}

#[test]
fn deduction_round_trip() {
    let a = variable(A);
    let b = variable(B);
    let c = variable(C);
    let poly1 = b.scale(5).add_constant(2);
    let poly2 = a.mul(&b);
    let poly3 = a.mul(&b).add(&a.mul(&c)).add(&b).add(&c);
    let mut values = HashMap::new();
    values.insert(A, 5);
    values.insert(B, 3);
    values.insert(C, 8);
    let pairs = vec![
        (poly1.clone(), poly1.eval(&values).unwrap()),
        (poly2.clone(), poly2.eval(&values).unwrap()),
        (poly3.clone(), poly3.eval(&values).unwrap()),
    ];
    let deduced = deduce_values(&pairs).unwrap();
    assert_eq!(deduced, values);
    assert_eq!(deduced[&A], 5);
    assert_eq!(deduced[&B], 3);
    assert_eq!(deduced[&C], 8);
    // the order of the equations does not matter
    let reversed = vec![pairs[2].clone(), pairs[1].clone(), pairs[0].clone()];
    assert_eq!(deduce_values(&reversed).unwrap(), values);
    for (p, v) in &pairs {
        assert_eq!(p.eval(&deduced), Ok(*v));
    }
}

#[test]
fn deduction_through_a_known_factor() {
    // floor(a, 2) * b == 12 with a == 9 gives b == 3
    let a = variable(A);
    let b = variable(B);
    let pairs = vec![(a.clone(), 9), (floor(&a, &constant(2)).mul(&b), 12)];
    let deduced = deduce_values(&pairs).unwrap();
    assert_eq!(deduced[&A], 9);
    assert_eq!(deduced[&B], 3);
}

#[test]
fn deduction_failures() {
    let a = variable(A);
    let b = variable(B);
    // one equation for two identifiers
    let pairs = vec![(a.add(&b), 5)];
    assert_eq!(deduce_values(&pairs), Err(DeduceError::Underdetermined));
    // an identifier with the power two is never solved for
    let pairs = vec![(a.mul(&a), 9)];
    assert_eq!(deduce_values(&pairs), Err(DeduceError::Underdetermined));
    // two values for one identifier
    let pairs = vec![(a.clone(), 5), (a.scale(2), 12)];
    assert_eq!(deduce_values(&pairs), Err(DeduceError::Inconsistent));
    // 2a == 5 has no integer solution
    let pairs = vec![(a.scale(2), 5)];
    assert_eq!(deduce_values(&pairs), Err(DeduceError::Underdetermined));
    // a constant that is not its observed value
    let pairs = vec![(constant(3), 4)];
    assert_eq!(deduce_values(&pairs), Err(DeduceError::Inconsistent));
    // no equation at all
    let pairs: Vec<(Polynomial, i64)> = Vec::new();
    assert_eq!(deduce_values(&pairs), Ok(HashMap::new()));
    // a redundant equation that agrees
    let pairs = vec![(a.clone(), 5), (a.scale(2), 10)];
    assert_eq!(deduce_values(&pairs).unwrap()[&A], 5);
}

#[test]
fn folding_is_idempotent() {
    let a = variable(A);
    let b = variable(B);
    let p = a.mul(&b).add(&b.scale(4)).sub_constant(6);
    assert_eq!(p.add(&Polynomial::zero()), p);
    assert_eq!(Polynomial::zero().add(&p), p);
    assert_eq!(p.sub(&Polynomial::zero()), p);
    assert_eq!(p.mul(&constant(1)), p);
    assert_eq!(p.scale(1), p);
    assert_eq!(p.neg().neg(), p);
    assert_eq!(p.clone(), p);
    assert_eq!(floor(&p, &constant(1)), p);
    let f = floor(&a, &b);
    assert_eq!(floor(&a, &b), f);
    assert_eq!(f.add(&Polynomial::zero()), f);
    assert_eq!(Polynomial::from_monomial(&p.monomials[0]).monomials[0], p.monomials[0]);
    assert_eq!(primitive(A), variable(A));
}

#[test]
fn sharing_keeps_the_operands() {
    let a = variable(A);
    let b = variable(B);
    let operand = a.mul(&b).add_constant(1);
    let f = floor(&operand, &b.add_constant(2));
    let copy = f.clone();
    assert_eq!(copy, f);
    match &copy.monomials[0].powers[0].0 {
        Composite::Floor(l, r) => {
            assert_eq!(**l, operand);
            assert_eq!(**r, b.add_constant(2));
        },
        _ => panic!("not a floor"),
    }
    let product = f.mul(&f);
    assert_eq!(product.monomials[0].powers[0].1, 2);
    assert_eq!(product.monomials[0].powers[0].0, f.monomials[0].powers[0].0);
}

#[test]
fn order_of_factors() {
    let a = Composite::Variable(A);
    let b = Composite::Variable(B);
    assert!(a.compare(&b) > 0);
    assert!(b.compare(&a) < 0);
    assert_eq!(a.compare(&Composite::Variable(A)), 0);
    let f = floor(&variable(A), &variable(B)).monomials[0].powers[0].0.clone();
    let c = ceil(&variable(A), &variable(B)).monomials[0].powers[0].0.clone();
    let mn = min(&variable(A), &variable(B)).monomials[0].powers[0].0.clone();
    let mx = max(&variable(A), &variable(B)).monomials[0].powers[0].0.clone();
    assert!(f.compare(&a) > 0);
    assert!(c.compare(&f) > 0);
    assert!(mn.compare(&c) > 0);
    assert!(mx.compare(&mn) > 0);
    assert!(a.compare(&mx) < 0);
    let f2 = floor(&variable(A), &variable(C)).monomials[0].powers[0].0.clone();
    assert!(f.compare(&f2) > 0);
    assert_eq!(f.compare(&f.clone()), 0);
    // a factor of a product stands before the smaller ones
    let product = variable(B).mul(&floor(&variable(A), &variable(B))).mul(&variable(A));
    assert_eq!(product.monomials[0].powers.len(), 3);
    assert!(matches!(product.monomials[0].powers[0].0, Composite::Floor(_, _)));
    assert_eq!(product.monomials[0].powers[1].0, Composite::Variable(A));
    assert_eq!(product.monomials[0].powers[2].0, Composite::Variable(B));
}

#[test]
fn rendering_as_code() {
    let a = variable(A);
    let b = variable(B);
    let c = variable(C);
    assert_eq!(b.scale(5).add_constant(2).to_code(&letter), "5 * b + 2");
    assert_eq!(a.mul(&b).to_code(&letter), "a * b");
    assert_eq!(a.mul(&a).sub(&a.mul(&b)).add_constant(12).to_code(&letter), "a * a - a * b + 12");
    assert_eq!(floor(&a.mul(&a), &b.mul(&b)).to_code(&letter), "floor(a * a, b * b)");
    assert_eq!(ceil(&c, &b).add_constant(1).to_code(&letter), "ceil(c, b) + 1");
    assert_eq!(
        max(&a.mul(&b).add_constant(12), &a.mul(&b).add(&a)).to_code(&letter),
        "max(a * b + 12, a * b + a)"
    );
    assert_eq!(min(&a, &b).scale(-3).to_code(&letter), "- 3 * min(a, b)");
    assert_eq!(Polynomial::zero().to_code(&letter), "0");
    assert_eq!(constant(1).to_code(&letter), "1");
    assert_eq!(constant(-1).to_code(&letter), "- 1");
    assert_eq!(constant(-120).to_code(&letter), "- 120");
    assert_eq!(constant(i64::MIN).to_code(&letter), "- 9223372036854775808");
    assert_eq!(a.neg().to_code(&letter), "- a");
    assert_eq!(a.mul(&a).mul(&a).scale(2).sub(&b.scale(7)).to_code(&letter), "2 * a * a * a - 7 * b");
    assert_eq!(variable(40).to_code(&letter), "x40");
    let m = Monomial { coefficient: 0, powers: vec![(Composite::Variable(A), 1)] };
    assert_eq!(m.to_code(&letter), "0");
}

#[test]
fn identifiers_of_expressions() {
    let a = variable(A);
    let b = variable(B);
    let p = floor(&a.mul(&a), &b.add_constant(1)).mul(&variable(D)).add(&a);
    let mut unique = HashSet::new();
    unique.insert(9u16);
    p.unique_identifiers(&mut unique);
    let expected: HashSet<u16> = [A, B, D, 9].into_iter().collect();
    assert_eq!(unique, expected);
    let mut unique = HashSet::new();
    constant(4).unique_identifiers(&mut unique);
    assert!(unique.is_empty());
    let mut unique = HashSet::new();
    p.monomials[0].unique_identifiers(&mut unique);
    let expected: HashSet<u16> = [A, B, D].into_iter().collect();
    assert_eq!(unique, expected);
}

#[test]
fn constants_are_recognised() {
    assert!(Polynomial::zero().is_constant());
    assert!(constant(5).is_constant());
    assert!(!variable(A).is_constant());
    assert!(!variable(A).add_constant(1).is_constant());
    assert!(IsConstant::is_constant(&constant(5)));
    assert!(IsConstant::is_constant(&Monomial::constant(0)));
    assert!(!IsConstant::is_constant(&Monomial::factor(Composite::Variable(A))));
    assert_eq!(constant(5).constant_value(), 5);
    assert_eq!(Polynomial::zero().constant_value(), 0);
    assert_eq!(constant(0), Polynomial::zero());
    assert_eq!(Evaluable::evaluate(&constant(5), &HashMap::new()), Ok(5));
    let q = CheckedDiv::checked_div(&variable(A).scale(4), &constant(2)).unwrap();
    assert_eq!(q, variable(A).scale(2));
}

#[test]
fn compact_text() {
    let a = variable(A);
    let b = variable(B);
    assert_eq!(a.mul(&a).scale(2).to_string(), "20^2");
    assert_eq!(a.mul(&b).neg().add_constant(7).to_string(), "- 01 + 7");
    assert_eq!(b.mul(&b).mul(&b).sub(&a).to_string(), "- 0 + 1^3");
    assert_eq!(Polynomial::zero().to_string(), "0");
    assert_eq!(constant(-1).to_string(), "- 1");
    assert_eq!(constant(250).to_string(), "250");
    assert_eq!(floor(&a, &b.scale(2)).to_string(), "floor(0, 21)");
    assert_eq!(Monomial::constant(1).to_string(), "1");
    assert_eq!(Composite::Variable(65535).to_string(), "65535");
    let high = Monomial { coefficient: 1, powers: vec![(Composite::Variable(A), 255)] };
    assert_eq!(high.to_string(), "0^255");
}

#[test]
fn defaults_are_zero() {
    assert_eq!(Polynomial::default(), Polynomial::zero());
    assert_eq!(Monomial::default(), Monomial::constant(0));
    assert!(Polynomial::default().is_constant());
    assert_eq!(Polynomial::default().eval(&HashMap::new()), Ok(0));
}

#[test]
fn operators_are_the_methods() {
    let a = variable(A);
    let b = variable(B);
    // ab + a^2 + 1
    let p = &(&(&a * &b) + &(&a * &a)) + &constant(1);
    assert_eq!(p, a.mul(&b).add(&a.mul(&a)).add_constant(1));
    assert_eq!(&p - &a, p.sub(&a));
    assert_eq!(-&p, p.neg());
    assert_eq!(&(&p * &b) / &b, p);
    assert_eq!(a.clone() + b.clone(), a.add(&b));
    assert_eq!(a.clone() - b.clone(), a.sub(&b));
    assert_eq!(a.clone() * b.clone(), a.mul(&b));
    assert_eq!((a.clone() * b.clone()) / a.clone(), b);
    assert_eq!(-a.clone(), a.neg());
    let values = example_values();
    assert_eq!((&(&a * &b) + &(&a * &variable(C))).eval(&values), Ok(21));
}
