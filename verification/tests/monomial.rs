use std::collections::HashMap;
use symbolic_polynomials::{Composite, EvalError, Monomial, Polynomial};

const A: u16 = 0;
const B: u16 = 1;
const C: u16 = 2;
const D: u16 = 3;

fn var(id: u16) -> Monomial {
    Monomial { coefficient: 1, powers: vec![(Composite::Variable(id), 1)] }
}

fn div(a: &Monomial, b: &Monomial) -> Monomial {
    a.checked_div(b).unwrap()
}

#[test]
pub fn monomial_constructor() {
    let a = Monomial { coefficient: 1, powers: vec![(Composite::Variable(A), 1)] };
    let minus_six = Monomial::constant(-6);
    let thirteen = Monomial::constant(13);

    assert!(minus_six.is_constant());
    assert_eq!(minus_six.coefficient, -6);
    assert_eq!(minus_six.powers.len(), 0);

    assert!(thirteen.is_constant());
    assert_eq!(thirteen.coefficient, 13);
    assert_eq!(thirteen.powers.len(), 0);

    assert!(!a.is_constant());
    assert_eq!(a.coefficient, 1);
    assert_eq!(a.powers, vec![(Composite::Variable(A), 1)]);
}

#[test]
pub fn up_to_coefficient_test() {
    let a = var(A);
    let b = var(B);
    let three = Monomial::constant(3);
    let five = Monomial::constant(5);
    // 2a
    let a_times_2 = a.scale(2);
    // -5a
    let minus_5_a = a.scale(-5);
    // a^2
    let a_square = a.mul(&a);
    // 3a^2
    let a_square_times_3 = a_square.scale(3);

    assert!(!a.up_to_coefficient(&three));
    assert!(!three.up_to_coefficient(&a));
    assert!(!a.up_to_coefficient(&five));
    assert!(!five.up_to_coefficient(&a));
    assert!(!b.up_to_coefficient(&three));
    assert!(!three.up_to_coefficient(&b));
    assert!(!b.up_to_coefficient(&five));
    assert!(!five.up_to_coefficient(&b));

    assert!(!a.up_to_coefficient(&b));
    assert!(!b.up_to_coefficient(&a));

    assert!(five.up_to_coefficient(&three));
    assert!(three.up_to_coefficient(&five));
    assert!(a.up_to_coefficient(&a_times_2));
    assert!(a_times_2.up_to_coefficient(&a));
    assert!(a.up_to_coefficient(&minus_5_a));
    assert!(minus_5_a.up_to_coefficient(&a));
    assert!(a_times_2.up_to_coefficient(&minus_5_a));
    assert!(minus_5_a.up_to_coefficient(&a_times_2));

    assert!(!a_times_2.up_to_coefficient(&three));
    assert!(!three.up_to_coefficient(&a_times_2));
    assert!(!a_times_2.up_to_coefficient(&five));
    assert!(!five.up_to_coefficient(&a_times_2));

    assert!(!a_square.up_to_coefficient(&a));
    assert!(!a.up_to_coefficient(&a_square));
    assert!(!a_square.up_to_coefficient(&a_times_2));
    assert!(!a_times_2.up_to_coefficient(&a_square));
    assert!(!a_square.up_to_coefficient(&minus_5_a));
    assert!(!minus_5_a.up_to_coefficient(&a_square));
    assert!(a_square.up_to_coefficient(&a_square_times_3));
    assert!(a_square_times_3.up_to_coefficient(&a_square));
}

#[test]
pub fn monomial_partial_eq_test() {
    let a = var(A);
    let b = var(B);
    let a_v2 = var(A);
    // a^2
    let a_square_v1 = Monomial { coefficient: 1, powers: vec![(Composite::Variable(A), 2)] };
    let a_square_v2 = Monomial { coefficient: 1, powers: vec![(Composite::Variable(A), 2)] };
    // 2a^2
    let two_a_square = Monomial { coefficient: 2, powers: vec![(Composite::Variable(A), 2)] };
    // b^2
    let b_square = b.mul(&b);

    assert_ne!(a, Monomial::constant(3));
    assert_ne!(Monomial::constant(3), a);
    assert_eq!(a, a_v2);
    assert_eq!(a_v2, a);

    assert_eq!(a_square_v1, a_square_v2);
    assert_eq!(a_square_v2, a_square_v1);
    assert_ne!(two_a_square, a_square_v1);
    assert_ne!(a_square_v1, two_a_square);
    assert_ne!(a_square_v1, b_square);
    assert_ne!(b_square, a_square_v1);
}

#[test]
pub fn monomial_ord_test() {
    let a = var(A);
    let b = var(B);
    // 2a^2b
    let a_square_b_times_2 = Monomial {
        coefficient: 2,
        powers: vec![(Composite::Variable(A), 2), (Composite::Variable(B), 1)],
    };
    // 3a^2b
    let a_square_b_times_3 = Monomial {
        coefficient: 3,
        powers: vec![(Composite::Variable(A), 2), (Composite::Variable(B), 1)],
    };
    // 3ab
    let ab_times_3 = Monomial {
        coefficient: 2,
        powers: vec![(Composite::Variable(A), 1), (Composite::Variable(B), 1)],
    };
    let two = Monomial::constant(2);

    assert!(a.compare(&two) > 0);
    assert!(two.compare(&a) < 0);
    assert!(b.compare(&two) > 0);
    assert!(two.compare(&b) < 0);

    assert!(a.compare(&b) > 0);
    assert!(b.compare(&a) < 0);
    assert!(a_square_b_times_3.compare(&a_square_b_times_2) > 0);
    assert!(a_square_b_times_2.compare(&a_square_b_times_3) < 0);
    assert!(a_square_b_times_3.compare(&ab_times_3) > 0);
    assert!(ab_times_3.compare(&a_square_b_times_3) < 0);
    assert!(a_square_b_times_2.compare(&ab_times_3) > 0);
    assert!(ab_times_3.compare(&a_square_b_times_2) < 0);
}

#[test]
pub fn monomial_mul_test() {
    let a = var(A);
    let b = var(B);
    let c = var(C);
    // 2abc
    let abc_times_2 = a.scale(2).mul(&b).mul(&c);
    // b^2
    let b_square = b.mul(&b);
    // 2ab^3c
    let ab_third_c_times_2 = b_square.mul(&abc_times_2);

    assert_eq!(abc_times_2.coefficient, 2);
    assert!(!abc_times_2.is_constant());
    assert_eq!(
        abc_times_2.powers,
        vec![
            (Composite::Variable(A), 1),
            (Composite::Variable(B), 1),
            (Composite::Variable(C), 1),
        ]
    );

    assert_eq!(b_square.coefficient, 1);
    assert_eq!(b_square.powers, vec![(Composite::Variable(B), 2)]);

    assert_eq!(ab_third_c_times_2.coefficient, 2);
    assert_eq!(
        ab_third_c_times_2.powers,
        vec![
            (Composite::Variable(A), 1),
            (Composite::Variable(B), 3),
            (Composite::Variable(C), 1),
        ]
    );
}

#[test]
pub fn monomial_div_test() {
    let a = var(A);
    let b = var(B);
    let c = var(C);
    let d = var(D);
    // a^2
    let a_square = a.mul(&a);
    // b^2
    let b_square = b.mul(&b);
    // c^2
    let c_square = c.mul(&c);
    // 2abc
    let abc_times_2 = a.scale(2).mul(&b).mul(&c);
    // ab
    let ab = a.mul(&b);
    // ac
    let ac = a.mul(&c);
    // bc
    let bc = b.mul(&c);

    // abc
    let abc = div(&abc_times_2, &Monomial::constant(2));
    assert_eq!(abc.coefficient, 1);
    assert_eq!(
        abc.powers,
        vec![
            (Composite::Variable(A), 1),
            (Composite::Variable(B), 1),
            (Composite::Variable(C), 1),
        ]
    );

    // 2bc
    let bc2 = div(&abc_times_2, &a);
    assert_eq!(bc2.coefficient, 2);
    assert_eq!(bc2.powers, vec![(Composite::Variable(B), 1), (Composite::Variable(C), 1)]);

    // 2ac
    let ac2 = div(&abc_times_2, &b);
    assert_eq!(ac2.coefficient, 2);
    assert_eq!(ac2.powers, vec![(Composite::Variable(A), 1), (Composite::Variable(C), 1)]);

    // 2ab
    let ab2 = div(&abc_times_2, &c);
    assert_eq!(ab2.coefficient, 2);
    assert_eq!(ab2.powers, vec![(Composite::Variable(A), 1), (Composite::Variable(B), 1)]);

    // 2
    let two = div(&div(&div(&abc_times_2, &b), &c), &a);
    assert_eq!(two.coefficient, 2);
    assert_eq!(two.powers, vec![]);

    // 2c
    let c2 = div(&abc_times_2, &ab);
    assert_eq!(c2.coefficient, 2);
    assert_eq!(c2.powers, vec![(Composite::Variable(C), 1)]);

    // 2b
    let b2 = div(&abc_times_2, &ac);
    assert_eq!(b2.coefficient, 2);
    assert_eq!(b2.powers, vec![(Composite::Variable(B), 1)]);

    // 2a
    let a2 = div(&abc_times_2, &bc);
    assert_eq!(a2.coefficient, 2);
    assert_eq!(a2.powers, vec![(Composite::Variable(A), 1)]);

    assert!(abc_times_2.checked_div(&Monomial::constant(4)).is_none());
    assert!(abc_times_2.checked_div(&a_square).is_none());
    assert!(abc_times_2.checked_div(&b_square).is_none());
    assert!(abc_times_2.checked_div(&c_square).is_none());
    assert!(abc_times_2.checked_div(&d).is_none());
}

#[test]
pub fn monomial_add_test() {
    let a = var(A);
    let b = var(B);

    // a + b
    let a_plus_b = a.add(&b);
    assert_eq!(a_plus_b.monomials.len(), 2);
    assert_eq!(a_plus_b.monomials[0], a);
    assert_eq!(a_plus_b.monomials[1], b);

    // a + 2b
    let a_plus_two_b = a_plus_b.add_monomial(&b);
    println!("{:?}", a_plus_two_b);
    assert_eq!(a_plus_b.monomials.len(), 2);
    assert_eq!(a_plus_two_b.monomials[0], a);
    assert_eq!(a_plus_two_b.monomials[1], b.scale(2));

    // 2a + 2b
    let a_plus_b_twice = a_plus_two_b.add_monomial(&a);
    assert_eq!(a_plus_b.monomials.len(), 2);
    assert_eq!(a_plus_b_twice.monomials[0], a.scale(2));
    assert_eq!(a_plus_b_twice.monomials[1], b.scale(2));

    // 0
    let zero = a_plus_b.sub(&a_plus_b);
    assert_eq!(zero.monomials.len(), 0);
}

#[test]
pub fn monomial_sub_test() {
    let a = var(A);
    let b = var(B);

    // a - b
    let a_minus_b = a.sub(&b);
    assert_eq!(a_minus_b.monomials.len(), 2);
    assert_eq!(a_minus_b.monomials[0], a);
    assert_eq!(a_minus_b.monomials[1], b.neg());

    // a - 2b
    let a_minus_two_b = a_minus_b.sub_monomial(&b);
    assert_eq!(a_minus_two_b.monomials.len(), 2);
    assert_eq!(a_minus_two_b.monomials[0], a);
    assert_eq!(a_minus_two_b.monomials[1], b.scale(-2));

    // a
    let a_v2 = a_minus_two_b.add_monomial(&b.scale(2));
    assert_eq!(a_v2.monomials.len(), 1);
    assert_eq!(a_v2.monomials[0], a);

    // 0
    let zero = a_v2.add_monomial(&a.neg());
    assert_eq!(zero.monomials.len(), 0);
}

#[test]
pub fn monomial_eval_test() {
    let a = var(A);
    let b = var(B);
    let c = var(C);
    let d = var(D);

    let mut values = HashMap::<u16, i64>::new();
    values.insert(A, 3);
    values.insert(B, 7);
    values.insert(C, 5);

    assert_eq!(a.eval(&values), Ok(3));
    assert_eq!(b.eval(&values), Ok(7));
    assert_eq!(c.eval(&values), Ok(5));
    assert_eq!(d.eval(&values), Err(EvalError::MissingIdentifier(D)));

    assert_eq!(a.scale(2).mul(&a).eval(&values), Ok(18));
    assert_eq!(a.scale(2).mul(&b).eval(&values), Ok(42));
    assert_eq!(c.mul(&a).mul(&b).eval(&values), Ok(105));
    assert_eq!(d.mul(&c).mul(&a).mul(&b).eval(&values), Err(EvalError::MissingIdentifier(D)));

    let sum: Polynomial = a.add(&b).add_monomial(&c).add_constant(2);
    assert_eq!(sum.eval(&values), Ok(17));
    assert_eq!(
        a.add(&b).add_monomial(&c).add_monomial(&d).eval(&values),
        Err(EvalError::MissingIdentifier(D))
    );
}
