use std::collections::HashMap;
use symbolic_polynomials::{ceil, floor, max, min, variable};
use symbolic_polynomials::{Composite, EvalError, Monomial, Polynomial};

const A: u16 = 0;
const B: u16 = 1;
const C: u16 = 2;
const D: u16 = 3;

fn constant(value: i64) -> Polynomial {
    Polynomial::constant(value)
}

fn greater(x: &Polynomial, y: &Polynomial) -> bool {
    x.compare(y) > 0
}

fn less(x: &Polynomial, y: &Polynomial) -> bool {
    x.compare(y) < 0
}

#[test]
pub fn polynomial_constructor() {
    let a: Polynomial = variable(A);
    let b_mon = Monomial { coefficient: 1, powers: vec![(Composite::Variable(B), 1)] };
    let b = Polynomial::from_monomial(&b_mon.scale(5));
    let minus_six = Polynomial::constant(-6);
    let thirteen = Polynomial::constant(13);

    assert!(minus_six.is_constant());
    assert_eq!(minus_six.monomials.len(), 1);
    assert_eq!(minus_six.monomials[0].coefficient, -6);
    assert_eq!(minus_six.monomials[0].powers.len(), 0);

    assert!(thirteen.is_constant());
    assert_eq!(thirteen.monomials.len(), 1);
    assert_eq!(thirteen.monomials[0].coefficient, 13);
    assert_eq!(thirteen.monomials[0].powers.len(), 0);

    assert!(!a.is_constant());
    assert_eq!(a.monomials.len(), 1);
    assert_eq!(a.monomials[0].coefficient, 1);
    assert_eq!(a.monomials[0].powers, vec![(Composite::Variable(A), 1)]);

    assert!(!b.is_constant());
    assert_eq!(b.monomials.len(), 1);
    assert_eq!(b.monomials[0].coefficient, 5);
    assert_eq!(b.monomials[0].powers, vec![(Composite::Variable(B), 1)]);
}

#[test]
pub fn polynomial_partial_eq_test() {
    let a: Polynomial = variable(A);
    let b: Polynomial = variable(B);
    let a_v2: Polynomial = variable(A);
    let b_v2: Polynomial = variable(B);
    // ab
    let ab = a.mul(&b);
    // a + b
    let a_plus_b = a.add(&b);
    // a^2
    let a_square = a.mul(&a);
    // b^2
    let b_square = b.mul(&b);
    // a^2 + b^2 + 2ab = (a + b)^2
    let a_plus_b_square = a_square.add(&b_square).add(&ab.scale(2));

    assert_ne!(a, constant(1));
    assert_ne!(constant(1), a);
    assert_ne!(b, constant(1));
    assert_ne!(constant(1), b);

    assert_eq!(a, a_v2);
    assert_eq!(a_v2, a);
    assert_eq!(b, b_v2);
    assert_eq!(b_v2, b);

    assert_ne!(ab, a);
    assert_ne!(a, ab);
    assert_ne!(ab, b);
    assert_ne!(b, ab);

    assert_ne!(a_square, a);
    assert_ne!(a, a_square);
    assert_ne!(b_square, b);
    assert_ne!(b, b_square);
    assert_eq!(a_plus_b_square, a_plus_b.mul(&a_plus_b));
}

#[test]
pub fn polynomial_ord_test() {
    let a: Polynomial = variable(A);
    let b: Polynomial = variable(B);
    // a^2
    let a_square = a.mul(&a);
    // b^2
    let b_square = b.mul(&b);
    // a^2b
    let a_square_b = a.mul(&a).mul(&b);
    // a^2b + a
    let a_square_b_plus_a = a_square_b.add(&a);
    // a^2b + b
    let a_square_b_plus_b = a_square_b.add(&b);
    // a + b
    let a_plus_b = a.add(&b);
    // (a + b)^2
    let a_plus_b_square = a_plus_b.mul(&a_plus_b);
    let two = constant(2);

    assert!(greater(&a, &two));
    assert!(less(&two, &a));
    assert!(greater(&b, &two));
    assert!(less(&two, &b));

    assert!(greater(&a, &b_square));
    assert!(less(&b_square, &a));
    assert!(less(&b, &b_square));
    assert!(greater(&b_square, &b));
    assert!(less(&a, &a_square));
    assert!(greater(&a_square, &a));
    assert!(less(&b, &a_square));
    assert!(greater(&a_square, &b));
    assert!(less(&b_square, &a_square));
    assert!(greater(&a_square, &b_square));

    assert!(greater(&a_square_b, &a_square));
    assert!(less(&a_square, &a_square_b));
    assert!(greater(&a_square_b, &b_square));
    assert!(less(&b_square, &a_square_b));
    assert!(less(&a_square_b, &a_square_b_plus_a));
    assert!(greater(&a_square_b_plus_a, &a_square_b));
    assert!(less(&a_square_b, &a_square_b_plus_b));
    assert!(greater(&a_square_b_plus_b, &a_square_b));
    assert!(less(&a_square_b_plus_b, &a_square_b_plus_a));
    assert!(greater(&a_square_b_plus_a, &a_square_b_plus_b));

    assert!(greater(&a_plus_b, &a));
    assert!(less(&a, &a_plus_b));
    assert!(greater(&a_plus_b, &b));
    assert!(less(&b, &a_plus_b));
    assert!(less(&a_plus_b, &a_square));
    assert!(greater(&a_square, &a_plus_b));
    assert!(greater(&a_plus_b, &b_square));
    assert!(less(&b_square, &a_plus_b));

    assert!(greater(&a_plus_b_square, &a_square));
    assert!(less(&a_square, &a_plus_b_square));
    assert!(less(&a_plus_b_square, &a_square_b_plus_a));
    assert!(greater(&a_square_b_plus_a, &a_plus_b_square));
    assert!(less(&a_plus_b_square, &a_square_b_plus_b));
    assert!(greater(&a_square_b_plus_b, &a_plus_b_square));
}

#[test]
pub fn polynomial_mul_test() {
    let a: Polynomial = variable(A);
    let b: Polynomial = variable(B);
    // ab + a^2 + 1
    let ab_plus_a_square_plus_one = a.mul(&b).add(&a.mul(&a)).add_constant(1);
    // ab + b^2 + 1
    let ab_plus_b_square_plus_two = a.mul(&b).add(&b.mul(&b)).add_constant(2);
    // a^3b + 2a^2b^2 + 2a^2 + ab^3 + 3ab + b^2 + 2
    let product = ab_plus_a_square_plus_one.mul(&ab_plus_b_square_plus_two);

    assert_eq!(product.monomials.len(), 7);
    assert_eq!(product.monomials[0].coefficient, 1);
    assert_eq!(
        product.monomials[0].powers,
        vec![(Composite::Variable(A), 3), (Composite::Variable(B), 1)]
    );
    assert_eq!(product.monomials[1].coefficient, 2);
    assert_eq!(
        product.monomials[1].powers,
        vec![(Composite::Variable(A), 2), (Composite::Variable(B), 2)]
    );
    assert_eq!(product.monomials[2].coefficient, 2);
    assert_eq!(product.monomials[2].powers, vec![(Composite::Variable(A), 2)]);
    assert_eq!(product.monomials[3].coefficient, 1);
    assert_eq!(
        product.monomials[3].powers,
        vec![(Composite::Variable(A), 1), (Composite::Variable(B), 3)]
    );
    assert_eq!(product.monomials[4].coefficient, 3);
    assert_eq!(
        product.monomials[4].powers,
        vec![(Composite::Variable(A), 1), (Composite::Variable(B), 1)]
    );
    assert_eq!(product.monomials[5].coefficient, 1);
    assert_eq!(product.monomials[5].powers, vec![(Composite::Variable(B), 2)]);
    assert_eq!(product.monomials[6].coefficient, 2);
    assert_eq!(product.monomials[6].powers.len(), 0);
}

#[test]
pub fn polynomial_div_test() {
    let a: Polynomial = variable(A);
    let b: Polynomial = variable(B);
    // ab + a^2 + 1
    let ab_plus_a_square_plus_one = a.mul(&b).add(&a.mul(&a)).add_constant(1);
    // ab + b^2 + 1
    let ab_plus_b_square_plus_two = a.mul(&b).add(&b.mul(&b)).add_constant(2);
    // a^3b + 2a^2b^2 + 2a^2 + ab^3 + 3ab + b^2 + 2
    let product = ab_plus_a_square_plus_one.mul(&ab_plus_b_square_plus_two);
    // (ab + a^2 + 1) = a * (a + b) + 1
    let (a_plus_b, one) = ab_plus_a_square_plus_one.div_rem(&a);

    assert_eq!(
        product.checked_div(&ab_plus_a_square_plus_one).unwrap(),
        ab_plus_b_square_plus_two
    );
    assert_eq!(
        product.checked_div(&ab_plus_b_square_plus_two).unwrap(),
        ab_plus_a_square_plus_one
    );

    assert_eq!(a_plus_b, a.add(&b));
    assert_eq!(one, constant(1));
    assert!(product.checked_div(&a.mul(&a)).is_none());
    assert!(product.checked_div(&b.mul(&b)).is_none());
    assert!(product.checked_div(&constant(2)).is_none());
    assert_eq!(product.checked_div(&constant(1)).unwrap(), product);
}

#[test]
pub fn polynomial_add_test() {
    let a_mon = Monomial { coefficient: 1, powers: vec![(Composite::Variable(A), 1)] };
    let a: Polynomial = variable(A);
    let b: Polynomial = variable(B);
    // a + b + 1
    let a_plus_b_plus_1_v1 = a.add(&b).add_constant(1);
    let a_plus_b_plus_1_v2 = b.add_monomial(&a_mon).add_constant(1);
    // 2a + 2b + 2
    let a_plus_b_plus_1_times_2 = a_plus_b_plus_1_v1.add(&a_plus_b_plus_1_v2);

    assert_eq!(a_plus_b_plus_1_v1.monomials.len(), 3);
    assert_eq!(a_plus_b_plus_1_v1.monomials[0].coefficient, 1);
    assert_eq!(a_plus_b_plus_1_v1.monomials[0].powers, vec![(Composite::Variable(A), 1)]);
    assert_eq!(a_plus_b_plus_1_v1.monomials[1].coefficient, 1);
    assert_eq!(a_plus_b_plus_1_v1.monomials[1].powers, vec![(Composite::Variable(B), 1)]);
    assert_eq!(a_plus_b_plus_1_v1.monomials[2].coefficient, 1);
    assert_eq!(a_plus_b_plus_1_v1.monomials[2].powers.len(), 0);
    assert_eq!(a_plus_b_plus_1_v1, a_plus_b_plus_1_v2);

    assert_eq!(a_plus_b_plus_1_times_2.monomials.len(), 3);
    assert_eq!(a_plus_b_plus_1_times_2.monomials[0].coefficient, 2);
    assert_eq!(a_plus_b_plus_1_times_2.monomials[0].powers, vec![(Composite::Variable(A), 1)]);
    assert_eq!(a_plus_b_plus_1_times_2.monomials[1].coefficient, 2);
    assert_eq!(a_plus_b_plus_1_times_2.monomials[1].powers, vec![(Composite::Variable(B), 1)]);
    assert_eq!(a_plus_b_plus_1_times_2.monomials[2].coefficient, 2);
    assert_eq!(a_plus_b_plus_1_times_2.monomials[2].powers.len(), 0);
}

#[test]
pub fn polynomial_sub_test() {
    let a: Polynomial = variable(A);
    let b: Polynomial = variable(B);
    // a + b + 1
    let a_plus_b_plus_1 = a.add(&b).add_constant(1);
    // 2a + 2b + 2
    let a_plus_b_plus_1_times_2 = a_plus_b_plus_1.scale(2);

    assert_eq!(a_plus_b_plus_1_times_2.sub(&a_plus_b_plus_1), a_plus_b_plus_1);
    assert_eq!(a_plus_b_plus_1.sub_constant(1), a.add(&b));
    assert_eq!(a_plus_b_plus_1.sub(&a), b.add_constant(1));
    assert_eq!(a_plus_b_plus_1.sub(&b), a.add_constant(1));
    assert_eq!(a_plus_b_plus_1.sub(&a.add(&b)), constant(1));
}

#[test]
pub fn polynomial_eval_test() {
    let a: Polynomial = variable(A);
    let b: Polynomial = variable(B);
    let c: Polynomial = variable(C);
    let d: Polynomial = variable(D);

    let mut values = HashMap::<u16, i64>::new();
    values.insert(A, 3);
    values.insert(B, 7);
    values.insert(C, 5);

    // a + b + 1
    let a_plus_b_plus_1 = a.add(&b).add_constant(1);
    assert_eq!(a_plus_b_plus_1.eval(&values), Ok(11));

    // ab + a^2 + 1
    let ab_plus_a_square_plus_one = a.mul(&b).add(&a.mul(&a)).add_constant(1);
    assert_eq!(ab_plus_a_square_plus_one.eval(&values), Ok(31));

    // a + b + c + 1
    let a_plus_b_plus_c_plus_1 = a.add(&b).add(&c).add_constant(1);
    assert_eq!(a_plus_b_plus_c_plus_1.eval(&values), Ok(16));

    // ab + bc + cd
    let ab_plus_bc_plus_cd = a.mul(&b).mul(&b).add(&c).add(&c).add(&d);
    assert_eq!(ab_plus_bc_plus_cd.eval(&values), Err(EvalError::MissingIdentifier(D)));

    // a^3 + 2a^2b + a^2c + a^2 + a b^2 + abc + ab + a + b + c + 1 =
    let product = ab_plus_a_square_plus_one.mul(&a_plus_b_plus_c_plus_1);
    assert_eq!(product.eval(&values), Ok(496));

    assert_eq!(floor(&product, &constant(3)).eval(&values), Ok(165));
    assert_eq!(ceil(&product, &constant(3)).eval(&values), Ok(166));

    assert_eq!(floor(&product, &constant(16)).eval(&values), Ok(31));
    assert_eq!(ceil(&product, &constant(16)).eval(&values), Ok(31));

    assert_eq!(floor(&product, &a).eval(&values), Ok(165));
    assert_eq!(ceil(&product, &a).eval(&values), Ok(166));

    assert_eq!(floor(&product, &b).eval(&values), Ok(70));
    assert_eq!(ceil(&product, &b).eval(&values), Ok(71));

    assert_eq!(floor(&product, &c).eval(&values), Ok(99));
    assert_eq!(ceil(&product, &c).eval(&values), Ok(100));

    assert_eq!(max(&product, &ab_plus_a_square_plus_one).eval(&values), Ok(496));
    assert_eq!(min(&product, &ab_plus_a_square_plus_one).eval(&values), Ok(31));

    assert_eq!(max(&product.neg(), &ab_plus_a_square_plus_one).eval(&values), Ok(31));
    assert_eq!(min(&product.neg(), &ab_plus_a_square_plus_one).eval(&values), Ok(-496));

    // Making a + b + 1 = 0
    values.clear();
    values.insert(A, 3);
    values.insert(B, -4);
    values.insert(C, 5);
    assert_eq!(
        floor(&product, &a_plus_b_plus_1).eval(&values),
        Err(EvalError::DivisionByZero)
    );
    assert_eq!(ceil(&product, &a_plus_b_plus_1).eval(&values), Err(EvalError::DivisionByZero));
}
