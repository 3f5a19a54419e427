//! Integer operations that the `num` crate computes, and the facts about
//! integer division that the library rests on.
use vstd::arithmetic::power::pow;
use vstd::math::abs;
use vstd::prelude::*;

verus! {

/// Whether an integer fits the coefficient type.
pub open spec fn fits_i64(x: int) -> bool {
    i64::MIN <= x <= i64::MAX
}

/// `num::Integer::div_rem` on `i64`: the quotient rounded toward zero and
/// the remainder that goes with it, which is zero or has the sign of the
/// dividend. The crate computes `(a / b, a % b)`, which fails for a zero
/// divisor and for `i64::MIN / -1`.
#[verifier::external_body]
pub(crate) fn div_rem(a: i64, b: i64) -> (r: (i64, i64))
    requires
        b != 0,
        !(a == i64::MIN && b == -1),
    ensures
        r.0 * b + r.1 == a,
        -abs(b as int) < r.1 < abs(b as int),
        r.1 == 0 || (r.1 < 0 <==> a < 0),
{
    num::Integer::div_rem(&a, &b)
}

/// `num::checked_pow` on `i64`: `base` raised to `exp` by repeated squaring
/// with checked multiplications. Every intermediate product is a power of
/// `base` with an exponent of at most `exp`, so the result is the power where
/// it fits the type and `None` where it does not.
#[verifier::external_body]
pub(crate) fn checked_pow(base: i64, exp: usize) -> (r: Option<i64>)
    ensures
        r == if fits_i64(pow(base as int, exp as nat)) {
            Some(pow(base as int, exp as nat) as i64)
        } else {
            None::<i64>
        },
{
    num::checked_pow(base, exp)
}

/// The exact quotient of two integers, where the second is not zero and
/// divides the first.
pub open spec fn exact_div(a: int, b: int) -> Option<int> {
    if b != 0 && a % b == 0 {
        Some(a / b)
    } else {
        None
    }
}

/// The quotient rounded toward negative infinity.
pub open spec fn floor_div(a: int, b: int) -> int
    recommends
        b != 0,
{
    if b > 0 {
        a / b
    } else {
        (-a) / (-b)
    }
}

/// The quotient rounded toward positive infinity.
pub open spec fn ceil_div(a: int, b: int) -> int
    recommends
        b != 0,
{
    -floor_div(-a, b)
}

/// A quotient and a remainder smaller than the divisor determine whether the
/// division is exact, and the exact quotient where it is.
pub proof fn lemma_exact_div(a: int, b: int, q: int, r: int)
    requires
        b != 0,
        q * b + r == a,
        -abs(b) < r < abs(b),
    ensures
        r == 0 ==> exact_div(a, b) == Some(q),
        r != 0 ==> exact_div(a, b) is None,
{
    let k = a / b;
    let m = a % b;
    assert(a == b * k + m && 0 <= m < abs(b)) by {
        if b > 0 {
            vstd::arithmetic::div_mod::lemma_fundamental_div_mod(a, b);
            vstd::arithmetic::div_mod::lemma_mod_bound(a, b);
        } else {
            lemma_euclid_negative(a, b);
        }
    }
    // (q - k) * b == m - r, and |m - r| < 2|b|... decide by cases on q - k
    let d = q - k;
    assert(d * b == m - r) by (nonlinear_arith)
        requires
            q * b + r == a,
            a == b * k + m,
            d == q - k,
    ;
    if r == 0 {
        assert(d == 0) by (nonlinear_arith)
            requires
                d * b == m,
                0 <= m < abs(b),
                b != 0,
        ;
        assert(m == 0);
    } else {
        if m == 0 {
            assert(false) by (nonlinear_arith)
                requires
                    d * b == -r,
                    r != 0,
                    -abs(b) < r < abs(b),
                    b != 0,
            ;
        }
    }
}

/// Euclidean division by a negative divisor: the remainder is not negative
/// and smaller than the divisor's absolute value.
pub proof fn lemma_euclid_negative(a: int, b: int)
    requires
        b < 0,
    ensures
        a == b * (a / b) + a % b,
        0 <= a % b < -b,
{
    assert(a == b * (a / b) + a % b && 0 <= a % b < -b) by (nonlinear_arith)
        requires
            b < 0,
    ;
}

/// An integer between whose multiple of `b` and the next one `a` lies is
/// the quotient of `a` by `b` rounded toward negative infinity.
pub proof fn lemma_floor_div(a: int, b: int, f: int)
    requires
        b != 0,
        b > 0 ==> f * b <= a < f * b + b,
        b < 0 ==> f * b >= a > f * b + b,
    ensures
        floor_div(a, b) == f,
{
    if b > 0 {
        vstd::arithmetic::div_mod::lemma_fundamental_div_mod_converse(a, b, f, a - f * b);
    } else {
        assert(f * (-b) == -(f * b)) by (nonlinear_arith);
        vstd::arithmetic::div_mod::lemma_fundamental_div_mod_converse(-a, -b, f, f * b - a);
    }
}

/// An integer between whose multiple of `b` and the previous one `a` lies
/// is the quotient of `a` by `b` rounded toward positive infinity.
pub proof fn lemma_ceil_div(a: int, b: int, c: int)
    requires
        b != 0,
        b > 0 ==> c * b - b < a <= c * b,
        b < 0 ==> c * b - b > a >= c * b,
    ensures
        ceil_div(a, b) == c,
{
    assert((-c) * b == -(c * b)) by (nonlinear_arith);
    lemma_floor_div(-a, b, -c);
}

/// The quotient rounded toward negative infinity, where it fits the
/// coefficient type.
pub fn checked_floor_div(a: i64, b: i64) -> (r: Option<i64>)
    requires
        b != 0,
    ensures
        r == if fits_i64(floor_div(a as int, b as int)) {
            Some(floor_div(a as int, b as int) as i64)
        } else {
            None::<i64>
        },
{
    if a == i64::MIN && b == -1 {
        proof {
            lemma_floor_div(a as int, b as int, -(a as int));
        }
        return None;
    }
    let (q, rem) = div_rem(a, b);
    if (rem > 0 && b < 0) || (rem < 0 && b > 0) {
        proof {
            assert((q - 1) * b == q * b - b) by (nonlinear_arith);
            lemma_floor_div(a as int, b as int, q - 1);
        }
        if q == i64::MIN {
            None
        } else {
            Some(q - 1)
        }
    } else {
        proof {
            lemma_floor_div(a as int, b as int, q as int);
        }
        Some(q)
    }
}

/// The quotient rounded toward positive infinity, where it fits the
/// coefficient type.
pub fn checked_ceil_div(a: i64, b: i64) -> (r: Option<i64>)
    requires
        b != 0,
    ensures
        r == if fits_i64(ceil_div(a as int, b as int)) {
            Some(ceil_div(a as int, b as int) as i64)
        } else {
            None::<i64>
        },
{
    if a == i64::MIN && b == -1 {
        proof {
            lemma_ceil_div(a as int, b as int, -(a as int));
        }
        return None;
    }
    let (q, rem) = div_rem(a, b);
    if (rem > 0 && b > 0) || (rem < 0 && b < 0) {
        proof {
            assert((q + 1) * b == q * b + b) by (nonlinear_arith);
            lemma_ceil_div(a as int, b as int, q + 1);
        }
        if q == i64::MAX {
            None
        } else {
            Some(q + 1)
        }
    } else {
        proof {
            lemma_ceil_div(a as int, b as int, q as int);
        }
        Some(q)
    }
}

} // verus!
