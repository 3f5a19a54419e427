//! Rendering of expressions as source text, with every operator written
//! out.
use vstd::prelude::*;
use vstd::string::StringExecFns;
use crate::model::{CompositeView, MonomialView, PolynomialView, Shape};
use crate::primitives::{Composite, Monomial, Polynomial};

verus! {

/// The text of one decimal digit.
pub open spec fn digit(d: nat) -> Seq<char> {
    if d == 0 {
        "0"@
    } else if d == 1 {
        "1"@
    } else if d == 2 {
        "2"@
    } else if d == 3 {
        "3"@
    } else if d == 4 {
        "4"@
    } else if d == 5 {
        "5"@
    } else if d == 6 {
        "6"@
    } else if d == 7 {
        "7"@
    } else if d == 8 {
        "8"@
    } else {
        "9"@
    }
}

/// The decimal text of a natural number, without leading zeros.
pub open spec fn decimal(n: nat) -> Seq<char>
    decreases n,
{
    if n < 10 {
        digit(n)
    } else {
        decimal(n / 10) + digit(n % 10)
    }
}

/// Whether `format` can give the text `s` for the identifier `id`.
pub open spec fn renders<F: Fn(u16) -> String>(format: &F, id: u16, s: Seq<char>) -> bool {
    exists|r: String| #[trigger] call_ensures(format, (id,), r) && r@ == s
}

/// The text that `format` gives for the identifier `id`.
pub open spec fn rendered<F: Fn(u16) -> String>(format: &F, id: u16) -> Seq<char> {
    choose|s: Seq<char>| renders(format, id, s)
}

/// `format` accepts every identifier and names each of them in one way
/// only.
pub open spec fn names_identifiers<F: Fn(u16) -> String>(format: &F) -> bool {
    &&& forall|id: u16| call_requires(format, (id,))
    &&& forall|id: u16, a: String, b: String|
        #![trigger call_ensures(format, (id,), a), call_ensures(format, (id,), b)]
        call_ensures(format, (id,), a) && call_ensures(format, (id,), b) ==> a@ == b@
}

/// The text of a factor raised to a power, written out: the factor,
/// `power` times with ` * ` in between.
pub open spec fn product_code(code: Seq<char>, power: nat) -> Seq<char>
    decreases power,
{
    if power == 0 {
        Seq::empty()
    } else if power == 1 {
        code
    } else {
        product_code(code, (power - 1) as nat) + " * "@ + code
    }
}

/// The text of a factor raised to a power: written out as a product, or,
/// in the compact form, the factor with `^` and the power behind it.
pub open spec fn power_code(code: Seq<char>, power: nat, compact: bool) -> Seq<char> {
    if !compact {
        product_code(code, power)
    } else if power == 0 {
        Seq::empty()
    } else if power == 1 {
        code
    } else {
        code + "^"@ + decimal(power)
    }
}

/// The text in front of the factors of a monomial: nothing for the
/// coefficient 1, the sign for -1, else the sign and the absolute value.
pub open spec fn coefficient_code(c: int) -> Seq<char> {
    if c == -1 {
        "- "@
    } else if c < 0 {
        "- "@ + decimal((-c) as nat)
    } else if c != 1 {
        decimal(c as nat)
    } else {
        Seq::empty()
    }
}

/// The name of the operation of a binary factor, with the bracket that
/// opens its operands.
pub open spec fn operation_code(c: CompositeView) -> Seq<char> {
    match c {
        CompositeView::Variable(_) => Seq::empty(),
        CompositeView::Floor(_, _) => "floor("@,
        CompositeView::Ceil(_, _) => "ceil("@,
        CompositeView::Min(_, _) => "min("@,
        CompositeView::Max(_, _) => "max("@,
    }
}

/// The text of a factor: the name of an identifier, or the operation with
/// the texts of its two operands.
pub open spec fn composite_code(
    c: CompositeView,
    names: spec_fn(u16) -> Seq<char>,
    compact: bool,
) -> Seq<char>
    decreases c, 0nat, 0nat,
{
    match c {
        CompositeView::Variable(id) => names(id),
        CompositeView::Floor(l, r)
        | CompositeView::Ceil(l, r)
        | CompositeView::Min(l, r)
        | CompositeView::Max(l, r) => operation_code(c) + polynomial_code(l, names, compact)
            + ", "@ + polynomial_code(r, names, compact) + ")"@,
    }
}

/// What stands in front of the factor at index `i`: ` * ` in front of
/// every factor but the first, and in front of the first too where a
/// coefficient is written before it (`bare` is false); nothing in the
/// compact form.
pub open spec fn separator(i: int, bare: bool, compact: bool) -> Seq<char> {
    if !compact && (i > 0 || !bare) {
        " * "@
    } else {
        Seq::empty()
    }
}

/// The text of the factors of a monomial from index `i` on.
pub open spec fn powers_code_from(
    s: Shape,
    names: spec_fn(u16) -> Seq<char>,
    i: int,
    bare: bool,
    compact: bool,
) -> Seq<char>
    decreases s, s.len() - i, 0nat,
{
    if i < 0 || i >= s.len() {
        Seq::empty()
    } else {
        separator(i, bare, compact) + power_code(
            composite_code(s[i].0, names, compact),
            s[i].1,
            compact,
        ) + powers_code_from(s, names, i + 1, bare, compact)
    }
}

/// The text of a monomial.
pub open spec fn monomial_code(
    m: MonomialView,
    names: spec_fn(u16) -> Seq<char>,
    compact: bool,
) -> Seq<char>
    decreases m, 0nat, 1nat,
{
    if m.coefficient == 0 {
        "0"@
    } else if m.coefficient == 1 && m.powers.len() == 0 {
        "1"@
    } else if m.coefficient == -1 && m.powers.len() == 0 {
        "- 1"@
    } else {
        coefficient_code(m.coefficient) + powers_code_from(
            m.powers,
            names,
            0,
            m.coefficient == 1 || m.coefficient == -1,
            compact,
        )
    }
}

/// The text of the terms of a polynomial from index `i` on, each after
/// ` + ` where its coefficient is positive and after a blank where it is
/// not.
pub open spec fn terms_code_from(
    p: PolynomialView,
    names: spec_fn(u16) -> Seq<char>,
    i: int,
    compact: bool,
) -> Seq<char>
    decreases p, p.len() - i, 0nat,
{
    if i < 0 || i >= p.len() {
        Seq::empty()
    } else {
        (if p[i].coefficient > 0 {
            " + "@
        } else {
            " "@
        }) + monomial_code(p[i], names, compact) + terms_code_from(p, names, i + 1, compact)
    }
}

/// The text of a polynomial: `0` for the zero polynomial, else its terms
/// from the leading term on.
pub open spec fn polynomial_code(
    p: PolynomialView,
    names: spec_fn(u16) -> Seq<char>,
    compact: bool,
) -> Seq<char>
    decreases p, p.len() + 1, 0nat,
{
    if p.len() == 0 {
        "0"@
    } else {
        monomial_code(p[0], names, compact) + terms_code_from(p, names, 1, compact)
    }
}

/// The text of one decimal digit.
fn digit_text(d: u64) -> (r: &'static str)
    requires
        d < 10,
    ensures
        r@ == digit(d as nat),
{
    if d == 0 {
        "0"
    } else if d == 1 {
        "1"
    } else if d == 2 {
        "2"
    } else if d == 3 {
        "3"
    } else if d == 4 {
        "4"
    } else if d == 5 {
        "5"
    } else if d == 6 {
        "6"
    } else if d == 7 {
        "7"
    } else if d == 8 {
        "8"
    } else {
        "9"
    }
}

/// The decimal text of a natural number.
pub fn decimal_text(n: u64) -> (r: String)
    ensures
        r@ == decimal(n as nat),
    decreases n,
{
    if n < 10 {
        String::from_str(digit_text(n))
    } else {
        let mut r = decimal_text(n / 10);
        r.append(digit_text(n % 10));
        r
    }
}

/// The text in front of the factors of a monomial.
fn coefficient_text(c: i64) -> (r: String)
    ensures
        r@ == coefficient_code(c as int),
{
    if c == -1 {
        String::from_str("- ")
    } else if c < 0 {
        let magnitude: u64 = if c == i64::MIN {
            9223372036854775808u64
        } else {
            (-c) as u64
        };
        let mut r = String::from_str("- ");
        let digits = decimal_text(magnitude);
        r.append(digits.as_str());
        r
    } else if c != 1 {
        decimal_text(c as u64)
    } else {
        String::new()
    }
}

/// The text of an identifier in the compact form: its number.
pub open spec fn number_name(id: u16) -> Seq<char> {
    decimal(id as nat)
}

/// `format` accepts every identifier and gives each the text that `names`
/// gives it.
pub open spec fn names_by<F: Fn(u16) -> String>(format: &F, names: spec_fn(u16) -> Seq<char>) -> bool {
    &&& forall|id: u16| call_requires(format, (id,))
    &&& forall|id: u16, r: String| #[trigger] call_ensures(format, (id,), r) ==> r@ == names(id)
}

/// A function that names each identifier in one way only gives it the text
/// that `rendered` speaks of.
proof fn lemma_rendered<F: Fn(u16) -> String>(format: &F)
    requires
        names_identifiers(format),
    ensures
        names_by(format, |id: u16| rendered(format, id)),
{
    assert forall|id: u16, r: String| #[trigger] call_ensures(format, (id,), r) implies r@
        == rendered(format, id) by {
        assert(renders(format, id, r@));
        let chosen = rendered(format, id);
        assert(renders(format, id, chosen));
        let x = choose|x: String| #[trigger] call_ensures(format, (id,), x) && x@ == chosen;
        assert(x@ == r@);
    }
}

/// The text of a factor raised to a power.
fn power_text(code: &String, power: u8, compact: bool) -> (r: String)
    ensures
        r@ == power_code(code@, power as nat, compact),
{
    let mut r = String::new();
    if compact {
        if power == 1 {
            r.append(code.as_str());
            assert(r@ =~= code@);
        } else if power != 0 {
            r.append(code.as_str());
            r.append("^");
            let digits = decimal_text(power as u64);
            r.append(digits.as_str());
            assert(r@ =~= code@ + "^"@ + decimal(power as nat));
        }
    } else {
        let mut k: u8 = 0;
        while k < power
            invariant
                0 <= k <= power,
                r@ == product_code(code@, k as nat),
            decreases power - k,
        {
            if k > 0 {
                r.append(" * ");
            }
            r.append(code.as_str());
            k += 1;
            proof {
                if k > 1 {
                    assert(r@ =~= product_code(code@, (k - 1) as nat) + " * "@ + code@);
                } else {
                    assert(r@ =~= code@);
                }
            }
        }
    }
    r
}

impl Composite {
    /// The text of the factor, written out or compact.
    fn render<F: Fn(u16) -> String>(
        &self,
        format: &F,
        compact: bool,
        Ghost(names): Ghost<spec_fn(u16) -> Seq<char>>,
    ) -> (r: String)
        requires
            names_by(format, names),
        ensures
            r@ == composite_code(self@, names, compact),
        decreases self,
    {
        match self {
            Composite::Variable(id) => format(*id),
            Composite::Floor(x, y)
            | Composite::Ceil(x, y)
            | Composite::Min(x, y)
            | Composite::Max(x, y) => {
                let name: &str = match self {
                    Composite::Floor(_, _) => "floor(",
                    Composite::Ceil(_, _) => "ceil(",
                    Composite::Min(_, _) => "min(",
                    _ => "max(",
                };
                let mut r = String::from_str(name);
                let left = x.render(format, compact, Ghost(names));
                let right = y.render(format, compact, Ghost(names));
                r.append(left.as_str());
                r.append(", ");
                r.append(right.as_str());
                r.append(")");
                r
            },
        }
    }

    /// Returns a code equivalent string representation of the factor. The
    /// `format` specifies how to render the identifiers.
    pub fn to_code<F: Fn(u16) -> String>(&self, format: &F) -> (r: String)
        requires
            names_identifiers(format),
        ensures
            r@ == composite_code(self@, |id: u16| rendered(format, id), false),
    {
        proof {
            lemma_rendered(format);
        }
        self.render(format, false, Ghost(|id: u16| rendered(format, id)))
    }

    /// The compact text of the factor: identifiers as numbers, powers
    /// with `^`.
    pub fn to_string(&self) -> (r: String)
        ensures
            r@ == composite_code(self@, |id: u16| number_name(id), true),
    {
        self.render(&number_text, true, Ghost(|id: u16| number_name(id)))
    }
}

impl Monomial {
    /// The text of the monomial, written out or compact.
    fn render<F: Fn(u16) -> String>(
        &self,
        format: &F,
        compact: bool,
        Ghost(names): Ghost<spec_fn(u16) -> Seq<char>>,
    ) -> (r: String)
        requires
            names_by(format, names),
        ensures
            r@ == monomial_code(self@, names, compact),
        decreases self,
    {
        if self.coefficient == 0 {
            return String::from_str("0");
        }
        if self.coefficient == 1 && self.powers.len() == 0 {
            return String::from_str("1");
        }
        if self.coefficient == -1 && self.powers.len() == 0 {
            return String::from_str("- 1");
        }
        let bare: bool = self.coefficient == 1 || self.coefficient == -1;
        let mut r = coefficient_text(self.coefficient);
        let mut i: usize = 0;
        while i < self.powers.len()
            invariant
                0 <= i <= self.powers.len(),
                names_by(format, names),
                r@ + powers_code_from(self@.powers, names, i as int, bare, compact)
                    == coefficient_code(self@.coefficient) + powers_code_from(
                    self@.powers,
                    names,
                    0,
                    bare,
                    compact,
                ),
            decreases self.powers.len() - i,
        {
            let ghost before = r@;
            let ghost rest = powers_code_from(self@.powers, names, i as int + 1, bare, compact);
            let sep: &str = if !compact && (i > 0 || !bare) {
                " * "
            } else {
                ""
            };
            proof {
                reveal_strlit("");
                assert(sep@ =~= separator(i as int, bare, compact));
            }
            let code = self.powers[i].0.render(format, compact, Ghost(names));
            let piece = power_text(&code, self.powers[i].1, compact);
            r.append(sep);
            r.append(piece.as_str());
            proof {
                assert(r@ + rest =~= before + (sep@ + piece@ + rest));
            }
            i += 1;
        }
        assert(r@ =~= r@ + Seq::<char>::empty());
        r
    }

    /// Returns a code equivalent string representation of the monomial.
    /// The `format` specifies how to render the identifiers.
    pub fn to_code<F: Fn(u16) -> String>(&self, format: &F) -> (r: String)
        requires
            names_identifiers(format),
        ensures
            r@ == monomial_code(self@, |id: u16| rendered(format, id), false),
    {
        proof {
            lemma_rendered(format);
        }
        self.render(format, false, Ghost(|id: u16| rendered(format, id)))
    }

    /// The compact text of the monomial: identifiers as numbers, powers
    /// with `^`.
    pub fn to_string(&self) -> (r: String)
        ensures
            r@ == monomial_code(self@, |id: u16| number_name(id), true),
    {
        self.render(&number_text, true, Ghost(|id: u16| number_name(id)))
    }
}

impl Polynomial {
    /// The text of the polynomial, written out or compact.
    fn render<F: Fn(u16) -> String>(
        &self,
        format: &F,
        compact: bool,
        Ghost(names): Ghost<spec_fn(u16) -> Seq<char>>,
    ) -> (r: String)
        requires
            names_by(format, names),
        ensures
            r@ == polynomial_code(self@, names, compact),
        decreases self,
    {
        if self.monomials.len() == 0 {
            return String::from_str("0");
        }
        let mut r = self.monomials[0].render(format, compact, Ghost(names));
        let mut i: usize = 1;
        while i < self.monomials.len()
            invariant
                1 <= i <= self.monomials.len(),
                names_by(format, names),
                r@ + terms_code_from(self@, names, i as int, compact) == polynomial_code(
                    self@,
                    names,
                    compact,
                ),
            decreases self.monomials.len() - i,
        {
            let ghost before = r@;
            let ghost rest = terms_code_from(self@, names, i as int + 1, compact);
            let sep: &str = if self.monomials[i].coefficient > 0 {
                " + "
            } else {
                " "
            };
            let term = self.monomials[i].render(format, compact, Ghost(names));
            r.append(sep);
            r.append(term.as_str());
            proof {
                assert(r@ + rest =~= before + (sep@ + term@ + rest));
            }
            i += 1;
        }
        assert(r@ =~= r@ + Seq::<char>::empty());
        r
    }

    /// Returns a code equivalent string representation of the polynomial.
    /// The `format` specifies how to render the identifiers.
    pub fn to_code<F: Fn(u16) -> String>(&self, format: &F) -> (r: String)
        requires
            names_identifiers(format),
        ensures
            r@ == polynomial_code(self@, |id: u16| rendered(format, id), false),
    {
        proof {
            lemma_rendered(format);
        }
        self.render(format, false, Ghost(|id: u16| rendered(format, id)))
    }

    /// The compact text of the polynomial: identifiers as numbers, powers
    /// with `^`.
    pub fn to_string(&self) -> (r: String)
        ensures
            r@ == polynomial_code(self@, |id: u16| number_name(id), true),
    {
        self.render(&number_text, true, Ghost(|id: u16| number_name(id)))
    }
}

/// The text of an identifier in the compact form: its number.
fn number_text(id: u16) -> (r: String)
    ensures
        r@ == number_name(id),
{
    decimal_text(id as u64)
}

} // verus!
