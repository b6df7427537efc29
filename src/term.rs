use crate::text::{decimal, push_decimal, push_digits};
use vstd::prelude::*;
use vstd::string::StringExecFns;

verus! {

/// A monomial `coefficient * x^degree`.
#[derive(Clone, Copy, Debug, PartialEq, Eq, Structural)]
pub struct Term {
    pub coefficient: i64,
    pub degree: u32,
}

/// The quotient of `a` by `b` rounded toward zero, as integer division in
/// Rust rounds.
pub open spec fn quotient(a: int, b: int) -> int {
    let q = abs(a) / abs(b);
    if (a < 0) == (b < 0) {
        q
    } else {
        -q
    }
}

/// The magnitude of `v`.
pub open spec fn abs(v: int) -> int {
    if v < 0 {
        -v
    } else {
        v
    }
}

/// Whether `v` can be held by an `i64`.
pub open spec fn fits_i64(v: int) -> bool {
    i64::MIN <= v <= i64::MAX
}

/// How a coefficient stands before `x`: nothing for 1, `-` for -1, else its
/// decimal text.
pub open spec fn coefficient_text(c: int) -> Seq<char> {
    if c == 1 {
        seq![]
    } else if c == -1 {
        seq!['-']
    } else {
        decimal(c)
    }
}

/// The text of a term: its coefficient alone at degree 0 (`1`, `-1`, `7`),
/// `x`, `-x` or `{c}x` at degree 1, and `x^{d}`, `-x^{d}` or `{c}x^{d}` at any
/// other degree.
pub open spec fn term_text(t: Term) -> Seq<char> {
    if t.degree == 0 {
        decimal(t.coefficient as int)
    } else if t.degree == 1 {
        coefficient_text(t.coefficient as int) + seq!['x']
    } else {
        coefficient_text(t.coefficient as int) + seq!['x', '^'] + decimal(t.degree as int)
    }
}

impl Term {
    /// Appends the text of the term to `s`.
    pub fn write_to(&self, s: &mut String)
        ensures
            final(s)@ == old(s)@ + term_text(*self),
    {
        let c = self.coefficient;
        if self.degree == 0 {
            push_decimal(s, c);
        } else {
            proof {
                reveal_strlit("-");
                reveal_strlit("x");
                reveal_strlit("^");
            }
            if c == 1 {
            } else if c == -1 {
                s.append("-");
            } else {
                push_decimal(s, c);
            }
            s.append("x");
            if self.degree != 1 {
                s.append("^");
                push_digits(s, self.degree as u64);
            }
            assert(s@ =~= old(s)@ + term_text(*self));
        }
    }

    /// The text of the term.
    pub fn to_string(&self) -> (r: String)
        ensures
            r@ == term_text(*self),
    {
        let mut s = String::new();
        self.write_to(&mut s);
        assert(s@ =~= term_text(*self));
        s
    }

    /// The sum of two terms of one degree; `None` when the degrees differ.
    pub fn checked_add(self, other: Term) -> (r: Option<Term>)
        requires
            self.degree == other.degree ==> fits_i64(self.coefficient + other.coefficient),
        ensures
            self.degree != other.degree ==> r is None,
            self.degree == other.degree ==> r == Some(
                Term { coefficient: (self.coefficient + other.coefficient) as i64, degree: self.degree },
            ),
    {
        if self.degree == other.degree {
            Some(Term { coefficient: self.coefficient + other.coefficient, degree: self.degree })
        } else {
            None
        }
    }

    /// The difference of two terms of one degree; `None` when the degrees differ.
    pub fn checked_sub(self, other: Term) -> (r: Option<Term>)
        requires
            self.degree == other.degree ==> fits_i64(self.coefficient - other.coefficient),
        ensures
            self.degree != other.degree ==> r is None,
            self.degree == other.degree ==> r == Some(
                Term { coefficient: (self.coefficient - other.coefficient) as i64, degree: self.degree },
            ),
    {
        if self.degree == other.degree {
            Some(Term { coefficient: self.coefficient - other.coefficient, degree: self.degree })
        } else {
            None
        }
    }
}

impl core::ops::Add for Term {
    type Output = Term;

    /// Adds two terms of one degree. Terms of different degrees cannot be
    /// added: the call stops the program.
    fn add(self, other: Term) -> (r: Term) {
        self.checked_add(other).unwrap()
    }
}

impl vstd::std_specs::ops::AddSpecImpl for Term {
    open spec fn obeys_add_spec() -> bool {
        true
    }

    open spec fn add_req(self, other: Term) -> bool {
        self.degree == other.degree && fits_i64(self.coefficient + other.coefficient)
    }

    open spec fn add_spec(self, other: Term) -> Term {
        Term { coefficient: (self.coefficient + other.coefficient) as i64, degree: self.degree }
    }
}

impl core::ops::Sub for Term {
    type Output = Term;

    /// Subtracts two terms of one degree. Terms of different degrees cannot be
    /// subtracted: the call stops the program.
    fn sub(self, other: Term) -> (r: Term) {
        self.checked_sub(other).unwrap()
    }
}

impl vstd::std_specs::ops::SubSpecImpl for Term {
    open spec fn obeys_sub_spec() -> bool {
        true
    }

    open spec fn sub_req(self, other: Term) -> bool {
        self.degree == other.degree && fits_i64(self.coefficient - other.coefficient)
    }

    open spec fn sub_spec(self, other: Term) -> Term {
        Term { coefficient: (self.coefficient - other.coefficient) as i64, degree: self.degree }
    }
}

impl core::ops::Mul for Term {
    type Output = Term;

    /// Multiplies two terms: coefficients multiply, degrees add.
    fn mul(self, other: Term) -> (r: Term) {
        Term { coefficient: self.coefficient * other.coefficient, degree: self.degree + other.degree }
    }
}

impl vstd::std_specs::ops::MulSpecImpl for Term {
    open spec fn obeys_mul_spec() -> bool {
        true
    }

    open spec fn mul_req(self, other: Term) -> bool {
        fits_i64(self.coefficient * other.coefficient) && self.degree + other.degree <= u32::MAX
    }

    open spec fn mul_spec(self, other: Term) -> Term {
        Term {
            coefficient: (self.coefficient * other.coefficient) as i64,
            degree: (self.degree + other.degree) as u32,
        }
    }
}

impl core::ops::Div for Term {
    type Output = Term;

    /// Divides two terms: coefficients divide (rounding toward zero), degrees
    /// subtract.
    fn div(self, other: Term) -> (r: Term) {
        let a = self.coefficient as i128;
        let b = other.coefficient as i128;
        let ma: i128 = if a < 0 { -a } else { a };
        let mb: i128 = if b < 0 { -b } else { b };
        let q: i128 = ma / mb;
        assert(q <= ma && (mb > 1 && ma > 0 ==> q < ma)) by (nonlinear_arith)
            requires ma >= 0, mb >= 1, q == ma / mb;
        let c: i128 = if (a < 0) == (b < 0) { q } else { -q };
        Term { coefficient: c as i64, degree: self.degree - other.degree }
    }
}

impl vstd::std_specs::ops::DivSpecImpl for Term {
    open spec fn obeys_div_spec() -> bool {
        true
    }

    open spec fn div_req(self, other: Term) -> bool {
        other.coefficient != 0 && !(self.coefficient == i64::MIN && other.coefficient == -1)
            && self.degree >= other.degree
    }

    open spec fn div_spec(self, other: Term) -> Term {
        Term {
            coefficient: quotient(self.coefficient as int, other.coefficient as int) as i64,
            degree: (self.degree - other.degree) as u32,
        }
    }
}

} // verus!
