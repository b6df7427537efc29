use crate::term::{fits_i64, term_text, Term};
use vstd::arithmetic::power::pow;
use vstd::prelude::*;
use vstd::string::StringExecFns;

verus! {

/// A polynomial in one variable, held as a list of terms. The list may hold
/// several terms of one degree, in any order, until it is normalized.
#[derive(Clone, Debug)]
pub struct Polynomial {
    pub terms: Vec<Term>,
}

/// The terms of `s` whose degree is `d`, in their order in `s`.
pub open spec fn of_degree(s: Seq<Term>, d: u32) -> Seq<Term>
    decreases s.len(),
{
    if s.len() == 0 {
        seq![]
    } else if s.last().degree == d {
        of_degree(s.drop_last(), d).push(s.last())
    } else {
        of_degree(s.drop_last(), d)
    }
}

/// The sum of the coefficients of the terms of `s`.
pub open spec fn sum_coefficients(s: Seq<Term>) -> int
    decreases s.len(),
{
    if s.len() == 0 {
        0
    } else {
        sum_coefficients(s.drop_last()) + s.last().coefficient
    }
}

/// The coefficient of `x^d` in the polynomial that `s` stands for.
pub open spec fn coef_at(s: Seq<Term>, d: u32) -> int {
    sum_coefficients(of_degree(s, d))
}

/// Whether `s` holds a term of degree `d` (of any coefficient, zero included).
pub open spec fn has_degree(s: Seq<Term>, d: u32) -> bool {
    of_degree(s, d).len() > 0
}

/// No two terms of `s` have the same degree.
pub open spec fn degrees_unique(s: Seq<Term>) -> bool {
    forall|i: int, j: int| 0 <= i < j < s.len() ==> s[i].degree != s[j].degree
}

/// The degrees of `s` do not increase along the list.
pub open spec fn descending(s: Seq<Term>) -> bool {
    forall|i: int, j: int| 0 <= i < j < s.len() ==> s[i].degree >= s[j].degree
}

/// The degrees of `s` strictly decrease along the list.
pub open spec fn strictly_descending(s: Seq<Term>) -> bool {
    forall|i: int, j: int| 0 <= i < j < s.len() ==> s[i].degree > s[j].degree
}

/// The degrees of `s`, each once, in the order in which they first occur.
pub open spec fn distinct_degrees(s: Seq<Term>) -> Seq<u32>
    decreases s.len(),
{
    if s.len() == 0 {
        seq![]
    } else {
        let p = distinct_degrees(s.drop_last());
        if p.contains(s.last().degree) {
            p
        } else {
            p.push(s.last().degree)
        }
    }
}

/// Summing the coefficients of `s` degree by degree, in list order, never
/// leaves the range of `i64`.
pub open spec fn sums_fit(s: Seq<Term>) -> bool {
    forall|k: int, d: u32|
        0 <= k <= s.len() ==> #[trigger] fits_i64(coef_at(s.take(k), d))
}

/// `r` is the normal form of `s`: one term for each degree that `s` holds,
/// with the summed coefficient (zero included), by strictly descending degree.
pub open spec fn is_normal_form_of(r: Seq<Term>, s: Seq<Term>) -> bool {
    &&& strictly_descending(r)
    &&& forall|d: u32| #[trigger] has_degree(r, d) == has_degree(s, d)
    &&& forall|d: u32| #[trigger] coef_at(r, d) == coef_at(s, d)
}

proof fn lemma_of_degree_append(a: Seq<Term>, b: Seq<Term>, d: u32)
    ensures
        of_degree(a + b, d) == of_degree(a, d) + of_degree(b, d),
    decreases b.len(),
{
    if b.len() == 0 {
        assert(a + b =~= a);
        assert(of_degree(a, d) + of_degree(b, d) =~= of_degree(a, d));
    } else {
        assert((a + b).drop_last() =~= a + b.drop_last());
        lemma_of_degree_append(a, b.drop_last(), d);
        if b.last().degree == d {
            assert(of_degree(a, d) + of_degree(b, d) =~= (of_degree(a, d) + of_degree(
                b.drop_last(),
                d,
            )).push(b.last()));
        }
    }
}

proof fn lemma_of_degree_absent(s: Seq<Term>, d: u32)
    requires
        forall|i: int| 0 <= i < s.len() ==> s[i].degree != d,
    ensures
        of_degree(s, d) == Seq::<Term>::empty(),
    decreases s.len(),
{
    if s.len() > 0 {
        lemma_of_degree_absent(s.drop_last(), d);
    }
}

proof fn lemma_of_degree_present(s: Seq<Term>, i: int)
    requires
        0 <= i < s.len(),
    ensures
        has_degree(s, s[i].degree),
    decreases s.len(),
{
    if i < s.len() - 1 {
        lemma_of_degree_present(s.drop_last(), i);
    }
}

/// In a list of distinct degrees each degree picks out its one term.
proof fn lemma_of_degree_unique(s: Seq<Term>, d: u32)
    requires
        degrees_unique(s),
    ensures
        forall|j: int| 0 <= j < s.len() && s[j].degree == d ==> of_degree(s, d) == seq![s[j]],
        (forall|j: int| 0 <= j < s.len() ==> s[j].degree != d) ==> of_degree(s, d) == Seq::<
            Term,
        >::empty(),
    decreases s.len(),
{
    if s.len() > 0 {
        let q = s.drop_last();
        lemma_of_degree_unique(q, d);
        if s.last().degree == d {
            lemma_of_degree_absent(q, d);
            assert(Seq::<Term>::empty().push(s.last()) =~= seq![s.last()]);
        } else {
            assert forall|j: int| 0 <= j < s.len() && s[j].degree == d implies of_degree(s, d)
                == seq![s[j]] by {
                assert(q[j] == s[j]);
            }
            assert((forall|j: int| 0 <= j < s.len() ==> s[j].degree != d) ==> (forall|j: int|
                0 <= j < q.len() ==> q[j].degree != d));
        }
    }
}

proof fn lemma_of_degree_single(t: Term, d: u32)
    ensures
        of_degree(seq![t], d) == (if t.degree == d {
            seq![t]
        } else {
            Seq::<Term>::empty()
        }),
{
    assert(seq![t].drop_last() =~= Seq::<Term>::empty());
    assert(of_degree(Seq::<Term>::empty(), d) == Seq::<Term>::empty());
    assert(seq![t].last() == t);
    assert(Seq::<Term>::empty().push(t) =~= seq![t]);
}

/// Two terms of one degree make at least two entries of that degree.
proof fn lemma_of_degree_twice(s: Seq<Term>, i: int, j: int)
    requires
        0 <= i < j < s.len(),
        s[i].degree == s[j].degree,
    ensures
        of_degree(s, s[i].degree).len() >= 2,
    decreases s.len(),
{
    if j < s.len() - 1 {
        lemma_of_degree_twice(s.drop_last(), i, j);
    } else {
        lemma_of_degree_present(s.drop_last(), i);
    }
}

proof fn lemma_distinct_degrees(s: Seq<Term>)
    ensures
        distinct_degrees(s).no_duplicates(),
        forall|d: u32| #[trigger] distinct_degrees(s).contains(d) == has_degree(s, d),
    decreases s.len(),
{
    if s.len() > 0 {
        let q = s.drop_last();
        let p = distinct_degrees(q);
        lemma_distinct_degrees(q);
        assert forall|d: u32| #[trigger] distinct_degrees(s).contains(d) == has_degree(s, d) by {
            if !p.contains(s.last().degree) {
                assert(p.push(s.last().degree).contains(d) == (p.contains(d) || d
                    == s.last().degree)) by {
                    if d == s.last().degree {
                        assert(p.push(s.last().degree)[p.len() as int] == d);
                    }
                    if p.contains(d) {
                        let k = choose|k: int| 0 <= k < p.len() && p[k] == d;
                        assert(p.push(s.last().degree)[k] == d);
                    }
                    if p.push(s.last().degree).contains(d) {
                        let k = choose|k: int|
                            0 <= k < p.len() + 1 && p.push(s.last().degree)[k] == d;
                        if k < p.len() {
                            assert(p[k] == d);
                        }
                    }
                }
            }
        }
        if !p.contains(s.last().degree) {
            let r = p.push(s.last().degree);
            assert forall|i: int, j: int| 0 <= i < r.len() && 0 <= j < r.len() && i != j implies r[i]
                != r[j] by {
                if i == p.len() {
                    assert(p.contains(r[j]));
                } else if j == p.len() {
                    assert(p.contains(r[i]));
                }
            }
        }
    }
}

proof fn lemma_sum_append(a: Seq<Term>, b: Seq<Term>)
    ensures
        sum_coefficients(a + b) == sum_coefficients(a) + sum_coefficients(b),
    decreases b.len(),
{
    if b.len() == 0 {
        assert(a + b =~= a);
    } else {
        assert((a + b).drop_last() =~= a + b.drop_last());
        lemma_sum_append(a, b.drop_last());
    }
}

/// Joining two lists of terms adds the polynomials they stand for.
proof fn lemma_concat(a: Seq<Term>, b: Seq<Term>, d: u32)
    ensures
        has_degree(a + b, d) == (has_degree(a, d) || has_degree(b, d)),
        coef_at(a + b, d) == coef_at(a, d) + coef_at(b, d),
{
    lemma_of_degree_append(a, b, d);
    lemma_sum_append(of_degree(a, d), of_degree(b, d));
}

/// A term of degree `d`, when `s` holds one.
proof fn lemma_of_degree_index(s: Seq<Term>, d: u32) -> (i: int)
    requires
        has_degree(s, d),
    ensures
        0 <= i < s.len(),
        s[i].degree == d,
{
    if forall|k: int| 0 <= k < s.len() ==> s[k].degree != d {
        lemma_of_degree_absent(s, d);
    }
    choose|k: int| 0 <= k < s.len() && s[k].degree == d
}

/// A list of distinct degrees gives each of its terms the coefficient that
/// it stands for.
proof fn lemma_unique_coefficient(s: Seq<Term>, i: int)
    requires
        degrees_unique(s),
        0 <= i < s.len(),
    ensures
        coef_at(s, s[i].degree) == s[i].coefficient,
{
    lemma_of_degree_unique(s, s[i].degree);
    assert(seq![s[i]].drop_last() =~= Seq::<Term>::empty());
    assert(sum_coefficients(Seq::<Term>::empty()) == 0);
}

/// The normal form of a list of terms is determined by the coefficient and
/// the presence of each degree.
proof fn lemma_normal_form_unique(r1: Seq<Term>, r2: Seq<Term>)
    requires
        strictly_descending(r1),
        strictly_descending(r2),
        forall|d: u32| #[trigger] has_degree(r1, d) == has_degree(r2, d),
        forall|d: u32| #[trigger] coef_at(r1, d) == coef_at(r2, d),
    ensures
        r1 == r2,
    decreases r1.len() + r2.len(),
{
    if r1.len() == 0 && r2.len() == 0 {
        assert(r1 =~= r2);
    } else if r1.len() == 0 {
        lemma_of_degree_present(r2, 0);
        assert(has_degree(r1, r2[0].degree));
    } else if r2.len() == 0 {
        lemma_of_degree_present(r1, 0);
        assert(has_degree(r2, r1[0].degree));
    } else {
        let (q1, q2) = (r1.drop_last(), r2.drop_last());
        let (m1, m2) = (r1.last().degree, r2.last().degree);
        lemma_of_degree_present(r1, r1.len() - 1);
        lemma_of_degree_present(r2, r2.len() - 1);
        let k2 = lemma_of_degree_index(r2, m1);
        let k1 = lemma_of_degree_index(r1, m2);
        assert(m1 == m2);
        lemma_unique_coefficient(r1, r1.len() - 1);
        lemma_unique_coefficient(r2, r2.len() - 1);
        assert forall|d: u32|
            #![trigger has_degree(q1, d)]
            #![trigger coef_at(q1, d)]
            has_degree(q1, d) == has_degree(q2, d) && coef_at(q1, d) == coef_at(q2, d) by {
            if d == m1 {
                assert forall|k: int| 0 <= k < q1.len() implies q1[k].degree != d by {
                    assert(r1[k].degree > r1[r1.len() - 1].degree);
                }
                assert forall|k: int| 0 <= k < q2.len() implies q2[k].degree != d by {
                    assert(r2[k].degree > r2[r2.len() - 1].degree);
                }
                lemma_of_degree_absent(q1, d);
                lemma_of_degree_absent(q2, d);
                assert(sum_coefficients(Seq::<Term>::empty()) == 0);
            } else {
                assert(of_degree(r1, d) == of_degree(q1, d));
                assert(of_degree(r2, d) == of_degree(q2, d));
                assert(has_degree(r1, d) == has_degree(r2, d));
                assert(coef_at(r1, d) == coef_at(r2, d));
            }
        }
        lemma_normal_form_unique(q1, q2);
        assert(r1.last() == r2.last());
        assert(r1 =~= q1.push(r1.last()));
        assert(r2 =~= q2.push(r2.last()));
    }
}

/// The terms of `s`, each with its coefficient negated.
pub open spec fn negated(s: Seq<Term>) -> Seq<Term> {
    s.map_values(|t: Term| Term { coefficient: (-t.coefficient) as i64, degree: t.degree })
}

/// Every coefficient of `s` can be negated in `i64`.
pub open spec fn negatable(s: Seq<Term>) -> bool {
    forall|i: int| 0 <= i < s.len() ==> s[i].coefficient != i64::MIN
}

proof fn lemma_negated(s: Seq<Term>, d: u32)
    requires
        negatable(s),
    ensures
        has_degree(negated(s), d) == has_degree(s, d),
        coef_at(negated(s), d) == -coef_at(s, d),
    decreases s.len(),
{
    if s.len() > 0 {
        assert(negated(s).drop_last() =~= negated(s.drop_last()));
        lemma_negated(s.drop_last(), d);
        let n = negated(s);
        if s.last().degree == d {
            assert(of_degree(n, d).drop_last() =~= of_degree(n.drop_last(), d));
            assert(of_degree(s, d).drop_last() =~= of_degree(s.drop_last(), d));
        }
    }
}

/// The product of two terms, where it fits.
pub open spec fn term_product(a: Term, b: Term) -> Term {
    Term {
        coefficient: (a.coefficient * b.coefficient) as i64,
        degree: (a.degree + b.degree) as u32,
    }
}

/// The products of `a` with each term of `s`, in the order of `s`.
pub open spec fn row(a: Term, s: Seq<Term>) -> Seq<Term> {
    s.map_values(|t: Term| term_product(a, t))
}

/// The products of every term of `a` with every term of `b`, row by row.
pub open spec fn products(a: Seq<Term>, b: Seq<Term>) -> Seq<Term>
    decreases a.len(),
{
    if a.len() == 0 {
        seq![]
    } else {
        products(a.drop_last(), b) + row(a.last(), b)
    }
}

/// Every product of a term of `a` and a term of `b` fits in a term.
pub open spec fn products_fit(a: Seq<Term>, b: Seq<Term>) -> bool {
    forall|i: int, j: int|
        0 <= i < a.len() && 0 <= j < b.len() ==> fits_i64(
            #[trigger] a[i].coefficient * #[trigger] b[j].coefficient,
        ) && a[i].degree + b[j].degree <= u32::MAX
}

/// The value of the polynomial that `s` stands for at `x`, term by term in
/// list order.
pub open spec fn value_at(s: Seq<Term>, x: int) -> int
    decreases s.len(),
{
    if s.len() == 0 {
        0
    } else {
        value_at(s.drop_last(), x) + s.last().coefficient * pow(x, s.last().degree as nat)
    }
}

/// Evaluating `s` at `x` term by term, in list order, never leaves the range
/// of `i64`: not the powers, not the terms, not the running sums.
pub open spec fn evaluation_fits(s: Seq<Term>, x: int) -> bool {
    &&& forall|i: int|
        0 <= i < s.len() ==> fits_i64(#[trigger] pow(x, s[i].degree as nat)) && fits_i64(
            s[i].coefficient * pow(x, s[i].degree as nat),
        )
    &&& forall|k: int| 0 <= k <= s.len() ==> #[trigger] fits_i64(value_at(s.take(k), x))
}

/// The terms that a list of coefficients stands for, the first coefficient
/// being that of the highest degree.
pub open spec fn terms_of_coefficients(c: Seq<i64>) -> Seq<Term> {
    Seq::new(c.len(), |i: int| Term { coefficient: c[i], degree: (c.len() - 1 - i) as u32 })
}

/// Relies on num_traits::NumCast::from, from usize to u32: the same number
/// where it fits in a u32, else None.
#[verifier::external_body]
fn degree_of_index(n: usize) -> (r: Option<u32>)
    ensures
        n <= u32::MAX ==> r == Some(n as u32),
        n > u32::MAX ==> r is None,
{
    <u32 as num_traits::NumCast>::from(n)
}

/// Relies on num_traits::Pow for i64 and a u32 exponent, which is
/// i64::pow: `x` raised to the power `e`.
#[verifier::external_body]
fn power(x: i64, e: u32) -> (r: i64)
    requires
        fits_i64(pow(x as int, e as nat)),
    ensures
        r == pow(x as int, e as nat),
{
    num_traits::Pow::pow(x, e)
}

/// The terms of `s` whose coefficient is not zero, in their order in `s`.
pub open spec fn nonzero_terms(s: Seq<Term>) -> Seq<Term>
    decreases s.len(),
{
    if s.len() == 0 {
        seq![]
    } else if s.last().coefficient != 0 {
        nonzero_terms(s.drop_last()).push(s.last())
    } else {
        nonzero_terms(s.drop_last())
    }
}

/// What follows the term at index `i` of `s` in a text: `+` when the next
/// term has a positive coefficient, else nothing (a negative term brings its
/// own `-`).
pub open spec fn separator(s: Seq<Term>, i: int) -> Seq<char> {
    if i + 1 < s.len() && s[i + 1].coefficient > 0 {
        seq!['+']
    } else {
        seq![]
    }
}

/// The text of the first `n` terms of `s`, each followed by its separator.
pub open spec fn joined(s: Seq<Term>, n: nat) -> Seq<char>
    decreases n,
{
    if n == 0 {
        seq![]
    } else {
        joined(s, (n - 1) as nat) + term_text(s[n - 1]) + separator(s, n - 1)
    }
}

/// The text of the terms of `s`, in their order.
pub open spec fn polynomial_text(s: Seq<Term>) -> Seq<char> {
    joined(s, s.len())
}

fn copy_terms(v: &Vec<Term>) -> (r: Vec<Term>)
    ensures
        r@ == v@,
{
    let mut r: Vec<Term> = Vec::new();
    let mut i: usize = 0;
    while i < v.len()
        invariant
            0 <= i <= v@.len(),
            r@ == v@.take(i as int),
        decreases v@.len() - i,
    {
        r.push(v[i]);
        assert(r@ =~= v@.take(i + 1));
        i = i + 1;
    }
    assert(v@.take(v@.len() as int) =~= v@);
    r
}

impl Polynomial {
    /// The text of the polynomial: its normal form, without the terms whose
    /// coefficient is zero, term after term, with `+` before each positive
    /// term but the first. The zero polynomial gives the empty text. The
    /// polynomial itself is left as it is.
    pub fn to_string(&self) -> (r: String)
        requires
            sums_fit(self.terms@),
        ensures
            exists|n: Seq<Term>|
                is_normal_form_of(n, self.terms@) && r@ == polynomial_text(nonzero_terms(n)),
    {
        let mut normal = Polynomial { terms: copy_terms(&self.terms) };
        normal.normalize();
        let ghost n = normal.terms@;
        let mut kept: Vec<Term> = Vec::new();
        let mut i: usize = 0;
        while i < normal.terms.len()
            invariant
                normal.terms@ == n,
                0 <= i <= n.len(),
                kept@ == nonzero_terms(n.take(i as int)),
            decreases n.len() - i,
        {
            assert(n.take(i + 1).drop_last() =~= n.take(i as int));
            if normal.terms[i].coefficient != 0 {
                kept.push(normal.terms[i]);
            }
            i = i + 1;
        }
        assert(n.take(n.len() as int) =~= n);
        let mut s = String::new();
        let mut k: usize = 0;
        while k < kept.len()
            invariant
                0 <= k <= kept@.len(),
                s@ == joined(kept@, k as nat),
            decreases kept@.len() - k,
        {
            kept[k].write_to(&mut s);
            if k + 1 < kept.len() && kept[k + 1].coefficient > 0 {
                proof {
                    reveal_strlit("+");
                }
                s.append("+");
            }
            assert(s@ =~= joined(kept@, (k + 1) as nat));
            k = k + 1;
        }
        s
    }

    /// The polynomial of the given coefficients, the first being that of the
    /// highest degree: the coefficient at index `i` of `n` gets degree
    /// `n - 1 - i`. Nothing is merged or dropped.
    pub fn from(coefficients: Vec<i64>) -> (r: Polynomial)
        requires
            coefficients@.len() <= u32::MAX + 1,
        ensures
            r.terms@ == terms_of_coefficients(coefficients@),
    {
        let mut terms: Vec<Term> = Vec::new();
        let length = coefficients.len();
        let mut i: usize = 0;
        while i < length
            invariant
                length == coefficients@.len() <= u32::MAX + 1,
                0 <= i <= length,
                terms@ == terms_of_coefficients(coefficients@).take(i as int),
            decreases length - i,
        {
            let degree = degree_of_index(length - i - 1).unwrap();
            terms.push(Term { coefficient: coefficients[i], degree });
            assert(terms@ =~= terms_of_coefficients(coefficients@).take(i + 1));
            i = i + 1;
        }
        assert(terms_of_coefficients(coefficients@).take(length as int) =~= terms_of_coefficients(
            coefficients@,
        ));
        Polynomial { terms }
    }

    /// The value of the polynomial at `x`: the sum over all terms, as they
    /// stand, of `coefficient * x^degree`.
    pub fn substitute(&self, x: i64) -> (r: i64)
        requires
            evaluation_fits(self.terms@, x as int),
        ensures
            r == value_at(self.terms@, x as int),
    {
        let ghost s = self.terms@;
        let mut result: i64 = 0;
        let mut i: usize = 0;
        while i < self.terms.len()
            invariant
                self.terms@ == s,
                evaluation_fits(s, x as int),
                0 <= i <= s.len(),
                result == value_at(s.take(i as int), x as int),
            decreases s.len() - i,
        {
            let t = self.terms[i];
            assert(s.take(i + 1).drop_last() =~= s.take(i as int));
            assert(fits_i64(pow(x as int, s[i as int].degree as nat)));
            let p = power(x, t.degree);
            assert(fits_i64(value_at(s.take(i + 1), x as int)));
            result = result + t.coefficient * p;
            i = i + 1;
        }
        assert(s.take(s.len() as int) =~= s);
        result
    }

    /// Orders the terms by descending degree. Terms of one degree keep their
    /// relative order.
    pub fn sort(&mut self)
        ensures
            descending(final(self).terms@),
            forall|d: u32| #[trigger]
                of_degree(final(self).terms@, d) == of_degree(old(self).terms@, d),
    {
        let ghost input = self.terms@;
        let mut out: Vec<Term> = Vec::new();
        let mut i: usize = 0;
        while i < self.terms.len()
            invariant
                self.terms@ == input,
                0 <= i <= input.len(),
                descending(out@),
                forall|d: u32| of_degree(out@, d) == of_degree(input.take(i as int), d),
            decreases input.len() - i,
        {
            let t = self.terms[i];
            let mut p: usize = 0;
            while p < out.len() && out[p].degree >= t.degree
                invariant
                    0 <= p <= out.len(),
                    forall|k: int| 0 <= k < p ==> out@[k].degree >= t.degree,
                decreases out.len() - p,
            {
                p = p + 1;
            }
            let ghost before = out@;
            out.insert(p, t);
            proof {
                assert(input.take(i + 1).drop_last() =~= input.take(i as int));
                assert(out@ =~= before.take(p as int) + seq![t] + before.skip(p as int));
                assert(before =~= before.take(p as int) + before.skip(p as int));
                assert forall|d: u32|
                    of_degree(out@, d) == of_degree(input.take(i + 1), d) by {
                    lemma_of_degree_append(before.take(p as int) + seq![t], before.skip(p as int), d);
                    lemma_of_degree_append(before.take(p as int), seq![t], d);
                    lemma_of_degree_append(before.take(p as int), before.skip(p as int), d);
                    lemma_of_degree_single(t, d);
                    if d == t.degree {
                        lemma_of_degree_absent(before.skip(p as int), d);
                        assert(of_degree(before.take(p as int), d) + seq![t] + seq![]
                            =~= of_degree(before.take(p as int), d).push(t));
                        assert(of_degree(before.take(p as int), d) + seq![] =~= of_degree(
                            before.take(p as int),
                            d,
                        ));
                    } else {
                        assert(of_degree(before.take(p as int), d) + seq![] =~= of_degree(
                            before.take(p as int),
                            d,
                        ));
                    }
                }
            }
            i = i + 1;
        }
        assert(input.take(input.len() as int) =~= input);
        self.terms = out;
    }

    /// Merges the terms of each degree into one, whose coefficient is their
    /// sum (zero included). The merged terms come in the order in which their
    /// degrees first occur.
    pub fn uniqify(&mut self)
        requires
            sums_fit(old(self).terms@),
        ensures
            final(self).terms@.len() == distinct_degrees(old(self).terms@).len(),
            forall|j: int|
                0 <= j < final(self).terms@.len() ==> #[trigger] final(self).terms@[j].degree
                    == distinct_degrees(old(self).terms@)[j] && final(self).terms@[j].coefficient
                    == coef_at(old(self).terms@, final(self).terms@[j].degree),
            degrees_unique(final(self).terms@),
            forall|d: u32| #[trigger]
                has_degree(final(self).terms@, d) == has_degree(old(self).terms@, d),
            forall|d: u32| #[trigger] coef_at(final(self).terms@, d) == coef_at(old(self).terms@, d),
    {
        let ghost input = self.terms@;
        let mut out: Vec<Term> = Vec::new();
        let mut i: usize = 0;
        while i < self.terms.len()
            invariant
                self.terms@ == input,
                sums_fit(input),
                0 <= i <= input.len(),
                out@.len() == distinct_degrees(input.take(i as int)).len(),
                forall|j: int|
                    0 <= j < out@.len() ==> #[trigger] out@[j].degree == distinct_degrees(
                        input.take(i as int),
                    )[j] && out@[j].coefficient == coef_at(input.take(i as int), out@[j].degree),
            decreases input.len() - i,
        {
            let t = self.terms[i];
            let ghost prev = input.take(i as int);
            let ghost next = input.take(i + 1);
            proof {
                assert(next.drop_last() =~= prev);
                assert(next.last() == t);
                lemma_distinct_degrees(prev);
                assert(fits_i64(coef_at(input.take(i + 1), t.degree)));
            }
            let mut j: usize = 0;
            while j < out.len() && out[j].degree != t.degree
                invariant
                    0 <= j <= out@.len(),
                    forall|k: int| 0 <= k < j ==> out@[k].degree != t.degree,
                decreases out@.len() - j,
            {
                j = j + 1;
            }
            let ghost before = out@;
            if j < out.len() {
                proof {
                    assert(fits_i64(coef_at(input.take(i as int), t.degree)));
                    assert(of_degree(prev, t.degree).push(t).drop_last() =~= of_degree(
                        prev,
                        t.degree,
                    ));
                    assert(coef_at(next, t.degree) == coef_at(prev, t.degree) + t.coefficient);
                }
                let c = out[j].coefficient + t.coefficient;
                out.set(j, Term { coefficient: c, degree: t.degree });
                proof {
                    assert(distinct_degrees(prev)[j as int] == t.degree);
                    assert(distinct_degrees(next) == distinct_degrees(prev));
                    assert forall|k: int| 0 <= k < out@.len() implies #[trigger] out@[k].degree
                        == distinct_degrees(next)[k] && out@[k].coefficient == coef_at(
                        next,
                        out@[k].degree,
                    ) by {
                        if k != j {
                            assert(distinct_degrees(prev)[k] != distinct_degrees(prev)[j as int]);
                            assert(of_degree(next, distinct_degrees(prev)[k]) == of_degree(
                                prev,
                                distinct_degrees(prev)[k],
                            ));
                        }
                    }
                }
            } else {
                out.push(t);
                proof {
                    assert(!distinct_degrees(prev).contains(t.degree)) by {
                        if distinct_degrees(prev).contains(t.degree) {
                            let k = choose|k: int|
                                0 <= k < distinct_degrees(prev).len() && distinct_degrees(prev)[k]
                                    == t.degree;
                            assert(before[k].degree == t.degree);
                        }
                    }
                    assert(distinct_degrees(next) == distinct_degrees(prev).push(t.degree));
                    assert(!has_degree(prev, t.degree));
                    assert(of_degree(prev, t.degree) =~= Seq::<Term>::empty());
                    assert(Seq::<Term>::empty().push(t).drop_last() =~= Seq::<Term>::empty());
                    assert forall|k: int| 0 <= k < out@.len() implies #[trigger] out@[k].degree
                        == distinct_degrees(next)[k] && out@[k].coefficient == coef_at(
                        next,
                        out@[k].degree,
                    ) by {
                        if k < before.len() {
                            assert(distinct_degrees(prev)[k] != t.degree);
                            assert(of_degree(next, distinct_degrees(prev)[k]) == of_degree(
                                prev,
                                distinct_degrees(prev)[k],
                            ));
                        } else {
                            assert(of_degree(next, t.degree) == Seq::<Term>::empty().push(t));
                            assert(sum_coefficients(Seq::<Term>::empty()) == 0);
                            assert(sum_coefficients(Seq::<Term>::empty().push(t)) == t.coefficient);
                        }
                    }
                }
            }
            i = i + 1;
        }
        proof {
            assert(input.take(input.len() as int) =~= input);
            lemma_distinct_degrees(input);
            let r = out@;
            let ds = distinct_degrees(input);
            assert forall|a: int, b: int| 0 <= a < b < r.len() implies r[a].degree != r[b].degree by {
                assert(r[a].degree == ds[a]);
                assert(r[b].degree == ds[b]);
            }
            assert forall|d: u32|
                #![trigger has_degree(r, d)]
                #![trigger coef_at(r, d)]
                has_degree(r, d) == has_degree(input, d) && coef_at(r, d) == coef_at(
                    input,
                    d,
                ) by {
                lemma_of_degree_unique(r, d);
                if has_degree(input, d) {
                    assert(ds.contains(d));
                    let k = choose|k: int| 0 <= k < ds.len() && ds[k] == d;
                    assert(r[k].degree == d);
                    assert(of_degree(r, d) == seq![r[k]]);
                    assert(seq![r[k]].drop_last() =~= Seq::<Term>::empty());
                    assert(sum_coefficients(Seq::<Term>::empty()) == 0);
                    assert(sum_coefficients(seq![r[k]]) == r[k].coefficient);
                    assert(coef_at(r, d) == r[k].coefficient);
                    assert(r[k].coefficient == coef_at(input, d));
                    assert(fits_i64(coef_at(input.take(input.len() as int), d)));
                } else {
                    assert forall|k: int| 0 <= k < r.len() implies r[k].degree != d by {
                        assert(ds.contains(ds[k]));
                    }
                    assert forall|k: int| 0 <= k < input.len() implies input[k].degree != d by {
                        if input[k].degree == d {
                            lemma_of_degree_present(input, k);
                        }
                    }
                    lemma_of_degree_absent(input, d);
                    assert(sum_coefficients(Seq::<Term>::empty()) == 0);
                }
            }
        }
        self.terms = out;
    }

    /// Brings the polynomial to its normal form: one term per degree, with
    /// the summed coefficient (zero included), by strictly descending degree.
    pub fn normalize(&mut self)
        requires
            sums_fit(old(self).terms@),
        ensures
            is_normal_form_of(final(self).terms@, old(self).terms@),
    {
        self.uniqify();
        let ghost u = self.terms@;
        self.sort();
        proof {
            let r = self.terms@;
            assert forall|d: u32|
                #![trigger has_degree(r, d)]
                #![trigger coef_at(r, d)]
                has_degree(r, d) == has_degree(u, d) && coef_at(r, d) == coef_at(u, d) by {
                assert(of_degree(r, d) == of_degree(u, d));
            }
            assert forall|i: int, j: int| 0 <= i < j < r.len() implies r[i].degree > r[j].degree by {
                if r[i].degree == r[j].degree {
                    let d = r[i].degree;
                    lemma_of_degree_twice(r, i, j);
                    lemma_of_degree_unique(u, d);
                    if exists|k: int| 0 <= k < u.len() && u[k].degree == d {
                        let k = choose|k: int| 0 <= k < u.len() && u[k].degree == d;
                        assert(of_degree(u, d) == seq![u[k]]);
                    }
                }
            }
        }
    }
}

impl PartialEq for Polynomial {
    /// Two polynomials are equal when they hold the same terms in the same
    /// order.
    fn eq(&self, other: &Polynomial) -> (r: bool) {
        if self.terms.len() != other.terms.len() {
            return false;
        }
        let mut i: usize = 0;
        while i < self.terms.len()
            invariant
                self.terms@.len() == other.terms@.len(),
                0 <= i <= self.terms@.len(),
                self.terms@.take(i as int) == other.terms@.take(i as int),
            decreases self.terms@.len() - i,
        {
            if self.terms[i] != other.terms[i] {
                return false;
            }
            assert(self.terms@.take(i + 1) =~= self.terms@.take(i as int).push(self.terms@[i as int]));
            assert(other.terms@.take(i + 1) =~= other.terms@.take(i as int).push(
                other.terms@[i as int],
            ));
            i = i + 1;
        }
        assert(self.terms@ =~= self.terms@.take(i as int));
        assert(other.terms@ =~= other.terms@.take(i as int));
        true
    }
}

impl vstd::std_specs::cmp::PartialEqSpecImpl for Polynomial {
    open spec fn obeys_eq_spec() -> bool {
        true
    }

    open spec fn eq_spec(&self, other: &Polynomial) -> bool {
        self.terms@ == other.terms@
    }
}

impl core::ops::Add for Polynomial {
    type Output = Polynomial;

    /// The sum of two polynomials, in normal form.
    fn add(self, other: Polynomial) -> (r: Polynomial)
        ensures
            is_normal_form_of(r.terms@, self.terms@ + other.terms@),
            forall|d: u32| #[trigger]
                has_degree(r.terms@, d) == (has_degree(self.terms@, d) || has_degree(
                    other.terms@,
                    d,
                )),
            forall|d: u32| #[trigger]
                coef_at(r.terms@, d) == coef_at(self.terms@, d) + coef_at(other.terms@, d),
    {
        proof {
            assert forall|d: u32| #[trigger] has_degree(self.terms@ + other.terms@, d) == (has_degree(
                self.terms@,
                d,
            ) || has_degree(other.terms@, d)) && coef_at(self.terms@ + other.terms@, d) == coef_at(
                self.terms@,
                d,
            ) + coef_at(other.terms@, d) by {
                lemma_concat(self.terms@, other.terms@, d);
            }
        }
        let mut terms = self.terms;
        let mut rest = other.terms;
        terms.append(&mut rest);
        let mut sum = Polynomial { terms };
        sum.normalize();
        assert forall|d: u32| #[trigger] coef_at(sum.terms@, d) == coef_at(self.terms@, d)
            + coef_at(other.terms@, d) by {
            assert(has_degree(self.terms@ + other.terms@, d) == has_degree(sum.terms@, d));
        }
        sum
    }
}

impl vstd::std_specs::ops::AddSpecImpl for Polynomial {
    // The result is stated by the `ensures` of `add` itself, over the
    // terms' views.
    open spec fn obeys_add_spec() -> bool {
        false
    }

    open spec fn add_req(self, other: Polynomial) -> bool {
        sums_fit(self.terms@ + other.terms@)
    }

    open spec fn add_spec(self, other: Polynomial) -> Polynomial {
        self
    }
}

impl core::ops::Sub for Polynomial {
    type Output = Polynomial;

    /// The difference of two polynomials, in normal form.
    fn sub(self, other: Polynomial) -> (r: Polynomial)
        ensures
            is_normal_form_of(r.terms@, self.terms@ + negated(other.terms@)),
            forall|d: u32| #[trigger]
                has_degree(r.terms@, d) == (has_degree(self.terms@, d) || has_degree(
                    other.terms@,
                    d,
                )),
            forall|d: u32| #[trigger]
                coef_at(r.terms@, d) == coef_at(self.terms@, d) - coef_at(other.terms@, d),
    {
        let ghost a = self.terms@;
        let ghost b = other.terms@;
        let mut terms = self.terms;
        let mut i: usize = 0;
        while i < other.terms.len()
            invariant
                other.terms@ == b,
                negatable(b),
                0 <= i <= b.len(),
                terms@ == a + negated(b).take(i as int),
            decreases b.len() - i,
        {
            let t = other.terms[i];
            terms.push(Term { coefficient: -t.coefficient, degree: t.degree });
            assert(terms@ =~= a + negated(b).take(i + 1));
            i = i + 1;
        }
        assert(negated(b).take(b.len() as int) =~= negated(b));
        let mut difference = Polynomial { terms };
        difference.normalize();
        assert forall|d: u32|
            #![trigger has_degree(difference.terms@, d)]
            #![trigger coef_at(difference.terms@, d)]
            has_degree(difference.terms@, d) == (has_degree(a, d) || has_degree(b, d))
                && coef_at(difference.terms@, d) == coef_at(a, d) - coef_at(b, d) by {
            lemma_concat(a, negated(b), d);
            lemma_negated(b, d);
            assert(has_degree(a + negated(b), d) == has_degree(difference.terms@, d));
            assert(coef_at(a + negated(b), d) == coef_at(difference.terms@, d));
        }
        difference
    }
}

impl vstd::std_specs::ops::SubSpecImpl for Polynomial {
    // The result is stated by the `ensures` of `sub` itself, over the
    // terms' views.
    open spec fn obeys_sub_spec() -> bool {
        false
    }

    open spec fn sub_req(self, other: Polynomial) -> bool {
        negatable(other.terms@) && sums_fit(self.terms@ + negated(other.terms@))
    }

    open spec fn sub_spec(self, other: Polynomial) -> Polynomial {
        self
    }
}

impl core::ops::Mul for Polynomial {
    type Output = Polynomial;

    /// The product of two polynomials, in normal form: every term of one
    /// multiplied by every term of the other, merged by degree.
    fn mul(self, other: Polynomial) -> (r: Polynomial)
        ensures
            is_normal_form_of(r.terms@, products(self.terms@, other.terms@)),
    {
        let ghost a = self.terms@;
        let ghost b = other.terms@;
        let mut terms: Vec<Term> = Vec::new();
        let mut i: usize = 0;
        while i < self.terms.len()
            invariant
                self.terms@ == a,
                other.terms@ == b,
                products_fit(a, b),
                0 <= i <= a.len(),
                terms@ == products(a.take(i as int), b),
            decreases a.len() - i,
        {
            let t1 = self.terms[i];
            let mut j: usize = 0;
            while j < other.terms.len()
                invariant
                    self.terms@ == a,
                    other.terms@ == b,
                    products_fit(a, b),
                    0 <= i < a.len(),
                    t1 == a[i as int],
                    0 <= j <= b.len(),
                    terms@ == products(a.take(i as int), b) + row(t1, b.take(j as int)),
                decreases b.len() - j,
            {
                let t2 = other.terms[j];
                assert(fits_i64(a[i as int].coefficient * b[j as int].coefficient));
                terms.push(t1 * t2);
                assert(row(t1, b.take(j + 1)) =~= row(t1, b.take(j as int)).push(term_product(t1, t2)));
                assert(terms@ =~= products(a.take(i as int), b) + row(t1, b.take(j + 1)));
                j = j + 1;
            }
            assert(b.take(b.len() as int) =~= b);
            assert(a.take(i + 1).drop_last() =~= a.take(i as int));
            i = i + 1;
        }
        assert(a.take(a.len() as int) =~= a);
        let mut product = Polynomial { terms };
        product.normalize();
        product
    }
}

impl vstd::std_specs::ops::MulSpecImpl for Polynomial {
    // The result is stated by the `ensures` of `mul` itself, over the
    // terms' views.
    open spec fn obeys_mul_spec() -> bool {
        false
    }

    open spec fn mul_req(self, other: Polynomial) -> bool {
        products_fit(self.terms@, other.terms@) && sums_fit(products(self.terms@, other.terms@))
    }

    open spec fn mul_spec(self, other: Polynomial) -> Polynomial {
        self
    }
}

proof fn lemma_coef_at_last(s: Seq<Term>, d: u32)
    requires
        s.len() > 0,
    ensures
        coef_at(s, d) == coef_at(s.drop_last(), d) + if s.last().degree == d {
            s.last().coefficient as int
        } else {
            0
        },
{
    let q = s.drop_last();
    assert(of_degree(q, d).push(s.last()).drop_last() =~= of_degree(q, d));
}

/// The sum, over the degrees of `ds`, of the coefficient of each in `s`
/// times `x` to that degree.
spec fn degree_sum(ds: Seq<u32>, s: Seq<Term>, x: int) -> int
    decreases ds.len(),
{
    if ds.len() == 0 {
        0
    } else {
        degree_sum(ds.drop_last(), s, x) + coef_at(s, ds.last()) * pow(x, ds.last() as nat)
    }
}

proof fn lemma_degree_sum_same(ds: Seq<u32>, s1: Seq<Term>, s2: Seq<Term>, x: int)
    requires
        forall|d: u32| #[trigger] coef_at(s1, d) == coef_at(s2, d),
    ensures
        degree_sum(ds, s1, x) == degree_sum(ds, s2, x),
    decreases ds.len(),
{
    if ds.len() > 0 {
        lemma_degree_sum_same(ds.drop_last(), s1, s2, x);
        assert(coef_at(s1, ds.last()) == coef_at(s2, ds.last()));
    }
}

proof fn lemma_degree_sum_empty(ds: Seq<u32>, x: int)
    ensures
        degree_sum(ds, Seq::<Term>::empty(), x) == 0,
    decreases ds.len(),
{
    if ds.len() > 0 {
        lemma_degree_sum_empty(ds.drop_last(), x);
        assert(sum_coefficients(Seq::<Term>::empty()) == 0);
        assert(coef_at(Seq::<Term>::empty(), ds.last()) == 0);
    }
}

/// Adding `c` to the coefficient of one degree `e`, which `ds` holds once,
/// adds `c * x^e` to the sum.
proof fn lemma_degree_sum_step(ds: Seq<u32>, s: Seq<Term>, q: Seq<Term>, x: int, e: u32, c: int)
    requires
        ds.no_duplicates(),
        forall|d: u32| #[trigger] coef_at(s, d) == coef_at(q, d) + if d == e {
            c
        } else {
            0
        },
    ensures
        degree_sum(ds, s, x) == degree_sum(ds, q, x) + if ds.contains(e) {
            c * pow(x, e as nat)
        } else {
            0
        },
    decreases ds.len(),
{
    if ds.len() > 0 {
        let r = ds.drop_last();
        assert(r.no_duplicates());
        lemma_degree_sum_step(r, s, q, x, e, c);
        let m = ds.last();
        let p = pow(x, m as nat);
        assert(coef_at(s, m) == coef_at(q, m) + if m == e {
            c
        } else {
            0
        });
        if m == e {
            assert(!r.contains(e)) by {
                if r.contains(e) {
                    let k = choose|k: int| 0 <= k < r.len() && r[k] == e;
                    assert(ds[k] == ds[ds.len() - 1]);
                }
            }
            assert(coef_at(s, m) * p == coef_at(q, m) * p + c * p) by (nonlinear_arith)
                requires
                    coef_at(s, m) == coef_at(q, m) + c,
            ;
        } else {
            assert(ds.contains(e) == r.contains(e)) by {
                if ds.contains(e) {
                    let k = choose|k: int| 0 <= k < ds.len() && ds[k] == e;
                    assert(r[k] == e);
                }
                if r.contains(e) {
                    let k = choose|k: int| 0 <= k < r.len() && r[k] == e;
                    assert(ds[k] == e);
                }
            }
        }
    }
}

/// Term by term evaluation equals the sum over any list of distinct degrees
/// that holds every degree of `s`.
proof fn lemma_value_by_degrees(s: Seq<Term>, ds: Seq<u32>, x: int)
    requires
        ds.no_duplicates(),
        forall|i: int| 0 <= i < s.len() ==> ds.contains(#[trigger] s[i].degree),
    ensures
        value_at(s, x) == degree_sum(ds, s, x),
    decreases s.len(),
{
    if s.len() == 0 {
        assert(s =~= Seq::<Term>::empty());
        lemma_degree_sum_empty(ds, x);
    } else {
        let q = s.drop_last();
        assert forall|i: int| 0 <= i < q.len() implies ds.contains(#[trigger] q[i].degree) by {
            assert(ds.contains(s[i].degree));
        }
        lemma_value_by_degrees(q, ds, x);
        let e = s.last().degree;
        let c = s.last().coefficient as int;
        assert forall|d: u32| #[trigger] coef_at(s, d) == coef_at(q, d) + if d == e {
            c
        } else {
            0
        } by {
            lemma_coef_at_last(s, d);
        }
        assert(ds.contains(s[s.len() - 1].degree));
        lemma_degree_sum_step(ds, s, q, x, e, c);
    }
}

/// The value of a polynomial at any point depends only on the coefficient
/// of each degree: reordering the terms, or splitting and merging terms of
/// one degree with the same sum, leaves it unchanged.
pub proof fn lemma_substitute_depends_on_coefficients(s1: Seq<Term>, s2: Seq<Term>, x: int)
    requires
        forall|d: u32| #[trigger] coef_at(s1, d) == coef_at(s2, d),
    ensures
        value_at(s1, x) == value_at(s2, x),
{
    let ds = distinct_degrees(s1 + s2);
    lemma_distinct_degrees(s1 + s2);
    assert forall|i: int| 0 <= i < s1.len() implies ds.contains(#[trigger] s1[i].degree) by {
        lemma_of_degree_present(s1, i);
        lemma_concat(s1, s2, s1[i].degree);
    }
    assert forall|i: int| 0 <= i < s2.len() implies ds.contains(#[trigger] s2[i].degree) by {
        lemma_of_degree_present(s2, i);
        lemma_concat(s1, s2, s2[i].degree);
    }
    lemma_value_by_degrees(s1, ds, x);
    lemma_value_by_degrees(s2, ds, x);
    lemma_degree_sum_same(ds, s1, s2, x);
}

/// Adding in either order gives the same normal form, and normalizing that
/// sum again changes nothing.
pub proof fn lemma_add_commutative(
    a: Seq<Term>,
    b: Seq<Term>,
    r1: Seq<Term>,
    r2: Seq<Term>,
    n1: Seq<Term>,
    n2: Seq<Term>,
)
    requires
        is_normal_form_of(r1, a + b),
        is_normal_form_of(r2, b + a),
        is_normal_form_of(n1, r1),
        is_normal_form_of(n2, r2),
    ensures
        r1 == r2,
        n1 == n2,
        n1 == r1,
{
    assert forall|d: u32|
        #![trigger has_degree(r1, d)]
        #![trigger coef_at(r1, d)]
        has_degree(r1, d) == has_degree(r2, d) && coef_at(r1, d) == coef_at(r2, d) by {
        lemma_concat(a, b, d);
        lemma_concat(b, a, d);
        assert(has_degree(r1, d) == has_degree(a + b, d));
        assert(has_degree(r2, d) == has_degree(b + a, d));
        assert(coef_at(r1, d) == coef_at(a + b, d));
        assert(coef_at(r2, d) == coef_at(b + a, d));
    }
    lemma_normal_form_unique(r1, r2);
    lemma_normal_form_unique(n1, r1);
    lemma_normal_form_unique(n2, r2);
}

proof fn lemma_nonzero_terms_from(s: Seq<Term>)
    ensures
        forall|i: int|
            0 <= i < nonzero_terms(s).len() ==> exists|k: int|
                0 <= k < s.len() && #[trigger] nonzero_terms(s)[i] == s[k] && (
                strictly_descending(s) ==> forall|m: int|
                    k < m < s.len() ==> s[k].degree > #[trigger] s[m].degree),
        forall|i: int|
            0 <= i < nonzero_terms(s).len() ==> #[trigger] nonzero_terms(s)[i].coefficient != 0,
    decreases s.len(),
{
    if s.len() > 0 {
        let q = s.drop_last();
        lemma_nonzero_terms_from(q);
        let nq = nonzero_terms(q);
        let ns = nonzero_terms(s);
        assert forall|i: int| 0 <= i < ns.len() implies exists|k: int|
            0 <= k < s.len() && #[trigger] ns[i] == s[k] && (strictly_descending(s) ==> forall|
                m: int,
            | k < m < s.len() ==> s[k].degree > #[trigger] s[m].degree) by {
            if i < nq.len() {
                let k = choose|k: int|
                    0 <= k < q.len() && #[trigger] nq[i] == q[k] && (strictly_descending(q)
                        ==> forall|m: int| k < m < q.len() ==> q[k].degree > #[trigger] q[m].degree);
                assert(ns[i] == nq[i]);
                assert(ns[i] == s[k]);
            } else {
                assert(ns[i] == s[s.len() - 1]);
            }
        }
        assert forall|i: int| 0 <= i < ns.len() implies #[trigger] ns[i].coefficient != 0 by {
            if i < nq.len() {
                assert(ns[i] == nq[i]);
            }
        }
    }
}

proof fn lemma_nonzero_terms_to(s: Seq<Term>)
    ensures
        forall|k: int|
            0 <= k < s.len() && s[k].coefficient != 0 ==> exists|i: int|
                0 <= i < nonzero_terms(s).len() && nonzero_terms(s)[i] == #[trigger] s[k],
    decreases s.len(),
{
    if s.len() > 0 {
        let q = s.drop_last();
        lemma_nonzero_terms_to(q);
        let nq = nonzero_terms(q);
        let ns = nonzero_terms(s);
        assert forall|k: int| 0 <= k < s.len() && s[k].coefficient != 0 implies exists|i: int|
            0 <= i < ns.len() && ns[i] == #[trigger] s[k] by {
            if k < q.len() {
                assert(q[k] == s[k]);
                let i = choose|i: int| 0 <= i < nq.len() && nq[i] == #[trigger] q[k];
                assert(ns[i] == nq[i]);
            } else {
                assert(ns[ns.len() - 1] == s[k]);
            }
        }
    }
}

proof fn lemma_nonzero_terms_descending(s: Seq<Term>)
    requires
        strictly_descending(s),
    ensures
        strictly_descending(nonzero_terms(s)),
    decreases s.len(),
{
    if s.len() > 0 {
        let q = s.drop_last();
        lemma_nonzero_terms_descending(q);
        lemma_nonzero_terms_from(q);
        let nq = nonzero_terms(q);
        let ns = nonzero_terms(s);
        if s.last().coefficient != 0 {
            assert forall|i: int, j: int| 0 <= i < j < ns.len() implies ns[i].degree
                > ns[j].degree by {
                if j < nq.len() {
                    assert(ns[i] == nq[i] && ns[j] == nq[j]);
                } else {
                    let k = choose|k: int|
                        0 <= k < q.len() && #[trigger] nq[i] == q[k] && (strictly_descending(q)
                            ==> forall|m: int| k < m < q.len() ==> q[k].degree > #[trigger] q[m].degree);
                    assert(ns[i] == s[k]);
                    assert(ns[j] == s[s.len() - 1]);
                }
            }
        }
    }
}

/// The text of a polynomial shows each degree whose coefficient is not
/// zero, once, with that coefficient, by strictly descending degree; it
/// shows no other degree.
pub proof fn lemma_text_terms(s: Seq<Term>, n: Seq<Term>)
    requires
        is_normal_form_of(n, s),
    ensures
        strictly_descending(nonzero_terms(n)),
        forall|i: int|
            0 <= i < nonzero_terms(n).len() ==> #[trigger] nonzero_terms(n)[i].coefficient != 0
                && nonzero_terms(n)[i].coefficient == coef_at(s, nonzero_terms(n)[i].degree),
        forall|d: u32| #[trigger] has_degree(nonzero_terms(n), d) == (coef_at(s, d) != 0),
{
    lemma_nonzero_terms_from(n);
    lemma_nonzero_terms_to(n);
    lemma_nonzero_terms_descending(n);
    let nz = nonzero_terms(n);
    assert forall|i: int| 0 <= i < nz.len() implies #[trigger] nz[i].coefficient != 0
        && nz[i].coefficient == coef_at(s, nz[i].degree) by {
        let k = choose|k: int|
            0 <= k < n.len() && #[trigger] nz[i] == n[k] && (strictly_descending(n) ==> forall|
                m: int,
            | k < m < n.len() ==> n[k].degree > #[trigger] n[m].degree);
        lemma_unique_coefficient(n, k);
        assert(coef_at(n, n[k].degree) == coef_at(s, n[k].degree));
    }
    assert forall|d: u32| #[trigger] has_degree(nz, d) == (coef_at(s, d) != 0) by {
        assert(coef_at(n, d) == coef_at(s, d));
        if has_degree(nz, d) {
            let i = lemma_of_degree_index(nz, d);
            assert(nz[i].coefficient != 0);
        }
        if coef_at(s, d) != 0 {
            if !has_degree(n, d) {
                assert(sum_coefficients(Seq::<Term>::empty()) == 0);
            }
            let k = lemma_of_degree_index(n, d);
            lemma_unique_coefficient(n, k);
            let i = choose|i: int| 0 <= i < nz.len() && nz[i] == n[k];
            lemma_of_degree_present(nz, i);
        }
    }
}

} // verus!
