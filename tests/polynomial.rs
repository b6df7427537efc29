use polynomial_rs::polynomial::Polynomial;
use polynomial_rs::term::Term;

#[test]
fn test_polynomial() {
    // x^2 + 2x + 3
    let polynomial = Polynomial::from(vec![1, 2, 3]);
    println!("{}", polynomial.to_string());
    assert_eq!(polynomial.terms[0].coefficient, 1);
    assert_eq!(polynomial.terms[1].coefficient, 2);
    assert_eq!(polynomial.terms[2].coefficient, 3);
    assert_eq!(polynomial.terms[0].degree, 2);
    assert_eq!(polynomial.terms[1].degree, 1);
    assert_eq!(polynomial.terms[2].degree, 0);
    assert_eq!(polynomial.substitute(2), 11);
}

#[test]
fn test_polynomial_add() {
    //        x^2 + 2x + 3
    let polynomial1 = Polynomial::from(vec![1, 2, 3]);
    // x^3 + 2x^2 + 3x + 4
    let polynomial2 = Polynomial::from(vec![1, 2, 3, 4]);
    let polynomial3 = polynomial1 + polynomial2;

    assert_eq!(polynomial3.terms[0].coefficient, 1);
    assert_eq!(polynomial3.terms[1].coefficient, 3);
    assert_eq!(polynomial3.terms[2].coefficient, 5);
    assert_eq!(polynomial3.terms[3].coefficient, 7);
    assert_eq!(polynomial3.terms[0].degree, 3);
    assert_eq!(polynomial3.terms[1].degree, 2);
    assert_eq!(polynomial3.terms[2].degree, 1);
    assert_eq!(polynomial3.terms[3].degree, 0);
}

#[test]
fn test_polynomial_sub() {
    //        x^2 + 2x + 3
    let polynomial1 = Polynomial::from(vec![1, 2, 3]);
    // x^3 + 2x^2 + 3x + 4
    let polynomial2 = Polynomial::from(vec![1, 2, 3, 4]);
    let polynomial3 = polynomial1 - polynomial2;

    println!("{}", polynomial3.to_string());
    assert_eq!(polynomial3.terms[0].coefficient, -1);
    assert_eq!(polynomial3.terms[1].coefficient, -1);
    assert_eq!(polynomial3.terms[2].coefficient, -1);
    assert_eq!(polynomial3.terms[3].coefficient, -1);
    assert_eq!(polynomial3.terms[0].degree, 3);
    assert_eq!(polynomial3.terms[1].degree, 2);
    assert_eq!(polynomial3.terms[2].degree, 1);
    assert_eq!(polynomial3.terms[3].degree, 0);
}

#[test]
fn test_polynomial_mul() {
    // x^1 + 2x^0
    let polynomial1 = Polynomial::from(vec![1, 2]);
    // 3x^1 + 4x^0
    let polynomial2 = Polynomial::from(vec![3, 4]);
    // 3x^2 + 10x^1 + 8x^0
    let polynomial3 = polynomial1 * polynomial2;

    println!("{}", polynomial3.to_string());
    assert_eq!(polynomial3.terms[0].coefficient, 3);
    assert_eq!(polynomial3.terms[1].coefficient, 10);
    assert_eq!(polynomial3.terms[2].coefficient, 8);
    assert_eq!(polynomial3.terms[0].degree, 2);
    assert_eq!(polynomial3.terms[1].degree, 1);
    assert_eq!(polynomial3.terms[2].degree, 0);
}

fn terms(pairs: &[(i64, u32)]) -> Polynomial {
    Polynomial {
        terms: pairs
            .iter()
            .map(|&(coefficient, degree)| Term { coefficient, degree })
            .collect(),
    }
}

fn pairs(p: &Polynomial) -> Vec<(i64, u32)> {
    p.terms.iter().map(|t| (t.coefficient, t.degree)).collect()
}

#[test]
fn from_gives_highest_degree_first() {
    let p = Polynomial::from(vec![5, 0, -2, 7]);
    assert_eq!(pairs(&p), vec![(5, 3), (0, 2), (-2, 1), (7, 0)]);
    let empty = Polynomial::from(vec![]);
    assert!(empty.terms.is_empty());
    assert_eq!(pairs(&Polynomial::from(vec![9])), vec![(9, 0)]);
}

#[test]
fn uniqify_merges_by_degree_in_first_occurrence_order() {
    let mut p = terms(&[(1, 2), (4, 0), (3, 2), (-4, 0), (5, 7)]);
    p.uniqify();
    assert_eq!(pairs(&p), vec![(4, 2), (0, 0), (5, 7)]);
}

#[test]
fn sort_orders_by_descending_degree_and_keeps_ties_in_order() {
    let mut p = terms(&[(1, 0), (2, 3), (3, 1), (4, 3), (5, 0)]);
    p.sort();
    assert_eq!(pairs(&p), vec![(2, 3), (4, 3), (3, 1), (1, 0), (5, 0)]);
}

#[test]
fn normalize_merges_and_sorts() {
    let mut p = terms(&[(1, 0), (2, 3), (3, 1), (4, 3), (5, 0)]);
    p.normalize();
    assert_eq!(pairs(&p), vec![(6, 3), (3, 1), (6, 0)]);
}

#[test]
fn substitute_ignores_term_layout() {
    let p = Polynomial::from(vec![1, 2, 3]);
    assert_eq!(p.substitute(2), 1 * 4 + 2 * 2 + 3 * 1);
    let split = terms(&[(3, 0), (1, 1), (1, 2), (1, 1)]);
    assert_eq!(split.substitute(2), 11);
    let mut merged = terms(&[(3, 0), (1, 1), (1, 2), (1, 1)]);
    merged.uniqify();
    assert_eq!(merged.substitute(2), 11);
    merged.sort();
    assert_eq!(merged.substitute(-3), 9 - 6 + 3);
    assert_eq!(Polynomial::from(vec![]).substitute(5), 0);
    assert_eq!(Polynomial::from(vec![2, 0, 0, 0]).substitute(10), 2000);
}

#[test]
fn addition_commutes_after_normalization() {
    let a = terms(&[(1, 2), (5, 0), (2, 2)]);
    let b = terms(&[(-3, 0), (4, 1)]);
    let mut ab = terms(&[(1, 2), (5, 0), (2, 2)]) + terms(&[(-3, 0), (4, 1)]);
    let mut ba = b + a;
    assert_eq!(pairs(&ab), pairs(&ba));
    assert_eq!(pairs(&ab), vec![(3, 2), (4, 1), (2, 0)]);
    ab.normalize();
    ba.normalize();
    assert_eq!(pairs(&ab), pairs(&ba));
}

#[test]
fn subtraction_keeps_cancelled_degrees_with_zero() {
    let p = Polynomial::from(vec![1, 0, 1]) - Polynomial::from(vec![1, -1]);
    assert_eq!(pairs(&p), vec![(1, 2), (-1, 1), (2, 0)]);
    let q = Polynomial::from(vec![1, 2]) - Polynomial::from(vec![1, 2]);
    assert_eq!(pairs(&q), vec![(0, 1), (0, 0)]);
    assert_eq!(q.to_string(), "");
}

#[test]
fn multiplication_is_convolution() {
    let p = Polynomial::from(vec![1, 2]) * Polynomial::from(vec![3, 4]);
    assert_eq!(pairs(&p), vec![(3, 2), (10, 1), (8, 0)]);
    assert_eq!(p.to_string(), "3x^2+10x+8");
    let ones = Polynomial::from(vec![1; 100]);
    let q = ones * Polynomial::from(vec![1, -1]);
    assert_eq!(q.terms.len(), 101);
    assert_eq!(q.to_string(), "x^100-1");
    let none = Polynomial::from(vec![1, 2]) * Polynomial::from(vec![]);
    assert!(none.terms.is_empty());
}

#[test]
fn text_is_normalized_and_omits_zero_terms() {
    assert_eq!(Polynomial::from(vec![1, 0, 1]).to_string(), "x^2+1");
    let shuffled = terms(&[(1, 0), (-2, 1), (3, 2), (-4, 0), (0, 5)]);
    assert_eq!(shuffled.to_string(), "3x^2-2x-3");
    assert_eq!(pairs(&shuffled).len(), 5);
    assert_eq!(Polynomial::from(vec![-1, 1, -1]).to_string(), "-x^2+x-1");
    assert_eq!(Polynomial::from(vec![0, 0]).to_string(), "");
    assert_eq!(Polynomial::from(vec![]).to_string(), "");
    let sum = Polynomial::from(vec![1, 0, 1]) + Polynomial::from(vec![1, 1]);
    assert_eq!(sum.to_string(), "x^2+x+2");
}
