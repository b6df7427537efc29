use polynomial_rs::term::Term;

#[test]
fn test_term() {
    let term = Term {
        coefficient: 3,
        degree: 2,
    };
    println!("{}", term.to_string());
    assert_eq!(term.coefficient, 3);
}

#[test]
fn test_term_add() {
    let term1 = Term {
        coefficient: 3,
        degree: 2,
    };
    let term2 = Term {
        coefficient: 2,
        degree: 2,
    };
    let term3 = term1 + term2;
    println!("{}", term3.to_string());
    assert_eq!(term3.coefficient, 5);
}

#[test]
fn test_term_sub() {
    let term1 = Term {
        coefficient: 3,
        degree: 2,
    };
    let term2 = Term {
        coefficient: 2,
        degree: 2,
    };
    let term3 = term1 - term2;
    println!("{}", term3.to_string());
    assert_eq!(term3.coefficient, 1);
}

#[test]
fn test_term_mul() {
    let term1 = Term {
        coefficient: 3,
        degree: 2,
    };
    let term2 = Term {
        coefficient: 2,
        degree: 2,
    };
    let term3 = term1 * term2;
    println!("{}", term3.to_string());
    assert_eq!(term3.coefficient, 6);
    assert_eq!(term3.degree, 4);
}

#[test]
fn term_div_divides_coefficients_and_subtracts_degrees() {
    let a = Term { coefficient: 7, degree: 5 };
    let b = Term { coefficient: 2, degree: 2 };
    assert_eq!(a / b, Term { coefficient: 3, degree: 3 });
    let c = Term { coefficient: -7, degree: 2 };
    assert_eq!(c / b, Term { coefficient: -3, degree: 0 });
    let d = Term { coefficient: -2, degree: 1 };
    assert_eq!(a / d, Term { coefficient: -3, degree: 4 });
    assert_eq!(c / d, Term { coefficient: 3, degree: 1 });
}

#[test]
fn term_checked_ops_refuse_different_degrees() {
    let a = Term { coefficient: 3, degree: 2 };
    let b = Term { coefficient: 2, degree: 1 };
    assert_eq!(a.checked_add(b), None);
    assert_eq!(a.checked_sub(b), None);
    let c = Term { coefficient: 4, degree: 2 };
    assert_eq!(a.checked_add(c), Some(Term { coefficient: 7, degree: 2 }));
    assert_eq!(a.checked_sub(c), Some(Term { coefficient: -1, degree: 2 }));
}

#[test]
fn term_text_follows_degree_and_unit_coefficients() {
    assert_eq!(Term { coefficient: 3, degree: 2 }.to_string(), "3x^2");
    assert_eq!(Term { coefficient: 1, degree: 2 }.to_string(), "x^2");
    assert_eq!(Term { coefficient: -1, degree: 12 }.to_string(), "-x^12");
    assert_eq!(Term { coefficient: 1, degree: 1 }.to_string(), "x");
    assert_eq!(Term { coefficient: -1, degree: 1 }.to_string(), "-x");
    assert_eq!(Term { coefficient: -25, degree: 1 }.to_string(), "-25x");
    assert_eq!(Term { coefficient: 1, degree: 0 }.to_string(), "1");
    assert_eq!(Term { coefficient: -1, degree: 0 }.to_string(), "-1");
    assert_eq!(Term { coefficient: 0, degree: 0 }.to_string(), "0");
    assert_eq!(Term { coefficient: 907, degree: 0 }.to_string(), "907");
    assert_eq!(
        Term { coefficient: i64::MIN, degree: 0 }.to_string(),
        "-9223372036854775808"
    );
}
