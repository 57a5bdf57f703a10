use computor::coef::Coef;
use computor::parse::{parse_degree, parse_equation, parse_polynomial, parse_term, ParseError};
use computor::polynomial::Polynomial;
use computor::solve::{Solution, SolveError};
use computor::string_utils::StringUtils;

fn parsed(input: &str) -> Polynomial {
    parse_polynomial(&input.to_string())
        .unwrap_or_else(|e| panic!("parse failed for {:?}: {:?}", input, e))
}

#[test]
fn normalizer_removes_whitespace() {
    assert_eq!("a b\tc\nd ".to_string().remove_whitespaces(), "abcd");
    assert_eq!("  ".to_string().remove_whitespaces(), "");
}

#[test]
fn normalizer_collapses_signs_by_parity() {
    // a run of k '-' signs collapses to '-' when k is odd, '+' when even
    assert_eq!("-".to_string().remove_redundant_operators(), "-");
    assert_eq!("--".to_string().remove_redundant_operators(), "+");
    assert_eq!("---".to_string().remove_redundant_operators(), "-");
    assert_eq!("----".to_string().remove_redundant_operators(), "+");
    assert_eq!("a--b".to_string().remove_redundant_operators(), "a+b");
    assert_eq!("+-".to_string().remove_redundant_operators(), "-");
    assert_eq!("-+".to_string().remove_redundant_operators(), "-");
    assert_eq!("++".to_string().remove_redundant_operators(), "+");
    assert_eq!("--+--2".to_string().remove_redundant_operators(), "+2");
}

#[test]
fn normalization_is_idempotent() {
    let cases = ["5 + --4 * X - X^2 = 0", "  a -+- b ", "--+--2 = 2", ""];
    for case in cases {
        let once = case.to_string().remove_whitespaces().remove_redundant_operators();
        let twice = once.clone().remove_whitespaces().remove_redundant_operators();
        assert_eq!(once, twice, "normalization not idempotent on {:?}", case);
    }
}

#[test]
fn reduction_ignores_term_order() {
    // permuting additive terms within a side yields the same polynomial
    let a = parsed("5 + 4 * X - X^2 = 4 * X^2 - 7 * X - 5");
    let b = parsed("4 * X - X^2 + 5 = -7 * X + 4 * X^2 - 5");
    assert_eq!(a.degrees(), b.degrees());
    for d in a.degrees() {
        assert_eq!(a.coef_at(d), b.coef_at(d));
    }
}

#[test]
fn subtracting_a_polynomial_from_itself_gives_zero() {
    let p = parsed("5 + 4 * X - 1.25X^2 = 3*X^7");
    let q = p.sub(&p).expect("subtraction of a polynomial from itself must fit");
    assert_eq!(q.degrees(), p.degrees());
    for d in q.degrees() {
        assert_eq!(q.coef_at(d), Coef::new(0, 0));
    }
}

#[test]
fn canonical_form_round_trips() {
    let p = parsed("5 + 4 * X - X^2 = 4 * X^2 - 7 * X - 5");
    let printed = p.reduced_form();
    assert_eq!(printed, "-5*X^2 + 11*X^1 + 10*X^0 = 0");
    let q = parsed(&printed);
    assert_eq!(p.degrees(), q.degrees());
    for d in p.degrees() {
        assert_eq!(p.coef_at(d), q.coef_at(d));
    }
}

#[test]
fn canonical_form_renders_decimals() {
    let p = parsed("0.05*X^2 - 1.5 = 0");
    assert_eq!(p.reduced_form(), "0.05*X^2 + -1.5*X^0 = 0");
}

#[test]
fn effective_degree_ignores_zero_coefficients() {
    assert_eq!(parsed("0X^2 + 1X + 1 = 0").get_degree(), 1);
    assert_eq!(parsed("0X^2 + 0X + 1 = 0").get_degree(), 0);
    assert_eq!(parsed("3X^2 + 1X + 1 = 0").get_degree(), 2);
    assert_eq!(parsed("0 = 0").get_degree(), 0);
}

#[test]
fn scenario_full_reduction_and_solve() {
    let p = parsed("5 + 4 * X - X^2 = 4 * X^2 - 7 * X - 5");
    assert_eq!(p.coef_at(2), Coef::new(-5, 0));
    assert_eq!(p.coef_at(1), Coef::new(11, 0));
    assert_eq!(p.coef_at(0), Coef::new(10, 0));
    assert_eq!(p.get_degree(), 2);
    match p.solve().unwrap() {
        Solution::RealPair { axis, disc } => {
            // two real roots: axis +/- sqrt(disc); check them numerically
            let ax = axis.num as f64 / axis.den as f64;
            let d = disc.num as f64 / disc.den as f64;
            let r1 = ax + d.sqrt();
            let r2 = ax - d.sqrt();
            let eval = |x: f64| -5.0 * x * x + 11.0 * x + 10.0;
            assert!(eval(r1).abs() < 1e-9);
            assert!(eval(r2).abs() < 1e-9);
        },
        other => panic!("expected two real roots, got {:?}", other),
    }
}

#[test]
fn scenario_degree_above_two_is_unsupported() {
    let p = parsed("X^3 = 0");
    match p.solve() {
        Err(SolveError::UnsupportedDegree(d)) => assert_eq!(d, 3),
        other => panic!("expected UnsupportedDegree, got {:?}", other),
    }
}

#[test]
fn error_missing_equals() {
    assert!(matches!(
        parse_polynomial(&"42".to_string()),
        Err(ParseError::MissingEquals)
    ));
    assert!(matches!(
        parse_polynomial(&"".to_string()),
        Err(ParseError::MissingEquals)
    ));
}

#[test]
fn error_multiple_equals() {
    assert!(matches!(
        parse_polynomial(&"2 = 2 =".to_string()),
        Err(ParseError::MultipleEquals)
    ));
    assert!(matches!(
        parse_polynomial(&"=2 = 2".to_string()),
        Err(ParseError::MultipleEquals)
    ));
}

#[test]
fn error_empty_side() {
    assert!(matches!(
        parse_polynomial(&" = 2".to_string()),
        Err(ParseError::EmptySide)
    ));
    assert!(matches!(
        parse_polynomial(&"2 = ".to_string()),
        Err(ParseError::EmptySide)
    ));
}

#[test]
fn error_malformed_term_carries_the_text() {
    match parse_polynomial(&"2XX = 2".to_string()) {
        Err(ParseError::MalformedTerm(s)) => assert_eq!(s, "XX"),
        other => panic!("expected MalformedTerm, got {:?}", other),
    }
    match parse_polynomial(&"*2 = 2".to_string()) {
        Err(ParseError::MalformedTerm(s)) => assert_eq!(s, "*2"),
        other => panic!("expected MalformedTerm, got {:?}", other),
    }
}

#[test]
fn error_overflow_on_too_many_digits() {
    // 41 digits do not fit the 128-bit exact representation
    let huge = "9".repeat(41);
    let input = format!("{} = 0", huge);
    assert!(matches!(
        parse_polynomial(&input),
        Err(ParseError::Overflow)
    ));
}

#[test]
fn parse_degree_accepts_exact_exponents() {
    assert_eq!(parse_degree(&"X^22".to_string()).unwrap(), 22);
    assert_eq!(parse_degree(&"X^0".to_string()).unwrap(), 0);
    assert!(parse_degree(&"X^".to_string()).is_err());
    assert!(parse_degree(&"X2".to_string()).is_err());
    assert!(parse_degree(&"X^0.5".to_string()).is_err());
    assert!(parse_degree(&"X^99999999999".to_string()).is_err());
}

#[test]
fn parse_term_single_contributions() {
    let p = parse_term("5X").unwrap();
    assert_eq!(p.degrees(), vec![1]);
    assert_eq!(p.coef_at(1), Coef::new(5, 0));
    let q = parse_term("").unwrap();
    assert_eq!(q.degrees(), vec![]);
    let r = parse_term(".5X^3").unwrap();
    assert_eq!(r.coef_at(3), Coef::new(5, 1));
    let s = parse_term("X").unwrap();
    assert_eq!(s.coef_at(1), Coef::new(1, 0));
    assert!(parse_term("*5").is_err());
    assert!(parse_term("5.").is_err());
}

#[test]
fn parse_equation_accumulates_one_side() {
    let p = parse_equation("5-3").unwrap();
    assert_eq!(p.degrees(), vec![0]);
    assert_eq!(p.coef_at(0), Coef::new(2, 0));
    let q = parse_equation("-5X+2X").unwrap();
    assert_eq!(q.coef_at(1), Coef::new(-3, 0));
    assert!(matches!(parse_equation(""), Err(ParseError::EmptySide)));
}

#[test]
fn coefficients_are_canonical() {
    assert_eq!(Coef::new(4550, 2), Coef::new(455, 1));
    assert_eq!(Coef::new(0, 7), Coef::new(0, 0));
    assert_eq!(Coef::new(-120, 1), Coef::new(-12, 0));
    assert!(Coef::new(0, 3).is_zero());
    let sum = Coef::new(5, 2).checked_add(&Coef::new(5, 1)).unwrap();
    assert_eq!(sum, Coef::new(55, 2));
    let diff = Coef::new(1, 0).checked_sub(&Coef::new(1, 1)).unwrap();
    assert_eq!(diff, Coef::new(9, 1));
}
