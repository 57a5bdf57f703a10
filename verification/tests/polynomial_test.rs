use computor::coef::Coef;
use computor::parse::parse_polynomial;
use computor::polynomial::Polynomial;
use computor::solve::{Ratio, Solution};

/// Parses `input` and checks the exact coefficient map: `expected` lists
/// every explicit entry as `(degree, numerator, scale)` with the value
/// `numerator / 10^scale`.
fn expect_poly(input: &str, expected: &[(i32, i128, u32)]) {
    let poly: Polynomial = parse_polynomial(&input.to_string())
        .unwrap_or_else(|e| panic!("parse failed for {:?}: {:?}", input, e));
    let degrees = poly.degrees();
    let mut expected_degrees: Vec<i32> = expected.iter().map(|t| t.0).collect();
    expected_degrees.sort();
    assert_eq!(degrees, expected_degrees, "degrees differ for {:?}", input);
    for &(deg, num, scale) in expected {
        let got = poly.coef_at(deg);
        let want = Coef::new(num, scale);
        assert_eq!(got, want, "coefficient at degree {} differs for {:?}", deg, input);
    }
}

/// The rational `r` equals `num / den`.
fn ratio_is(r: &Ratio, num: i128, den: i128) -> bool {
    den > 0 && r.den > 0 && r.num * den == num * r.den
}

#[test]
fn poly_parse_zero_degree_correct() {
    let cases: &[(&str, (i32, i128, u32))] = &[
        ("7 = 7", (0, 0, 0)),
        ("0 = 0", (0, 0, 0)),
        ("6 = 7", (0, -1, 0)),
        ("7 = 6", (0, 1, 0)),
        ("0 = 0", (0, 0, 0)),
        ("0.000005 = 0.000007", (0, -2, 6)),
        ("0.05 + 0.5 - 12 + 79 = 0.07 + 22 - 0.1", (0, 4558, 2)),
        ("-0.05 + 0.5 - 12 + 79 = -0.07 + 22 - 0.1", (0, 4562, 2)),
        ("-0.05*X^0 + 0.5*X^0 - 12 + 79 = -0.07*X^0 + 22 - 0.1*X^0", (0, 4562, 2)),
        ("-0.05*X^0 + 0.5*X^0 - 12 + 79 = -0.07*X^0 + 22 - 0.1*X^0", (0, 4562, 2)),
        ("-0.0000000000001 = 0.0000000000002", (0, -3, 13)),
        ("-0.0000000000002 * X^0 = -0.0000000000002 * X^0", (0, 0, 0)),
        ("2*X^0 = 2X^0", (0, 0, 0)),
        ("2*X^0 = 2X^0", (0, 0, 0)),
        ("--2*X^0 = 2X^0", (0, 0, 0)),
        ("--+--2*X^0 = 2X^0", (0, 0, 0)),
        ("--+--2 = --2X^0", (0, 0, 0)),
    ];
    for case in cases {
        expect_poly(case.0, &[case.1]);
    }
}

#[test]
fn poly_parse_first_degree_correct() {
    let cases: &[(&str, (i32, i128, u32), (i32, i128, u32))] = &[
        ("7 * X ^ 1 + 0 = 7 * X ^ 1", (0, 0, 0), (1, 0, 0)),
        ("0 * X ^ 1 + 0 = 7 * X ^ 1", (0, 0, 0), (1, -7, 0)),
        ("0 * X ^ 1 + 0 = 0 * X ^ 1", (0, 0, 0), (1, 0, 0)),
        ("5 * X + 0 = 0 * X ^ 1", (0, 0, 0), (1, 5, 0)),
        ("5X + 0 = 0X ^ 1", (0, 0, 0), (1, 5, 0)),
        ("5X + 3 = 0X ^ 1", (0, 3, 0), (1, 5, 0)),
        ("5X + 3 = 0X ^ 1 - 3", (0, 6, 0), (1, 5, 0)),
        ("5X + 3 = 0X ^ 1 + 3", (0, 0, 0), (1, 5, 0)),
        ("5X + 3 = 7 * X + 3", (0, 0, 0), (1, -2, 0)),
        ("5X = 7 * X + 3", (0, -3, 0), (1, -2, 0)),
        ("0X = 7 * X + 3", (0, -3, 0), (1, -7, 0)),
        ("0 = 7 * X + 3", (0, -3, 0), (1, -7, 0)),
        ("7 * X + 3 = 0", (0, 3, 0), (1, 7, 0)),
        ("X = 0", (0, 0, 0), (1, 1, 0)),
        ("X = X + 0", (0, 0, 0), (1, 0, 0)),
        ("0.23X = 0.11X + 0", (0, 0, 0), (1, 12, 2)),
        ("X = 78", (0, -78, 0), (1, 1, 0)),
    ];
    for case in cases {
        expect_poly(case.0, &[case.1, case.2]);
    }
}

#[test]
fn poly_parse_second_degree_correct() {
    let cases: &[(&str, (i32, i128, u32), (i32, i128, u32), (i32, i128, u32))] = &[
        ("3 * X ^ 2 + 7 * X ^ 1 + 0 = 7 * X ^ 1", (0, 0, 0), (1, 0, 0), (2, 3, 0)),
        ("0 * X ^ 2 + 0 * X ^ 1 + 0 = 7 * X ^ 1", (0, 0, 0), (1, -7, 0), (2, 0, 0)),
        ("0 * X ^ 2 + 0 * X ^ 1 + 0 = 0 * X ^ 1", (0, 0, 0), (1, 0, 0), (2, 0, 0)),
        ("0.05 * X ^ 2 + 5 * X + 0 = 0 * X ^ 1", (0, 0, 0), (1, 5, 0), (2, 5, 2)),
        ("12.22X^2 + 5X + 0 = 0X ^ 1", (0, 0, 0), (1, 5, 0), (2, 1222, 2)),
        ("-12.22X^2 + 5X + 0 = 0X ^ 1", (0, 0, 0), (1, 5, 0), (2, -1222, 2)),
        ("5X + 0 = 0X ^ 1 -12.22X^2", (0, 0, 0), (1, 5, 0), (2, 1222, 2)),
        ("-12.22X^2 + 5X + 0 = 0X ^ 1 -12.22X^2", (0, 0, 0), (1, 5, 0), (2, 0, 0)),
        ("0 = 0X ^ 1 -12.22X^2", (0, 0, 0), (1, 0, 0), (2, 1222, 2)),
        ("0 = 0X ^ 1 -0.X^2", (0, 0, 0), (1, 0, 0), (2, 0, 0)),
        ("0 = 0X ^ 1 -0.0X^2", (0, 0, 0), (1, 0, 0), (2, 0, 0)),
    ];
    for case in cases {
        expect_poly(case.0, &[case.1, case.2, case.3]);
    }
}

#[test]
fn poly_parse_any_degree_correct() {
    let cases: &[(&str, (i32, i128, u32), (i32, i128, u32), (i32, i128, u32))] = &[
        ("3 * X ^ 22 + 7 * X ^ 1 + 0 = 7 * X ^ 1", (0, 0, 0), (1, 0, 0), (22, 3, 0)),
        ("0 * X ^ 82 + 0 * X ^ 1 + 0 = 7 * X ^ 1", (0, 0, 0), (1, -7, 0), (82, 0, 0)),
        (
            "1 * X ^ 82 + 0 * X ^ 1 + 0 = 7 * X ^ 1 - 11 * X ^ 82 ",
            (0, 0, 0),
            (1, -7, 0),
            (82, 12, 0),
        ),
        (
            "-X^12 + X^89 + 12.42X^12 - X^99 + 4X^99  = -5X^99 + 4X^89 -6X^12 -0.5X^89 ",
            (12, 1742, 2),
            (89, -25, 1),
            (99, 8, 0),
        ),
    ];
    for case in cases {
        expect_poly(case.0, &[case.1, case.2, case.3]);
    }
}

#[test]
fn poly_parse_fail() {
    let cases: &[&str] = &[
        "=2 = 2",
        "2 = 2=",
        " = 2",
        "0.123*$%^&* = 2",
        "*$%^&* = 2",
        "2*= 2",
        "2XX = 2",
        "X2X = 2",
        "*2= 2",
        "2..= 2",
        "2**X^0= 2",
        "2*X^^0= 2",
        "2*X^0.0= 2",
        "2*X^0.0= 2",
        "",
        "34567.678",
        "2234.779 * X^0",
        "2.2.22 *X^0 = X^0",
        "XX = XX",
        "=",
        "*",
        "-",
        "+",
        "-*=+*",
        "X^0.2 = X",
        "X^2X = X ^ 2",
        "0X = 0.0+.0.X",
    ];
    for case in cases {
        assert!(
            parse_polynomial(&(*case).to_string()).is_err(),
            "Err expected, got a polynomial. Case: {}",
            case
        );
    }
}

#[test]
fn poly_solve() {
    // each case gives the input and the exact expected solution data
    let solved = |input: &str| -> Solution {
        parse_polynomial(&input.to_string())
            .unwrap_or_else(|e| panic!("parse failed for {:?}: {:?}", input, e))
            .solve()
            .unwrap_or_else(|e| panic!("solve failed for {:?}: {:?}", input, e))
    };
    assert!(matches!(solved("0X^2 + 0X + 0 = 0"), Solution::AllReals));
    assert!(matches!(solved("0X^2 + 0X + 0.000 = 0"), Solution::AllReals));
    assert!(matches!(solved("0X^2 + 0X + 1.01 = 0"), Solution::NoSolution));
    assert!(matches!(solved("0X^2 + 0X - 1 = 0"), Solution::NoSolution));
    let one = |input: &str, num: i128, den: i128| match solved(input) {
        Solution::One { root } => {
            assert!(ratio_is(&root, num, den), "wrong root for {:?}: {:?}", input, root)
        },
        other => panic!("expected a unique root for {:?}, got {:?}", input, other),
    };
    one("0X^2 + 1X + 0 = 0", 0, 1);
    one("0X^2 + 1X + 1 = 0", -1, 1);
    one("0X^2 + 1X - 1 = 0", 1, 1);
    one("0X^2 + 4X - 1 = 0", 1, 4);
    one("0X^2 + 1958754X + 85489513218 = 0", -85489513218, 1958754);
    one("0X^2 + 1958754X - 85489513218 = 0", 85489513218, 1958754);
    let double = |input: &str, num: i128, den: i128| match solved(input) {
        Solution::Double { root } => {
            assert!(ratio_is(&root, num, den), "wrong double root for {:?}: {:?}", input, root)
        },
        other => panic!("expected a double root for {:?}, got {:?}", input, other),
    };
    double("1X^2 + 0X - 0 = 0", 0, 1);
    double("1X^2 - 1X + 0.25 = 0", 1, 2);
    double("1X^2 - 2X + 1 = 0", 1, 1);
    double("1X^2 - 3X + 2.25 = 0", 3, 2);
    double("1X^2 + 1X + 0.25 = 0", -1, 2);
    double("1X^2 + 2X + 1 = 0", -1, 1);
    double("1X^2 + 3X + 2.25 = 0", -3, 2);
    double("6 * X^0 + 11 * X^1 + 5 * X^2 = 1 * X^0 + 1 * X^1", -1, 1);
    // two real roots: axis - sqrt(disc) and axis + sqrt(disc)
    let pair = |input: &str, an: i128, ad: i128, dn: i128, dd: i128| match solved(input) {
        Solution::RealPair { axis, disc } => {
            assert!(ratio_is(&axis, an, ad), "wrong axis for {:?}: {:?}", input, axis);
            assert!(ratio_is(&disc, dn, dd), "wrong discriminant for {:?}: {:?}", input, disc);
        },
        other => panic!("expected two real roots for {:?}, got {:?}", input, other),
    };
    pair("1X^2 + 0X - 16 = 0", 0, 1, 16, 1);
    pair("1X^2 + 0X - 15241.5787502 = 0", 0, 1, 152415787502, 10000000);
    pair("1X^2 + 1X - 0.25 = 0", -1, 2, 1, 2);
    pair("1X^2 + 3X - 2.25 = 0", -3, 2, 9, 2);
    pair("1X^2 + 78X - 98 = 0", -39, 1, 1619, 1);
    let big: i128 = 7123456788;
    pair("1X^2 + 7123456788X - 91234567898 = 0", -big, 2, big * big + 4 * 91234567898, 4);
    pair("5 * X^0 + 13 * X^1 + X^2 = 1 * X^0 + 1 * X^1", -6, 1, 32, 1);
    // complex-conjugate roots: re +/- i*sqrt(im_sq)
    let complex = |input: &str, rn: i128, rd: i128, sn: i128, sd: i128| match solved(input) {
        Solution::ComplexPair { re, im_sq } => {
            assert!(ratio_is(&re, rn, rd), "wrong real part for {:?}: {:?}", input, re);
            assert!(
                ratio_is(&im_sq, sn, sd),
                "wrong squared imaginary part for {:?}: {:?}",
                input,
                im_sq
            );
        },
        other => panic!("expected complex roots for {:?}, got {:?}", input, other),
    };
    complex("1X^2 + 2X + 42 = 0", -1, 1, 41, 1);
    complex("1X^2 + 222X + 424242 = 0", -111, 1, 411921, 1);
    complex("1X^2 + 0X + 16 = 0", 0, 1, 16, 1);
    complex("1X^2 + 0X + 15241.5787502 = 0", 0, 1, 152415787502, 10000000);
    complex("5 * X^0 + 3 * X^1 + 3 * X^2 = 1 * X^0 + 0 * X^1", -1, 2, 13, 12);
    // the linear case reached through a full equation
    one("5 * X^0 = 4 * X^0 + 7 * X^1", 1, 7);
    assert!(matches!(solved("5 * X^0 = 5 * X^0"), Solution::AllReals));
}
