use panic_calculators::bignum::{BigInt, BigNat};
use panic_calculators::expression_parser::{
    evaluate, parse, parse_to_int, parse_to_natural, power_with_estimate, tokenize, try_parse_to_int,
    try_parse_to_natural, Token,
};

fn never(_: &BigInt, _: &BigInt) -> bool {
    false
}

fn always(_: &BigInt, _: &BigInt) -> bool {
    true
}

fn eval(s: &str) -> Result<String, String> {
    parse_to_int(s, &never).map(|v| v.to_decimal())
}

fn integer(s: &str) -> BigInt {
    BigInt::from_decimal(s).unwrap()
}

#[test]
fn tokenize_splits_words_and_operators() {
    let t = tokenize("12+ab*(3.5)").unwrap();
    assert_eq!(t.len(), 7);
    assert!(matches!(&t[0], Token::Num(s) if s == "12"));
    assert!(matches!(t[1], Token::Add));
    assert!(matches!(&t[2], Token::Func(s) if s == "ab"));
    assert!(matches!(t[3], Token::Mul));
    assert!(matches!(t[4], Token::LPar));
    assert!(matches!(&t[5], Token::Num(s) if s == "3.5"));
    assert!(matches!(t[6], Token::RPar));
}

#[test]
fn tokenize_whitespace_separates_words() {
    let t = tokenize(" 1 2\t,x ").unwrap();
    assert_eq!(t.len(), 4);
    assert!(matches!(&t[0], Token::Num(s) if s == "1"));
    assert!(matches!(&t[1], Token::Num(s) if s == "2"));
    assert!(matches!(t[2], Token::Comma));
    assert!(matches!(&t[3], Token::Func(s) if s == "x"));
}

#[test]
fn tokenize_every_operator() {
    let t = tokenize("+-*/%^!(),").unwrap();
    assert_eq!(t.len(), 10);
    assert!(matches!(t[0], Token::Add));
    assert!(matches!(t[1], Token::Sub));
    assert!(matches!(t[2], Token::Mul));
    assert!(matches!(t[3], Token::Div));
    assert!(matches!(t[4], Token::Mod));
    assert!(matches!(t[5], Token::Pow));
    assert!(matches!(t[6], Token::Fac));
    assert!(matches!(t[7], Token::LPar));
    assert!(matches!(t[8], Token::RPar));
    assert!(matches!(t[9], Token::Comma));
}

#[test]
fn tokenize_unknown_operator() {
    match tokenize("1 $ 2") {
        Err(m) => assert_eq!(m, "Unknown operator $"),
        Ok(_) => panic!("expected an error"),
    }
    assert!(tokenize("").unwrap().is_empty());
}

#[test]
fn parse_errors() {
    let cases = [
        ("", "Empty expression"),
        ("(", "Malformed"),
        ("1+", "Empty expression"),
        ("(1", "Unmatched ("),
        ("1)", "Unmatched )"),
        ("foo(2)", "Invalid function name foo"),
        ("2 3", "No operations"),
        ("3!2", "Invalid expression, operator missing"),
        ("2 isqrt(4)", "Invalid expression, operator missing"),
    ];
    for (s, m) in cases {
        let tokens = tokenize(s).unwrap();
        match parse(&tokens) {
            Err(e) => assert_eq!(e, m, "for {:?}", s),
            Ok(_) => panic!("expected an error for {:?}", s),
        }
    }
}

#[test]
fn parse_then_evaluate() {
    let tokens = tokenize("1 + 2 * 3").unwrap();
    let e = parse(&tokens).unwrap();
    assert_eq!(evaluate(&e, &never).unwrap().to_decimal(), "7");
}

#[test]
fn evaluation_values() {
    let cases = [
        ("2^10 - isqrt(50) * 3!", "982"),
        ("1 - 2 - 3", "-4"),
        ("2 ^ 3 ^ 2", "512"),
        ("-7/2", "-3"),
        ("(0-7) % 3", "-1"),
        ("7 % (0-3)", "1"),
        ("+5", "5"),
        ("(-1)^3", "-1"),
        ("(-1)^(0-4)", "1"),
        ("1^(0-5)", "1"),
        ("5!", "120"),
        ("0!", "1"),
        ("isqrt(99)", "9"),
        ("((((42))))", "42"),
        ("1+2*3", "7"),
        ("10-2-3", "5"),
        ("(0-7)/2", "-3"),
        ("7/(0-2)", "-3"),
        ("3!!", "720"),
        ("isqrt(17)", "4"),
        ("-2^2", "-4"),
        ("100000000000000000000 * 100000000000000000000", "10000000000000000000000000000000000000000"),
    ];
    for (s, v) in cases {
        assert_eq!(eval(s), Ok(v.to_string()), "for {:?}", s);
    }
}

#[test]
fn evaluation_failures() {
    let cases = [
        ("1/0", "Division by 0"),
        ("7 % 0", "Modulo by 0"),
        ("2^(0-1)", "Exponent is negative but |base| > 1"),
        ("2^100000", "Exponentiation result is too large (>= 2^100000)"),
        ("(0-3)!", "factorial of a negative number"),
        ("9000!", "factorial result is too large (>= 2^100000"),
        ("isqrt(0-4)", "isqrt of negative"),
        ("1.5", "Number literal can't be converted to an integer"),
        ("1 $ 2", "Unknown operator $"),
        ("(1/0) + (2 % 0)", "Division by 0"),
        ("(2 % 0) + (1/0)", "Modulo by 0"),
    ];
    for (s, m) in cases {
        assert_eq!(eval(s), Err(m.to_string()), "for {:?}", s);
    }
}

#[test]
fn size_estimate_refusal() {
    match parse_to_int("2^3", &always) {
        Err(m) => assert_eq!(m, "Exponentiation result is too large (>= 2^100000)"),
        Ok(_) => panic!("expected the estimate to refuse"),
    }
    // the estimate is not consulted for a base of 1 or -1
    assert_eq!(parse_to_int("1^5", &always).unwrap().to_decimal(), "1");
}

#[test]
fn power_with_estimate_values() {
    assert_eq!(power_with_estimate(integer("3"), integer("4"), false).unwrap().to_decimal(), "81");
    assert_eq!(power_with_estimate(integer("-2"), integer("3"), false).unwrap().to_decimal(), "-8");
    assert_eq!(
        power_with_estimate(integer("3"), integer("4"), true).unwrap_err(),
        "Exponentiation result is too large (>= 2^100000)"
    );
    assert_eq!(power_with_estimate(integer("-1"), integer("7"), true).unwrap().to_decimal(), "-1");
}

#[test]
fn try_parse_reports_panicking_inputs() {
    assert!(try_parse_to_int("0^2", &never).is_none());
    assert!(try_parse_to_int("2^0", &never).is_none());
    assert_eq!(try_parse_to_int("1+1", &never).unwrap().unwrap().to_decimal(), "2");
    assert_eq!(try_parse_to_int("1/0", &never).unwrap().unwrap_err(), "Division by 0");
    assert!(try_parse_to_natural("0^2", &never).is_none());
    assert_eq!(try_parse_to_natural("3-5", &never).unwrap().unwrap_err(), "Not a natural");
}

#[test]
fn natural_results() {
    let v: BigNat = parse_to_natural("2*3", &never).unwrap();
    assert_eq!(v.to_decimal(), "6");
    assert_eq!(parse_to_natural("3-5", &never).unwrap_err(), "Not a natural");
    assert_eq!(parse_to_natural("1/0", &never).unwrap_err(), "Division by 0");
}

#[test]
fn parentheses_are_transparent() {
    for s in ["1+2", "2*3-4", "isqrt(17)", "5!", "1/0", "3!2", "", "(7)"] {
        let inner = tokenize(s).unwrap();
        let outer = tokenize(&format!("({})", s)).unwrap();
        match (parse(&inner), parse(&outer)) {
            (Ok(a), Ok(b)) => assert_eq!(
                evaluate(&a, &never).map(|v| v.to_decimal()),
                evaluate(&b, &never).map(|v| v.to_decimal())
            ),
            (Err(a), Err(b)) => assert_eq!(a, b),
            _ => panic!("parses differ for {:?}", s),
        }
    }
}
