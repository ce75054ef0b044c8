use sexpression::{parse_atom, tokenize, Expression};

#[test]
fn single_digit_is_a_number() {
    assert_eq!(parse_atom("5"), Expression::Number("5"));
    assert_eq!(parse_atom("a"), Expression::Symbol("a"));
    assert_eq!(parse_atom("+"), Expression::Symbol("+"));
    assert_eq!(parse_atom("-"), Expression::Symbol("-"));
}

#[test]
fn float_literal_forms() {
    for t in [
        "1e5", "1E-3", "+2.", "-0.5", "3.25e+2", "-inf", "+Infinity", "-NaN", "007", "1.", "+.5",
        "-.5e-3", "1e+5", "-INF", "+iNfInItY", "9e99999",
    ] {
        assert_eq!(parse_atom(t), Expression::Number(t), "{}", t);
        assert!(t.parse::<f64>().is_ok());
    }
    for t in [
        "1e", "1.2.3", "-.", "+e5", "1_000", "1x", "-infinite", "12abc", "1e+", "+-1", "0x10",
        "1e5.0", "-in", "--1", "1ee5",
    ] {
        assert_eq!(parse_atom(t), Expression::Symbol(t), "{}", t);
        assert!(t.parse::<f64>().is_err());
    }
}

#[test]
fn number_needs_a_digit_or_sign_first() {
    assert_eq!(parse_atom(".5"), Expression::Symbol(".5"));
    assert_eq!(parse_atom("inf"), Expression::Symbol("inf"));
    assert_eq!(parse_atom("nan"), Expression::Symbol("nan"));
}

#[test]
fn keywords() {
    assert_eq!(parse_atom("true"), Expression::Bool(true));
    assert_eq!(parse_atom("false"), Expression::Bool(false));
    assert_eq!(parse_atom("null"), Expression::Null);
    assert_eq!(parse_atom("True"), Expression::Symbol("True"));
    assert_eq!(parse_atom("nulls"), Expression::Symbol("nulls"));
}

#[test]
fn string_literals() {
    assert_eq!(parse_atom("\"abc\""), Expression::Str("abc"));
    assert_eq!(parse_atom("\"\""), Expression::Str(""));
    assert_eq!(parse_atom("\"\u{E9}t\u{E9}\""), Expression::Str("\u{E9}t\u{E9}"));
    assert_eq!(parse_atom("\""), Expression::Symbol("\""));
    assert_eq!(parse_atom("\"abc"), Expression::Symbol("\"abc"));
}

fn written(e: &Expression) -> String {
    match e {
        Expression::Number(t) => t.to_string(),
        Expression::Bool(b) => b.to_string(),
        Expression::Str(t) => format!("\"{}\"", t),
        Expression::Symbol(t) => t.to_string(),
        Expression::Null => "null".to_string(),
        Expression::List(_) => panic!("not an atom"),
    }
}

#[test]
fn classified_tokens_write_back() {
    let src = "(f true false null \"s\" -2.5e3 sym 'q \"x y\")";
    for t in tokenize(src) {
        if t == "(" || t == ")" {
            continue;
        }
        assert_eq!(written(&parse_atom(t)), t);
    }
    assert_eq!(parse_atom("true"), Expression::Bool(true));
}
