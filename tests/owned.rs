use sexpression::{read, Expression, OwnedExpression, OwnedSymbol, StringOwnedSymbol};

fn sym(s: &str) -> OwnedExpression<StringOwnedSymbol> {
    OwnedExpression::Symbol(StringOwnedSymbol::from_str(s))
}

#[test]
fn to_owned_symbol() {
    let borrowed = Expression::Symbol("hello");
    let owned: OwnedExpression<StringOwnedSymbol> = borrowed.to_owned();
    assert_eq!(owned, sym("hello"));
}

#[test]
fn to_owned_keeps_structure() {
    let owned: OwnedExpression = {
        let src = String::from("(define x \"s\" 4 (true null) ())");
        let e = read(&src).unwrap();
        e.to_owned()
    };
    assert_eq!(
        owned,
        OwnedExpression::List(vec![
            sym("define"),
            sym("x"),
            OwnedExpression::Str("s".to_string()),
            OwnedExpression::Number("4".to_string()),
            OwnedExpression::List(vec![OwnedExpression::Bool(true), OwnedExpression::Null]),
            OwnedExpression::List(vec![]),
        ])
    );
}

#[test]
fn string_symbol_displays_its_text() {
    let s = StringOwnedSymbol::from_str("std::vector");
    assert_eq!(s.display(), "std::vector");
    assert_eq!(s.name, "std::vector");
}
