use sexpression::{read, read_unchecked, tokenize, Expression, ParseError};

fn number_value(e: &Expression) -> f64 {
    match e {
        Expression::Number(t) => t.parse::<f64>().unwrap(),
        other => panic!("not a number: {:?}", other),
    }
}

#[test]
fn tokenize_test() {
    assert_eq!(tokenize("this is a test"), vec!["this", "is", "a", "test"]);
    assert_eq!(tokenize("(hello world)"), vec!["(", "hello", "world", ")"]);
}

#[test]
fn read_test() {
    let result = read("(1 symbol \"string\" true null (1.5))").unwrap();
    println!("{:?}", result);

    assert!(read("(unclosed").is_err());
    assert!(read(")unexpected").is_err());
}

#[test]
fn fast_path_tests() {
    let result = read("a").unwrap();
    assert!(matches!(result, Expression::Symbol("a")));

    let result = read("42").unwrap();
    assert!(matches!(result, Expression::Number(_)));
    assert_eq!(number_value(&result), 42.0);

    let result = read("-3.14").unwrap();
    assert!(matches!(result, Expression::Number(_)));
    assert_eq!(number_value(&result), -3.14);
}

#[test]
fn performance_test() {
    let input = "(define (factorial n) (if (= n 0) 1 (* n (factorial (- n 1)))))";
    let start = std::time::Instant::now();
    for _ in 0..1000 {
        let _ = read(input);
    }
    let duration = start.elapsed();
    println!("Parsed 1000 times in {:?}", duration);
}

#[test]
fn read_define_list() {
    let e = read("(define x 42)").unwrap();
    assert_eq!(
        e,
        Expression::List(vec![
            Expression::Symbol("define"),
            Expression::Symbol("x"),
            Expression::Number("42"),
        ])
    );
    if let Expression::List(items) = &e {
        assert_eq!(number_value(&items[2]), 42.0);
    }
}

#[test]
fn read_nested_list() {
    let e = read("(1 symbol \"string\" true null (1.5))").unwrap();
    assert_eq!(
        e,
        Expression::List(vec![
            Expression::Number("1"),
            Expression::Symbol("symbol"),
            Expression::Str("string"),
            Expression::Bool(true),
            Expression::Null,
            Expression::List(vec![Expression::Number("1.5")]),
        ])
    );
}

#[test]
fn read_errors() {
    assert_eq!(read("(unclosed"), Err(ParseError::MissingClosingParen));
    assert_eq!(read(")unexpected"), Err(ParseError::UnexpectedClosingParen));
    assert_eq!(read(""), Err(ParseError::UnexpectedEOF));
    assert_eq!(read("  \n\t "), Err(ParseError::UnexpectedEOF));
    assert_eq!(read("((a) (b)"), Err(ParseError::MissingClosingParen));
    assert_eq!(read("("), Err(ParseError::MissingClosingParen));
    assert_eq!(read(")"), Err(ParseError::UnexpectedClosingParen));
}

#[test]
fn quoted_text_with_space_is_two_atoms() {
    assert_eq!(tokenize("\"hello world\""), vec!["\"hello", "world\""]);
    assert_eq!(read("\"hello world\""), Ok(Expression::Symbol("\"hello")));
}

#[test]
fn read_keywords_and_numbers() {
    assert_eq!(read("true"), Ok(Expression::Bool(true)));
    assert_eq!(read("false"), Ok(Expression::Bool(false)));
    assert_eq!(read("null"), Ok(Expression::Null));
    let e = read("-3.14").unwrap();
    assert_eq!(e, Expression::Number("-3.14"));
    assert_eq!(number_value(&e), -3.14);
}

#[test]
fn trailing_tokens_are_ignored() {
    assert_eq!(read("a b"), Ok(Expression::Symbol("a")));
    assert_eq!(read("(a))"), Ok(Expression::List(vec![Expression::Symbol("a")])));
    assert_eq!(read("() )"), Ok(Expression::List(vec![])));
}

#[test]
fn balanced_parens_read() {
    assert!(read("(a (b c) ((d)))").is_ok());
    assert!(read("(a (b c) ((d))").is_err());
    assert!(read(")(").is_err());
}

#[test]
fn read_unchecked_returns_expression() {
    assert_eq!(
        read_unchecked("(hello world)"),
        Expression::List(vec![Expression::Symbol("hello"), Expression::Symbol("world")])
    );
}

#[test]
fn quote_character_is_a_symbol() {
    assert_eq!(tokenize("'(a)"), vec!["'", "(", "a", ")"]);
    assert_eq!(read("'a"), Ok(Expression::Symbol("'")));
}

#[test]
fn structural_characters_split_atoms() {
    assert_eq!(tokenize("(foo)"), vec!["(", "foo", ")"]);
    assert_eq!(tokenize("a'b"), vec!["a", "'", "b"]);
    assert_eq!(tokenize("x)(y"), vec!["x", ")", "(", "y"]);
}

#[test]
fn unicode_white_space_separates_tokens() {
    assert_eq!(tokenize("a\u{A0}b"), vec!["a", "b"]);
    assert_eq!(tokenize("a\u{3000}(b\u{2003}c)"), vec!["a", "(", "b", "c", ")"]);
    assert_eq!(tokenize("\u{85}x\r\ny\u{B}"), vec!["x", "y"]);
    assert_eq!(tokenize("caf\u{E9} \u{1F600}"), vec!["caf\u{E9}", "\u{1F600}"]);
}

#[test]
fn tokenize_twice_is_the_same() {
    let src = "(define (f x) (g 'x \"s\"))";
    assert_eq!(tokenize(src), tokenize(src));
}

#[test]
fn tokenize_empty_and_blank() {
    assert!(tokenize("").is_empty());
    assert!(tokenize(" \t\n").is_empty());
}

#[test]
fn tokenize_of_spaced_tokens_is_the_same() {
    let src = "(define(f x)'(g \"s\"))\u{A0}tail";
    let tokens = tokenize(src);
    let mut spaced = String::new();
    for t in &tokens {
        spaced.push_str(t);
        spaced.push(' ');
    }
    assert_eq!(tokenize(&spaced), tokens);
    assert_eq!(
        tokens,
        vec!["(", "define", "(", "f", "x", ")", "'", "(", "g", "\"s\"", ")", ")", "tail"]
    );
}
