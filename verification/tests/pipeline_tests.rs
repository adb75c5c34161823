use calculator::error::CalcError;
use calculator::interpret::eval;
use calculator::lexeme::{get_tokens, show_tokens, token_text, Token};
use calculator::parsing::{Expression, Parser};
use calculator::{calculate, lexeme, render_expr, tree};

#[test]
fn test_token_partial_eq() {
    assert_eq!(Token::Number(0.0.to_string()), Token::Number(0.0.to_string()));
    assert!(Token::Number(114.514.to_string()) == Token::Number(233.3.to_string()));
    assert_ne!(Token::Number(0.0.to_string()), Token::Fin);
}

#[test]
fn lexeme_test_token_partial_eq() {
    assert_eq!(Token::Number(0.0.to_string()), Token::Number(0.0.to_string()));
    assert!(Token::Number(114.514.to_string()) == Token::Number(233.3.to_string()));
    assert_ne!(Token::Number(0.0.to_string()), Token::Fin);
}

#[test]
fn test_token_display() {
    println!("{}", token_text(&Token::Number("114514".to_string())));
    println!("{}", token_text(&Token::Plus));
    assert_eq!(token_text(&Token::Number("114514".to_string())), "Number(\"114514\")");
    assert_eq!(token_text(&Token::Plus), "Plus");
}

#[test]
fn lexeme_test() {
    let tokens = get_tokens("114 + .514 - (19.19 * (-8)) / 10").unwrap();
    println!("{:#?}", tokens);
    println!("[\n{}\n]", show_tokens(&tokens));

    let tokens = get_tokens(".1").unwrap();
    println!("{:#?}", tokens);
    println!("[\n{}\n]", show_tokens(&tokens));
    assert_eq!(tokens.len(), 1);
    assert_eq!(token_text(&tokens[0]), "Number(\".1\")");
}

#[test]
fn lexeme_test_tokens() {
    let tokens = get_tokens("114 + .514 - (19.19 * (-8)) / 10").unwrap();
    println!("{:#?}", tokens);
    assert_eq!(tokens.len(), 14);
}

#[test]
fn parsing_test() {
    let examples: Vec<&str> = vec![
        "1",
        "1 * 2",
        "         1.14 \t\n +      5.1 * \t0.4",
        "1 / 2 * 3",
        "1 * 2 / 3",
        "-(114 * (5 + 1)) / 4",
        "1 * 2 ^ (3 + 4)",
    ];
    for example in examples {
        let ts = get_tokens(example).unwrap();
        let mut p = Parser::new(ts);
        let e = p.parse().unwrap();
        println!("Text: {:#?}\nExpr: {}\n", example, render_expr(&e));
    }
}

#[test]
fn parsing_test_basic() {
    let examples: Vec<&str> = vec![
        "1",
        "1 * 2",
        "         1.14 \t\n +      5.1 * \t0.4",
        "1 / 2 * 3",
        "1 * 2 / 3",
        "-(114 * (5 + 1)) / 4",
    ];
    for example in examples {
        let ts = get_tokens(example).unwrap();
        let mut p = Parser::new(ts);
        let e = p.parse().unwrap();
        println!("Text: {}\nExpr: {:#?}\n", example, render_expr(&e));
    }
}

#[test]
fn parse_empty_reports_unexpected_end() {
    for example in [" ", "", "\n"] {
        let ts = get_tokens(example).unwrap();
        assert!(ts.is_empty());
        let mut p = Parser::new(ts);
        assert_eq!(p.parse().map(|e| render_expr(&e)), Err(CalcError::UnexpectedEnd));
    }
}

#[test]
fn sum_of_tenths_is_exact_end_to_end() {
    assert_eq!(calculate("0.1 + 0.1 + 0.1".to_string()), "0.3");
    assert_eq!(calculate("(0.1 + 0.1 + 0.1) * 1000".to_string()), "300.0");
}

#[test]
fn precedence_end_to_end() {
    assert_eq!(calculate("1.14 + 5.1 * 0.4".to_string()), "3.18");
    assert_eq!(calculate("1 + 2 * 3".to_string()), "7.0");
    assert_eq!(calculate("1 * 2 ^ (3 + 4)".to_string()), "128.0");
}

#[test]
fn parenthesized_unary_end_to_end() {
    assert_eq!(calculate("-(114 * (5 + 1)) / 4".to_string()), "-171.0");
}

#[test]
fn malformed_syntax_is_rejected() {
    assert_eq!(calculate(".1) + (.1".to_string()), "@error");
    let ts = get_tokens(".1) + (.1").unwrap();
    let mut p = Parser::new(ts);
    assert_eq!(p.parse().map(|e| render_expr(&e)), Err(CalcError::UnexpectedToken));
}

#[test]
fn foreign_characters_are_rejected() {
    assert_eq!(get_tokens("1 $ 2").map(|v| v.len()), Err(CalcError::UnexpectedToken));
    assert_eq!(calculate("1 $ 2".to_string()), "@error");
    assert_eq!(lexeme("1 $ 2".to_string()), "@error");
}

#[test]
fn evaluation_errors_become_the_sentinel() {
    assert_eq!(calculate("1 / 0".to_string()), "@error");
    assert_eq!(calculate("2 ^ -1".to_string()), "@error");
    assert_eq!(calculate("2 ^ 2.5".to_string()), "@error");
    assert_eq!(calculate("1 +".to_string()), "@error");
    assert_eq!(calculate("".to_string()), "@error");
    assert_eq!(calculate("1.2.3 + 1".to_string()), "@error");
}

#[test]
fn power_end_to_end() {
    assert_eq!(calculate("2 ^ 8".to_string()), "256.0");
    assert_eq!(calculate("2 ^ 3 ^ 2".to_string()), "64.0");
}

#[test]
fn division_end_to_end() {
    assert_eq!(calculate("23.3 / 0.1".to_string()), "233.0");
    assert_eq!(calculate("1.14 / 10".to_string()), "0.114");
    assert_eq!(calculate("1 / 3".to_string()), "@error");
}

#[test]
fn eval_rejects_trees_no_parse_produces() {
    let bad_unary = Expression::Unary {
        op: Token::Multiply,
        expr: Box::new(Expression::Number("1".to_string())),
    };
    assert_eq!(eval(bad_unary), Err(CalcError::MalformedTree));
    let bad_binary = Expression::Binary {
        op: Token::OpenParenthesis,
        left: Box::new(Expression::Number("1".to_string())),
        right: Box::new(Expression::Number("2".to_string())),
    };
    assert_eq!(eval(bad_binary), Err(CalcError::MalformedTree));
}

#[test]
fn eval_defers_literal_conversion() {
    let ts = get_tokens("1.2.3").unwrap();
    let mut p = Parser::new(ts);
    let e = p.parse().unwrap();
    assert_eq!(eval(e), Err(CalcError::MalformedNumber));
}

#[test]
fn lexeme_renders_one_token_per_line() {
    assert_eq!(
        lexeme("1 + 2".to_string()),
        "Number(\"1\")\nPlus\nNumber(\"2\")"
    );
    assert_eq!(lexeme("".to_string()), "");
}

#[test]
fn tree_renders_the_parse() {
    assert_eq!(
        tree("1 * 2".to_string()),
        "Binary(Multiply, Number(\"1\"), Number(\"2\"))"
    );
    assert_eq!(
        tree("-1".to_string()),
        "Unary(Minus, Number(\"1\"))"
    );
    assert_eq!(tree(".1) + (.1".to_string()), "@error");
}
