use ttt::source::{Expr, Parser};

#[test]
fn test_parse_simple_identifier() {
    let mut parser = Parser::from_str("a");
    let result = parser.parse().unwrap();
    assert_eq!(result, Expr::Identifier("a".to_string()));
}

#[test]
fn test_parse_not() {
    let mut parser = Parser::from_str("not a");
    let result = parser.parse().unwrap();
    assert_eq!(result, Expr::Not(Box::new(Expr::Identifier("a".to_string()))));
}

#[test]
fn test_parse_and() {
    let mut parser = Parser::from_str("a and b");
    let result = parser.parse().unwrap();
    assert_eq!(
        result,
        Expr::And(
            Box::new(Expr::Identifier("a".to_string())),
            Box::new(Expr::Identifier("b".to_string()))
        )
    );
}

#[test]
fn test_parse_complex() {
    let mut parser = Parser::from_str("a or not b");
    let result = parser.parse().unwrap();
    assert_eq!(
        result,
        Expr::Or(
            Box::new(Expr::Identifier("a".to_string())),
            Box::new(Expr::Not(Box::new(Expr::Identifier("b".to_string()))))
        )
    );
}

#[test]
fn test_parse_with_parentheses() {
    let mut parser = Parser::from_str("(a or b) and c");
    let result = parser.parse().unwrap();
    assert_eq!(
        result,
        Expr::And(
            Box::new(Expr::Or(
                Box::new(Expr::Identifier("a".to_string())),
                Box::new(Expr::Identifier("b".to_string()))
            )),
            Box::new(Expr::Identifier("c".to_string()))
        )
    );
}

#[test]
fn parser_test_operator_precedence() {
    let mut parser = Parser::from_str("a or b and c");
    let result = parser.parse().unwrap();
    // Should parse as: a or (b and c)
    assert_eq!(
        result,
        Expr::Or(
            Box::new(Expr::Identifier("a".to_string())),
            Box::new(Expr::And(
                Box::new(Expr::Identifier("b".to_string())),
                Box::new(Expr::Identifier("c".to_string()))
            ))
        )
    );
}

#[test]
fn test_implication() {
    let mut parser = Parser::from_str("a -> b");
    let result = parser.parse().unwrap();
    assert_eq!(
        result,
        Expr::Implication(
            Box::new(Expr::Identifier("a".to_string())),
            Box::new(Expr::Identifier("b".to_string()))
        )
    );
}
