use ttt::source::{Expr, Parser};

/// The worked table example.
#[test]
fn test_readme_table_example() {
    let mut parser = Parser::new("a or not b");
    let result = parser.parse().expect("Should parse README table example");

    let expected = Expr::Or(
        Box::new(Expr::Identifier("a".to_string())),
        Box::new(Expr::Not(Box::new(Expr::Identifier("b".to_string())))),
    );

    assert_eq!(result, expected);
    assert_eq!(result.to_text(), "(a \u{2228} \u{00ac}b)");
}

#[test]
fn test_readme_equivalence_examples() {
    let left_expr = "a or not b";
    let right_expr = "not a or b";

    let mut parser1 = Parser::new(left_expr);
    let left_result = parser1.parse().expect("Should parse left expression");

    let mut parser2 = Parser::new(right_expr);
    let right_result = parser2.parse().expect("Should parse right expression");

    let expected_left = Expr::Or(
        Box::new(Expr::Identifier("a".to_string())),
        Box::new(Expr::Not(Box::new(Expr::Identifier("b".to_string())))),
    );

    let expected_right = Expr::Or(
        Box::new(Expr::Not(Box::new(Expr::Identifier("a".to_string())))),
        Box::new(Expr::Identifier("b".to_string())),
    );

    assert_eq!(left_result, expected_left);
    assert_eq!(right_result, expected_right);
}

#[test]
fn test_readme_grammar_examples() {
    // Every operator spelling of the grammar
    let operator_examples = [
        ("a && b", "and operator with &&"),
        ("a \u{2227} b", "and operator with \u{2227}"),
        ("a and b", "and operator with word"),
        ("a || b", "or operator with ||"),
        ("a \u{2228} b", "or operator with \u{2228}"),
        ("a or b", "or operator with word"),
        ("!a", "not operator with !"),
        ("\u{00ac}a", "not operator with \u{00ac}"),
        ("not a", "not operator with word"),
        ("a -> b", "implication with ->"),
        ("a \u{2192} b", "implication with \u{2192}"),
        ("a xor b", "xor operator with word"),
        ("a \u{22bb} b", "xor operator with \u{22bb}"),
        ("a \u{2295} b", "xor operator with \u{2295}"),
    ];

    for (expr, description) in operator_examples {
        let mut parser = Parser::new(expr);
        let result = parser.parse();
        assert!(result.is_ok(), "Failed to parse {}: {}", description, expr);
    }
}

#[test]
fn test_readme_grammar_structure() {
    // Just an identifier
    let mut parser1 = Parser::new("x");
    assert!(parser1.parse().is_ok());

    // Unary operator + identifier
    let mut parser2 = Parser::new("not x");
    assert!(parser2.parse().is_ok());

    // Identifier + binary operator + expression
    let mut parser3 = Parser::new("x and y");
    assert!(parser3.parse().is_ok());

    // Unary operator + identifier + binary operator + expression
    let mut parser4 = Parser::new("not x and y");
    assert!(parser4.parse().is_ok());

    // Complex nested case
    let mut parser5 = Parser::new("not x and y or z");
    assert!(parser5.parse().is_ok());
}

#[test]
fn test_identifier_constraints() {
    // Valid identifiers
    let valid_identifiers = ["a", "variable", "var_name", "P", "Q", "proposition"];
    for id in valid_identifiers {
        let mut parser = Parser::new(id);
        let result = parser.parse().expect(&format!("Should parse identifier: {}", id));
        assert_eq!(result, Expr::Identifier(id.to_string()));
    }

    // Keywords act as operators, never as identifiers
    let keyword_expressions =
        [("a and b", "and"), ("a or b", "or"), ("not a", "not"), ("a xor b", "xor")];
    for (expr, keyword) in keyword_expressions {
        let mut parser = Parser::new(expr);
        let result = parser.parse();
        assert!(result.is_ok(), "Keywords should work as operators: {} in '{}'", keyword, expr);

        if let Ok(parsed_expr) = result {
            match parsed_expr {
                Expr::Identifier(name) => {
                    if name == keyword {
                        panic!(
                            "Keyword '{}' was parsed as identifier instead of operator",
                            keyword
                        );
                    }
                }
                _ => {}
            }
        }
    }
}
