use ttt::source::{Lexer, Token};

#[test]
fn test_word_operators() {
    let test_cases = [
        ("and", vec![Token::And, Token::Eof]),
        ("or", vec![Token::Or, Token::Eof]),
        ("not", vec![Token::Not, Token::Eof]),
        ("xor", vec![Token::Xor, Token::Eof]),
    ];

    for (input, expected) in test_cases {
        let mut lexer = Lexer::new(input);
        let tokens = lexer.tokenize();
        assert_eq!(tokens, expected, "Failed for input: {}", input);
    }
}

#[test]
fn test_symbol_operators() {
    let test_cases = [
        ("&&", vec![Token::And, Token::Eof]),
        ("||", vec![Token::Or, Token::Eof]),
        ("!", vec![Token::Not, Token::Eof]),
        ("->", vec![Token::Implication, Token::Eof]),
    ];

    for (input, expected) in test_cases {
        let mut lexer = Lexer::new(input);
        let tokens = lexer.tokenize();
        assert_eq!(tokens, expected, "Failed for input: {}", input);
    }
}

#[test]
fn test_unicode_operators() {
    let test_cases = [
        ("\u{2227}", vec![Token::And, Token::Eof]),
        ("\u{2228}", vec![Token::Or, Token::Eof]),
        ("\u{00ac}", vec![Token::Not, Token::Eof]),
        ("\u{2192}", vec![Token::Implication, Token::Eof]),
        ("\u{22bb}", vec![Token::Xor, Token::Eof]),
        ("\u{2295}", vec![Token::Xor, Token::Eof]),
    ];

    for (input, expected) in test_cases {
        let mut lexer = Lexer::new(input);
        let tokens = lexer.tokenize();
        assert_eq!(tokens, expected, "Failed for input: {}", input);
    }
}

#[test]
fn test_identifiers() {
    let test_cases = [
        ("a", vec![Token::Identifier("a".to_string()), Token::Eof]),
        ("variable", vec![Token::Identifier("variable".to_string()), Token::Eof]),
        ("var_name", vec![Token::Identifier("var_name".to_string()), Token::Eof]),
    ];

    for (input, expected) in test_cases {
        let mut lexer = Lexer::new(input);
        let tokens = lexer.tokenize();
        assert_eq!(tokens, expected, "Failed for input: {}", input);
    }
}

#[test]
fn test_complex_expression() {
    let mut lexer = Lexer::new("a and b or not c");
    let tokens = lexer.tokenize();
    assert_eq!(
        tokens,
        vec![
            Token::Identifier("a".to_string()),
            Token::And,
            Token::Identifier("b".to_string()),
            Token::Or,
            Token::Not,
            Token::Identifier("c".to_string()),
            Token::Eof
        ]
    );
}

#[test]
fn test_whitespace_handling() {
    let inputs = ["a and b", "  a   and   b  ", "\ta\nand\r\nb\t"];

    let expected = vec![
        Token::Identifier("a".to_string()),
        Token::And,
        Token::Identifier("b".to_string()),
        Token::Eof,
    ];

    for input in inputs {
        let mut lexer = Lexer::new(input);
        let tokens = lexer.tokenize();
        assert_eq!(tokens, expected, "Failed for input: {:?}", input);
    }
}
