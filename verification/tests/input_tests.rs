use ttt::eval::{Assignment, EquivalenceCheck, Reduction, TruthTable, TruthTableRow, Variables};
use ttt::io::input::InputHandler;
use ttt::io::output::{
    format_equivalence_result, format_reduction_result, format_truth_table, OutputFormat,
};
use ttt::source::Expr;

#[test]
fn test_single_expression_from_args() {
    let args = vec!["a".to_string(), "and".to_string(), "b".to_string()];
    let result = InputHandler::get_single_expression(args).unwrap();
    assert_eq!(result, "a and b");
}

#[test]
fn test_expression_pair_with_two_args() {
    let result =
        InputHandler::get_expression_pair(vec!["a and b".to_string(), "b and a".to_string()])
            .unwrap();
    assert_eq!(result.0, "a and b");
    assert_eq!(result.1, "b and a");
}

#[test]
fn test_expression_pair_error_cases() {
    // Too few expressions
    let result = InputHandler::get_expression_pair(vec!["only one".to_string()]);
    assert!(result.is_err());

    // Too many expressions
    let result = InputHandler::get_expression_pair(vec![
        "one".to_string(),
        "two".to_string(),
        "three".to_string(),
    ]);
    assert!(result.is_err());
}

#[test]
fn test_multiple_expressions() {
    let args = vec!["expr1".to_string(), "expr2".to_string(), "expr3".to_string()];
    let result = InputHandler::get_multiple_expressions(args, Some(3)).unwrap();
    assert_eq!(result, vec!["expr1", "expr2", "expr3"]);
}

#[test]
fn test_multiple_expressions_count_mismatch() {
    let args = vec!["expr1".to_string(), "expr2".to_string()];
    let result = InputHandler::get_multiple_expressions(args, Some(3));
    assert!(result.is_err());
}

#[test]
fn test_input_handler_single_expression() {
    let args = vec!["a".to_string(), "and".to_string(), "b".to_string()];
    let result = InputHandler::get_single_expression(args).unwrap();
    assert_eq!(result, "a and b");
}

#[test]
fn test_input_handler_expression_pair() {
    let result =
        InputHandler::get_expression_pair(vec!["a and b".to_string(), "b and a".to_string()])
            .unwrap();
    assert_eq!(result.0, "a and b");
    assert_eq!(result.1, "b and a");
}

#[test]
fn test_input_handler_expression_pair_different_args() {
    let result =
        InputHandler::get_expression_pair(vec!["a or b".to_string(), "b or a".to_string()])
            .unwrap();
    assert_eq!(result.0, "a or b");
    assert_eq!(result.1, "b or a");
}

#[test]
fn test_input_handler_expression_pair_error_cases() {
    // Too few expressions
    let result = InputHandler::get_expression_pair(vec!["only one".to_string()]);
    assert!(result.is_err());

    // Too many expressions
    let result = InputHandler::get_expression_pair(vec![
        "one".to_string(),
        "two".to_string(),
        "three".to_string(),
    ]);
    assert!(result.is_err());
}

#[test]
fn test_display_functions_dont_panic() {
    // These tests verify that the display functions do not panic

    // Truth table display
    let variables = Variables::from_expr(&Expr::And(
        Box::new(Expr::Identifier("a".to_string())),
        Box::new(Expr::Identifier("b".to_string())),
    ))
    .unwrap();

    let mut assignments = Assignment::new();
    assignments.insert("a".to_string(), false);
    assignments.insert("b".to_string(), false);
    let table = TruthTable {
        variables,
        rows: vec![TruthTableRow { assignments, result: false }],
    };
    let _result = format_truth_table(&table, &OutputFormat::Table);

    // Equivalence display
    let variables = Variables::from_expr(&Expr::Identifier("a".to_string())).unwrap();
    let check = EquivalenceCheck { equivalent: false, variables, differences: vec![] };
    let _result = format_equivalence_result(&check, "a", "not a", &OutputFormat::Table);

    // Reduction display
    let reduction = Reduction {
        original: Expr::Identifier("a".to_string()),
        reduced: Expr::Identifier("a".to_string()),
        simplified: false,
    };
    let _result = format_reduction_result(&reduction, &OutputFormat::Table);
}
