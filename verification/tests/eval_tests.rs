use ttt::eval::{Assignment, EvaluationError, Evaluator, Variables};
use ttt::source::{Expr, Parser};

#[test]
fn test_truth_table_generation() {
    let mut parser = Parser::from_str("a and b");
    let expr = parser.parse().unwrap();

    let table = Evaluator::generate_truth_table(&expr).unwrap();

    assert_eq!(table.variables.to_vec(), vec!["a", "b"]);
    assert_eq!(table.rows.len(), 4);

    // Check specific rows
    let mut row_ff_result = None;
    let mut row_tt_result = None;
    for row in &table.rows {
        let a = row.assignments.get("a");
        let b = row.assignments.get("b");
        if !a && !b {
            row_ff_result = Some(row.result);
        }
        if a && b {
            row_tt_result = Some(row.result);
        }
    }
    assert_eq!(row_ff_result.unwrap(), false);
    assert_eq!(row_tt_result.unwrap(), true);
}

#[test]
fn test_equivalence_check_true() {
    let mut parser1 = Parser::from_str("a and b");
    let mut parser2 = Parser::from_str("b and a");
    let expr1 = parser1.parse().unwrap();
    let expr2 = parser2.parse().unwrap();

    let check = Evaluator::check_equivalence(&expr1, &expr2).unwrap();

    assert!(check.equivalent);
    assert!(check.differences.is_empty());
}

#[test]
fn test_equivalence_check_false() {
    let mut parser1 = Parser::from_str("a or b");
    let mut parser2 = Parser::from_str("a and b");
    let expr1 = parser1.parse().unwrap();
    let expr2 = parser2.parse().unwrap();

    let check = Evaluator::check_equivalence(&expr1, &expr2).unwrap();

    assert!(!check.equivalent);
    assert!(!check.differences.is_empty());
}

#[test]
fn eval_test_variable_collection() {
    let mut parser = Parser::from_str("(a and b) or (c -> d)");
    let expr = parser.parse().unwrap();

    let vars = Evaluator::collect_expression_variables(&expr).unwrap();

    assert_eq!(vars.len(), 4);
    assert!(vars.contains("a"));
    assert!(vars.contains("b"));
    assert!(vars.contains("c"));
    assert!(vars.contains("d"));
}

#[test]
fn test_evaluation_with_assignment() {
    let mut parser = Parser::from_str("a and (b or not c)");
    let expr = parser.parse().unwrap();

    let mut assignment = Assignment::new();
    assignment.insert("a".to_string(), true);
    assignment.insert("b".to_string(), false);
    assignment.insert("c".to_string(), true);

    let result = Evaluator::evaluate_with_assignment(&expr, &assignment);

    // a=T and (b=F or not c=T) = T and (F or F) = T and F = F
    assert_eq!(result, false);
}

#[test]
fn test_invalid_variable_name_validation() {
    // Test empty variable name
    let result = Variables::from_expr(&Expr::Identifier("".to_string()));
    assert!(matches!(result, Err(EvaluationError::InvalidVariableName(_))));

    // Test variable name too long
    let long_name = "a".repeat(51);
    let result = Variables::from_expr(&Expr::Identifier(long_name));
    assert!(matches!(result, Err(EvaluationError::InvalidVariableName(_))));

    // Test invalid characters
    let result = Variables::from_expr(&Expr::Identifier("a-b".to_string()));
    assert!(matches!(result, Err(EvaluationError::InvalidVariableName(_))));

    // Test valid variable names work
    let result = Variables::from_expr(&Expr::Identifier("valid_var123".to_string()));
    assert!(result.is_ok());
}

#[test]
fn test_too_many_variables_validation() {
    // Create an expression with more than the allowed number of variables
    let mut expr = Expr::Identifier("a".to_string());

    // Create an OR chain with many variables: a or var1 or var2 or ...
    for i in 1..25 {
        let var_name = format!("var{}", i);
        expr = Expr::Or(Box::new(expr), Box::new(Expr::Identifier(var_name)));
    }

    let result = Variables::from_expr(&expr);
    assert!(matches!(result, Err(EvaluationError::TooManyVariables { .. })));
}

#[test]
fn test_quine_mccluskey_absorption() {
    // Test absorption law: a or (a and b) = a
    let mut parser = Parser::from_str("a or (a and b)");
    let expr = parser.parse().unwrap();

    let result = Evaluator::reduce_expression(&expr).unwrap();

    assert!(result.simplified);
    assert_eq!(result.reduced, Expr::Identifier("a".to_string()));
}

#[test]
fn test_quine_mccluskey_consensus() {
    // Test consensus: (a and b) or (not a and b) = b
    let mut parser = Parser::from_str("(a and b) or (not a and b)");
    let expr = parser.parse().unwrap();

    let result = Evaluator::reduce_expression(&expr).unwrap();

    assert!(result.simplified);
    assert_eq!(result.reduced, Expr::Identifier("b".to_string()));
}

#[test]
fn test_quine_mccluskey_tautology() {
    // Test tautology: a or not a = true
    let mut parser = Parser::from_str("a or not a");
    let expr = parser.parse().unwrap();

    let result = Evaluator::reduce_expression(&expr).unwrap();

    assert!(result.simplified);
    // Should be reduced to a tautology form
    let expected_true = Expr::Or(
        Box::new(Expr::Identifier("true".to_string())),
        Box::new(Expr::Not(Box::new(Expr::Identifier("true".to_string())))),
    );
    assert_eq!(result.reduced, expected_true);
}

#[test]
fn test_quine_mccluskey_contradiction() {
    // Test contradiction: a and not a = false
    let mut parser = Parser::from_str("a and not a");
    let expr = parser.parse().unwrap();

    let result = Evaluator::reduce_expression(&expr).unwrap();

    assert!(result.simplified);
    // Should be reduced to a contradiction form
    let expected_false = Expr::And(
        Box::new(Expr::Identifier("false".to_string())),
        Box::new(Expr::Not(Box::new(Expr::Identifier("false".to_string())))),
    );
    assert_eq!(result.reduced, expected_false);
}

#[test]
fn test_quine_mccluskey_complex_reduction() {
    // Test complex case: (a and b and c) or (a and b and not c) or (a and not b and c)
    let mut parser =
        Parser::from_str("(a and b and c) or (a and b and not c) or (a and not b and c)");
    let expr = parser.parse().unwrap();

    let result = Evaluator::reduce_expression(&expr).unwrap();

    assert!(result.simplified);
    // The reduction should have fewer terms or literals than the original;
    // the exact form may vary but must be equivalent and simpler
}

#[test]
fn test_quine_mccluskey_already_minimal() {
    // Test case that is already minimal
    let mut parser = Parser::from_str("a and b");
    let expr = parser.parse().unwrap();

    let result = Evaluator::reduce_expression(&expr).unwrap();

    assert!(!result.simplified);
}
