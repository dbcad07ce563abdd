use ttt::eval::{Assignment, EvaluationError, Evaluator, TruthTable, Variables};
use ttt::io::output::{format_truth_table, OutputFormat};
use ttt::source::{Expr, Parser};

fn parse(input: &str) -> Expr {
    let mut parser = Parser::from_str(input);
    parser.parse().expect("input should parse")
}

/// The table has one row per assignment: 2^n rows for n variables.
#[test]
fn test_row_count_matches_variable_count() {
    let cases = [("a", 2), ("a and b", 4), ("(a or b) and (c -> d)", 16), ("a and a", 2)];
    for (input, expected_rows) in cases {
        let table = Evaluator::generate_truth_table(&parse(input)).unwrap();
        assert_eq!(table.rows.len(), expected_rows, "row count for {}", input);
    }
}

/// Commutativity holds for every binary connective that has it.
#[test]
fn test_commutativity_of_connectives() {
    let cases = [("a and b", "b and a"), ("a or b", "b or a"), ("a xor b", "b xor a")];
    for (left, right) in cases {
        let check = Evaluator::check_equivalence(&parse(left), &parse(right)).unwrap();
        assert!(check.equivalent, "{} should be equivalent to {}", left, right);
        assert!(check.differences.is_empty());
    }
}

/// Implication is not commutative: a counterexample exists.
#[test]
fn test_implication_not_commutative() {
    let check = Evaluator::check_equivalence(&parse("a -> b"), &parse("b -> a")).unwrap();
    assert!(!check.equivalent);
}

/// Reduction preserves the meaning: the reduced tree is equivalent to the
/// original on every assignment.
#[test]
fn test_reduction_preserves_semantics() {
    let cases = [
        "a or (a and b)",
        "(a and b) or (not a and b)",
        "a or not a",
        "a and not a",
        "a and b",
        "(a and b and c) or (a and b and not c) or (a and not b and c)",
        "a xor b",
        "a -> b",
        "not (a or b)",
    ];
    for input in cases {
        let expr = parse(input);
        let reduction = Evaluator::reduce_expression(&expr).unwrap();
        let check = Evaluator::check_equivalence(&expr, &reduction.reduced).unwrap();
        assert!(check.equivalent, "reduction must preserve the meaning of {}", input);
    }
}

/// Exactly twenty distinct variables succeed; twenty-one are refused
/// with the offending count.
#[test]
fn test_variable_cap_boundary() {
    let mut twenty = Expr::Identifier("v0".to_string());
    for i in 1..20 {
        twenty = Expr::Or(
            Box::new(twenty),
            Box::new(Expr::Identifier(format!("v{}", i))),
        );
    }
    assert!(Variables::from_expr(&twenty).is_ok());
    let vars = Variables::from_expr(&twenty).unwrap();
    assert_eq!(vars.len(), 20);

    let twenty_one = Expr::Or(
        Box::new(twenty),
        Box::new(Expr::Identifier("v20".to_string())),
    );
    let result = Variables::from_expr(&twenty_one);
    match result {
        Err(EvaluationError::TooManyVariables { count, max }) => {
            assert_eq!(count, 21);
            assert_eq!(max, 20);
        }
        _ => panic!("twenty-one variables must be refused"),
    }
}

/// The three shapes of invalid names are each refused with the name.
#[test]
fn test_invalid_name_shapes() {
    let fifty_one = "x".repeat(51);
    let bad_names = ["a-b", fifty_one.as_str(), ""];
    for name in bad_names {
        let result = Variables::from_expr(&Expr::Identifier(name.to_string()));
        match result {
            Err(EvaluationError::InvalidVariableName(n)) => assert_eq!(n, name),
            _ => panic!("name {:?} must be refused", name),
        }
    }
    // Fifty characters are still fine
    let fifty = "x".repeat(50);
    assert!(Variables::from_expr(&Expr::Identifier(fifty)).is_ok());
}

/// A variable missing from the assignment reads as false.
#[test]
fn test_missing_variable_defaults_to_false() {
    let expr = parse("a or b");
    let mut assignment = Assignment::new();
    assignment.insert("a".to_string(), false);
    // b is absent and must read as false
    assert_eq!(Evaluator::evaluate_with_assignment(&expr, &assignment), false);
    assignment.insert("a".to_string(), true);
    assert_eq!(Evaluator::evaluate_with_assignment(&expr, &assignment), true);
}

/// The canonical bit mapping: in row i the variable at sorted position p
/// carries bit p of i, lower bits first.
#[test]
fn test_canonical_row_order() {
    let table = Evaluator::generate_truth_table(&parse("a and b")).unwrap();
    let expected = [
        (false, false, false),
        (true, false, false),
        (false, true, false),
        (true, true, true),
    ];
    assert_eq!(table.rows.len(), expected.len());
    for (i, (a, b, result)) in expected.iter().enumerate() {
        assert_eq!(table.rows[i].assignments.get("a"), *a, "a in row {}", i);
        assert_eq!(table.rows[i].assignments.get("b"), *b, "b in row {}", i);
        assert_eq!(table.rows[i].result, *result, "result in row {}", i);
    }
}

/// The equivalence check enumerates the union of both sides' variables and
/// lists every mismatching assignment.
#[test]
fn test_difference_listing() {
    let check = Evaluator::check_equivalence(&parse("a"), &parse("b")).unwrap();
    assert!(!check.equivalent);
    assert_eq!(check.variables.to_vec(), vec!["a", "b"]);
    // a and b disagree on exactly the two rows where they differ
    assert_eq!(check.differences.len(), 2);
    for diff in &check.differences {
        assert_ne!(diff.left_value, diff.right_value);
    }
}

/// The truth-table builder refuses to finish without variables.
#[test]
fn test_builder_requires_variables() {
    let builder = TruthTable::builder();
    let result = builder.build();
    assert!(matches!(result, Err(EvaluationError::ExpressionTooComplex { .. })));

    let variables = Variables::new();
    let built = TruthTable::builder().variables(variables).build().unwrap();
    assert_eq!(built.rows.len(), 0);
}

/// Variable names come out sorted, without duplicates, whatever the order
/// of first occurrence.
#[test]
fn test_variables_sorted_and_distinct() {
    let vars = Evaluator::collect_expression_variables(&parse("zeta and (alpha or zeta)"))
        .unwrap();
    assert_eq!(vars.to_vec(), vec!["alpha", "zeta"]);
    let union = vars
        .union(&Evaluator::collect_expression_variables(&parse("beta")).unwrap());
    assert_eq!(union.to_vec(), vec!["alpha", "beta", "zeta"]);
}

/// The table renderer shows each variable column and the result column.
#[test]
fn test_table_rendering() {
    let table = Evaluator::generate_truth_table(&parse("a and b")).unwrap();
    let rendered = format_truth_table(&table, &OutputFormat::Table);
    assert!(rendered.contains("a"));
    assert!(rendered.contains("b"));
    assert!(rendered.contains("Result"));
    assert!(rendered.contains("T"));
    assert!(rendered.contains("F"));
}

/// The JSON renderer emits the structure of the table.
#[test]
fn test_json_rendering() {
    let table = Evaluator::generate_truth_table(&parse("a")).unwrap();
    let rendered = format_truth_table(&table, &OutputFormat::Json);
    assert_eq!(
        rendered,
        "{\"variables\":{\"names\":[\"a\"]},\"rows\":[\
         {\"assignments\":{\"a\":false},\"result\":false},\
         {\"assignments\":{\"a\":true},\"result\":true}]}"
    );
}

/// The CSV renderer emits one line per row.
#[test]
fn test_csv_rendering() {
    let table = Evaluator::generate_truth_table(&parse("a")).unwrap();
    let rendered = format_truth_table(&table, &OutputFormat::Csv);
    assert_eq!(rendered, "a,result\nfalse,false\ntrue,true\n");
}

/// Reducing a tree written with implication rewrites it as a sum of
/// products over the same variables.
#[test]
fn test_reduce_rewrites_implication() {
    let reduction = Evaluator::reduce_expression(&parse("a -> b")).unwrap();
    assert!(reduction.simplified);
    let check =
        Evaluator::check_equivalence(&reduction.reduced, &parse("not a or b")).unwrap();
    assert!(check.equivalent);
}

/// Unicode names survive the whole pipeline: classification comes from the
/// character tables, not from an ASCII shortcut.
#[test]
fn test_unicode_variable_names() {
    let expr = Expr::And(
        Box::new(Expr::Identifier("\u{03b1}".to_string())),
        Box::new(Expr::Identifier("\u{03b2}".to_string())),
    );
    let vars = Variables::from_expr(&expr).unwrap();
    assert_eq!(vars.len(), 2);
    assert!(vars.contains("\u{03b1}"));
    let table = Evaluator::generate_truth_table(&expr).unwrap();
    assert_eq!(table.rows.len(), 4);
}
