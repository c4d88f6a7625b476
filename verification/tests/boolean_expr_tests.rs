use ads_search::boolean_expr::{boolean_answer, parse_boolean_expr, BooleanExpr};

fn has(v: &[String], s: &str) -> bool {
    v.iter().any(|x| x == s)
}

#[test]
fn test_parse_single_keyword() {
    let expr = parse_boolean_expr("rust").unwrap();
    assert_eq!(expr, BooleanExpr::Keyword("rust".to_string()));
}

#[test]
fn test_parse_and() {
    let expr = parse_boolean_expr("rust AND storage").unwrap();
    assert!(matches!(expr, BooleanExpr::And(_, _)));
}

#[test]
fn test_parse_or() {
    let expr = parse_boolean_expr("rust OR python").unwrap();
    assert!(matches!(expr, BooleanExpr::Or(_, _)));
}

#[test]
fn test_parse_not() {
    let expr = parse_boolean_expr("NOT rust").unwrap();
    assert!(matches!(expr, BooleanExpr::Not(_)));
}

#[test]
fn test_parse_complex() {
    let expr = parse_boolean_expr("(rust OR python) AND storage").unwrap();
    assert!(matches!(expr, BooleanExpr::And(_, _)));
}

#[test]
fn test_parse_with_parens() {
    let expr = parse_boolean_expr("(rust AND storage) OR (python AND database)").unwrap();
    assert!(matches!(expr, BooleanExpr::Or(_, _)));
}

#[test]
fn test_get_keywords() {
    let expr = parse_boolean_expr("(rust OR python) AND storage").unwrap();
    let keywords = expr.get_keywords();
    assert_eq!(keywords.len(), 3);
    assert!(has(&keywords, "rust"));
    assert!(has(&keywords, "python"));
    assert!(has(&keywords, "storage"));
}

#[test]
fn test_evaluate_and() {
    let expr = parse_boolean_expr("rust AND storage").unwrap();
    let results = vec![
        ("rust".to_string(), vec!["file1".to_string(), "file2".to_string()]),
        ("storage".to_string(), vec!["file2".to_string(), "file3".to_string()]),
    ];
    let result = expr.evaluate(&results);
    assert_eq!(result.len(), 1);
    assert!(has(&result, "file2"));
}

#[test]
fn test_evaluate_or() {
    let expr = parse_boolean_expr("rust OR python").unwrap();
    let results = vec![
        ("rust".to_string(), vec!["file1".to_string()]),
        ("python".to_string(), vec!["file2".to_string()]),
    ];
    let result = expr.evaluate(&results);
    assert_eq!(result.len(), 2);
    assert!(has(&result, "file1"));
    assert!(has(&result, "file2"));
}

#[test]
fn test_case_insensitive_operators() {
    let expr = parse_boolean_expr("rust and storage").unwrap();
    assert_eq!(expr, BooleanExpr::Keyword("rust and storage".to_string()));

    let expr = parse_boolean_expr("rust or python").unwrap();
    assert_eq!(expr, BooleanExpr::Keyword("rust or python".to_string()));

    let expr = parse_boolean_expr("not rust").unwrap();
    assert_eq!(expr, BooleanExpr::Keyword("not rust".to_string()));
}

#[test]
fn test_parse_multiword_keyword() {
    let expr = parse_boolean_expr("Language Integrated Query(Linq)").unwrap();
    assert_eq!(
        expr,
        BooleanExpr::Keyword("Language Integrated Query(Linq)".to_string())
    );
}

#[test]
fn test_parse_relaxed_query_line() {
    let expr =
        parse_boolean_expr("ADO.Net AND 存储过程 OR Language Integrated Query(Linq)").unwrap();
    assert!(matches!(expr, BooleanExpr::Or(_, _)));
    assert_eq!(expr.get_keywords().len(), 3);
}

#[test]
fn keyword_without_operator_is_one_keyword() {
    let expr = parse_boolean_expr("  plain   words here ").unwrap();
    assert_eq!(expr, BooleanExpr::Keyword("plain   words here".to_string()));
}

#[test]
fn evaluate_not_is_empty() {
    let expr = parse_boolean_expr("NOT rust").unwrap();
    let results = vec![("rust".to_string(), vec!["file1".to_string()])];
    assert!(expr.evaluate(&results).is_empty());
}

#[test]
fn and_binds_tighter_than_or() {
    let expr = parse_boolean_expr("a OR b AND c").unwrap();
    match expr {
        BooleanExpr::Or(left, right) => {
            assert_eq!(*left, BooleanExpr::Keyword("a".to_string()));
            assert!(matches!(*right, BooleanExpr::And(_, _)));
        }
        _ => panic!("expected OR at the top"),
    }
}

#[test]
fn display_round_trip() {
    let expr = parse_boolean_expr("(rust OR python) AND storage").unwrap();
    let shown = expr.to_string();
    let again = parse_boolean_expr(&shown).unwrap();
    assert_eq!(again, expr);
}

#[test]
fn empty_input_is_rejected() {
    assert!(parse_boolean_expr("   ").is_err());
}

#[test]
fn boolean_answer_sorts_the_selected_fids() {
    let expr = parse_boolean_expr("a OR b").unwrap();
    let replies = vec![
        Ok(("a".to_string(), vec!["f3".to_string(), "f1".to_string()])),
        Ok(("b".to_string(), vec!["f2".to_string(), "f1".to_string()])),
    ];
    assert_eq!(
        boolean_answer(&expr, &replies),
        Ok(vec!["f1".to_string(), "f2".to_string(), "f3".to_string()])
    );
    let and = parse_boolean_expr("a AND b").unwrap();
    assert_eq!(boolean_answer(&and, &replies), Ok(vec!["f1".to_string()]));
    let failed = vec![
        Ok(("a".to_string(), vec!["f1".to_string()])),
        Err("first".to_string()),
        Err("second".to_string()),
    ];
    assert_eq!(boolean_answer(&expr, &failed), Err("first".to_string()));
}

#[test]
fn evaluate_not_complements_within_known_fids() {
    let expr = parse_boolean_expr("NOT a").unwrap();
    let results = vec![
        ("a".to_string(), vec!["f1".to_string()]),
        ("b".to_string(), vec!["f2".to_string(), "f1".to_string()]),
    ];
    assert_eq!(expr.evaluate(&results), vec!["f2".to_string()]);
    let both = parse_boolean_expr("b AND (NOT a)").unwrap();
    assert_eq!(both.evaluate(&results), vec!["f2".to_string()]);
}

#[test]
fn printed_expressions_parse_back() {
    for text in ["a", "x AND y", "(a OR b) AND NOT c", "NOT (NOT rust lang)", "p OR (q AND (r OR s))"] {
        let e = parse_boolean_expr(text).unwrap();
        assert_eq!(parse_boolean_expr(&e.to_string()).unwrap(), e);
    }
}
