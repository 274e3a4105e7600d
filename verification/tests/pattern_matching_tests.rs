#![allow(unused_imports, dead_code)]

use expression_explorer::captures::{CapturedValue, Captures};
use expression_explorer::children::Children;
use expression_explorer::parser::actions::parse_action;
use expression_explorer::parser::patterns::parse_pattern;
use expression_explorer::parser::{parse_expression, parse_ruleset};
use expression_explorer::rules::Match;
use expression_explorer::{
    ActionId, DisplayNode, ExprId, ExprNode, Function, PatternId, Pool, Rule, RuleId, RulesetId,
};

fn new_test_pool() -> Pool {
    Pool::new()
}

fn parse_test_expr(input: &str) -> (Pool, ExprId) {
    let mut pool = new_test_pool();
    let expr_id = parse_expression(input, &mut pool).expect("Failed to parse test expression");
    (pool, expr_id)
}

fn assert_expr_display(pool: &Pool, expr: ExprId, expected: &str) {
    let actual = pool.display_with_children(expr);
    assert_eq!(
        actual, expected,
        "Expression display mismatch:\n  actual: {}\n  expected: {}",
        actual, expected
    );
}

fn make_var(pool: &mut Pool, name: &str) -> ExprId {
    let name_id = pool.intern_string(name.to_string());
    let expr_id = pool.add_expr(ExprNode::Variable(name_id));
    pool.mark_expr_end(expr_id);
    expr_id
}

fn make_num(pool: &mut Pool, value: i32) -> ExprId {
    let expr_id = pool.add_expr(ExprNode::Number(value));
    pool.mark_expr_end(expr_id);
    expr_id
}

fn parse_test_pattern_into(input: &str, pool: &mut Pool) -> PatternId {
    parse_pattern(input, pool).expect("Failed to parse test pattern")
}

fn parse_test_action_into(input: &str, pool: &mut Pool) -> ActionId {
    parse_action(input, pool).expect("Failed to parse test action")
}

fn get_children_vec(pool: &Pool, expr: ExprId) -> Vec<ExprId> {
    pool.children(expr)
}

fn count_nodes(pool: &Pool, expr: ExprId) -> usize {
    let mut count = 1;
    for child in pool.children(expr) {
        count += count_nodes(pool, child);
    }
    count
}

fn parse_test_pattern(input: &str) -> (Pool, PatternId) {
    let mut pool = new_test_pool();
    let pattern_id = parse_pattern(input, &mut pool).expect("Failed to parse test pattern");
    (pool, pattern_id)
}

fn parse_test_action(input: &str) -> (Pool, ActionId) {
    let mut pool = new_test_pool();
    let action_id = parse_action(input, &mut pool).expect("Failed to parse test action");
    (pool, action_id)
}

fn parse_test_ruleset(input: &str) -> (Pool, RulesetId) {
    let mut pool = new_test_pool();
    let ruleset_id = parse_ruleset(input, &mut pool).expect("Failed to parse test ruleset");
    (pool, ruleset_id)
}

fn collect_siblings(pool: &Pool, id: ExprId) -> Vec<ExprId> {
    let mut it = pool.siblings(id);
    let mut out = Vec::new();
    while let Some(a) = it.next() {
        out.push(a);
    }
    out
}

#[test]
fn test_simple_variable_match() {
    let (mut pool, expr) = parse_test_expr("x");
    let pattern = parse_test_pattern_into("?x", &mut pool);

    let mut captures = Captures::new();
    let matches = pool.pattern_matches(pattern, expr, &mut captures);

    assert!(matches);
    assert_eq!(captures.len(), 1);

    if let Some(CapturedValue::Expression(captured_expr)) = captures.values().first() {
        assert_expr_display(&pool, *captured_expr, "x");
    } else {
        panic!("Expected captured expression");
    }
}

#[test]
fn test_simple_number_match() {
    let (mut pool, expr) = parse_test_expr("42");
    let pattern = parse_test_pattern_into("42", &mut pool);

    let mut captures = Captures::new();
    let matches = pool.pattern_matches(pattern, expr, &mut captures);

    assert!(matches);
    assert_eq!(captures.len(), 0);
}

#[test]
fn test_number_wildcard_match() {
    let (mut pool, expr) = parse_test_expr("42");
    let pattern = parse_test_pattern_into("?n", &mut pool);

    let mut captures = Captures::new();
    let matches = pool.pattern_matches(pattern, expr, &mut captures);

    assert!(matches);
    assert_eq!(captures.len(), 1);

    if let Some(CapturedValue::Expression(captured_expr)) = captures.values().first() {
        assert_expr_display(&pool, *captured_expr, "42");
    } else {
        panic!("Expected captured expression");
    }
}

#[test]
fn test_no_match_different_literals() {
    let (mut pool, expr) = parse_test_expr("42");
    let pattern = parse_test_pattern_into("24", &mut pool);

    let mut captures = Captures::new();
    let matches = pool.pattern_matches(pattern, expr, &mut captures);

    assert!(!matches);
}

#[test]
fn test_no_match_different_variables() {
    let (mut pool, expr) = parse_test_expr("x");
    let pattern = parse_test_pattern_into("y", &mut pool);

    let mut captures = Captures::new();
    let matches = pool.pattern_matches(pattern, expr, &mut captures);

    assert!(!matches);
}

#[test]
fn test_simple_addition_pattern() {
    let (mut pool, expr) = parse_test_expr("(x + y)");
    let pattern = parse_test_pattern_into("?a + ?b", &mut pool);

    let mut captures = Captures::new();
    let matches = pool.pattern_matches(pattern, expr, &mut captures);

    assert!(matches);
    assert_eq!(captures.len(), 2);

    let captured_exprs: Vec<_> = captures.values();
    let displays: Vec<_> = captured_exprs
        .iter()
        .map(|c| match c {
            CapturedValue::Expression(e) => pool.display_with_children(*e),
            _ => panic!("Expected expression capture"),
        })
        .collect();

    assert!(displays.contains(&"x".to_string()));
    assert!(displays.contains(&"y".to_string()));
}

#[test]
fn test_repeated_variable_pattern() {
    let (mut pool, expr) = parse_test_expr("(x + x)");
    let pattern = parse_test_pattern_into("?x + ?x", &mut pool);

    let mut captures = Captures::new();
    let matches = pool.pattern_matches(pattern, expr, &mut captures);

    assert!(matches);
    assert_eq!(captures.len(), 1);

    if let Some(CapturedValue::Expression(captured_expr)) = captures.values().first() {
        assert_expr_display(&pool, *captured_expr, "x");
    } else {
        panic!("Expected captured expression");
    }
}

#[test]
fn test_repeated_variable_no_match() {
    let (mut pool, expr) = parse_test_expr("(x + y)");
    let pattern = parse_test_pattern_into("?x + ?x", &mut pool);

    let mut captures = Captures::new();
    let matches = pool.pattern_matches(pattern, expr, &mut captures);

    assert!(!matches);
}

#[test]
fn test_mixed_literal_and_pattern() {
    let (mut pool, expr) = parse_test_expr("(x + 0)");
    let pattern = parse_test_pattern_into("?x + 0", &mut pool);

    let mut captures = Captures::new();
    let matches = pool.pattern_matches(pattern, expr, &mut captures);

    assert!(matches);
    assert_eq!(captures.len(), 1);

    if let Some(CapturedValue::Expression(captured_expr)) = captures.values().first() {
        assert_expr_display(&pool, *captured_expr, "x");
    } else {
        panic!("Expected captured expression");
    }
}

#[test]
fn test_wrong_operation_no_match() {
    let (mut pool, expr) = parse_test_expr("(x * y)");
    let pattern = parse_test_pattern_into("?x + ?y", &mut pool);

    let mut captures = Captures::new();
    let matches = pool.pattern_matches(pattern, expr, &mut captures);

    assert!(!matches);
}

#[test]
fn test_nested_expression_pattern() {
    let (mut pool, expr) = parse_test_expr("((x + y) + z)");
    let pattern = parse_test_pattern_into("(?a + ?b) + ?c", &mut pool);

    let mut captures = Captures::new();
    let matches = pool.pattern_matches(pattern, expr, &mut captures);

    assert!(matches);
    assert_eq!(captures.len(), 3);

    let captured_exprs: Vec<_> = captures.values();
    let displays: Vec<_> = captured_exprs
        .iter()
        .map(|c| match c {
            CapturedValue::Expression(e) => pool.display_with_children(*e),
            _ => panic!("Expected expression capture"),
        })
        .collect();

    assert!(displays.contains(&"x".to_string()));
    assert!(displays.contains(&"y".to_string()));
    assert!(displays.contains(&"z".to_string()));
}

#[test]
fn test_pattern_matches_subexpression() {
    let (mut pool, expr) = parse_test_expr("((x + x) + y)");
    let pattern = parse_test_pattern_into("?x + ?x", &mut pool);

    let children = get_children_vec(&pool, expr);
    let subexpr = children[1];

    let mut captures = Captures::new();
    let matches = pool.pattern_matches(pattern, subexpr, &mut captures);

    assert!(matches);
    assert_eq!(captures.len(), 1);
}

#[test]
fn test_function_call_pattern() {
    let (mut pool, expr) = parse_test_expr("sin(x)");
    let pattern = parse_test_pattern_into("sin(?x)", &mut pool);

    let mut captures = Captures::new();
    let matches = pool.pattern_matches(pattern, expr, &mut captures);

    assert!(matches);
    assert_eq!(captures.len(), 1);

    if let Some(CapturedValue::Expression(captured_expr)) = captures.values().first() {
        assert_expr_display(&pool, *captured_expr, "x");
    } else {
        panic!("Expected captured expression");
    }
}

#[test]
fn test_function_call_wrong_name() {
    let (mut pool, expr) = parse_test_expr("sin(x)");
    let pattern = parse_test_pattern_into("cos(?x)", &mut pool);

    let mut captures = Captures::new();
    let matches = pool.pattern_matches(pattern, expr, &mut captures);

    assert!(!matches);
}

#[test]
fn test_variable_function_pattern() {
    let (mut pool, expr) = parse_test_expr("sin(x)");
    let pattern = parse_test_pattern_into("?f(?x)", &mut pool);

    let mut captures = Captures::new();
    let matches = pool.pattern_matches(pattern, expr, &mut captures);

    assert!(matches);
    assert_eq!(captures.len(), 2);

    let has_function_capture = captures
        .values()
        .iter()
        .any(|c| matches!(c, CapturedValue::Function(_)));
    let has_expression_capture = captures
        .values()
        .iter()
        .any(|c| matches!(c, CapturedValue::Expression(_)));

    assert!(has_function_capture);
    assert!(has_expression_capture);
}

#[test]
fn test_distributive_law_pattern() {
    let (mut pool, expr) = parse_test_expr("(a * (b + c))");
    let pattern = parse_test_pattern_into("?x * (?y + ?z)", &mut pool);

    let mut captures = Captures::new();
    let matches = pool.pattern_matches(pattern, expr, &mut captures);

    assert!(matches);
    assert_eq!(captures.len(), 3);

    let captured_exprs: Vec<_> = captures.values();
    let displays: Vec<_> = captured_exprs
        .iter()
        .map(|c| match c {
            CapturedValue::Expression(e) => pool.display_with_children(*e),
            _ => panic!("Expected expression capture"),
        })
        .collect();

    assert!(displays.contains(&"a".to_string()));
    assert!(displays.contains(&"b".to_string()));
    assert!(displays.contains(&"c".to_string()));
}

#[test]
fn test_commutative_matching() {
    let (mut pool1, expr1) = parse_test_expr("(a + b)");
    let pattern = parse_test_pattern_into("?x + ?y", &mut pool1);

    let mut captures1 = Captures::new();
    let matches1 = pool1.pattern_matches(pattern, expr1, &mut captures1);

    assert!(matches1);

    let (mut pool2, expr2) = parse_test_expr("(b + a)");
    let pattern2 = parse_test_pattern_into("?x + ?y", &mut pool2);
    let mut captures2 = Captures::new();
    let matches2 = pool2.pattern_matches(pattern2, expr2, &mut captures2);

    assert!(matches2);

    assert_eq!(captures1.len(), 2);
    assert_eq!(captures2.len(), 2);
}

#[test]
fn test_complex_repeated_pattern() {
    let (mut pool, expr) = parse_test_expr("((x + y) + (x + y))");
    let pattern = parse_test_pattern_into("?expr + ?expr", &mut pool);

    let mut captures = Captures::new();
    let matches = pool.pattern_matches(pattern, expr, &mut captures);

    assert!(matches);
    assert_eq!(captures.len(), 1);

    if let Some(CapturedValue::Expression(captured_expr)) = captures.values().first() {
        assert_expr_display(&pool, *captured_expr, "(x + y)");
    } else {
        panic!("Expected captured expression");
    }
}
