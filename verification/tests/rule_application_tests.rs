#![allow(unused_imports, dead_code)]

use expression_explorer::captures::{CapturedValue, Captures};
use expression_explorer::children::Children;
use expression_explorer::parser::actions::parse_action;
use expression_explorer::parser::patterns::parse_pattern;
use expression_explorer::parser::{parse_expression, parse_ruleset};
use expression_explorer::rules::Match;
use expression_explorer::{
    ActionId, DisplayNode, ExprId, ExprNode, Function, PatternId, Pool, Rule, RuleId, RulesetId,
};

fn new_test_pool() -> Pool {
    Pool::new()
}

fn parse_test_expr(input: &str) -> (Pool, ExprId) {
    let mut pool = new_test_pool();
    let expr_id = parse_expression(input, &mut pool).expect("Failed to parse test expression");
    (pool, expr_id)
}

fn assert_expr_display(pool: &Pool, expr: ExprId, expected: &str) {
    let actual = pool.display_with_children(expr);
    assert_eq!(
        actual, expected,
        "Expression display mismatch:\n  actual: {}\n  expected: {}",
        actual, expected
    );
}

fn make_var(pool: &mut Pool, name: &str) -> ExprId {
    let name_id = pool.intern_string(name.to_string());
    let expr_id = pool.add_expr(ExprNode::Variable(name_id));
    pool.mark_expr_end(expr_id);
    expr_id
}

fn make_num(pool: &mut Pool, value: i32) -> ExprId {
    let expr_id = pool.add_expr(ExprNode::Number(value));
    pool.mark_expr_end(expr_id);
    expr_id
}

fn parse_test_pattern_into(input: &str, pool: &mut Pool) -> PatternId {
    parse_pattern(input, pool).expect("Failed to parse test pattern")
}

fn parse_test_action_into(input: &str, pool: &mut Pool) -> ActionId {
    parse_action(input, pool).expect("Failed to parse test action")
}

fn get_children_vec(pool: &Pool, expr: ExprId) -> Vec<ExprId> {
    pool.children(expr)
}

fn count_nodes(pool: &Pool, expr: ExprId) -> usize {
    let mut count = 1;
    for child in pool.children(expr) {
        count += count_nodes(pool, child);
    }
    count
}

fn parse_test_pattern(input: &str) -> (Pool, PatternId) {
    let mut pool = new_test_pool();
    let pattern_id = parse_pattern(input, &mut pool).expect("Failed to parse test pattern");
    (pool, pattern_id)
}

fn parse_test_action(input: &str) -> (Pool, ActionId) {
    let mut pool = new_test_pool();
    let action_id = parse_action(input, &mut pool).expect("Failed to parse test action");
    (pool, action_id)
}

fn parse_test_ruleset(input: &str) -> (Pool, RulesetId) {
    let mut pool = new_test_pool();
    let ruleset_id = parse_ruleset(input, &mut pool).expect("Failed to parse test ruleset");
    (pool, ruleset_id)
}

fn collect_siblings(pool: &Pool, id: ExprId) -> Vec<ExprId> {
    let mut it = pool.siblings(id);
    let mut out = Vec::new();
    while let Some(a) = it.next() {
        out.push(a);
    }
    out
}

#[test]
fn test_double_addition_rule() {
    let (mut pool, expr) = parse_test_expr("(x + x)");
    let pattern = parse_test_pattern_into("?x + ?x", &mut pool);
    let action = parse_test_action_into("2 * x", &mut pool);

    let rule_name = pool.intern_string("test_rule".to_string());
    let rule = Rule {
        name: rule_name,
        pattern,
        action,
    };
    let rule_id = pool.add_rule(rule);

    let mut captures = Captures::new();
    let matches = pool.pattern_matches(pattern, expr, &mut captures);
    assert!(matches);

    let match_obj = Match {
        root: expr,
        offset: expr,
        rule_id,
        captures,
    };

    let result = pool.apply_rule(&match_obj);
    assert!(result.is_some());

    let new_expr = result.unwrap();
    assert_expr_display(&pool, new_expr, "(2 * x)");
}

#[test]
fn test_zero_multiplication_rule() {
    let (mut pool, expr) = parse_test_expr("(x * 0)");
    let pattern = parse_test_pattern_into("?x * 0", &mut pool);
    let action = parse_test_action_into("0", &mut pool);

    let rule_name = pool.intern_string("test_rule".to_string());
    let rule = Rule {
        name: rule_name,
        pattern,
        action,
    };
    let rule_id = pool.add_rule(rule);

    let mut captures = Captures::new();
    let matches = pool.pattern_matches(pattern, expr, &mut captures);
    assert!(matches);

    let match_obj = Match {
        root: expr,
        offset: expr,
        rule_id,
        captures,
    };

    let result = pool.apply_rule(&match_obj);
    assert!(result.is_some());

    let new_expr = result.unwrap();
    assert_expr_display(&pool, new_expr, "0");
}

#[test]
fn test_identity_addition_rule() {
    let (mut pool, expr) = parse_test_expr("(x + 0)");
    let pattern = parse_test_pattern_into("?x + 0", &mut pool);
    let action = parse_test_action_into("x", &mut pool);

    let rule_name = pool.intern_string("test_rule".to_string());
    let rule = Rule {
        name: rule_name,
        pattern,
        action,
    };
    let rule_id = pool.add_rule(rule);

    let mut captures = Captures::new();
    let matches = pool.pattern_matches(pattern, expr, &mut captures);
    assert!(matches);

    let match_obj = Match {
        root: expr,
        offset: expr,
        rule_id,
        captures,
    };

    let result = pool.apply_rule(&match_obj);
    assert!(result.is_some());

    let new_expr = result.unwrap();
    assert_expr_display(&pool, new_expr, "x");
}

#[test]
fn test_numeric_computation() {
    let (mut pool, expr) = parse_test_expr("(2 + 3)");
    let pattern = parse_test_pattern_into("2 + 3", &mut pool);
    let action = parse_test_action_into("5", &mut pool);

    let rule_name = pool.intern_string("test_rule".to_string());
    let rule = Rule {
        name: rule_name,
        pattern,
        action,
    };
    let rule_id = pool.add_rule(rule);

    let mut captures = Captures::new();
    let matches = pool.pattern_matches(pattern, expr, &mut captures);
    assert!(matches);

    let match_obj = Match {
        root: expr,
        offset: expr,
        rule_id,
        captures,
    };

    let result = pool.apply_rule(&match_obj);
    assert!(result.is_some());

    let new_expr = result.unwrap();
    assert_expr_display(&pool, new_expr, "5");
}

#[test]
fn test_distributive_law() {
    let (mut pool, expr) = parse_test_expr("(a * (b + c))");
    let pattern = parse_test_pattern_into("?x * (?y + ?z)", &mut pool);
    let action = parse_test_action_into("(x * y) + (x * z)", &mut pool);

    let rule_name = pool.intern_string("test_rule".to_string());
    let rule = Rule {
        name: rule_name,
        pattern,
        action,
    };
    let rule_id = pool.add_rule(rule);

    let mut captures = Captures::new();
    let matches = pool.pattern_matches(pattern, expr, &mut captures);
    assert!(matches);

    let match_obj = Match {
        root: expr,
        offset: expr,
        rule_id,
        captures,
    };

    let result = pool.apply_rule(&match_obj);
    assert!(result.is_some());

    let new_expr = result.unwrap();
    assert_expr_display(&pool, new_expr, "((a * b) + (a * c))");
}

#[test]
fn test_commutative_property() {
    let (mut pool, expr) = parse_test_expr("(a + b)");
    let pattern = parse_test_pattern_into("?x + ?y", &mut pool);
    let action = parse_test_action_into("y + x", &mut pool);

    let rule_name = pool.intern_string("test_rule".to_string());
    let rule = Rule {
        name: rule_name,
        pattern,
        action,
    };
    let rule_id = pool.add_rule(rule);

    let mut captures = Captures::new();
    let matches = pool.pattern_matches(pattern, expr, &mut captures);
    assert!(matches);

    let match_obj = Match {
        root: expr,
        offset: expr,
        rule_id,
        captures,
    };

    let result = pool.apply_rule(&match_obj);
    assert!(result.is_some());

    let new_expr = result.unwrap();
    assert_expr_display(&pool, new_expr, "(b + a)");
}

#[test]
fn test_find_matches_simple() {
    let (mut pool, expr) = parse_test_expr("(x + x)");
    let pattern = parse_test_pattern_into("?x + ?x", &mut pool);
    let action = parse_test_action_into("2 * x", &mut pool);

    let rule_name = pool.intern_string("test_rule".to_string());
    let rule = Rule {
        name: rule_name,
        pattern,
        action,
    };
    let rule_id = pool.add_rule(rule);

    let matches = pool.find_matches(expr);
    assert_eq!(matches.len(), 1);

    let match_obj = &matches[0];
    assert_eq!(match_obj.root, expr);
    assert_eq!(match_obj.rule_id, rule_id);
    assert_eq!(match_obj.captures.len(), 1);
}

#[test]
fn test_find_matches_multiple() {
    let (mut pool, expr) = parse_test_expr("((x + x) + (y + y))");
    let pattern = parse_test_pattern_into("?x + ?x", &mut pool);
    let action = parse_test_action_into("2 * x", &mut pool);

    let rule_name = pool.intern_string("test_rule".to_string());
    let rule = Rule {
        name: rule_name,
        pattern,
        action,
    };
    let _rule_id = pool.add_rule(rule);

    let matches = pool.find_matches(expr);
    assert!(matches.len() >= 2);
}

#[test]
fn test_find_matches_no_match() {
    let (mut pool, expr) = parse_test_expr("(x * y)");
    let pattern = parse_test_pattern_into("?x + ?x", &mut pool);
    let action = parse_test_action_into("2 * x", &mut pool);

    let rule_name = pool.intern_string("test_rule".to_string());
    let rule = Rule {
        name: rule_name,
        pattern,
        action,
    };
    let _rule_id = pool.add_rule(rule);

    let matches = pool.find_matches(expr);
    assert_eq!(matches.len(), 0);
}

#[test]
fn rule_application_tests_test_multiple_rules() {
    let (mut pool, expr) = parse_test_expr("(x + 0)");

    let pattern1 = parse_test_pattern_into("?x + 0", &mut pool);
    let action1 = parse_test_action_into("x", &mut pool);
    let rule1_name = pool.intern_string("rule1".to_string());
    let rule1 = Rule {
        name: rule1_name,
        pattern: pattern1,
        action: action1,
    };
    let rule_id1 = pool.add_rule(rule1);

    let pattern2 = parse_test_pattern_into("?x + ?x", &mut pool);
    let action2 = parse_test_action_into("2 * x", &mut pool);
    let rule2_name = pool.intern_string("rule2".to_string());
    let rule2 = Rule {
        name: rule2_name,
        pattern: pattern2,
        action: action2,
    };
    let _rule_id2 = pool.add_rule(rule2);

    let matches = pool.find_matches(expr);
    assert_eq!(matches.len(), 1);
    assert_eq!(matches[0].rule_id, rule_id1);
}

#[test]
fn test_rule_application_failure() {
    let (mut pool, expr) = parse_test_expr("(x + y)");
    let pattern = parse_test_pattern_into("?x + ?y", &mut pool);
    let action = parse_test_action_into("z", &mut pool);

    let rule_name = pool.intern_string("test_rule".to_string());
    let rule = Rule {
        name: rule_name,
        pattern,
        action,
    };
    let rule_id = pool.add_rule(rule);

    let mut captures = Captures::new();
    let matches = pool.pattern_matches(pattern, expr, &mut captures);
    assert!(matches);

    let match_obj = Match {
        root: expr,
        offset: expr,
        rule_id,
        captures,
    };

    let result = pool.apply_rule(&match_obj);
    assert!(result.is_some());
}

#[test]
fn test_computation_with_non_numeric() {
    let (mut pool, expr) = parse_test_expr("(x + y)");
    let pattern = parse_test_pattern_into("?x + ?y", &mut pool);
    let action = parse_test_action_into("x + y", &mut pool);

    let rule_name = pool.intern_string("test_rule".to_string());
    let rule = Rule {
        name: rule_name,
        pattern,
        action,
    };
    let rule_id = pool.add_rule(rule);

    let mut captures = Captures::new();
    let matches = pool.pattern_matches(pattern, expr, &mut captures);
    assert!(matches);

    let match_obj = Match {
        root: expr,
        offset: expr,
        rule_id,
        captures,
    };

    let result = pool.apply_rule(&match_obj);
    assert!(result.is_some());

    let new_expr = result.unwrap();
    assert_expr_display(&pool, new_expr, "(x + y)");
}
