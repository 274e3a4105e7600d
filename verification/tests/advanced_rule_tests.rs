#![allow(unused_imports, dead_code)]

use expression_explorer::captures::{CapturedValue, Captures};
use expression_explorer::children::Children;
use expression_explorer::parser::actions::parse_action;
use expression_explorer::parser::patterns::parse_pattern;
use expression_explorer::parser::{parse_expression, parse_ruleset};
use expression_explorer::rules::Match;
use expression_explorer::{
    ActionId, DisplayNode, ExprId, ExprNode, Function, PatternId, Pool, Rule, RuleId, RulesetId,
};

fn new_test_pool() -> Pool {
    Pool::new()
}

fn parse_test_expr(input: &str) -> (Pool, ExprId) {
    let mut pool = new_test_pool();
    let expr_id = parse_expression(input, &mut pool).expect("Failed to parse test expression");
    (pool, expr_id)
}

fn assert_expr_display(pool: &Pool, expr: ExprId, expected: &str) {
    let actual = pool.display_with_children(expr);
    assert_eq!(
        actual, expected,
        "Expression display mismatch:\n  actual: {}\n  expected: {}",
        actual, expected
    );
}

fn make_var(pool: &mut Pool, name: &str) -> ExprId {
    let name_id = pool.intern_string(name.to_string());
    let expr_id = pool.add_expr(ExprNode::Variable(name_id));
    pool.mark_expr_end(expr_id);
    expr_id
}

fn make_num(pool: &mut Pool, value: i32) -> ExprId {
    let expr_id = pool.add_expr(ExprNode::Number(value));
    pool.mark_expr_end(expr_id);
    expr_id
}

fn parse_test_pattern_into(input: &str, pool: &mut Pool) -> PatternId {
    parse_pattern(input, pool).expect("Failed to parse test pattern")
}

fn parse_test_action_into(input: &str, pool: &mut Pool) -> ActionId {
    parse_action(input, pool).expect("Failed to parse test action")
}

fn get_children_vec(pool: &Pool, expr: ExprId) -> Vec<ExprId> {
    pool.children(expr)
}

fn count_nodes(pool: &Pool, expr: ExprId) -> usize {
    let mut count = 1;
    for child in pool.children(expr) {
        count += count_nodes(pool, child);
    }
    count
}

fn parse_test_pattern(input: &str) -> (Pool, PatternId) {
    let mut pool = new_test_pool();
    let pattern_id = parse_pattern(input, &mut pool).expect("Failed to parse test pattern");
    (pool, pattern_id)
}

fn parse_test_action(input: &str) -> (Pool, ActionId) {
    let mut pool = new_test_pool();
    let action_id = parse_action(input, &mut pool).expect("Failed to parse test action");
    (pool, action_id)
}

fn parse_test_ruleset(input: &str) -> (Pool, RulesetId) {
    let mut pool = new_test_pool();
    let ruleset_id = parse_ruleset(input, &mut pool).expect("Failed to parse test ruleset");
    (pool, ruleset_id)
}

fn collect_siblings(pool: &Pool, id: ExprId) -> Vec<ExprId> {
    let mut it = pool.siblings(id);
    let mut out = Vec::new();
    while let Some(a) = it.next() {
        out.push(a);
    }
    out
}

#[test]
fn test_distributive_law_forward() {
    let (mut pool, expr) = parse_test_expr("(x * (y + z))");
    let pattern = parse_test_pattern_into("?a * (?b + ?c)", &mut pool);
    let action = parse_test_action_into("(a * b) + (a * c)", &mut pool);

    let rule_name = pool.intern_string("distribute_forward".to_string());
    let rule = Rule {
        name: rule_name,
        pattern,
        action,
    };
    let rule_id = pool.add_rule(rule);

    let mut captures = Captures::new();
    let matches = pool.pattern_matches(pattern, expr, &mut captures);
    assert!(matches);

    let match_obj = Match {
        root: expr,
        offset: expr,
        rule_id,
        captures,
    };

    let result = pool.apply_rule(&match_obj).unwrap();
    assert_expr_display(&pool, result, "((x * y) + (x * z))");
}

#[test]
fn test_distributive_law_reverse() {
    let (mut pool, expr) = parse_test_expr("((x * y) + (x * z))");
    let pattern = parse_test_pattern_into("(?a * ?b) + (?a * ?c)", &mut pool);
    let action = parse_test_action_into("a * (b + c)", &mut pool);

    let rule_name = pool.intern_string("factor_out".to_string());
    let rule = Rule {
        name: rule_name,
        pattern,
        action,
    };
    let rule_id = pool.add_rule(rule);

    let mut captures = Captures::new();
    let matches = pool.pattern_matches(pattern, expr, &mut captures);
    assert!(matches);

    let match_obj = Match {
        root: expr,
        offset: expr,
        rule_id,
        captures,
    };

    let result = pool.apply_rule(&match_obj).unwrap();
    assert_expr_display(&pool, result, "(x * (y + z))");
}

#[test]
fn test_associative_property() {
    let (mut pool, expr) = parse_test_expr("((x + y) + z)");
    let pattern = parse_test_pattern_into("(?a + ?b) + ?c", &mut pool);
    let action = parse_test_action_into("a + (b + c)", &mut pool);

    let rule_name = pool.intern_string("associative_add".to_string());
    let rule = Rule {
        name: rule_name,
        pattern,
        action,
    };
    let rule_id = pool.add_rule(rule);

    let mut captures = Captures::new();
    let matches = pool.pattern_matches(pattern, expr, &mut captures);
    assert!(matches);

    let match_obj = Match {
        root: expr,
        offset: expr,
        rule_id,
        captures,
    };

    let result = pool.apply_rule(&match_obj).unwrap();
    assert_expr_display(&pool, result, "(x + (y + z))");
}

#[test]
fn test_power_rules() {
    let (mut pool, expr) = parse_test_expr("(x ^ 1)");
    let pattern = parse_test_pattern_into("?x ^ 1", &mut pool);
    let action = parse_test_action_into("x", &mut pool);

    let rule_name = pool.intern_string("power_identity".to_string());
    let rule = Rule {
        name: rule_name,
        pattern,
        action,
    };
    let rule_id = pool.add_rule(rule);

    let mut captures = Captures::new();
    let matches = pool.pattern_matches(pattern, expr, &mut captures);
    assert!(matches);

    let match_obj = Match {
        root: expr,
        offset: expr,
        rule_id,
        captures,
    };

    let result = pool.apply_rule(&match_obj).unwrap();
    assert_expr_display(&pool, result, "x");
}

#[test]
fn test_function_simplification() {
    let (mut pool, expr) = parse_test_expr("sin(0)");
    let pattern = parse_test_pattern_into("sin(0)", &mut pool);
    let action = parse_test_action_into("0", &mut pool);

    let rule_name = pool.intern_string("sin_zero".to_string());
    let rule = Rule {
        name: rule_name,
        pattern,
        action,
    };
    let rule_id = pool.add_rule(rule);

    let mut captures = Captures::new();
    let matches = pool.pattern_matches(pattern, expr, &mut captures);
    assert!(matches);

    let match_obj = Match {
        root: expr,
        offset: expr,
        rule_id,
        captures,
    };

    let result = pool.apply_rule(&match_obj).unwrap();
    assert_expr_display(&pool, result, "0");
}

#[test]
fn test_logarithm_properties() {
    let (mut pool, expr) = parse_test_expr("log((x * y))");
    let pattern = parse_test_pattern_into("log(?a * ?b)", &mut pool);
    let action = parse_test_action_into("(log(a) + log(b))", &mut pool);

    let rule_name = pool.intern_string("log_product".to_string());
    let rule = Rule {
        name: rule_name,
        pattern,
        action,
    };
    let rule_id = pool.add_rule(rule);

    let mut captures = Captures::new();
    let matches = pool.pattern_matches(pattern, expr, &mut captures);
    assert!(matches);

    let match_obj = Match {
        root: expr,
        offset: expr,
        rule_id,
        captures,
    };

    let result = pool.apply_rule(&match_obj).unwrap();
    assert_expr_display(&pool, result, "(log(x) + log(y))");
}

#[test]
fn test_simple_function_matching() {
    let (mut pool, expr) = parse_test_expr("derivative((x + y))");
    let pattern = parse_test_pattern_into("derivative(?x + ?y)", &mut pool);
    let action = parse_test_action_into("(derivative(x) + derivative(y))", &mut pool);

    let rule_name = pool.intern_string("linear_derivative".to_string());
    let rule = Rule {
        name: rule_name,
        pattern,
        action,
    };
    let rule_id = pool.add_rule(rule);

    let mut captures = Captures::new();
    let matches = pool.pattern_matches(pattern, expr, &mut captures);
    assert!(matches);

    let match_obj = Match {
        root: expr,
        offset: expr,
        rule_id,
        captures,
    };

    let result = pool.apply_rule(&match_obj).unwrap();
    assert_expr_display(&pool, result, "(derivative(x) + derivative(y))");
}

#[test]
fn test_nested_substitution() {
    let (mut pool, expr) = parse_test_expr("(((x + 0) * 1) + ((y + 0) * 1))");

    let pattern1 = parse_test_pattern_into("?x + 0", &mut pool);
    let action1 = parse_test_action_into("x", &mut pool);
    let rule1_name = pool.intern_string("identity_add".to_string());
    let rule1 = Rule {
        name: rule1_name,
        pattern: pattern1,
        action: action1,
    };
    let rule1_id = pool.add_rule(rule1);

    let pattern2 = parse_test_pattern_into("?x * 1", &mut pool);
    let action2 = parse_test_action_into("x", &mut pool);
    let rule2_name = pool.intern_string("identity_mult".to_string());
    let rule2 = Rule {
        name: rule2_name,
        pattern: pattern2,
        action: action2,
    };
    let rule2_id = pool.add_rule(rule2);

    let mut current_expr = expr;
    let mut iterations = 0;
    const MAX_ITERATIONS: usize = 10;

    loop {
        iterations += 1;
        if iterations > MAX_ITERATIONS {
            panic!("Too many iterations");
        }

        let matches = pool.find_matches(current_expr);
        if matches.is_empty() {
            break;
        }

        if let Some(new_expr) = pool.apply_rule(&matches[0]) {
            current_expr = new_expr;
        } else {
            break;
        }
    }

    let final_display = pool.display_with_children(current_expr);
    assert!(final_display.contains("x") && !final_display.contains("+ 0"));
}

#[test]
fn test_conditional_rewriting() {
    let (mut pool, expr) = parse_test_expr("(a + a)");

    let pattern = parse_test_pattern_into("?x + ?x", &mut pool);
    let action = parse_test_action_into("2 * x", &mut pool);
    let rule_name = pool.intern_string("double_add".to_string());
    let rule = Rule {
        name: rule_name,
        pattern,
        action,
    };
    let rule_id = pool.add_rule(rule);

    let mut captures = Captures::new();
    let matches = pool.pattern_matches(pattern, expr, &mut captures);
    assert!(matches);

    let match_obj = Match {
        root: expr,
        offset: expr,
        rule_id,
        captures,
    };

    let result = pool.apply_rule(&match_obj).unwrap();
    assert_expr_display(&pool, result, "(2 * a)");
}

#[test]
fn test_multiple_variable_capture() {
    let (mut pool, expr) = parse_test_expr("(a + b)");
    let pattern = parse_test_pattern_into("?x + ?y", &mut pool);
    let action = parse_test_action_into("y + x", &mut pool);

    let rule_name = pool.intern_string("commutative".to_string());
    let rule = Rule {
        name: rule_name,
        pattern,
        action,
    };
    let rule_id = pool.add_rule(rule);

    let mut captures = Captures::new();
    let matches = pool.pattern_matches(pattern, expr, &mut captures);
    assert!(matches);
    assert_eq!(captures.len(), 2);

    let match_obj = Match {
        root: expr,
        offset: expr,
        rule_id,
        captures,
    };

    let result = pool.apply_rule(&match_obj).unwrap();
    assert_expr_display(&pool, result, "(b + a)");
}

#[test]
fn test_constant_folding() {
    let (mut pool, expr) = parse_test_expr("((2 + 3) * (4 + 1))");

    let pattern = parse_test_pattern_into("2 + 3", &mut pool);
    let action = parse_test_action_into("5", &mut pool);
    let rule1_name = pool.intern_string("fold_2_3".to_string());
    let rule1 = Rule {
        name: rule1_name,
        pattern,
        action,
    };
    let rule1_id = pool.add_rule(rule1);

    let pattern2 = parse_test_pattern_into("4 + 1", &mut pool);
    let action2 = parse_test_action_into("5", &mut pool);
    let rule2_name = pool.intern_string("fold_4_1".to_string());
    let rule2 = Rule {
        name: rule2_name,
        pattern: pattern2,
        action: action2,
    };
    let rule2_id = pool.add_rule(rule2);

    let pattern3 = parse_test_pattern_into("5 * 5", &mut pool);
    let action3 = parse_test_action_into("25", &mut pool);
    let rule3_name = pool.intern_string("fold_5_5".to_string());
    let rule3 = Rule {
        name: rule3_name,
        pattern: pattern3,
        action: action3,
    };
    let _rule3_id = pool.add_rule(rule3);

    let mut current_expr = expr;
    let mut iterations = 0;
    const MAX_ITERATIONS: usize = 5;

    loop {
        iterations += 1;
        if iterations > MAX_ITERATIONS {
            break;
        }

        let matches = pool.find_matches(current_expr);
        if matches.is_empty() {
            break;
        }

        if let Some(new_expr) = pool.apply_rule(&matches[0]) {
            current_expr = new_expr;
        } else {
            break;
        }
    }

    let final_display = pool.display_with_children(current_expr);
    assert!(final_display.contains("5") || final_display == "25");
}

#[test]
fn test_strength_reduction() {
    let (mut pool, expr) = parse_test_expr("(x * 2)");
    let pattern = parse_test_pattern_into("?x * 2", &mut pool);
    let action = parse_test_action_into("x + x", &mut pool);

    let rule_name = pool.intern_string("mult_by_2".to_string());
    let rule = Rule {
        name: rule_name,
        pattern,
        action,
    };
    let rule_id = pool.add_rule(rule);

    let mut captures = Captures::new();
    let matches = pool.pattern_matches(pattern, expr, &mut captures);
    assert!(matches);

    let match_obj = Match {
        root: expr,
        offset: expr,
        rule_id,
        captures,
    };

    let result = pool.apply_rule(&match_obj).unwrap();
    assert_expr_display(&pool, result, "(x + x)");
}

#[test]
fn test_dead_code_elimination() {
    let (mut pool, expr) = parse_test_expr("((x + 0) * 1)");

    let pattern1 = parse_test_pattern_into("?x + 0", &mut pool);
    let action1 = parse_test_action_into("x", &mut pool);
    let rule1_name = pool.intern_string("elim_add_zero".to_string());
    let rule1 = Rule {
        name: rule1_name,
        pattern: pattern1,
        action: action1,
    };
    let rule1_id = pool.add_rule(rule1);

    let pattern2 = parse_test_pattern_into("?x * 1", &mut pool);
    let action2 = parse_test_action_into("x", &mut pool);
    let rule2_name = pool.intern_string("elim_mult_one".to_string());
    let rule2 = Rule {
        name: rule2_name,
        pattern: pattern2,
        action: action2,
    };
    let rule2_id = pool.add_rule(rule2);

    let mut current_expr = expr;
    loop {
        let matches = pool.find_matches(current_expr);
        if matches.is_empty() {
            break;
        }

        if let Some(new_expr) = pool.apply_rule(&matches[0]) {
            current_expr = new_expr;
        } else {
            break;
        }
    }

    assert_expr_display(&pool, current_expr, "x");
}

#[test]
fn test_rule_priority_and_ordering() {
    let (mut pool, expr) = parse_test_expr("(x * 0)");

    let pattern1 = parse_test_pattern_into("?x * 0", &mut pool);
    let action1 = parse_test_action_into("0", &mut pool);
    let rule1_name = pool.intern_string("zero_mult".to_string());
    let rule1 = Rule {
        name: rule1_name,
        pattern: pattern1,
        action: action1,
    };
    let rule1_id = pool.add_rule(rule1);

    let pattern2 = parse_test_pattern_into("?x * ?y", &mut pool);
    let action2 = parse_test_action_into("y * x", &mut pool);
    let rule2_name = pool.intern_string("commutative".to_string());
    let rule2 = Rule {
        name: rule2_name,
        pattern: pattern2,
        action: action2,
    };
    let rule2_id = pool.add_rule(rule2);

    let matches = pool.find_matches(expr);

    let matching_rules: std::collections::HashSet<_> =
        matches.iter().map(|m| m.rule_id).collect();
    assert!(matching_rules.contains(&rule1_id));
    assert!(matching_rules.contains(&rule2_id));

    if let Some(result) = pool.apply_rule(&matches[0]) {
        let result_display = pool.display_with_children(result);
        assert!(result_display == "0" || result_display == "(0 * x)");
    }
}

#[test]
fn test_recursive_rule_application() {
    let (mut pool, expr) = parse_test_expr("(((x + 0) + 0) + 0)");

    let pattern = parse_test_pattern_into("?x + 0", &mut pool);
    let action = parse_test_action_into("x", &mut pool);
    let rule_name = pool.intern_string("identity_add".to_string());
    let rule = Rule {
        name: rule_name,
        pattern,
        action,
    };
    let rule_id = pool.add_rule(rule);

    let mut current_expr = expr;
    let mut application_count = 0;

    loop {
        let matches = pool.find_matches(current_expr);
        let applicable_matches: Vec<_> =
            matches.iter().filter(|m| m.rule_id == rule_id).collect();

        if applicable_matches.is_empty() {
            break;
        }

        if let Some(new_expr) = pool.apply_rule(applicable_matches[0]) {
            current_expr = new_expr;
            application_count += 1;
        } else {
            break;
        }
    }

    assert_eq!(application_count, 3);
    assert_expr_display(&pool, current_expr, "x");
}

#[test]
fn test_conflicting_rules() {
    let (mut pool, expr) = parse_test_expr("(a + b)");

    let pattern1 = parse_test_pattern_into("?x + ?y", &mut pool);
    let action1 = parse_test_action_into("y + x", &mut pool);
    let rule1_name = pool.intern_string("commutative".to_string());
    let rule1 = Rule {
        name: rule1_name,
        pattern: pattern1,
        action: action1,
    };
    let rule1_id = pool.add_rule(rule1);

    let pattern2 = parse_test_pattern_into("?x + ?y", &mut pool);
    let action2 = parse_test_action_into("x + y", &mut pool);
    let rule2_name = pool.intern_string("identity".to_string());
    let rule2 = Rule {
        name: rule2_name,
        pattern: pattern2,
        action: action2,
    };
    let rule2_id = pool.add_rule(rule2);

    let matches = pool.find_matches(expr);
    assert!(matches.len() >= 2);

    let matching_rules: std::collections::HashSet<_> =
        matches.iter().map(|m| m.rule_id).collect();
    assert!(matching_rules.contains(&rule1_id));
    assert!(matching_rules.contains(&rule2_id));
}
