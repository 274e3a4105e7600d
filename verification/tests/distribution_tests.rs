use expression_explorer::parser::expr::parse_expression;
use expression_explorer::parser::rules::parse_ruleset;
use expression_explorer::rules::Match;
use expression_explorer::{DisplayNode, Pool};

fn rule_name(pool: &Pool, m: &Match) -> String {
    let rule = pool.rules[m.rule_id.0];
    pool.display_name(rule.name)
}

#[test]
fn distribution_tests_test_multiple_distribution_steps() {
    let mut pool = Pool::new();
    let expr = parse_expression("(x+y)*(x+y)", &mut pool).unwrap();
    let ruleset = "algebra {\n  left_distrib: ?x * (?y + ?z) => (x * y) + (x * z)\n  right_distrib: (?x + ?y) * ?z => (x * z) + (y * z)\n}";
    parse_ruleset(ruleset, &mut pool).unwrap();

    let matches1 = pool.find_matches(expr);
    let left_match = matches1
        .iter()
        .find(|m| rule_name(&pool, m) == "left_distrib")
        .expect("Should find left_distrib");
    let step1 = pool.apply_rule(left_match).unwrap();
    assert_eq!(pool.display_with_children(step1), "(((x + y) * x) + ((x + y) * y))");

    let matches2 = pool.find_matches(step1);
    let right_matches: Vec<&Match> = matches2
        .iter()
        .filter(|m| rule_name(&pool, m) == "right_distrib")
        .collect();
    assert!(right_matches.len() >= 2, "Should find at least 2 right_distrib matches");

    let step2 = pool.apply_rule(right_matches[0]).unwrap();
    assert_eq!(pool.display_with_children(step2), "(((x * x) + (y * x)) + ((x + y) * y))");

    let matches3 = pool.find_matches(step2);
    let right_match2 = matches3
        .iter()
        .find(|m| {
            rule_name(&pool, m) == "right_distrib"
                && pool.display_with_children(m.offset).contains("(x + y) * y")
        })
        .expect("Should find right_distrib for (x+y)*y");

    let final_result = pool.apply_rule(right_match2).unwrap();
    assert_eq!(
        pool.display_with_children(final_result),
        "(((x * x) + (y * x)) + ((x * y) + (y * y)))"
    );
}

#[test]
fn distribution_tests_test_left_distribution() {
    let mut pool = Pool::new();
    let expr = parse_expression("(x+y)*(x+y)", &mut pool).unwrap();
    assert_eq!(pool.display_with_children(expr), "((x + y) * (x + y))");

    let ruleset = "algebra {\n  left_distrib: ?x * (?y + ?z) => (x * y) + (x * z)\n}";
    parse_ruleset(ruleset, &mut pool).unwrap();

    let matches = pool.find_matches(expr);
    assert!(!matches.is_empty(), "Should find at least one match");

    let left = matches.iter().find(|m| rule_name(&pool, m) == "left_distrib");
    assert!(left.is_some(), "Should find left_distrib match");
    let m = left.unwrap();

    let result = pool.apply_rule(m).unwrap();
    assert_eq!(pool.display_with_children(result), "(((x + y) * x) + ((x + y) * y))");
}

#[test]
fn distribution_tests_test_right_distribution() {
    let mut pool = Pool::new();
    let expr = parse_expression("(x+y)*z", &mut pool).unwrap();
    assert_eq!(pool.display_with_children(expr), "((x + y) * z)");

    let ruleset = "algebra {\n  right_distrib: (?x + ?y) * ?z => (x * z) + (y * z)\n}";
    parse_ruleset(ruleset, &mut pool).unwrap();

    let matches = pool.find_matches(expr);
    assert!(!matches.is_empty(), "Should find at least one match");
    let right = matches.iter().find(|m| rule_name(&pool, m) == "right_distrib");
    assert!(right.is_some(), "Should find right_distrib match");

    let result = pool.apply_rule(right.unwrap()).unwrap();
    assert_eq!(pool.display_with_children(result), "((x * z) + (y * z))");
}
