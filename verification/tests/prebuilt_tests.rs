use expression_explorer::metrics::{
    calculate_expression_depth, calculate_expression_size, get_action_type_name, get_expr_type_name,
    get_pattern_type_name,
};
use expression_explorer::captures::Captures;
use expression_explorer::parser::{parse_compute_expr, parse_expression, parse_ruleset};
use expression_explorer::{DisplayNode, ExprNode, Pool};

const BASIC_ARITHMETIC_RULESET: &str = r#"basic_arithmetic {

  add_coeffs        : #a * ?x  + #b * ?x => [a + b] * x
  sub_coeffs        : #a * ?x  - #b * ?x => [a - b] * x
  mul_coeffs        : #a * ( #b * ?x )   => [a * b] * x
  div_              : #a * ?x  / #a * ?y =>  x / y

  add_numbers       : #a + #b            => [a + b]
  sub_numbers       : #a - #b            => [a - b]
  mul_numbers       : #a * #b            => [a * b]
  div_numbers       : #a / #b            => [a / b]

  add_assoc         : (?x + ?y) + ?z     => x + (y + z)
  add_comm          : ?x + ?y            => y + x
  add_zero_left     : 0 + ?x             => x
  add_zero_right    : ?x + 0             => x
  mul_assoc         : (?x * ?y) * ?z     => x * (y * z)
  mul_one_left      : 1 * ?x             => x
  mul_one_right     : ?x * 1             => x
  mul_zero_left     : 0 * ?x             => 0
  mul_zero_right    : ?x * 0             => 0
  left_distrib      : ?x * (?y + ?z)     => x * y + x * z
  right_distrib     : (?x + ?y) * ?z     => x * z + y * z

  double            : ?x + ?x            => 2 * x
  incr_coeff        : #a * ?x + ?x       => [a+1] * x

  back_mul_one_left : ?x                 => 1 * x


}"#;

const MONOID_RULESET: &str = r#"monoid {
  left_identity  : 0 + ?x         => x
  right_identity : ?x + 0         => x
  associativity  : (?x + ?y) + ?z => x + (y + z)
}"#;

const GROUP_RULESET: &str = r#"group {
  left_identity    : 0 + ?x         => x
  right_identity   : ?x + 0        => x
  left_inverse     : -?x + ?x        => 0
  right_inverse    : ?x + -?x       => 0
  associativity    : (?x + ?y) + ?z => x + (y + z)
  inverse_inverse  : -(-(?x))     => x
  inverse_identity : -(0)        => 0



}"#;

const SEMIRING_RULESET: &str = r#"semiring {
  add_assoc      : (?x + ?y) + ?z => x + (y + z)
  add_comm       : ?x + ?y        => y + x
  add_zero_left  : 0 + ?x         => x
  add_zero_right : ?x + 0         => x
  mul_assoc      : (?x * ?y) * ?z => x * (y * z)
  mul_one_left   : 1 * ?x         => x
  mul_one_right  : ?x * 1         => x
  mul_zero_left  : 0 * ?x         => 0
  mul_zero_right : ?x * 0         => 0
  left_distrib   : ?x * (?y + ?z) => x * y + x * z
  right_distrib  : (?x + ?y) * ?z => x * z + y * z
}"#;


fn apply_named(pool: &mut Pool, expr: expression_explorer::ExprId, rule: &str) -> Option<String> {
    let matches = pool.find_matches(expr);
    let m = matches.iter().find(|m| pool.display_name(pool.rules[m.rule_id.0].name) == rule)?;
    let r = pool.apply_rule(m)?;
    Some(pool.display_with_children(r))
}

#[test]
fn prebuilt_rulesets_parse() {
    let mut pool = Pool::new();
    let a = parse_ruleset(BASIC_ARITHMETIC_RULESET, &mut pool).unwrap();
    assert_eq!(pool.get_ruleset_rule_count(a), 22);
    let m = parse_ruleset(MONOID_RULESET, &mut pool).unwrap();
    assert_eq!(pool.get_ruleset_rule_count(m), 3);
    let g = parse_ruleset(GROUP_RULESET, &mut pool).unwrap();
    assert_eq!(pool.get_ruleset_rule_count(g), 7);
    let s = parse_ruleset(SEMIRING_RULESET, &mut pool).unwrap();
    assert!(pool.get_ruleset_rule_count(s) >= 10);
}

#[test]
fn computed_actions_fold_numbers() {
    let mut pool = Pool::new();
    let e = parse_expression("2 + 3", &mut pool).unwrap();
    parse_ruleset(BASIC_ARITHMETIC_RULESET, &mut pool).unwrap();
    assert_eq!(apply_named(&mut pool, e, "add_numbers").unwrap(), "5");
    let f = parse_expression("6 * 7", &mut pool).unwrap();
    assert_eq!(apply_named(&mut pool, f, "mul_numbers").unwrap(), "42");
    let g = parse_expression("2 * x + 3 * x", &mut pool).unwrap();
    assert_eq!(apply_named(&mut pool, g, "add_coeffs").unwrap(), "(5 * x)");
}

#[test]
fn computed_actions_keep_operand_order() {
    let mut pool = Pool::new();
    parse_ruleset(BASIC_ARITHMETIC_RULESET, &mut pool).unwrap();
    let e = parse_expression("10 - 3", &mut pool).unwrap();
    assert_eq!(apply_named(&mut pool, e, "sub_numbers").unwrap(), "7");
    let f = parse_expression("20 / 4", &mut pool).unwrap();
    assert_eq!(apply_named(&mut pool, f, "div_numbers").unwrap(), "5");
    let g = parse_expression("5 * x - 2 * x", &mut pool).unwrap();
    assert_eq!(apply_named(&mut pool, g, "sub_coeffs").unwrap(), "(3 * x)");
}

#[test]
fn compute_action_builds_difference() {
    let mut pool = Pool::new();
    let a = parse_compute_expr("10 - 3", &mut pool).unwrap();
    let mut out = Vec::new();
    pool.build_action_simple(a, &Captures::new(), &mut out);
    assert_eq!(out.len(), 1);
    assert_eq!(out[0].0, ExprNode::Number(7));
    let b = parse_compute_expr("20 / 4", &mut pool).unwrap();
    let mut out2 = Vec::new();
    pool.build_action_simple(b, &Captures::new(), &mut out2);
    assert_eq!(out2.len(), 1);
    assert_eq!(out2[0].0, ExprNode::Number(5));
}

#[test]
fn group_inverse_rules_apply() {
    let mut pool = Pool::new();
    let e = parse_expression("-a + a", &mut pool).unwrap();
    parse_ruleset(GROUP_RULESET, &mut pool).unwrap();
    assert_eq!(apply_named(&mut pool, e, "left_inverse").unwrap(), "0");
}

#[test]
fn expression_depth_and_size() {
    let mut pool = Pool::new();
    let e = parse_expression("(a + b) * c", &mut pool).unwrap();
    assert_eq!(calculate_expression_depth(&pool, e), 3);
    assert_eq!(calculate_expression_size(&pool, e), 5);
    let x = parse_expression("x", &mut pool).unwrap();
    assert_eq!(calculate_expression_depth(&pool, x), 1);
    assert_eq!(calculate_expression_size(&pool, x), 1);
    let f = parse_expression("f(a, g(b), c)", &mut pool).unwrap();
    assert_eq!(calculate_expression_depth(&pool, f), 3);
    assert_eq!(calculate_expression_size(&pool, f), 5);
}

#[test]
fn node_kind_names() {
    assert_eq!(get_expr_type_name(&ExprNode::Number(1)), "Number");
    let mut pool = Pool::new();
    let e = parse_expression("f(x)", &mut pool).unwrap();
    assert_eq!(get_expr_type_name(&pool.exprs[e.0]), "Call");
    let p = expression_explorer::parser::patterns::parse_pattern("?f(#n)", &mut pool).unwrap();
    assert_eq!(get_pattern_type_name(&pool.patterns[p.0]), "VarCall");
    assert_eq!(get_pattern_type_name(&pool.patterns[p.0 - 1]), "AnyNumber");
    let a = expression_explorer::parser::actions::parse_action("[n + 1]", &mut pool).unwrap();
    assert_eq!(get_action_type_name(&pool.actions[a.0]), "Compute");
}
