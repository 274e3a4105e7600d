use expression_explorer::parser::{parse_expression, parse_ruleset};
use expression_explorer::{DisplayNode, ExprId, Pool, RuleId};

fn prepared(expr: &str, rules: &str) -> (Pool, ExprId) {
    let mut pool = Pool::new();
    let e = parse_expression(expr, &mut pool).unwrap();
    parse_ruleset(rules, &mut pool).unwrap();
    pool.update_equivalence_groups(e);
    (pool, e)
}

#[test]
fn bounded_bfs_explores_rewrites() {
    let (mut pool, e) = prepared("a + b", "r {\n  comm: ?x + ?y => y + x\n}");
    assert!(pool.search_ready_check());
    let paths = pool.bounded_bfs(e, None, 5, 100);
    assert_eq!(paths.len(), 1);
    assert_eq!(paths[0].len(), 1);
    let (from, rule, to) = paths[0][0];
    assert_eq!(from, e);
    assert_eq!(rule, RuleId(0));
    assert_eq!(pool.display_with_children(to), "(b + a)");
    assert!(pool.search_ready_check());
}

#[test]
fn bounded_bfs_finds_target() {
    let mut pool = Pool::new();
    let e = parse_expression("(x + 0) + 0", &mut pool).unwrap();
    let target = parse_expression("x", &mut pool).unwrap();
    parse_ruleset("r {\n  zero: ?x + 0 => x\n}", &mut pool).unwrap();
    pool.update_equivalence_groups(e);
    let paths = pool.bounded_bfs(e, Some(target), 10, 1000);
    assert!(!paths.is_empty());
    for p in &paths {
        let end = p.last().unwrap().2;
        assert_eq!(pool.display_with_children(end), "x");
        assert_eq!(p[0].0, e);
    }
    assert!(paths.iter().any(|p| p.len() == 2));
}

#[test]
fn bounded_bfs_respects_limits() {
    let (mut pool, e) = prepared("a + b", "r {\n  comm: ?x + ?y => y + x\n}");
    assert!(pool.bounded_bfs(e, None, 0, 100).is_empty());
    let (mut pool2, e2) = prepared("a + b", "r {\n  comm: ?x + ?y => y + x\n}");
    assert!(pool2.bounded_bfs(e2, None, 5, 1).is_empty());
    let mut pool3 = Pool::new();
    let lone = parse_expression("a", &mut pool3).unwrap();
    assert!(pool3.bounded_bfs(lone, None, 5, 100).is_empty());
}

#[test]
fn bounded_bfs_reports_first_recorded_move() {
    let mut pool = Pool::new();
    let a = parse_expression("a", &mut pool).unwrap();
    let b = parse_expression("b", &mut pool).unwrap();
    let c = parse_expression("c", &mut pool).unwrap();
    pool.add_transformation(a, b, RuleId(4));
    pool.add_transformation(a, c, RuleId(5));
    assert!(pool.search_ready_check());
    let paths = pool.bounded_bfs(a, None, 2, 3);
    assert!(!paths.is_empty());
    assert_eq!(paths[0], vec![(a, RuleId(4), b)]);
    let all = pool.bounded_bfs(a, None, 2, 100);
    assert_eq!(all, vec![vec![(a, RuleId(4), b)], vec![(a, RuleId(5), c)]]);
}

#[test]
fn recorded_moves_skip_visited_groups() {
    let mut pool = Pool::new();
    let a = parse_expression("a", &mut pool).unwrap();
    let b = parse_expression("b", &mut pool).unwrap();
    let c = parse_expression("c", &mut pool).unwrap();
    pool.add_transformation(a, b, RuleId(4));
    pool.add_transformation(a, c, RuleId(5));
    let gb = pool.get_equivalence_group(b).unwrap();
    assert_eq!(pool.recorded_moves(a, &vec![], &vec![]), vec![(b, RuleId(4)), (c, RuleId(5))]);
    assert_eq!(pool.recorded_moves(a, &vec![gb.0], &vec![]), vec![(c, RuleId(5))]);
    assert!(pool.recorded_moves(b, &vec![], &vec![]).is_empty());
}

#[test]
fn checked_application() {
    let (mut pool, e) = prepared("x + x", "r {\n  double: ?x + ?x => 2 * x\n}");
    assert!(pool.matching_ready());
    let matches = pool.find_matches(e);
    assert!(pool.can_apply(&matches[0]));
    let r = pool.try_apply_rule(&matches[0]).unwrap();
    assert_eq!(pool.display_with_children(r), "(2 * x)");
    let mut bad = matches[0].clone();
    bad.rule_id = RuleId(99);
    assert!(!pool.can_apply(&bad));
    let before = pool.exprs.len();
    assert_eq!(pool.try_apply_rule(&bad), None);
    assert_eq!(pool.exprs.len(), before);
}

#[test]
fn bounded_bfs_start_equal_to_target_is_the_empty_path() {
    let mut pool = Pool::new();
    let a = parse_expression("f(x, 1)", &mut pool).unwrap();
    let t = parse_expression("f(x, 1)", &mut pool).unwrap();
    let b = parse_expression("g(x)", &mut pool).unwrap();
    pool.add_transformation(a, b, RuleId(0));
    let paths = pool.bounded_bfs(a, Some(t), 3, 10);
    assert_eq!(paths, vec![Vec::<(ExprId, RuleId, ExprId)>::new()]);
}

#[test]
fn bounded_bfs_reports_first_layer_hits_in_order() {
    let mut pool = Pool::new();
    let a = parse_expression("a", &mut pool).unwrap();
    let b = parse_expression("b", &mut pool).unwrap();
    let c = parse_expression("c", &mut pool).unwrap();
    let t = parse_expression("c", &mut pool).unwrap();
    pool.add_transformation(a, b, RuleId(1));
    pool.add_transformation(a, c, RuleId(2));
    let paths = pool.bounded_bfs(a, Some(t), 3, 10);
    assert_eq!(paths, vec![vec![(a, RuleId(2), c)]]);
}

#[test]
fn bounded_bfs_without_rules_walks_recorded_rewrites_in_order() {
    let mut pool = Pool::new();
    let a = parse_expression("a", &mut pool).unwrap();
    let b = parse_expression("b", &mut pool).unwrap();
    let c = parse_expression("c", &mut pool).unwrap();
    let d = parse_expression("d", &mut pool).unwrap();
    let t = parse_expression("d", &mut pool).unwrap();
    pool.add_transformation(a, b, RuleId(1));
    pool.add_transformation(a, c, RuleId(2));
    pool.add_transformation(b, d, RuleId(3));
    pool.add_transformation(c, d, RuleId(4));
    pool.update_equivalence_groups(t);
    assert!(pool.search_ready_check());
    let exprs_before = pool.exprs.len();
    let found = pool.bounded_bfs(a, Some(t), 5, 100);
    assert_eq!(found, vec![vec![(a, RuleId(1), b), (b, RuleId(3), d)]]);
    let all = pool.bounded_bfs(a, None, 5, 100);
    assert_eq!(
        all,
        vec![
            vec![(a, RuleId(1), b)],
            vec![(a, RuleId(2), c)],
            vec![(a, RuleId(1), b), (b, RuleId(3), d)],
        ]
    );
    let shallow = pool.bounded_bfs(a, None, 2, 100);
    assert_eq!(shallow, vec![vec![(a, RuleId(1), b)], vec![(a, RuleId(2), c)]]);
    let cut = pool.bounded_bfs(a, None, 5, 3);
    assert_eq!(cut, vec![vec![(a, RuleId(1), b)]]);
    assert_eq!(pool.exprs.len(), exprs_before);
}
