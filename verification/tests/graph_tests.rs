use expression_explorer::parser::{parse_expression, parse_ruleset};
use expression_explorer::search::levenshtein_distance;
use expression_explorer::{DisplayNode, EquivalenceGroupId, ExprId, Function, Pool, RuleId};

fn pool_with(exprs: &[&str]) -> (Pool, Vec<ExprId>) {
    let mut pool = Pool::new();
    let mut ids = Vec::new();
    for e in exprs {
        ids.push(parse_expression(e, &mut pool).unwrap());
    }
    (pool, ids)
}

#[test]
fn transformation_path_follows_recorded_rewrites() {
    let (mut pool, ids) = pool_with(&["a", "b", "c", "d"]);
    pool.add_transformation(ids[0], ids[1], RuleId(0));
    pool.add_transformation(ids[1], ids[2], RuleId(1));
    pool.add_transformation(ids[0], ids[3], RuleId(2));
    pool.add_transformation(ids[3], ids[2], RuleId(3));
    assert_eq!(pool.find_transformation_path(ids[0], ids[2]), Some(vec![RuleId(0), RuleId(1)]));
    assert_eq!(pool.find_transformation_path(ids[0], ids[0]), Some(vec![]));
    assert_eq!(pool.find_transformation_path(ids[2], ids[0]), None);
    assert_eq!(pool.find_transformation_path(ids[3], ids[2]), Some(vec![RuleId(3)]));
}

#[test]
fn derivation_history_is_oldest_first() {
    let (mut pool, ids) = pool_with(&["a", "b", "c"]);
    pool.add_transformation(ids[0], ids[1], RuleId(5));
    pool.add_transformation(ids[1], ids[2], RuleId(7));
    assert_eq!(pool.get_derivation_history(ids[2]), vec![RuleId(5), RuleId(7)]);
    assert_eq!(pool.get_derivation_history(ids[0]), vec![]);
}

#[test]
fn reachable_includes_start_and_successors() {
    let (mut pool, ids) = pool_with(&["a", "b", "c", "d"]);
    pool.add_transformation(ids[0], ids[1], RuleId(0));
    pool.add_transformation(ids[1], ids[2], RuleId(0));
    let r = pool.find_all_reachable(ids[0]);
    assert_eq!(r, vec![ids[0], ids[1], ids[2]]);
    let r3 = pool.find_all_reachable(ids[3]);
    assert_eq!(r3, vec![ids[3]]);
}

#[test]
fn cycles_are_detected() {
    let (mut pool, ids) = pool_with(&["a", "b", "c"]);
    assert!(pool.detect_cycles().is_empty());
    pool.add_transformation(ids[0], ids[1], RuleId(0));
    pool.add_transformation(ids[1], ids[0], RuleId(1));
    pool.add_transformation(ids[1], ids[2], RuleId(1));
    let cycles = pool.detect_cycles();
    assert_eq!(cycles.len(), 1);
    assert_eq!(cycles[0], vec![ids[0], ids[1]]);
    assert!(pool.has_infinite_derivation_potential(ids[0]));
    assert!(!pool.has_infinite_derivation_potential(ids[2]));
}

#[test]
fn strongly_connected_components_partition_the_graph() {
    let (mut pool, ids) = pool_with(&["a", "b", "c", "d"]);
    pool.add_transformation(ids[0], ids[1], RuleId(0));
    pool.add_transformation(ids[1], ids[0], RuleId(0));
    pool.add_transformation(ids[1], ids[2], RuleId(0));
    pool.add_transformation(ids[2], ids[3], RuleId(0));
    let comps = pool.find_strongly_connected_components();
    let mut sizes: Vec<usize> = comps.iter().map(|c| c.len()).collect();
    sizes.sort();
    assert_eq!(sizes, vec![1, 1, 2]);
    for id in &ids {
        assert_eq!(comps.iter().filter(|c| c.contains(id)).count(), 1);
    }
    let pair = comps.iter().find(|c| c.len() == 2).unwrap();
    assert!(pair.contains(&ids[0]) && pair.contains(&ids[1]));
}

#[test]
fn strongly_connected_components_are_mutual_reach_classes() {
    let (mut pool, ids) = pool_with(&["a", "b", "c", "d", "e"]);
    pool.add_transformation(ids[0], ids[1], RuleId(0));
    pool.add_transformation(ids[1], ids[0], RuleId(0));
    pool.add_transformation(ids[0], ids[2], RuleId(0));
    pool.add_transformation(ids[2], ids[3], RuleId(0));
    pool.add_transformation(ids[3], ids[2], RuleId(0));
    pool.add_transformation(ids[3], ids[4], RuleId(0));
    let comps = pool.find_strongly_connected_components();
    assert_eq!(comps.len(), 3);
    let class_of = |id: &ExprId| comps.iter().position(|c| c.contains(id)).unwrap();
    assert_eq!(class_of(&ids[0]), class_of(&ids[1]));
    assert_eq!(class_of(&ids[2]), class_of(&ids[3]));
    assert_ne!(class_of(&ids[0]), class_of(&ids[2]));
    assert_ne!(class_of(&ids[2]), class_of(&ids[4]));
    assert_ne!(class_of(&ids[0]), class_of(&ids[4]));
    assert_eq!(comps[class_of(&ids[4])].len(), 1);
}

#[test]
fn equivalence_groups_gather_equal_expressions() {
    let (mut pool, ids) = pool_with(&["x + y", "x + y", "y + x"]);
    pool.update_equivalence_groups(ids[0]);
    pool.update_equivalence_groups(ids[1]);
    pool.update_equivalence_groups(ids[2]);
    assert_eq!(pool.get_equivalence_group(ids[0]), pool.get_equivalence_group(ids[1]));
    assert_ne!(pool.get_equivalence_group(ids[0]), pool.get_equivalence_group(ids[2]));
    assert_eq!(pool.get_all_equivalence_groups().len(), 2);
}

#[test]
fn rule_application_records_transformation() {
    let mut pool = Pool::new();
    let expr = parse_expression("x + x", &mut pool).unwrap();
    parse_ruleset("r {\n  double: ?x + ?x => 2 * x\n}", &mut pool).unwrap();
    let matches = pool.find_matches(expr);
    let result = pool.apply_rule(&matches[0]).unwrap();
    assert_eq!(pool.display_with_children(result), "(2 * x)");
    assert_eq!(pool.get_outgoing_transformations(expr).unwrap(), &vec![(result, RuleId(0))]);
    assert_eq!(pool.get_incoming_transformations(result).unwrap(), &vec![(expr, RuleId(0))]);
    assert_eq!(pool.get_rule_applications(RuleId(0)).unwrap(), &vec![(expr, result)]);
    assert_eq!(pool.find_transformation_path(expr, result), Some(vec![RuleId(0)]));
}

#[test]
fn chains_and_blacklist() {
    let mut pool = Pool::new();
    let g0 = EquivalenceGroupId(0);
    let g1 = EquivalenceGroupId(1);
    let g2 = EquivalenceGroupId(2);
    assert!(pool.should_apply_rule(g0, RuleId(0), g1, &[]));
    assert!(!pool.should_apply_rule(g1, RuleId(0), g0, &[(g0, RuleId(0))]));
    assert!(!pool.should_apply_rule(g0, RuleId(0), g2, &[(g0, RuleId(0))]));

    pool.start_rule_application_chain(g0);
    pool.extend_rule_application_chain(g0, (g0, RuleId(3)));
    pool.extend_rule_application_chain(g1, (g1, RuleId(4)));
    assert_eq!(pool.get_current_chain(g0), vec![(g0, RuleId(3))]);
    assert_eq!(pool.get_current_chain(g1), vec![]);
    pool.clear_application_chain(g0);
    assert_eq!(pool.get_current_chain(g0), vec![]);

    pool.max_chain_length = 1;
    assert!(!pool.should_apply_rule(g1, RuleId(0), g2, &[(g0, RuleId(0))]));
}

#[test]
fn equivalence_cycles_are_blacklisted() {
    let (mut pool, ids) = pool_with(&["a", "b"]);
    pool.add_transformation(ids[0], ids[1], RuleId(0));
    pool.add_transformation(ids[1], ids[0], RuleId(1));
    let cycles = pool.detect_equivalence_cycles();
    assert_eq!(cycles.len(), 1);
    assert_eq!(cycles[0].len(), 2);
    pool.detect_and_blacklist_cycles();
    assert_eq!(pool.blacklisted_chains.len(), 1);
    pool.detect_and_blacklist_cycles();
    assert_eq!(pool.blacklisted_chains.len(), 1);
    let chain = pool.blacklisted_chains[0].clone();
    let (last_group, last_rule) = chain[1];
    assert!(!pool.should_apply_rule(last_group, last_rule, EquivalenceGroupId(9), &chain[..1]));
}

#[test]
fn self_loop_cycles_are_not_blacklisted() {
    let (mut pool, ids) = pool_with(&["a", "a"]);
    pool.add_transformation(ids[0], ids[1], RuleId(0));
    let cycles = pool.detect_equivalence_cycles();
    assert_eq!(cycles.len(), 1);
    assert_eq!(cycles[0].len(), 1);
    pool.detect_and_blacklist_cycles();
    assert!(pool.blacklisted_chains.is_empty());
}

#[test]
fn function_and_coordinate_text() {
    assert_eq!(Function::Add.to_text(), "+");
    assert_eq!(Function::Negate.to_text(), "neg");
    assert_eq!(Function::Custom(expression_explorer::NameId(12)).to_text(), "custom_12");
    let root = expression_explorer::Coordinate::root();
    assert_eq!(root.to_text(), "[]");
    let c = root.child(0).child(15);
    assert_eq!(c.to_text(), "[0, 15]");
}

#[test]
fn default_pool_is_new_pool() {
    let pool = Pool::default();
    assert_eq!(pool.exprs.len(), 0);
    assert_eq!(pool.functions.len(), Pool::new().functions.len());
}

#[test]
fn levenshtein_distances() {
    assert_eq!(levenshtein_distance("kitten", "sitting"), 3);
    assert_eq!(levenshtein_distance("", "abc"), 3);
    assert_eq!(levenshtein_distance("abc", ""), 3);
    assert_eq!(levenshtein_distance("(x + y)", "(x + y)"), 0);
    assert_eq!(levenshtein_distance("flaw", "lawn"), 2);
}

#[test]
fn ids_convert_to_and_from_indices() {
    let e = ExprId::from(3usize);
    assert_eq!(e, ExprId(3));
    assert_eq!(usize::from(e), 3);
    let r: RuleId = 7usize.into();
    assert_eq!(r.get(), 7);
    assert_eq!(usize::from(EquivalenceGroupId::new(4)), 4);
}

#[test]
fn grouping_joins_an_equal_group_or_opens_the_next_one() {
    let (mut pool, ids) = pool_with(&["x + 1", "y", "x + 1"]);
    pool.update_equivalence_groups(ids[0]);
    pool.update_equivalence_groups(ids[1]);
    assert_eq!(pool.get_equivalence_group(ids[0]), Some(EquivalenceGroupId(0)));
    assert_eq!(pool.get_equivalence_group(ids[1]), Some(EquivalenceGroupId(1)));
    pool.update_equivalence_groups(ids[2]);
    assert_eq!(pool.get_equivalence_group(ids[2]), Some(EquivalenceGroupId(0)));
    assert_eq!(pool.get_equivalence_group(ids[1]), Some(EquivalenceGroupId(1)));
}
