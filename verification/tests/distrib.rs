use expression_explorer::captures::CapturedValue;
use expression_explorer::children::Children;
use expression_explorer::parser::expr::parse_expression;
use expression_explorer::parser::rules::parse_ruleset;
use expression_explorer::rules::Match;
use expression_explorer::{DisplayNode, ExprId, ExprNode, Pool};

fn rule_name(pool: &Pool, m: &Match) -> String {
    let rule = pool.rules[m.rule_id.0];
    pool.display_name(rule.name)
}

fn debug_structure(pool: &Pool, expr: ExprId, indent: usize) {
    let prefix = "  ".repeat(indent);
    let node = pool.exprs[expr.0];
    println!("{}ExprId({}): {:?}", prefix, expr.0, node);
    match node {
        ExprNode::Call { fun, arity, last } => {
            println!(
                "{}  Function: {}, Arity: {}, Last: {}",
                prefix,
                pool.display_function(fun),
                arity,
                last
            );
            let children: Vec<ExprId> = pool.children(expr);
            println!("{}  Children ({} total): {:?}", prefix, children.len(), children);
            for (i, child) in children.iter().enumerate() {
                println!("{}  Child[{}]:", prefix, i);
                debug_structure(pool, *child, indent + 1);
            }
        }
        ExprNode::Struct { name, arity, last } => {
            println!(
                "{}  Struct: {}, Arity: {}, Last: {}",
                prefix,
                pool.display_name(name),
                arity,
                last
            );
        }
        ExprNode::Variable(v) => {
            println!("{}  Variable: {}", prefix, pool.display_name(v));
        }
        ExprNode::Number(n) => {
            println!("{}  Number: {}", prefix, n);
        }
    }
}

fn dump_pool(pool: &Pool, label: &str) {
    println!("\n=== {} ===", label);
    println!("Pool has {} expressions", pool.exprs.len());
    for i in 0..pool.exprs.len() {
        println!("  [{}]: {:?}", i, pool.exprs[i]);
        if let ExprNode::Call { last, .. } | ExprNode::Struct { last, .. } = pool.exprs[i] {
            println!("       -> last={}, children would start at {}", last, i.saturating_sub(last));
        }
    }
}

#[test]
fn test_distrib_test_left_distribution() {
    let mut pool = Pool::new();
    let expr = parse_expression("(x+y)*(x+y)", &mut pool).unwrap();
    assert_eq!(pool.display_with_children(expr), "((x + y) * (x + y))");

    let ruleset = "algebra {\n  left_distrib: ?x * (?y + ?z) => (x * y) + (x * z)\n}";
    parse_ruleset(ruleset, &mut pool).unwrap();

    let matches = pool.find_matches(expr);
    assert!(!matches.is_empty(), "Should find at least one match");

    let left = matches.iter().find(|m| rule_name(&pool, m) == "left_distrib");
    assert!(left.is_some(), "Should find left_distrib match");
    let m = left.unwrap();
    assert_eq!(m.captures.len(), 3, "Should have 3 captures (x, y, z)");

    let result = pool.apply_rule(m).unwrap();
    assert_eq!(pool.display_with_children(result), "(((x + y) * x) + ((x + y) * y))");
}

#[test]
fn test_distrib_test_right_distribution() {
    let mut pool = Pool::new();
    let expr = parse_expression("(x+y)*z", &mut pool).unwrap();
    assert_eq!(pool.display_with_children(expr), "((x + y) * z)");

    let ruleset = "algebra {\n  right_distrib: (?x + ?y) * ?z => (x * z) + (y * z)\n}";
    parse_ruleset(ruleset, &mut pool).unwrap();

    let matches = pool.find_matches(expr);
    assert!(!matches.is_empty(), "Should find at least one match");
    let right = matches.iter().find(|m| rule_name(&pool, m) == "right_distrib");
    assert!(right.is_some(), "Should find right_distrib match");

    let result = pool.apply_rule(right.unwrap()).unwrap();
    assert_eq!(pool.display_with_children(result), "((x * z) + (y * z))");
}

#[test]
fn test_distrib_test_multiple_distribution_steps() {
    let mut pool = Pool::new();
    let expr = parse_expression("(x+y)*(x+y)", &mut pool).unwrap();
    let ruleset = "algebra {\n  left_distrib: ?x * (?y + ?z) => (x * y) + (x * z)\n  right_distrib: (?x + ?y) * ?z => (x * z) + (y * z)\n}";
    parse_ruleset(ruleset, &mut pool).unwrap();

    let matches1 = pool.find_matches(expr);
    let left_match = matches1
        .iter()
        .find(|m| rule_name(&pool, m) == "left_distrib")
        .expect("Should find left_distrib");
    let step1 = pool.apply_rule(left_match).unwrap();
    assert_eq!(pool.display_with_children(step1), "(((x + y) * x) + ((x + y) * y))");

    let matches2 = pool.find_matches(step1);
    let right_matches: Vec<&Match> = matches2
        .iter()
        .filter(|m| rule_name(&pool, m) == "right_distrib")
        .collect();
    assert!(right_matches.len() >= 2, "Should find at least 2 right_distrib matches");

    let step2 = pool.apply_rule(right_matches[0]).unwrap();
    println!("After first right_distrib: {}", pool.display_with_children(step2));

    let matches3 = pool.find_matches(step2);
    println!("\n=== Pool contents around match ===");
    for i in 20..=30 {
        if let Some(node) = pool.exprs.get(i) {
            println!("  [{}]: {:?} = {}", i, node, pool.display_with_children(ExprId(i)));
        }
    }
    println!("\nStep 3: Found {} matches", matches3.len());
    for (i, m) in matches3.iter().enumerate() {
        println!(
            "  Match {}: {} at offset {} = {}",
            i,
            rule_name(&pool, m),
            m.offset.0,
            pool.display_with_children(m.offset)
        );
    }

    let right_match2 = matches3
        .iter()
        .find(|m| {
            rule_name(&pool, m) == "right_distrib"
                && pool.display_with_children(m.offset).contains("(x + y) * y")
        })
        .expect("Should find right_distrib for (x+y)*y");

    println!("  Captures:");
    for (name_id, value) in right_match2.captures.iter() {
        if let CapturedValue::Expression(e) = value {
            println!(
                "    ?{} = {} (ExprId({}))",
                pool.names[name_id.0],
                pool.display_with_children(e),
                e.0
            );
        }
    }

    let root_vec_len = pool.get_full_slice(right_match2.root).len();
    let target_slice_len = pool.get_full_slice(right_match2.offset).len();
    let match_start_in_pool = right_match2.offset.0 + 1 - target_slice_len;
    let root_start_in_pool = right_match2.root.0 + 1 - root_vec_len;
    let target_start = match_start_in_pool.saturating_sub(root_start_in_pool);
    println!("  root_vec_len = {}", root_vec_len);
    println!("  target_start = {}", target_start);

    let final_result = pool.apply_rule(right_match2).unwrap();
    println!("\nFinal result: ExprId({})", final_result.0);
    println!("Pool size after: {}", pool.exprs.len());
    assert_eq!(
        pool.display_with_children(final_result),
        "(((x * x) + (y * x)) + ((x * y) + (y * y)))"
    );
}

#[test]
fn test_expression_structure() {
    let mut pool = Pool::new();
    let expr = parse_expression("(a+b)*c", &mut pool).unwrap();
    println!("\nExpression structure for (a+b)*c:");
    debug_structure(&pool, expr, 0);

    match pool.exprs[expr.0] {
        ExprNode::Call { fun, arity, last } => {
            assert_eq!(pool.display_function(fun), "*");
            assert_eq!(arity, 2);
            assert_eq!(last, 4);

            let children: Vec<ExprId> = pool.children(expr);
            assert_eq!(children.len(), 2);
            assert_eq!(pool.display_with_children(children[0]), "c");
            assert_eq!(pool.display_with_children(children[1]), "(a + b)");
        }
        _ => panic!("Root should be a Call node"),
    }
}

#[test]
fn test_debug_nested_splice() {
    let mut pool = Pool::new();
    let expr = parse_expression("((x*x) + (y*x)) + ((x+y)*y)", &mut pool).unwrap();
    println!("\n=== Initial expression: {} ===", pool.display_with_children(expr));

    let ruleset = "test {\n  right_distrib: (?x + ?y) * ?z => (x * z) + (y * z)\n}";
    parse_ruleset(ruleset, &mut pool).unwrap();

    let matches = pool.find_matches(expr);
    let m = matches.first().expect("Should find a match");
    println!("  Root: ExprId({}) = {}", m.root.0, pool.display_with_children(m.root));
    println!("  Offset: ExprId({}) = {}", m.offset.0, pool.display_with_children(m.offset));

    let rule = pool.rules[m.rule_id.0];
    let mut replacement_vec = Vec::new();
    pool.build_action_simple(rule.action, &m.captures, &mut replacement_vec);
    println!("\nReplacement: {} nodes", replacement_vec.len());

    let mut root_vec = Vec::new();
    pool.copy_expression_to_vec(m.root, &mut root_vec);
    println!("\nRoot expression: {} nodes", root_vec.len());
    for (i, (node, _)) in root_vec.iter().enumerate() {
        println!("  [{}]: {:?}", i, node);
    }

    let relative_pos = m.root.0 - m.offset.0;
    let target_slice_len = pool.get_full_slice(m.offset).len();
    let root_slice_len = pool.get_full_slice(m.root).len();
    let target_end = root_slice_len.saturating_sub(relative_pos);
    let target_start = target_end.saturating_sub(target_slice_len);
    println!("  => Splice range: {}..{}", target_start, target_end);

    let offset_slice = pool.get_full_slice(m.offset);
    for (i, node) in offset_slice.iter().enumerate() {
        println!("  pool[{}]: {:?}", m.offset.0 - offset_slice.len() + 1 + i, node);
    }
}

#[test]
fn test_debug_simple_case() {
    let mut pool = Pool::new();
    let expr = parse_expression("(a+b)*c", &mut pool).unwrap();

    println!("\n=== Pool state after parsing (a+b)*c ===");
    for i in 0..pool.exprs.len() {
        println!("  [{}]: {:?}", i, pool.exprs[i]);
    }

    match pool.exprs[expr.0] {
        ExprNode::Call { fun, arity, last } => {
            println!(
                "\nRoot node (index {}): function={}, arity={}, last={}",
                expr.0,
                pool.display_function(fun),
                arity,
                last
            );
            let first_child_pos = expr.0 - last;
            println!("First child position: {} - {} = {}", expr.0, last, first_child_pos);
            let children: Vec<ExprId> = pool.children(expr);
            println!("Children from iterator: {:?}", children);
            println!("\nExpected children:");
            println!("  Position 2: {:?} = {}", pool.exprs[2], pool.display_with_children(ExprId(2)));
            println!("  Position 3: {:?} = {}", pool.exprs[3], pool.display_with_children(ExprId(3)));
        }
        _ => panic!("Expected Call node"),
    }
}

#[test]
fn test_rule_application_debug() {
    let mut pool = Pool::new();
    let expr = parse_expression("(x+y)*z", &mut pool).unwrap();
    println!("\n=== Original expression: {} ===", pool.display_with_children(expr));
    dump_pool(&pool, "After parsing");

    let ruleset = "algebra {\n  right_distrib: (?x + ?y) * ?z => (x * z) + (y * z)\n}";
    parse_ruleset(ruleset, &mut pool).unwrap();

    let matches = pool.find_matches(expr);
    let m = matches
        .iter()
        .find(|m| rule_name(&pool, m) == "right_distrib")
        .unwrap();

    println!("\nMatch found at offset: {:?}", m.offset);
    println!("Captures:");
    for (name_id, value) in m.captures.iter() {
        if let CapturedValue::Expression(e) = value {
            println!(
                "  ?{} = {} (ExprId({}))",
                pool.names[name_id.0],
                pool.display_with_children(e),
                e.0
            );
        }
    }

    println!("\n=== Applying rule ===");
    let rule = pool.rules[m.rule_id.0];
    println!("Rule action: {}", pool.display_with_children(rule.action));

    let result = pool.apply_rule(m).unwrap();
    dump_pool(&pool, "After applying rule");
    println!("\nResult: {} (ExprId({}))", pool.display_with_children(result), result.0);
    println!("\n=== Result structure ===");
    debug_structure(&pool, result, 0);
}

#[test]
fn test_nested_application_debug() {
    let mut pool = Pool::new();
    let expr = parse_expression("((x+y)*x)+((x+y)*y)", &mut pool).unwrap();
    println!("\n=== Original: {} ===", pool.display_with_children(expr));
    dump_pool(&pool, "Initial");

    let ruleset = "algebra {\n  right_distrib: (?x + ?y) * ?z => (x * z) + (y * z)\n}";
    parse_ruleset(ruleset, &mut pool).unwrap();

    let matches = pool.find_matches(expr);
    println!("\nFound {} matches", matches.len());
    for (i, m) in matches.iter().enumerate() {
        println!("  Match {}: offset={} ({})", i, m.offset.0, pool.display_with_children(m.offset));
    }

    let second_match = &matches[1];
    println!("\nApplying rule to: {}", pool.display_with_children(second_match.offset));
    println!("Root: {}, Offset: {}", second_match.root.0, second_match.offset.0);

    let result = pool.apply_rule(second_match).unwrap();
    dump_pool(&pool, "After applying to (x+y)*y");
    println!("\nResult: {}", pool.display_with_children(result));
    debug_structure(&pool, result, 0);
}

#[test]
fn test_debug_last_field() {
    let mut pool = Pool::new();
    let expr = parse_expression("(a+b)*c", &mut pool).unwrap();
    dump_pool(&pool, "Initial pool state");

    let ruleset = "test {\n  swap: ?x * ?y => y * x\n}";
    parse_ruleset(ruleset, &mut pool).unwrap();

    let matches = pool.find_matches(expr);
    if let Some(m) = matches.first() {
        println!("Applying rule to: {}", pool.display_with_children(m.offset));
        let rule = pool.rules[m.rule_id.0];
        let mut replacement_vec = Vec::new();
        pool.build_action_simple(rule.action, &m.captures, &mut replacement_vec);
        for (i, (node, _)) in replacement_vec.iter().enumerate() {
            println!("  [{}]: {:?}", i, node);
        }
        let mut root_vec = Vec::new();
        pool.copy_expression_to_vec(m.root, &mut root_vec);
        for (i, (node, _)) in root_vec.iter().enumerate() {
            println!("  [{}]: {:?}", i, node);
        }
        let result = pool.apply_rule(m).unwrap();
        dump_pool(&pool, "After apply_rule");
        println!("\nResult: {}", pool.display_with_children(result));
    }
}

#[test]
fn test_distribution_last_field() {
    let mut pool = Pool::new();
    let expr = parse_expression("(x+y)*z", &mut pool).unwrap();
    println!("\n=== Initial expression: {} ===", pool.display_with_children(expr));

    let ruleset = "test {\n  right_distrib: (?x + ?y) * ?z => (x * z) + (y * z)\n}";
    parse_ruleset(ruleset, &mut pool).unwrap();

    let matches = pool.find_matches(expr);
    if let Some(m) = matches.first() {
        let rule = pool.rules[m.rule_id.0];
        println!("Action structure: {}", pool.display_with_children(rule.action));
        let mut replacement_vec = Vec::new();
        pool.build_action_simple(rule.action, &m.captures, &mut replacement_vec);
        for (i, (node, _)) in replacement_vec.iter().enumerate() {
            println!("  [{}]: {:?}", i, node);
            if let ExprNode::Call { last, arity, .. } | ExprNode::Struct { last, arity, .. } = node {
                if *arity > 0 {
                    println!("       -> last={}, should point to child at position {}", last, i - last);
                }
            }
        }
        let result = pool.apply_rule(m).unwrap();
        dump_pool(&pool, "Final pool state");
        debug_structure(&pool, result, 0);
    }
}
