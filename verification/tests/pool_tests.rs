use expression_explorer::children::Children;
use expression_explorer::parser::parse_expression;
use expression_explorer::{DisplayNode, ExprId, ExprNode, Function, Pool};

fn new_test_pool() -> Pool {
    Pool::new()
}

fn parse_test_expr(input: &str) -> (Pool, ExprId) {
    let mut pool = new_test_pool();
    let expr_id = parse_expression(input, &mut pool).expect("Failed to parse test expression");
    (pool, expr_id)
}

fn assert_expr_display(pool: &Pool, expr: ExprId, expected: &str) {
    let actual = pool.display_with_children(expr);
    assert_eq!(actual, expected, "Expression display mismatch:\n  actual: {}\n  expected: {}", actual, expected);
}

fn get_children_vec(pool: &Pool, expr: ExprId) -> Vec<ExprId> {
    pool.children(expr)
}

fn count_nodes(pool: &Pool, expr: ExprId) -> usize {
    let mut count = 1;
    for child in pool.children(expr) {
        count += count_nodes(pool, child);
    }
    count
}

fn make_var(pool: &mut Pool, name: &str) -> ExprId {
    let name_id = pool.intern_string(name.to_string());
    let expr_id = pool.add_expr(ExprNode::Variable(name_id));
    pool.mark_expr_end(expr_id);
    expr_id
}

fn collect_ancestors(pool: &Pool, id: ExprId) -> Vec<ExprId> {
    let mut it = pool.ancestors(id);
    let mut out = Vec::new();
    while let Some(a) = it.next() {
        out.push(a);
    }
    out
}

fn collect_siblings(pool: &Pool, id: ExprId) -> Vec<ExprId> {
    let mut it = pool.siblings(id);
    let mut out = Vec::new();
    while let Some(a) = it.next() {
        out.push(a);
    }
    out
}

#[test]
fn test_new_pool() {
    let pool = new_test_pool();
    assert!(pool.functions.len() > 0);
    assert_eq!(pool.exprs.len(), 0);
    assert_eq!(pool.patterns.len(), 0);
    assert_eq!(pool.actions.len(), 0);
    assert_eq!(pool.rules.len(), 0);
}

#[test]
fn test_string_interning() {
    let mut pool = new_test_pool();
    let id1 = pool.intern_string("test".to_string());
    let id2 = pool.intern_string("test".to_string());
    let id3 = pool.intern_string("different".to_string());
    assert_eq!(id1, id2);
    assert_ne!(id1, id3);
    assert_eq!(&pool.names[id1.0], "test");
    assert_eq!(&pool.names[id3.0], "different");
}

#[test]
fn test_function_interning() {
    let mut pool = new_test_pool();
    let add1 = pool.intern_function(Function::Add);
    let add2 = pool.intern_function(Function::Add);
    let mult = pool.intern_function(Function::Multiply);
    assert_eq!(add1, add2);
    assert_ne!(add1, mult);
}

#[test]
fn test_expression_creation() {
    let mut pool = new_test_pool();
    let x = make_var(&mut pool, "x");
    let y = make_var(&mut pool, "y");
    assert_eq!(count_nodes(&pool, x), 1);
    assert_eq!(count_nodes(&pool, y), 1);
    assert_expr_display(&pool, x, "x");
    assert_expr_display(&pool, y, "y");
}

#[test]
fn test_expression_ends_tracking() {
    let mut pool = new_test_pool();
    let x = make_var(&mut pool, "x");
    let y = make_var(&mut pool, "y");
    assert!(pool.is_root(x));
    assert!(pool.is_root(y));
    let roots: Vec<ExprId> = pool.get_all_roots();
    assert!(roots.contains(&x));
    assert!(roots.contains(&y));
}

#[test]
fn test_simple_parent_child() {
    let (pool, expr) = parse_test_expr("(x + y)");
    let children = get_children_vec(&pool, expr);
    assert_eq!(children.len(), 2);
    let left = children[1];
    let right = children[0];
    assert_eq!(pool.parent(left), Some(expr));
    assert_eq!(pool.parent(right), Some(expr));
    assert_eq!(pool.parent(expr), None);
}

#[test]
fn test_find_root() {
    let (pool, expr) = parse_test_expr("(x + y)");
    let children = get_children_vec(&pool, expr);
    let left = children[1];
    let right = children[0];
    assert_eq!(pool.find_root(expr), Some(expr));
    assert_eq!(pool.find_root(left), Some(expr));
    assert_eq!(pool.find_root(right), Some(expr));
}

#[test]
fn test_nested_tree_navigation() {
    let (pool, expr) = parse_test_expr("((a + b) + c)");
    let children = get_children_vec(&pool, expr);
    let inner_expr = children[1];
    assert_expr_display(&pool, inner_expr, "(a + b)");
    assert_eq!(pool.parent(inner_expr), Some(expr));
    let inner_children = get_children_vec(&pool, inner_expr);
    let a_node = inner_children[1];
    assert_expr_display(&pool, a_node, "a");
    assert_eq!(pool.find_root(a_node), Some(expr));
    let ancestors = collect_ancestors(&pool, a_node);
    assert!(ancestors.contains(&inner_expr));
    assert!(ancestors.contains(&expr));
}

#[test]
fn test_siblings() {
    let (pool, expr) = parse_test_expr("(x + y)");
    let children = get_children_vec(&pool, expr);
    let left = children[1];
    let right = children[0];
    let left_siblings = collect_siblings(&pool, left);
    assert!(left_siblings.contains(&right));
    let right_siblings = collect_siblings(&pool, right);
    assert!(right_siblings.contains(&left));
}

#[test]
fn test_length_calculation() {
    let (pool, simple) = parse_test_expr("x");
    assert_eq!(pool.length(simple), 1);
    let (pool, binary) = parse_test_expr("(x + y)");
    assert_eq!(pool.length(binary), 3);
    let (pool, nested) = parse_test_expr("((a + b) + c)");
    assert_eq!(pool.length(nested), 5);
}

#[test]
fn test_get_full_slice() {
    let (pool, expr) = parse_test_expr("(x + y)");
    let slice = pool.get_full_slice(expr);
    assert_eq!(slice.len(), 3);
    if let [first, second, third] = slice {
        assert!(matches!(first, ExprNode::Variable(_)));
        assert!(matches!(second, ExprNode::Variable(_)));
        assert!(matches!(third, ExprNode::Call { .. }));
    } else {
        panic!("Expected exactly 3 nodes");
    }
}

#[test]
fn pool_tests_test_expression_copying_preserves_structure() {
    let (mut pool, expr1) = parse_test_expr("(x + y)");
    let display_before = pool.display_with_children(expr1);
    let expr_slice: Vec<ExprNode> = pool.get_full_slice(expr1).to_vec();
    for node in expr_slice {
        pool.exprs.push(node);
    }
    let expr2 = ExprId(pool.exprs.len() - 1);
    pool.mark_expr_end(expr2);
    assert_eq!(pool.display_with_children(expr2), display_before);
}

#[test]
fn test_no_unnecessary_string_duplication() {
    let mut pool = new_test_pool();
    for _ in 0..10 {
        make_var(&mut pool, "x");
    }
    let x_count = pool.names.iter().filter(|s| s.as_str() == "x").count();
    assert_eq!(x_count, 1);
}

#[test]
fn test_no_unnecessary_function_duplication() {
    let mut pool = new_test_pool();
    let initial_functions = pool.functions.len();
    for _ in 0..10 {
        pool.intern_function(Function::Add);
    }
    assert_eq!(pool.functions.len(), initial_functions);
}

#[test]
fn test_reasonable_expression_size() {
    let (pool, _expr) = parse_test_expr("((x+x)+(x+x)) + ((x+x)+(x+x))");
    assert!(pool.exprs.len() < 50, "Too many expression nodes: {}", pool.exprs.len());
    let x_count = pool.names.iter().filter(|s| s.as_str() == "x").count();
    assert_eq!(x_count, 1);
}

#[test]
fn parent_is_the_node_that_lists_the_child() {
    let mut pool = Pool::new();
    let e = expression_explorer::parser::parse_expression("(x + y) * z", &mut pool).unwrap();
    for i in 0..pool.exprs.len() {
        let id = ExprId(i);
        let listing: Vec<ExprId> = (0..pool.exprs.len())
            .map(ExprId)
            .filter(|p| pool.children(*p).contains(&id))
            .collect();
        match pool.parent(id) {
            Some(p) => assert_eq!(listing, vec![p]),
            None => assert!(listing.is_empty()),
        }
    }
    assert_eq!(pool.parent(e), None);
}

#[test]
fn find_matches_reports_each_matching_node_once() {
    let mut pool = Pool::new();
    let e = expression_explorer::parser::parse_expression("a + (b + c)", &mut pool).unwrap();
    expression_explorer::parser::parse_ruleset("r {\n  comm: ?x + ?y => y + x\n}", &mut pool).unwrap();
    let ms = pool.find_matches(e);
    assert_eq!(ms.len(), 2);
    assert_eq!(ms[0].offset, e);
    assert_eq!(pool.display_with_children(ms[1].offset), "(b + c)");
    for m in &ms {
        assert_eq!(m.root, e);
        assert_eq!(m.rule_id, expression_explorer::RuleId(0));
    }
}

#[test]
fn can_display_expr_needs_a_node_with_known_symbols() {
    let mut pool = Pool::new();
    let e = parse_expression("f(x) + 2", &mut pool).unwrap();
    assert!(pool.can_display_expr(e));
    assert_eq!(pool.display_with_children(e), "(f(x) + 2)");
    assert!(!pool.can_display_expr(ExprId(pool.exprs.len())));
    pool.exprs.push(ExprNode::Variable(expression_explorer::NameId(99)));
    assert!(!pool.can_display_expr(ExprId(pool.exprs.len() - 1)));
}
