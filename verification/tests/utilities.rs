use expression_explorer::parser::parse_expression;
use expression_explorer::{DisplayNode, ExprId, ExprNode, Pool};

fn assert_expr_display(pool: &Pool, expr: ExprId, expected: &str) {
    let actual = pool.display_with_children(expr);
    assert_eq!(actual, expected, "Expression display mismatch:\n  actual: {}\n  expected: {}", actual, expected);
}

fn make_var(pool: &mut Pool, name: &str) -> ExprId {
    let name_id = pool.intern_string(name.to_string());
    let expr_id = pool.add_expr(ExprNode::Variable(name_id));
    pool.mark_expr_end(expr_id);
    expr_id
}

fn make_num(pool: &mut Pool, value: i32) -> ExprId {
    let expr_id = pool.add_expr(ExprNode::Number(value));
    pool.mark_expr_end(expr_id);
    expr_id
}

#[test]
fn test_utilities_work() {
    let mut pool = Pool::new();
    let x = make_var(&mut pool, "x");
    assert_expr_display(&pool, x, "x");
    let two = make_num(&mut pool, 2);
    assert_expr_display(&pool, two, "2");

    let mut pool2 = Pool::new();
    let expr = parse_expression("(x + y)", &mut pool2).unwrap();
    assert_expr_display(&pool2, expr, "(x + y)");
}
