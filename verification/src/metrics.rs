use vstd::prelude::*;

use crate::ast::{Action, ExprNode, Pattern};
use crate::children::{lemma_child_list_bounds, node_ok, nodes_ok, spec_children, Children, NodeInfo};
use crate::idx::ExprId;
use crate::pool::Pool;

verus! {

/// The depth of the expression at `i`: one for a leaf, else one more than
/// its deepest argument.
pub open spec fn expr_depth(nodes: Seq<ExprNode>, i: int) -> nat
    decreases i, 1int, 0int,
{
    if spec_children(nodes, i).len() == 0 {
        1
    } else {
        1 + kids_depth(nodes, i, spec_children(nodes, i).len() as int)
    }
}

/// The greatest depth among the first `m` arguments of the node at `i`.
pub open spec fn kids_depth(nodes: Seq<ExprNode>, i: int, m: int) -> nat
    decreases i, 0int, m,
{
    let kids = spec_children(nodes, i);
    if m <= 0 || m > kids.len() {
        0
    } else {
        let rest = kids_depth(nodes, i, m - 1);
        let c = kids[m - 1];
        let d = if 0 <= c < i {
            expr_depth(nodes, c)
        } else {
            0
        };
        if d > rest {
            d
        } else {
            rest
        }
    }
}

/// The number of nodes of the expression at `i`, counting each argument's.
pub open spec fn expr_size(nodes: Seq<ExprNode>, i: int) -> nat
    decreases i, 1int, 0int,
{
    1 + kids_size(nodes, i, spec_children(nodes, i).len() as int)
}

/// The total size of the first `m` arguments of the node at `i`.
pub open spec fn kids_size(nodes: Seq<ExprNode>, i: int, m: int) -> nat
    decreases i, 0int, m,
{
    let kids = spec_children(nodes, i);
    if m <= 0 || m > kids.len() {
        0
    } else {
        let c = kids[m - 1];
        kids_size(nodes, i, m - 1) + if 0 <= c < i {
            expr_size(nodes, c)
        } else {
            0
        }
    }
}

proof fn lemma_kids_in_range(nodes: Seq<ExprNode>, i: int)
    requires
        nodes_ok(nodes),
        0 <= i < nodes.len(),
    ensures
        forall|k: int| 0 <= k < spec_children(nodes, i).len() ==> 0 <= #[trigger] spec_children(nodes, i)[k] < i,
{
    if nodes[i].spec_arity() > 0 {
        assert(node_ok(nodes, i));
        lemma_child_list_bounds(nodes, i - 1, nodes[i].spec_arity() as nat);
    }
}

proof fn lemma_kids_depth_bound(nodes: Seq<ExprNode>, i: int, m: int, j: int)
    requires
        0 <= j < m <= spec_children(nodes, i).len(),
        0 <= spec_children(nodes, i)[j] < i,
    ensures
        expr_depth(nodes, spec_children(nodes, i)[j]) <= kids_depth(nodes, i, m),
    decreases m,
{
    if j < m - 1 {
        lemma_kids_depth_bound(nodes, i, m - 1, j);
    }
}

proof fn lemma_kids_size_bound(nodes: Seq<ExprNode>, i: int, m: int, j: int)
    requires
        0 <= j < m <= spec_children(nodes, i).len(),
        0 <= spec_children(nodes, i)[j] < i,
    ensures
        kids_size(nodes, i, j) + expr_size(nodes, spec_children(nodes, i)[j]) <= kids_size(nodes, i, m),
    decreases m,
{
    if j < m - 1 {
        lemma_kids_size_bound(nodes, i, m - 1, j);
    }
}

/// The depth of the expression rooted at `expr_id`.
pub fn calculate_expression_depth(pool: &Pool, expr_id: ExprId) -> (r: usize)
    requires
        nodes_ok(pool.exprs@),
        expr_id.0 < pool.exprs@.len(),
        expr_depth(pool.exprs@, expr_id.0 as int) <= usize::MAX,
    ensures
        r == expr_depth(pool.exprs@, expr_id.0 as int),
    decreases expr_id.0,
{
    let children: Vec<ExprId> = pool.children(expr_id);
    let ghost nodes = pool.exprs@;
    let ghost i = expr_id.0 as int;
    let ghost kids = spec_children(nodes, i);
    proof {
        lemma_kids_in_range(nodes, i);
    }
    if children.len() == 0 {
        return 1;
    }
    let mut best: usize = 0;
    for k in 0..children.len()
        invariant
            nodes == pool.exprs@,
            i == expr_id.0,
            kids == spec_children(nodes, i),
            nodes_ok(nodes),
            0 <= i < nodes.len(),
            children@.len() == kids.len(),
            forall|j: int| 0 <= j < children@.len() ==> (#[trigger] children@[j]).0 == kids[j],
            forall|j: int| 0 <= j < kids.len() ==> 0 <= #[trigger] kids[j] < i,
            kids.len() > 0,
            expr_depth(nodes, i) <= usize::MAX,
            best == kids_depth(nodes, i, k as int),
    {
        proof {
            assert(0 <= kids[k as int] < i);
            lemma_kids_depth_bound(nodes, i, kids.len() as int, k as int);
        }
        let d = calculate_expression_depth(pool, children[k]);
        if d > best {
            best = d;
        }
    }
    best + 1
}

/// The number of nodes of the expression rooted at `expr_id`.
pub fn calculate_expression_size(pool: &Pool, expr_id: ExprId) -> (r: usize)
    requires
        nodes_ok(pool.exprs@),
        expr_id.0 < pool.exprs@.len(),
        expr_size(pool.exprs@, expr_id.0 as int) <= usize::MAX,
    ensures
        r == expr_size(pool.exprs@, expr_id.0 as int),
    decreases expr_id.0,
{
    let children: Vec<ExprId> = pool.children(expr_id);
    let ghost nodes = pool.exprs@;
    let ghost i = expr_id.0 as int;
    let ghost kids = spec_children(nodes, i);
    proof {
        lemma_kids_in_range(nodes, i);
    }
    let mut total: usize = 1;
    for k in 0..children.len()
        invariant
            nodes == pool.exprs@,
            i == expr_id.0,
            kids == spec_children(nodes, i),
            nodes_ok(nodes),
            0 <= i < nodes.len(),
            children@.len() == kids.len(),
            forall|j: int| 0 <= j < children@.len() ==> (#[trigger] children@[j]).0 == kids[j],
            forall|j: int| 0 <= j < kids.len() ==> 0 <= #[trigger] kids[j] < i,
            expr_size(nodes, i) <= usize::MAX,
            total == 1 + kids_size(nodes, i, k as int),
    {
        proof {
            assert(0 <= kids[k as int] < i);
            lemma_kids_size_bound(nodes, i, kids.len() as int, k as int);
        }
        let s = calculate_expression_size(pool, children[k]);
        total = total + s;
    }
    total
}

/// The name of the kind of an expression node.
pub open spec fn expr_kind(e: ExprNode) -> &'static str {
    match e {
        ExprNode::Number(_) => "Number",
        ExprNode::Variable(_) => "Variable",
        ExprNode::Call { .. } => "Call",
        ExprNode::Struct { .. } => "Struct",
    }
}

/// The name of the kind of an expression node, as `expr_kind` gives it.
pub fn get_expr_type_name(expr: &ExprNode) -> (r: &'static str)
    ensures
        r == expr_kind(*expr),
{
    match expr {
        ExprNode::Number(_) => "Number",
        ExprNode::Variable(_) => "Variable",
        ExprNode::Call { .. } => "Call",
        ExprNode::Struct { .. } => "Struct",
    }
}

/// The name of the kind of a pattern node.
pub open spec fn pattern_kind(p: Pattern) -> &'static str {
    match p {
        Pattern::Number(_) => "Number",
        Pattern::Variable(_) => "Variable",
        Pattern::AnyNumber(_) => "AnyNumber",
        Pattern::Wildcard(_) => "Wildcard",
        Pattern::Call { .. } => "Call",
        Pattern::Struct { .. } => "Struct",
        Pattern::VarCallName { .. } => "VarCall",
        Pattern::VarStructName { .. } => "VarStruct",
    }
}

/// The name of the kind of a pattern node, as `pattern_kind` gives it.
pub fn get_pattern_type_name(pattern: &Pattern) -> (r: &'static str)
    ensures
        r == pattern_kind(*pattern),
{
    match pattern {
        Pattern::Number(_) => "Number",
        Pattern::Variable(_) => "Variable",
        Pattern::AnyNumber(_) => "AnyNumber",
        Pattern::Wildcard(_) => "Wildcard",
        Pattern::Call { .. } => "Call",
        Pattern::Struct { .. } => "Struct",
        Pattern::VarCallName { .. } => "VarCall",
        Pattern::VarStructName { .. } => "VarStruct",
    }
}

/// The name of the kind of an action node.
pub open spec fn action_kind(a: Action) -> &'static str {
    match a {
        Action::Number(_) => "Number",
        Action::Variable(_) => "Variable",
        Action::Call { .. } => "Call",
        Action::Struct { .. } => "Struct",
        Action::Compute { .. } => "Compute",
        Action::VarCallName { .. } => "VarCall",
        Action::VarStructName { .. } => "VarStruct",
    }
}

/// The name of the kind of an action node, as `action_kind` gives it.
pub fn get_action_type_name(action: &Action) -> (r: &'static str)
    ensures
        r == action_kind(*action),
{
    match action {
        Action::Number(_) => "Number",
        Action::Variable(_) => "Variable",
        Action::Call { .. } => "Call",
        Action::Struct { .. } => "Struct",
        Action::Compute { .. } => "Compute",
        Action::VarCallName { .. } => "VarCall",
        Action::VarStructName { .. } => "VarStruct",
    }
}

} // verus!
