use vstd::prelude::*;

use crate::ast::ExprNode;
use crate::children::{lemma_children_before, nodes_ok, spec_children, Children};
use crate::idx::ExprId;
use crate::pool::Pool;

verus! {

/// Structural equality of the expressions rooted at `a` and `b`: equal
/// numbers, equal variables, or calls of the same function and arity whose
/// children, paired from the last argument on, are equal. Struct nodes are
/// never equal, not even to themselves.
pub open spec fn spec_expr_eq(nodes: Seq<ExprNode>, a: int, b: int) -> bool
    decreases a, 1int, 0int,
{
    if 0 <= a < nodes.len() && 0 <= b < nodes.len() {
        match (nodes[a], nodes[b]) {
            (ExprNode::Number(i), ExprNode::Number(j)) => i == j,
            (ExprNode::Variable(i), ExprNode::Variable(j)) => i == j,
            (
                ExprNode::Call { fun: f1, arity: n1, .. },
                ExprNode::Call { fun: f2, arity: n2, .. },
            ) => f1 == f2 && n1 == n2 && kids_eq(nodes, a, b, 0),
            _ => false,
        }
    } else {
        false
    }
}

/// The children of `a` and `b` from position `k` of their child lists on,
/// paired up while both lists last, are equal.
pub open spec fn kids_eq(nodes: Seq<ExprNode>, a: int, b: int, k: int) -> bool
    decreases a, 0int, spec_children(nodes, a).len() - k,
{
    let ka = spec_children(nodes, a);
    let kb = spec_children(nodes, b);
    if k < 0 || k >= ka.len() || k >= kb.len() {
        true
    } else if !(0 <= ka[k] < a) {
        false
    } else {
        spec_expr_eq(nodes, ka[k], kb[k]) && kids_eq(nodes, a, b, k + 1)
    }
}

impl Pool {
    /// Whether the expressions rooted at the two nodes are structurally equal.
    pub fn expr_eq(&self, node1_id: ExprId, node2_id: ExprId) -> (r: bool)
        requires
            nodes_ok(self.exprs@),
            node1_id.0 < self.exprs@.len(),
            node2_id.0 < self.exprs@.len(),
        ensures
            r == spec_expr_eq(self.exprs@, node1_id.0 as int, node2_id.0 as int),
        decreases node1_id.0, 1int,
    {
        match (self.exprs[node1_id.0], self.exprs[node2_id.0]) {
            (ExprNode::Number(i), ExprNode::Number(j)) => i == j,
            (ExprNode::Variable(i), ExprNode::Variable(j)) => i == j,
            (
                ExprNode::Call { fun: f1, arity: n1, .. },
                ExprNode::Call { fun: f2, arity: n2, .. },
            ) => {
                if f1 != f2 || n1 != n2 {
                    return false;
                }
                self.children_eq(node1_id, node2_id)
            },
            _ => false,
        }
    }

    fn children_eq(&self, a: ExprId, b: ExprId) -> (r: bool)
        requires
            nodes_ok(self.exprs@),
            a.0 < self.exprs@.len(),
            b.0 < self.exprs@.len(),
        ensures
            r == kids_eq(self.exprs@, a.0 as int, b.0 as int, 0),
        decreases a.0, 0int,
    {
        let ka = self.children(a);
        let kb = self.children(b);
        proof {
            lemma_children_before(self.exprs@, a.0 as int);
            lemma_children_before(self.exprs@, b.0 as int);
        }
        let ghost sa = spec_children(self.exprs@, a.0 as int);
        let ghost sb = spec_children(self.exprs@, b.0 as int);
        let mut k: usize = 0;
        while k < ka.len() && k < kb.len()
            invariant
                nodes_ok(self.exprs@),
                a.0 < self.exprs@.len(),
                b.0 < self.exprs@.len(),
                sa == spec_children(self.exprs@, a.0 as int),
                sb == spec_children(self.exprs@, b.0 as int),
                ka@.len() == sa.len(),
                kb@.len() == sb.len(),
                forall|m: int| 0 <= m < ka@.len() ==> (#[trigger] ka@[m]).0 as int == sa[m],
                forall|m: int| 0 <= m < kb@.len() ==> (#[trigger] kb@[m]).0 as int == sb[m],
                forall|m: int| 0 <= m < sa.len() ==> 0 <= #[trigger] sa[m] < a.0,
                forall|m: int| 0 <= m < sb.len() ==> 0 <= #[trigger] sb[m] < b.0,
                k <= ka@.len(),
                kids_eq(self.exprs@, a.0 as int, b.0 as int, 0) == kids_eq(
                    self.exprs@,
                    a.0 as int,
                    b.0 as int,
                    k as int,
                ),
            decreases ka@.len() - k,
        {
            if !self.expr_eq(ka[k], kb[k]) {
                return false;
            }
            k = k + 1;
        }
        true
    }
}

} // verus!
