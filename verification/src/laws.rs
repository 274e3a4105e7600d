use vstd::prelude::*;

use crate::children::{
    children_complete, lemma_child_list_bounds, lemma_children_before, node_ok, nodes_ok, spec_child_list, spec_children, spec_length,
    NodeInfo,
};
use crate::equality::{kids_eq, spec_expr_eq};
use crate::graph::{
    entries, first_join, group_sets, grouped, groups_agree, groups_exact, groups_keyed_ok, joins, pushed, transformation_added,
};
use crate::captures::CapturedValue;
use crate::idx::{EquivalenceGroupId, ExprId, NameId, RuleId};
use crate::explore::{lemma_kids_matches_root, lemma_tree_matches_root};
use crate::rules::{kids_matches, match_node, rule_matches, tree_matches};
use crate::pool::{
    covers, find_from, interned, interned_at, is_parent_pos, lemma_parent_is, lemma_parent_pos, region_start, spec_parent, tree_shaped,
};
use crate::ast::ExprNode;
use crate::pool::Pool;
use crate::search::lev;
use crate::traversal::{acyclic, consistent, edge, in_edge, is_cycle, is_walk, mirrored, reaches, reaches_cycle, walk_between};

verus! {

proof fn lemma_find_from_found<T>(s: Seq<T>, x: T, k: int)
    requires
        find_from(s, x, k) >= 0,
    ensures
        k <= find_from(s, x, k) < s.len(),
        s[find_from(s, x, k)] == x,
    decreases s.len() - k,
{
    if k >= 0 && k < s.len() && s[k] != x {
        lemma_find_from_found(s, x, k + 1);
    }
}

proof fn lemma_find_from_push<T>(s: Seq<T>, x: T, k: int)
    requires
        0 <= k <= s.len(),
        find_from(s, x, k) == -1,
    ensures
        find_from(s.push(x), x, k) == s.len(),
    decreases s.len() - k,
{
    if k < s.len() {
        assert(s.push(x)[k] == s[k]);
        lemma_find_from_push(s, x, k + 1);
    }
}

proof fn lemma_find_from_neg<T>(s: Seq<T>, x: T, k: int)
    ensures
        find_from(s, x, k) < 0 ==> find_from(s, x, k) == -1,
    decreases s.len() - k,
{
    if k >= 0 && k < s.len() && s[k] != x {
        lemma_find_from_neg(s, x, k + 1);
    }
}

/// Interning a value a second time finds it where the first time put it
/// and leaves the table as it is.
pub proof fn law_intern_repeat<T>(s: Seq<T>, x: T)
    ensures
        interned(interned(s, x), x) == interned(s, x),
        interned_at(interned(s, x), x) == interned_at(s, x),
{
    lemma_find_from_neg(s, x, 0);
    if find_from(s, x, 0) < 0 {
        lemma_find_from_push(s, x, 0);
    }
}

/// Interning puts the value at the id it returns, and a different value
/// interned afterwards gets a different id.
pub proof fn law_intern_distinct<T>(s: Seq<T>, x: T, y: T)
    requires
        x != y,
    ensures
        interned(s, x)[interned_at(s, x)] == x,
        interned_at(interned(s, x), y) != interned_at(s, x),
{
    let t = interned(s, x);
    if find_from(s, x, 0) >= 0 {
        lemma_find_from_found(s, x, 0);
    }
    if find_from(t, y, 0) >= 0 {
        lemma_find_from_found(t, y, 0);
    }
}

/// A path of rewrites from `a` to `b` followed by one from `b` to `c`
/// leads from `a` to `c`.
pub proof fn law_reaches_transitive(pool: &Pool, a: usize, b: usize, c: usize)
    requires
        reaches(pool, a, b),
        reaches(pool, b, c),
    ensures
        reaches(pool, a, c),
{
    let r1 = choose|rules: Seq<RuleId>| #[trigger] walk_between(pool, a, b, rules);
    let n1 = choose|nodes: Seq<usize>|
        #![trigger is_walk(pool, nodes, r1)]
        is_walk(pool, nodes, r1) && nodes[0] == a && nodes.last() == b;
    let r2 = choose|rules: Seq<RuleId>| #[trigger] walk_between(pool, b, c, rules);
    let n2 = choose|nodes: Seq<usize>|
        #![trigger is_walk(pool, nodes, r2)]
        is_walk(pool, nodes, r2) && nodes[0] == b && nodes.last() == c;
    let nodes = n1 + n2.drop_first();
    let rules = r1 + r2;
    assert forall|i: int| 0 <= i < rules.len() implies #[trigger] edge(pool, nodes[i], nodes[i + 1], rules[i]) by {
        if i < r1.len() {
            assert(edge(pool, n1[i], n1[i + 1], r1[i]));
            if i + 1 == n1.len() - 1 {
                assert(nodes[i + 1] == n1[i + 1]);
            }
        } else {
            let j = i - r1.len();
            assert(edge(pool, n2[j], n2[j + 1], r2[j]));
            if j == 0 {
                assert(nodes[i] == n1.last());
            } else {
                assert(nodes[i] == n2[j]);
            }
            assert(nodes[i + 1] == n2[j + 1]);
        }
    }
    assert(is_walk(pool, nodes, rules));
    if n2.len() == 1 {
        assert(nodes.last() == n1.last());
    } else {
        assert(nodes.last() == n2.last());
    }
    assert(walk_between(pool, a, c, rules));
}

/// Recording a rewrite keeps every recorded edge, adds the new one, and
/// so makes the rewritten expression reachable from the one it came from;
/// it also keeps the outgoing and incoming records in agreement, both the
/// one way and the two ways.
pub proof fn law_recorded_rewrite(
    old_p: &Pool,
    mid1: &Pool,
    mid2: &Pool,
    new_p: &Pool,
    from: ExprId,
    to: ExprId,
    rule: RuleId,
)
    requires
        transformation_added(old_p, mid1, mid2, new_p, from, to, rule),
    ensures
        forall|a: usize, b: usize, r: RuleId| #[trigger] edge(old_p, a, b, r) ==> edge(new_p, a, b, r),
        edge(new_p, from.0, to.0, rule),
        reaches(new_p, from.0, to.0),
        consistent(old_p) ==> consistent(new_p),
        mirrored(old_p) ==> mirrored(new_p),
{
    assert forall|a: usize, b: usize, r: RuleId| #[trigger] edge(old_p, a, b, r) implies edge(new_p, a, b, r) by {
        let k = entries(old_p.outgoing@, a).index_of((ExprId(b), r));
        if a == from.0 {
            assert(new_p.outgoing@[a]@[k] == entries(old_p.outgoing@, a)[k]);
        } else {
            assert(new_p.outgoing@[a] == old_p.outgoing@[a]);
        }
    }
    assert(new_p.outgoing@[from.0]@.last() == (to, rule));
    assert(edge(new_p, from.0, to.0, rule));
    let nodes = seq![from.0, to.0];
    let rules = seq![rule];
    assert(is_walk(new_p, nodes, rules));
    assert(walk_between(new_p, from.0, to.0, rules));
    if consistent(old_p) {
        assert forall|a: usize, b: usize, r: RuleId| #[trigger] in_edge(new_p, a, b, r) implies edge(new_p, a, b, r) by {
            let k = entries(new_p.incoming@, b).index_of((ExprId(a), r));
            if b == to.0 {
                if k < entries(old_p.incoming@, b).len() {
                    assert(entries(old_p.incoming@, b)[k] == (ExprId(a), r));
                    assert(in_edge(old_p, a, b, r));
                } else {
                    assert((ExprId(a), r) == (from, rule));
                }
            } else {
                assert(new_p.incoming@[b] == old_p.incoming@[b]);
                assert(in_edge(old_p, a, b, r));
            }
        }
    }
    if mirrored(old_p) {
        assert forall|a: usize, b: usize, r: RuleId| #[trigger] edge(new_p, a, b, r) implies in_edge(new_p, a, b, r) by {
            let k = entries(new_p.outgoing@, a).index_of((ExprId(b), r));
            if a == from.0 && k == entries(old_p.outgoing@, a).len() {
                assert((ExprId(b), r) == (to, rule));
                assert(new_p.incoming@[to.0]@.last() == (from, rule));
            } else {
                if a == from.0 {
                    assert(entries(old_p.outgoing@, a)[k] == (ExprId(b), r));
                } else {
                    assert(new_p.outgoing@[a] == old_p.outgoing@[a]);
                }
                assert(edge(old_p, a, b, r));
                assert(in_edge(old_p, a, b, r));
                let kk = entries(old_p.incoming@, b).index_of((ExprId(a), r));
                if b == to.0 {
                    assert(new_p.incoming@[b]@[kk] == entries(old_p.incoming@, b)[kk]);
                } else {
                    assert(new_p.incoming@[b] == old_p.incoming@[b]);
                }
            }
        }
    }
}

/// A pool that was just made or reset records no rewrite and groups no
/// expression, so its outgoing and incoming records agree and its groups
/// follow structural equality.
pub proof fn law_fresh_pool(pool: &Pool)
    requires
        pool.is_fresh(),
    ensures
        mirrored(pool),
        groups_agree(pool),
        groups_exact(pool),
{
}

/// A text is at edit distance zero from itself.
pub proof fn law_lev_identity(a: Seq<char>, i: nat)
    ensures
        lev(a, a, i, i) == 0,
    decreases i,
{
    if i > 0 {
        law_lev_identity(a, (i - 1) as nat);
    }
}

/// The edit distance does not depend on the order of the two texts.
pub proof fn law_lev_symmetric(a: Seq<char>, b: Seq<char>, i: nat, j: nat)
    ensures
        lev(a, b, i, j) == lev(b, a, j, i),
    decreases i + j,
{
    if i > 0 && j > 0 {
        law_lev_symmetric(a, b, i, (j - 1) as nat);
        law_lev_symmetric(a, b, (i - 1) as nat, j);
        law_lev_symmetric(a, b, (i - 1) as nat, (j - 1) as nat);
    }
}

/// Going down to a child and back up returns to the same coordinate.
pub proof fn law_coordinate_child_parent(path: Seq<usize>, index: usize)
    ensures
        path.push(index).drop_last() == path,
{
    assert(path.push(index).drop_last() =~= path);
}

proof fn lemma_child_list_parent(nodes: Seq<ExprNode>, p: int, cur: int, remaining: nat)
    requires
        nodes_ok(nodes),
        tree_shaped(nodes),
        0 <= cur < p < nodes.len(),
        forall|k: int| cur < k < p ==> region_start(nodes, k) > cur,
    ensures
        forall|t: int, k: int|
            #![trigger spec_child_list(nodes, cur, remaining)[t], region_start(nodes, k)]
            0 <= t < spec_child_list(nodes, cur, remaining).len() && spec_child_list(nodes, cur, remaining)[t] < k < p
                ==> region_start(nodes, k) > spec_child_list(nodes, cur, remaining)[t],
    decreases remaining,
{
    let list = spec_child_list(nodes, cur, remaining);
    if remaining > 0 && cur >= spec_length(nodes, cur) {
        let next = cur - spec_length(nodes, cur);
        assert(node_ok(nodes, cur));
        assert(next == region_start(nodes, cur) - 1);
        assert forall|k: int| next < k < p implies region_start(nodes, k) > next by {
            if next < k < cur {
                assert(covers(nodes, cur, k));
            }
        }
        lemma_child_list_parent(nodes, p, next, (remaining - 1) as nat);
        let rest = spec_child_list(nodes, next, (remaining - 1) as nat);
        assert forall|t: int, k: int|
            #![trigger list[t], region_start(nodes, k)]
            0 <= t < list.len() && list[t] < k < p implies region_start(nodes, k) > list[t] by {
            if t > 0 {
                assert(list[t] == rest[t - 1]);
            }
        }
    }
}

/// In an arena of trees, each child of a node has that node as its parent.
pub proof fn law_child_parent(nodes: Seq<ExprNode>, p: int)
    requires
        nodes_ok(nodes),
        tree_shaped(nodes),
        0 <= p < nodes.len(),
        nodes.len() <= usize::MAX,
    ensures
        forall|t: int|
            0 <= t < spec_children(nodes, p).len() ==> spec_parent(nodes, #[trigger] spec_children(nodes, p)[t])
                == Some(ExprId(p as usize)),
{
    lemma_children_before(nodes, p);
    if nodes[p].spec_arity() > 0 {
        assert(node_ok(nodes, p));
        lemma_child_list_parent(nodes, p, p - 1, nodes[p].spec_arity() as nat);
        assert forall|t: int| 0 <= t < spec_children(nodes, p).len() implies spec_parent(
            nodes,
            #[trigger] spec_children(nodes, p)[t],
        ) == Some(ExprId(p as usize)) by {
            let c = spec_children(nodes, p)[t];
            assert(region_start(nodes, p) <= c);
            assert(covers(nodes, p, c));
            assert forall|k: int| c < k < p implies !covers(nodes, k, c) by {
                assert(region_start(nodes, k) > c);
            }
            assert(is_parent_pos(nodes, c, p));
            lemma_parent_is(nodes, c, p);
        }
    }
}

/// Where a walk over children that starts at `cur` with `remaining`
/// children to go ends: just before the slots of the last child it takes.
pub open spec fn child_walk_end(nodes: Seq<ExprNode>, cur: int, remaining: nat) -> int
    decreases remaining,
{
    if remaining == 0 {
        cur
    } else if cur >= spec_length(nodes, cur) {
        child_walk_end(nodes, cur - spec_length(nodes, cur), (remaining - 1) as nat)
    } else {
        cur - spec_length(nodes, cur)
    }
}

/// The children of every compound node fill the slots it claims before it,
/// with none left over.
pub open spec fn children_fill(nodes: Seq<ExprNode>) -> bool {
    forall|p: int|
        0 <= p < nodes.len() && nodes[p].spec_arity() > 0 ==> #[trigger] child_walk_end(
            nodes,
            p - 1,
            nodes[p].spec_arity() as nat,
        ) == region_start(nodes, p) - 1
}

proof fn lemma_walk_covers(nodes: Seq<ExprNode>, cur: int, remaining: nat, c: int)
    requires
        0 <= cur < nodes.len(),
        child_walk_end(nodes, cur, remaining) < c <= cur,
    ensures
        exists|t: int|
            0 <= t < spec_child_list(nodes, cur, remaining).len() && (#[trigger] spec_child_list(nodes, cur, remaining)[t]
                == c || region_start(nodes, spec_child_list(nodes, cur, remaining)[t]) <= c < spec_child_list(
                nodes,
                cur,
                remaining,
            )[t]),
    decreases remaining,
{
    let list = spec_child_list(nodes, cur, remaining);
    assert(remaining > 0);
    assert(list[0] == cur);
    if c >= region_start(nodes, cur) {
        assert(list[0] == c || region_start(nodes, list[0]) <= c < list[0]);
    } else {
        let next = cur - spec_length(nodes, cur);
        assert(cur >= spec_length(nodes, cur));
        lemma_walk_covers(nodes, next, (remaining - 1) as nat, c);
        let rest = spec_child_list(nodes, next, (remaining - 1) as nat);
        let t = choose|t: int|
            0 <= t < rest.len() && (#[trigger] rest[t] == c || region_start(nodes, rest[t]) <= c < rest[t]);
        assert(list[t + 1] == rest[t]);
    }
}

/// In an arena of trees whose compound nodes are filled by their children,
/// the parent of a position is exactly the node it is a child of, and a
/// position is a root, without a parent, exactly when it is no node's child.
pub proof fn law_parent_exact(nodes: Seq<ExprNode>, c: int, p: int)
    requires
        nodes_ok(nodes),
        tree_shaped(nodes),
        children_fill(nodes),
        0 <= c < nodes.len(),
        0 <= p < nodes.len(),
        nodes.len() <= usize::MAX,
    ensures
        spec_parent(nodes, c) == Some(ExprId(p as usize)) <==> spec_children(nodes, p).contains(c),
        spec_parent(nodes, c) is None <==> forall|q: int| 0 <= q < nodes.len() ==> !#[trigger] spec_children(nodes, q).contains(c),
{
    lemma_parent_pos(nodes, c);
    if spec_children(nodes, p).contains(c) {
        law_child_parent(nodes, p);
        let t = spec_children(nodes, p).index_of(c);
        assert(spec_parent(nodes, spec_children(nodes, p)[t]) == Some(ExprId(p as usize)));
    }
    if spec_parent(nodes, c) is Some {
        let j = spec_parent(nodes, c).unwrap().0 as int;
        assert(is_parent_pos(nodes, c, j));
        lemma_parent_child(nodes, c, j);
        if spec_parent(nodes, c) == Some(ExprId(p as usize)) {
            assert(j == p);
        }
    } else {
        assert forall|q: int| 0 <= q < nodes.len() implies !#[trigger] spec_children(nodes, q).contains(c) by {
            if spec_children(nodes, q).contains(c) {
                law_child_parent(nodes, q);
                let t = spec_children(nodes, q).index_of(c);
                assert(spec_parent(nodes, spec_children(nodes, q)[t]) == Some(ExprId(q as usize)));
            }
        }
    }
}

proof fn lemma_parent_child(nodes: Seq<ExprNode>, c: int, j: int)
    requires
        nodes_ok(nodes),
        children_fill(nodes),
        is_parent_pos(nodes, c, j),
        0 <= c,
    ensures
        spec_children(nodes, j).contains(c),
{
    assert(nodes[j].spec_arity() > 0);
    assert(node_ok(nodes, j));
    assert(child_walk_end(nodes, j - 1, nodes[j].spec_arity() as nat) == region_start(nodes, j) - 1);
    lemma_walk_covers(nodes, j - 1, nodes[j].spec_arity() as nat, c);
    let list = spec_child_list(nodes, j - 1, nodes[j].spec_arity() as nat);
    assert(spec_children(nodes, j) == list);
    lemma_child_list_bounds(nodes, j - 1, nodes[j].spec_arity() as nat);
    let t = choose|t: int| 0 <= t < list.len() && (#[trigger] list[t] == c || region_start(nodes, list[t]) <= c < list[t]);
    if list[t] != c {
        let k = list[t];
        assert(c < k < j);
        assert(covers(nodes, k, c));
        assert(false);
    }
}

/// Structural equality of expressions does not depend on the order of the
/// two expressions.
pub proof fn law_expr_eq_symmetric(nodes: Seq<ExprNode>, a: int, b: int)
    requires
        nodes_ok(nodes),
    ensures
        spec_expr_eq(nodes, a, b) == spec_expr_eq(nodes, b, a),
    decreases a + b, 1int, 0int,
{
    if 0 <= a < nodes.len() && 0 <= b < nodes.len() {
        match (nodes[a], nodes[b]) {
            (ExprNode::Call { .. }, ExprNode::Call { .. }) => {
                lemma_kids_eq_symmetric(nodes, a, b, 0);
            },
            _ => {},
        }
    }
}

proof fn lemma_kids_eq_symmetric(nodes: Seq<ExprNode>, a: int, b: int, k: int)
    requires
        nodes_ok(nodes),
        0 <= a < nodes.len(),
        0 <= b < nodes.len(),
    ensures
        kids_eq(nodes, a, b, k) == kids_eq(nodes, b, a, k),
    decreases a + b, 0int, spec_children(nodes, a).len() - k,
{
    let ka = spec_children(nodes, a);
    let kb = spec_children(nodes, b);
    if 0 <= k < ka.len() && k < kb.len() {
        assert(nodes[a].spec_arity() > 0);
        assert(nodes[b].spec_arity() > 0);
        assert(crate::children::node_ok(nodes, a));
        assert(crate::children::node_ok(nodes, b));
        lemma_child_list_bounds(nodes, a - 1, nodes[a].spec_arity() as nat);
        lemma_child_list_bounds(nodes, b - 1, nodes[b].spec_arity() as nat);
        assert(0 <= ka[k] < a);
        assert(0 <= kb[k] < b);
        law_expr_eq_symmetric(nodes, ka[k], kb[k]);
        lemma_kids_eq_symmetric(nodes, a, b, k + 1);
    }
}

/// Structural equality of expressions is transitive in an arena whose
/// nodes have all their children.
pub proof fn law_expr_eq_transitive(nodes: Seq<ExprNode>, a: int, b: int, c: int)
    requires
        nodes_ok(nodes),
        children_complete(nodes),
        spec_expr_eq(nodes, a, b),
        spec_expr_eq(nodes, b, c),
    ensures
        spec_expr_eq(nodes, a, c),
    decreases a, 1int, 0int,
{
    match (nodes[a], nodes[b], nodes[c]) {
        (ExprNode::Call { .. }, ExprNode::Call { .. }, ExprNode::Call { .. }) => {
            lemma_kids_eq_transitive(nodes, a, b, c, 0);
        },
        _ => {},
    }
}

proof fn lemma_kids_eq_transitive(nodes: Seq<ExprNode>, a: int, b: int, c: int, k: int)
    requires
        nodes_ok(nodes),
        children_complete(nodes),
        0 <= a < nodes.len(),
        0 <= b < nodes.len(),
        0 <= c < nodes.len(),
        0 <= k,
        nodes[a].spec_arity() == nodes[b].spec_arity(),
        nodes[b].spec_arity() == nodes[c].spec_arity(),
        kids_eq(nodes, a, b, k),
        kids_eq(nodes, b, c, k),
    ensures
        kids_eq(nodes, a, c, k),
    decreases a, 0int, spec_children(nodes, a).len() - k,
{
    let ka = spec_children(nodes, a);
    let kb = spec_children(nodes, b);
    let kc = spec_children(nodes, c);
    assert(ka.len() == nodes[a].spec_arity());
    assert(kb.len() == nodes[b].spec_arity());
    assert(kc.len() == nodes[c].spec_arity());
    if k < ka.len() {
        lemma_children_before(nodes, a);
        lemma_children_before(nodes, b);
        lemma_children_before(nodes, c);
        assert(0 <= ka[k] < a);
        assert(0 <= kb[k] < b);
        assert(0 <= kc[k] < c);
        law_expr_eq_transitive(nodes, ka[k], kb[k], kc[k]);
        lemma_kids_eq_transitive(nodes, a, b, c, k + 1);
    }
}

proof fn lemma_first_join(pool: &Pool, e: int, k: int)
    requires
        0 <= k,
    ensures
        first_join(pool, e, k) >= 0 ==> k <= first_join(pool, e, k) < pool.exprs@.len() && joins(pool, e, first_join(pool, e, k)),
        first_join(pool, e, k) < 0 ==> first_join(pool, e, k) == -1 && forall|m: int|
            k <= m < pool.exprs@.len() ==> !#[trigger] joins(pool, e, m),
    decreases pool.exprs@.len() - k,
{
    if k < pool.exprs@.len() && !joins(pool, e, k) {
        lemma_first_join(pool, e, k + 1);
    }
}

/// Placing an expression into the equivalence groups keeps the groups in
/// agreement with structural equality.
pub proof fn law_grouping_agrees(old_p: &Pool, new_p: &Pool, e: usize)
    requires
        nodes_ok(old_p.exprs@),
        children_complete(old_p.exprs@),
        e < old_p.exprs@.len(),
        old_p.exprs@.len() <= usize::MAX,
        new_p.equivalence_groups@.len() <= usize::MAX,
        groups_keyed_ok(old_p),
        groups_agree(old_p),
        grouped(old_p, new_p, e),
    ensures
        groups_agree(new_p),
{
    let j = first_join(old_p, e as int, 0);
    lemma_first_join(old_p, e as int, 0);
    let nodes = old_p.exprs@;
    assert(new_p.exprs@ == nodes);
    if j >= 0 {
        let g = old_p.expr_to_group@[j as usize];
        assert forall|k: usize| #[trigger] new_p.expr_to_group@.contains_key(k) implies {
            &&& new_p.expr_to_group@[k].0 < new_p.equivalence_groups@.len()
            &&& group_sets(new_p)[new_p.expr_to_group@[k].0 as int].contains(k)
        } by {
            assert(group_sets(new_p).len() == group_sets(old_p).len());
            if k != e {
                assert(old_p.expr_to_group@.contains_key(k));
            }
        }
        assert forall|a: usize, b: usize|
            #![trigger new_p.expr_to_group@.contains_key(a), new_p.expr_to_group@.contains_key(b)]
            new_p.expr_to_group@.contains_key(a) && new_p.expr_to_group@.contains_key(b) && a != b implies (
            new_p.expr_to_group@[a] == new_p.expr_to_group@[b] <==> spec_expr_eq(nodes, a as int, b as int)) by {
            if a == e || b == e {
                let o = if a == e { b } else { a };
                assert(old_p.expr_to_group@.contains_key(o));
                assert(old_p.expr_to_group@.contains_key(j as usize));
                law_expr_eq_symmetric(nodes, a as int, b as int);
                law_expr_eq_symmetric(nodes, e as int, o as int);
                law_expr_eq_symmetric(nodes, j, o as int);
                if o as int != j {
                    if spec_expr_eq(nodes, o as int, j) {
                        law_expr_eq_transitive(nodes, e as int, j, o as int);
                    }
                    if spec_expr_eq(nodes, e as int, o as int) {
                        law_expr_eq_transitive(nodes, o as int, e as int, j);
                    }
                    assert(old_p.expr_to_group@[o] == g <==> spec_expr_eq(nodes, o as int, j));
                }
            } else {
                assert(old_p.expr_to_group@.contains_key(a));
                assert(old_p.expr_to_group@.contains_key(b));
            }
        }
    } else {
        assert(group_sets(new_p).len() == group_sets(old_p).len() + 1);
        assert(new_p.equivalence_groups@.len() == old_p.equivalence_groups@.len() + 1);
        let fresh = EquivalenceGroupId(old_p.equivalence_groups@.len() as usize);
        assert(fresh.0 == old_p.equivalence_groups@.len());
        assert forall|k: usize| #[trigger] new_p.expr_to_group@.contains_key(k) implies {
            &&& new_p.expr_to_group@[k].0 < new_p.equivalence_groups@.len()
            &&& group_sets(new_p)[new_p.expr_to_group@[k].0 as int].contains(k)
        } by {
            assert(group_sets(new_p).len() == group_sets(old_p).len() + 1);
            if k != e {
                assert(old_p.expr_to_group@.contains_key(k));
                assert(group_sets(new_p)[old_p.expr_to_group@[k].0 as int] == group_sets(old_p)[old_p.expr_to_group@[k].0 as int]);
            } else {
                assert(group_sets(new_p)[group_sets(old_p).len() as int] == Set::<usize>::empty().insert(e));
            }
        }
        assert forall|a: usize, b: usize|
            #![trigger new_p.expr_to_group@.contains_key(a), new_p.expr_to_group@.contains_key(b)]
            new_p.expr_to_group@.contains_key(a) && new_p.expr_to_group@.contains_key(b) && a != b implies (
            new_p.expr_to_group@[a] == new_p.expr_to_group@[b] <==> spec_expr_eq(nodes, a as int, b as int)) by {
            if a == e || b == e {
                let o = if a == e { b } else { a };
                assert(old_p.expr_to_group@.contains_key(o));
                assert((o as int) < nodes.len());
                assert(!joins(old_p, e as int, o as int));
                assert(old_p.expr_to_group@[o].0 < old_p.equivalence_groups@.len());
                assert(!spec_expr_eq(nodes, e as int, o as int));
                law_expr_eq_symmetric(nodes, a as int, b as int);
                assert(new_p.expr_to_group@[e] == fresh);
                assert(new_p.expr_to_group@[o] == old_p.expr_to_group@[o]);
            } else {
                assert(old_p.expr_to_group@.contains_key(a));
                assert(old_p.expr_to_group@.contains_key(b));
            }
        }
    }
}

/// Recording a rewrite keeps the groups in agreement with structural
/// equality.
pub proof fn law_recorded_rewrite_groups(
    old_p: &Pool,
    mid1: &Pool,
    mid2: &Pool,
    new_p: &Pool,
    from: ExprId,
    to: ExprId,
    rule: RuleId,
)
    requires
        nodes_ok(old_p.exprs@),
        children_complete(old_p.exprs@),
        from.0 < old_p.exprs@.len(),
        to.0 < old_p.exprs@.len(),
        old_p.exprs@.len() <= usize::MAX,
        new_p.equivalence_groups@.len() <= usize::MAX,
        groups_keyed_ok(old_p),
        groups_agree(old_p),
        transformation_added(old_p, mid1, mid2, new_p, from, to, rule),
    ensures
        groups_agree(new_p),
{
    assert(mid1.exprs@ == old_p.exprs@);
    assert(mid2.exprs@ == old_p.exprs@);
    lemma_first_join(mid1, to.0 as int, 0);
    assert(group_sets(mid1).len() <= group_sets(mid2).len());
    assert(mid1.equivalence_groups@.len() <= mid2.equivalence_groups@.len());
    law_grouping_agrees(old_p, mid1, from.0);
    assert(groups_keyed_ok(mid1));
    law_grouping_agrees(mid1, mid2, to.0);
    assert(group_sets(new_p) =~= group_sets(mid2));
}

/// The rewrite graph has no cycle exactly when no expression has a rewrite
/// path into a cycle.
pub proof fn law_acyclic_iff_no_potential(pool: &Pool)
    ensures
        acyclic(pool) <==> forall|x: usize| !#[trigger] reaches_cycle(pool, x),
{
    if !acyclic(pool) {
        let c = choose|c: Seq<ExprId>| #[trigger] is_cycle(pool, c);
        let nodes = seq![c[0].0];
        assert(is_walk(pool, nodes, Seq::<RuleId>::empty()));
        assert(walk_between(pool, c[0].0, c[0].0, Seq::<RuleId>::empty()));
        assert(reaches(pool, c[0].0, c[0].0));
        assert(reaches_cycle(pool, c[0].0));
    }
}

/// Placing an expression that is not grouped yet, or that is equal to
/// itself, keeps every group's set exactly the expressions keyed to it: the
/// groups stay disjoint, and the placed expression lies in its group only.
pub proof fn law_grouping_exact(old_p: &Pool, new_p: &Pool, e: usize)
    requires
        e < old_p.exprs@.len(),
        old_p.exprs@.len() <= usize::MAX,
        new_p.equivalence_groups@.len() <= usize::MAX,
        groups_keyed_ok(old_p),
        groups_agree(old_p),
        groups_exact(old_p),
        !old_p.expr_to_group@.contains_key(e) || spec_expr_eq(old_p.exprs@, e as int, e as int),
        grouped(old_p, new_p, e),
    ensures
        groups_exact(new_p),
{
    let j = first_join(old_p, e as int, 0);
    lemma_first_join(old_p, e as int, 0);
    if old_p.expr_to_group@.contains_key(e) {
        assert(joins(old_p, e as int, e as int));
    }
    if j >= 0 {
        let g = old_p.expr_to_group@[j as usize];
        assert(old_p.expr_to_group@.contains_key(j as usize));
        if old_p.expr_to_group@.contains_key(e) {
            if j != e as int {
                assert(spec_expr_eq(old_p.exprs@, e as int, j));
                assert(old_p.expr_to_group@[e] == g);
            }
            assert(group_sets(old_p)[g.0 as int].contains(e));
            assert(group_sets(old_p)[g.0 as int].insert(e) =~= group_sets(old_p)[g.0 as int]);
            assert(group_sets(new_p) =~= group_sets(old_p));
            assert(new_p.expr_to_group@ =~= old_p.expr_to_group@);
        } else {
            assert forall|h: int, k: usize|
                #![trigger group_sets(new_p)[h].contains(k)]
                0 <= h < group_sets(new_p).len() implies (group_sets(new_p)[h].contains(k) <==> (
                new_p.expr_to_group@.contains_key(k) && new_p.expr_to_group@[k].0 == h)) by {
                assert(group_sets(new_p).len() == group_sets(old_p).len());
                if h == g.0 as int {
                    assert(group_sets(new_p)[h] == group_sets(old_p)[h].insert(e));
                    if k != e {
                        assert(group_sets(old_p)[h].contains(k) <==> (old_p.expr_to_group@.contains_key(k)
                            && old_p.expr_to_group@[k].0 == h));
                    }
                } else {
                    assert(group_sets(new_p)[h] == group_sets(old_p)[h]);
                    assert(group_sets(old_p)[h].contains(k) <==> (old_p.expr_to_group@.contains_key(k)
                        && old_p.expr_to_group@[k].0 == h));
                }
            }
        }
    } else {
        assert(!old_p.expr_to_group@.contains_key(e));
        let n = group_sets(old_p).len();
        assert(group_sets(new_p).len() == group_sets(old_p).len() + 1);
        assert forall|h: int, k: usize|
            #![trigger group_sets(new_p)[h].contains(k)]
            0 <= h < group_sets(new_p).len() implies (group_sets(new_p)[h].contains(k) <==> (
            new_p.expr_to_group@.contains_key(k) && new_p.expr_to_group@[k].0 == h)) by {
            if h == n {
                assert(group_sets(new_p)[h] == Set::<usize>::empty().insert(e));
                if k != e && old_p.expr_to_group@.contains_key(k) {
                    assert(old_p.expr_to_group@[k].0 < n);
                }
            } else {
                assert(group_sets(new_p)[h] == group_sets(old_p)[h]);
                assert(group_sets(old_p)[h].contains(k) <==> (old_p.expr_to_group@.contains_key(k)
                    && old_p.expr_to_group@[k].0 == h));
            }
        }
    }
}

/// Position `n` lies in the expression rooted at `v`: it is `v`, or it lies
/// in the expression of one of the arguments of `v`.
pub open spec fn in_tree(nodes: Seq<ExprNode>, v: int, n: int) -> bool
    decreases v, 1int,
{
    0 <= v < nodes.len() && (n == v || in_kids(nodes, v, n, spec_children(nodes, v).len() as int))
}

/// Position `n` lies in the expression of one of the last `m` arguments of
/// the node at `v`.
pub open spec fn in_kids(nodes: Seq<ExprNode>, v: int, n: int, m: int) -> bool
    decreases v, 0int, m,
{
    let kids = spec_children(nodes, v);
    if m <= 0 || m > kids.len() {
        false
    } else {
        let c = kids[kids.len() - m];
        (0 <= c < v && in_tree(nodes, c, n)) || in_kids(nodes, v, n, m - 1)
    }
}

/// What the pattern of rule `r` gives at position `n`, when the rule exists.
pub open spec fn rule_match_at(pool: &Pool, r: int, n: int) -> (bool, Seq<(NameId, CapturedValue)>) {
    match_node(pool, pool.rules@[r].pattern.0 as int, n, Seq::empty())
}

proof fn lemma_rule_matches_mem(
    pool: &Pool,
    root: ExprId,
    v: int,
    m: int,
    n: usize,
    r: usize,
    caps: Seq<(NameId, CapturedValue)>,
)
    requires
        0 <= v <= usize::MAX,
        m <= pool.rules@.len(),
        pool.rules@.len() <= usize::MAX,
    ensures
        rule_matches(pool, root, v, m).contains((root, ExprId(n), RuleId(r), caps)) <==> (n == v && r < m
            && rule_match_at(pool, r as int, v) == (true, caps)),
    decreases m,
{
    let x = (root, ExprId(n), RuleId(r), caps);
    if m > 0 {
        lemma_rule_matches_mem(pool, root, v, m - 1, n, r, caps);
        let prev = rule_matches(pool, root, v, m - 1);
        let res = match_node(pool, pool.rules@[m - 1].pattern.0 as int, v, Seq::empty());
        assert(rule_match_at(pool, m - 1, v) == res);
        if res.0 {
            let y = (root, ExprId(v as usize), RuleId((m - 1) as usize), res.1);
            let cur = prev.push(y);
            assert(rule_matches(pool, root, v, m) == cur);
            if cur.contains(x) {
                let w = cur.index_of(x);
                if w < prev.len() {
                    assert(prev[w] == x);
                } else {
                    assert(x == y);
                }
            }
            if n == v && r == m - 1 && rule_match_at(pool, r as int, v) == (true, caps) {
                assert(x == y);
                assert(cur[prev.len() as int] == x);
            }
            if prev.contains(x) {
                let w = prev.index_of(x);
                assert(cur[w] == x);
            }
        } else {
            assert(rule_matches(pool, root, v, m) == prev);
        }
    } else {
        assert(rule_matches(pool, root, v, m) =~= Seq::empty());
    }
}

proof fn lemma_tree_matches_mem(pool: &Pool, root: ExprId, v: int, n: usize, r: usize, caps: Seq<(NameId, CapturedValue)>)
    ensures
        tree_matches(pool, root, v).contains((root, ExprId(n), RuleId(r), caps)) <==> (in_tree(pool.exprs@, v, n as int)
            && r < pool.rules@.len() && rule_match_at(pool, r as int, n as int) == (true, caps)),
    decreases v, 1int, 0int,
{
    assert(pool.exprs@.len() == pool.exprs.len());
    assert(pool.rules@.len() == pool.rules.len());
    if 0 <= v < pool.exprs@.len() {
        let kids = spec_children(pool.exprs@, v);
        lemma_rule_matches_mem(pool, root, v, pool.rules@.len() as int, n, r, caps);
        lemma_kids_matches_mem(pool, root, v, kids.len() as int, n, r, caps);
        let a = rule_matches(pool, root, v, pool.rules@.len() as int);
        let b = kids_matches(pool, root, v, kids.len() as int);
        let x = (root, ExprId(n), RuleId(r), caps);
        lemma_concat_contains(a, b, x);
    } else {
        assert(tree_matches(pool, root, v) =~= Seq::empty());
    }
}

proof fn lemma_kids_matches_mem(
    pool: &Pool,
    root: ExprId,
    v: int,
    m: int,
    n: usize,
    r: usize,
    caps: Seq<(NameId, CapturedValue)>,
)
    requires
        0 <= v < pool.exprs@.len(),
    ensures
        kids_matches(pool, root, v, m).contains((root, ExprId(n), RuleId(r), caps)) <==> (in_kids(
            pool.exprs@,
            v,
            n as int,
            m,
        ) && r < pool.rules@.len() && rule_match_at(pool, r as int, n as int) == (true, caps)),
    decreases v, 0int, m,
{
    let kids = spec_children(pool.exprs@, v);
    let x = (root, ExprId(n), RuleId(r), caps);
    if m > 0 && m <= kids.len() {
        let c = kids[kids.len() - m];
        lemma_kids_matches_mem(pool, root, v, m - 1, n, r, caps);
        if 0 <= c < v {
            lemma_tree_matches_mem(pool, root, c, n, r, caps);
            lemma_concat_contains(kids_matches(pool, root, v, m - 1), tree_matches(pool, root, c), x);
        }
    } else {
        assert(kids_matches(pool, root, v, m) =~= Seq::empty());
    }
}

proof fn lemma_concat_contains<T>(a: Seq<T>, b: Seq<T>, x: T)
    ensures
        (a + b).contains(x) <==> (a.contains(x) || b.contains(x)),
{
    if (a + b).contains(x) {
        let w = (a + b).index_of(x);
        if w < a.len() {
            assert(a[w] == x);
        } else {
            assert(b[w - a.len()] == x);
        }
    }
    if a.contains(x) {
        let w = a.index_of(x);
        assert((a + b)[w] == x);
    }
    if b.contains(x) {
        let w = b.index_of(x);
        assert((a + b)[a.len() + w] == x);
    }
}

/// The matches found in the expression rooted at `root` are exactly the
/// pairs of a node of that expression and a rule whose pattern matches at
/// that node, each with the bindings of that match.
pub proof fn law_matches_exact(pool: &Pool, root: ExprId, n: usize, r: usize, caps: Seq<(NameId, CapturedValue)>)
    ensures
        tree_matches(pool, root, root.0 as int).contains((root, ExprId(n), RuleId(r), caps)) <==> (in_tree(
            pool.exprs@,
            root.0 as int,
            n as int,
        ) && r < pool.rules@.len() && rule_match_at(pool, r as int, n as int) == (true, caps)),
{
    lemma_tree_matches_mem(pool, root, root.0 as int, n, r, caps);
}

/// Placing `e` into the equivalence groups, when the groups follow
/// structural equality in an arena of complete trees: every other expression
/// keeps its group; when some other grouped expression equals `e`, `e` joins
/// the group they share and no group is added; when no grouped expression
/// equals `e`, it gets a new group that holds it alone.
pub proof fn law_grouping_outcome(old_p: &Pool, new_p: &Pool, e: usize)
    requires
        nodes_ok(old_p.exprs@),
        children_complete(old_p.exprs@),
        e < old_p.exprs@.len(),
        groups_keyed_ok(old_p),
        groups_agree(old_p),
        grouped(old_p, new_p, e),
    ensures
        new_p.expr_to_group@.contains_key(e),
        forall|k: usize|
            k != e && #[trigger] old_p.expr_to_group@.contains_key(k) ==> new_p.expr_to_group@.contains_key(k)
                && new_p.expr_to_group@[k] == old_p.expr_to_group@[k],
        forall|k: usize|
            k != e && #[trigger] old_p.expr_to_group@.contains_key(k) && spec_expr_eq(old_p.exprs@, e as int, k as int)
                ==> new_p.expr_to_group@[e] == old_p.expr_to_group@[k] && group_sets(new_p).len() == group_sets(old_p).len(),
        (forall|k: usize|
            #[trigger] old_p.expr_to_group@.contains_key(k) ==> !spec_expr_eq(old_p.exprs@, e as int, k as int)) ==> {
            &&& new_p.expr_to_group@[e] == EquivalenceGroupId(old_p.equivalence_groups@.len() as usize)
            &&& group_sets(new_p) == group_sets(old_p).push(Set::empty().insert(e))
        },
{
    let j = first_join(old_p, e as int, 0);
    lemma_first_join(old_p, e as int, 0);
    let nodes = old_p.exprs@;
    assert(nodes.len() == old_p.exprs.len());
    if j >= 0 {
        let g = old_p.expr_to_group@[j as usize];
        let ju = j as usize;
        assert(ju as int == j);
        assert(old_p.expr_to_group@.contains_key(ju));
        assert(new_p.expr_to_group@[e] == g);
        assert(group_sets(new_p).len() == group_sets(old_p).len());
        assert(spec_expr_eq(nodes, e as int, ju as int));
        assert forall|k: usize|
            k != e && #[trigger] old_p.expr_to_group@.contains_key(k) && spec_expr_eq(nodes, e as int, k as int) implies new_p.expr_to_group@[e]
                == old_p.expr_to_group@[k] && group_sets(new_p).len() == group_sets(old_p).len() by {
            if k != ju {
                law_expr_eq_symmetric(nodes, e as int, k as int);
                law_expr_eq_transitive(nodes, k as int, e as int, j);
                assert(old_p.expr_to_group@.contains_key(k) && old_p.expr_to_group@.contains_key(ju));
                assert(old_p.expr_to_group@[k] == old_p.expr_to_group@[ju]);
            }
        }
    } else {
        assert forall|k: usize| #[trigger] old_p.expr_to_group@.contains_key(k) implies !spec_expr_eq(
            nodes,
            e as int,
            k as int,
        ) by {
            assert(k < nodes.len());
            if spec_expr_eq(nodes, e as int, k as int) {
                assert(joins(old_p, e as int, k as int));
            }
        }
    }
}

/// No two matches of `s` are at the same node for the same rule.
pub open spec fn each_once(s: Seq<(ExprId, ExprId, RuleId, Seq<(NameId, CapturedValue)>)>) -> bool {
    forall|i: int, j: int| 0 <= i < j < s.len() ==> (#[trigger] s[i]).1 != (#[trigger] s[j]).1 || s[i].2 != s[j].2
}

proof fn lemma_in_tree_range(nodes: Seq<ExprNode>, v: int, n: int)
    requires
        nodes_ok(nodes),
        tree_shaped(nodes),
        in_tree(nodes, v, n),
    ensures
        region_start(nodes, v) <= n <= v,
    decreases v, 1int,
{
    if n != v {
        lemma_in_kids_range(nodes, v, n, spec_children(nodes, v).len() as int);
    }
}

proof fn lemma_in_kids_range(nodes: Seq<ExprNode>, v: int, n: int, m: int)
    requires
        nodes_ok(nodes),
        tree_shaped(nodes),
        0 <= v < nodes.len(),
        in_kids(nodes, v, n, m),
    ensures
        region_start(nodes, v) <= n < v,
        1 <= m <= spec_children(nodes, v).len(),
        n <= spec_children(nodes, v)[spec_children(nodes, v).len() - m],
    decreases v, 0int, m,
{
    let kids = spec_children(nodes, v);
    let t = kids.len() - m;
    let c = kids[t];
    assert(nodes[v].spec_arity() > 0);
    assert(node_ok(nodes, v));
    lemma_child_list_order(nodes, v - 1, nodes[v].spec_arity() as nat);
    if 0 <= c < v && in_tree(nodes, c, n) {
        lemma_in_tree_range(nodes, c, n);
        assert(region_start(nodes, v) <= kids[t]);
        assert(covers(nodes, v, c));
        assert(region_start(nodes, v) <= region_start(nodes, c));
    } else {
        lemma_in_kids_range(nodes, v, n, m - 1);
        assert(kids[t + 1] < region_start(nodes, kids[t]));
        assert(region_start(nodes, kids[t]) <= kids[t]);
    }
}

proof fn lemma_child_list_order(nodes: Seq<ExprNode>, cur: int, remaining: nat)
    requires
        nodes_ok(nodes),
        0 <= cur < nodes.len(),
    ensures
        forall|t: int, u: int|
            0 <= t < u < spec_child_list(nodes, cur, remaining).len() ==> #[trigger] spec_child_list(
                nodes,
                cur,
                remaining,
            )[u] < region_start(nodes, #[trigger] spec_child_list(nodes, cur, remaining)[t]),
    decreases remaining,
{
    let list = spec_child_list(nodes, cur, remaining);
    if remaining > 0 && cur >= spec_length(nodes, cur) {
        let next = cur - spec_length(nodes, cur);
        let rest = spec_child_list(nodes, next, (remaining - 1) as nat);
        lemma_child_list_order(nodes, next, (remaining - 1) as nat);
        lemma_child_list_bounds(nodes, next, (remaining - 1) as nat);
        assert forall|t: int, u: int| 0 <= t < u < list.len() implies #[trigger] list[u] < region_start(
            nodes,
            #[trigger] list[t],
        ) by {
            assert(list[u] == rest[u - 1]);
            if t > 0 {
                assert(list[t] == rest[t - 1]);
            } else {
                assert(list[t] == cur);
            }
        }
    }
}

proof fn lemma_once_concat(
    a: Seq<(ExprId, ExprId, RuleId, Seq<(NameId, CapturedValue)>)>,
    b: Seq<(ExprId, ExprId, RuleId, Seq<(NameId, CapturedValue)>)>,
)
    requires
        each_once(a),
        each_once(b),
        forall|i: int, j: int| 0 <= i < a.len() && 0 <= j < b.len() ==> (#[trigger] a[i]).1 != (#[trigger] b[j]).1,
    ensures
        each_once(a + b),
{
    let s = a + b;
    assert forall|i: int, j: int| 0 <= i < j < s.len() implies (#[trigger] s[i]).1 != (#[trigger] s[j]).1 || s[i].2
        != s[j].2 by {
        if j < a.len() {
            assert(s[i] == a[i] && s[j] == a[j]);
        } else if i >= a.len() {
            assert(s[i] == b[i - a.len()] && s[j] == b[j - a.len()]);
        } else {
            assert(s[i] == a[i] && s[j] == b[j - a.len()]);
        }
    }
}

proof fn lemma_rule_matches_once(pool: &Pool, root: ExprId, v: int, m: int)
    requires
        0 <= v <= usize::MAX,
        m <= pool.rules@.len(),
        pool.rules@.len() <= usize::MAX,
    ensures
        each_once(rule_matches(pool, root, v, m)),
        forall|i: int|
            0 <= i < rule_matches(pool, root, v, m).len() ==> (#[trigger] rule_matches(pool, root, v, m)[i]).1 == ExprId(
                v as usize,
            ) && rule_matches(pool, root, v, m)[i].2.0 < m,
    decreases m,
{
    if m > 0 {
        lemma_rule_matches_once(pool, root, v, m - 1);
        let prev = rule_matches(pool, root, v, m - 1);
        let cur = rule_matches(pool, root, v, m);
        assert forall|i: int| 0 <= i < cur.len() implies (#[trigger] cur[i]).1 == ExprId(v as usize) && cur[i].2.0 < m by {
            if i < prev.len() {
                assert(cur[i] == prev[i]);
            }
        }
        assert forall|i: int, j: int| 0 <= i < j < cur.len() implies (#[trigger] cur[i]).1 != (#[trigger] cur[j]).1
            || cur[i].2 != cur[j].2 by {
            assert(cur[i] == prev[i]);
            if j < prev.len() {
                assert(cur[j] == prev[j]);
            } else {
                assert(cur[j].2.0 == m - 1);
            }
        }
    } else {
        assert(rule_matches(pool, root, v, m) =~= Seq::empty());
    }
}

proof fn lemma_tree_matches_once(pool: &Pool, root: ExprId, v: int)
    requires
        nodes_ok(pool.exprs@),
        tree_shaped(pool.exprs@),
    ensures
        each_once(tree_matches(pool, root, v)),
    decreases v, 1int, 0int,
{
    assert(pool.exprs@.len() == pool.exprs.len());
    assert(pool.rules@.len() == pool.rules.len());
    if 0 <= v < pool.exprs@.len() {
        let kids = spec_children(pool.exprs@, v);
        let a = rule_matches(pool, root, v, pool.rules@.len() as int);
        let b = kids_matches(pool, root, v, kids.len() as int);
        lemma_rule_matches_once(pool, root, v, pool.rules@.len() as int);
        lemma_kids_matches_once(pool, root, v, kids.len() as int);
        lemma_kids_matches_root(pool, root, v, kids.len() as int);
        assert forall|i: int, j: int| 0 <= i < a.len() && 0 <= j < b.len() implies (#[trigger] a[i]).1 != (
        #[trigger] b[j]).1 by {
            let x = b[j];
            assert(x == (root, ExprId(x.1.0), RuleId(x.2.0), x.3));
            assert(b.contains(x));
            lemma_kids_matches_mem(pool, root, v, kids.len() as int, x.1.0, x.2.0, x.3);
            lemma_in_kids_range(pool.exprs@, v, x.1.0 as int, kids.len() as int);
        }
        lemma_once_concat(a, b);
    } else {
        assert(tree_matches(pool, root, v) =~= Seq::empty());
    }
}

proof fn lemma_kids_matches_once(pool: &Pool, root: ExprId, v: int, m: int)
    requires
        nodes_ok(pool.exprs@),
        tree_shaped(pool.exprs@),
        0 <= v < pool.exprs@.len(),
    ensures
        each_once(kids_matches(pool, root, v, m)),
    decreases v, 0int, m,
{
    let kids = spec_children(pool.exprs@, v);
    if m > 0 && m <= kids.len() {
        let c = kids[kids.len() - m];
        lemma_kids_matches_once(pool, root, v, m - 1);
        if 0 <= c < v {
            lemma_tree_matches_once(pool, root, c);
            let a = kids_matches(pool, root, v, m - 1);
            let b = tree_matches(pool, root, c);
            lemma_kids_matches_root(pool, root, v, m - 1);
            lemma_tree_matches_root(pool, root, c);
            assert forall|i: int, j: int| 0 <= i < a.len() && 0 <= j < b.len() implies (#[trigger] a[i]).1 != (
            #[trigger] b[j]).1 by {
                let x = a[i];
                let y = b[j];
                assert(x == (root, ExprId(x.1.0), RuleId(x.2.0), x.3));
                assert(y == (root, ExprId(y.1.0), RuleId(y.2.0), y.3));
                assert(a.contains(x));
                assert(b.contains(y));
                lemma_kids_matches_mem(pool, root, v, m - 1, x.1.0, x.2.0, x.3);
                lemma_tree_matches_mem(pool, root, c, y.1.0, y.2.0, y.3);
                lemma_in_kids_range(pool.exprs@, v, x.1.0 as int, m - 1);
                lemma_in_tree_range(pool.exprs@, c, y.1.0 as int);
                assert(nodes_ok(pool.exprs@));
                assert(node_ok(pool.exprs@, v));
                lemma_child_list_order(pool.exprs@, v - 1, pool.exprs@[v].spec_arity() as nat);
                assert(kids[kids.len() - m + 1] < region_start(pool.exprs@, kids[kids.len() - m]));
            }
            lemma_once_concat(a, b);
        }
    } else {
        assert(kids_matches(pool, root, v, m) =~= Seq::empty());
    }
}

/// In an arena of trees, the matches found in an expression are at distinct
/// pairs of node and rule: each node is matched at most once by each rule.
pub proof fn law_matches_once(pool: &Pool, root: ExprId)
    requires
        nodes_ok(pool.exprs@),
        tree_shaped(pool.exprs@),
    ensures
        each_once(tree_matches(pool, root, root.0 as int)),
{
    lemma_tree_matches_once(pool, root, root.0 as int);
}

} // verus!
