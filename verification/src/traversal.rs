use vstd::prelude::*;

use crate::graph::entries;
use crate::idx::{ExprId, RuleId};
use crate::pool::Pool;
use std::collections::{BTreeMap, BTreeSet};

verus! {

broadcast use {vstd::std_specs::btree::group_btree_axioms, vstd::laws_cmp::group_laws_cmp};

/// The rewrite graph holds the edge `a -> b` labelled with rule `r`.
pub open spec fn edge(pool: &Pool, a: usize, b: usize, r: RuleId) -> bool {
    entries(pool.outgoing@, a).contains((ExprId(b), r))
}

/// `nodes` walks the rewrite graph, its `i`-th step by rule `rules[i]`.
pub open spec fn is_walk(pool: &Pool, nodes: Seq<usize>, rules: Seq<RuleId>) -> bool {
    &&& nodes.len() == rules.len() + 1
    &&& forall|i: int| 0 <= i < rules.len() ==> #[trigger] edge(pool, nodes[i], nodes[i + 1], rules[i])
}

/// Applying `rules` in turn leads from `from` to `to`.
pub open spec fn walk_between(pool: &Pool, from: usize, to: usize, rules: Seq<RuleId>) -> bool {
    exists|nodes: Seq<usize>|
        #![trigger is_walk(pool, nodes, rules)]
        is_walk(pool, nodes, rules) && nodes[0] == from && nodes.last() == to
}

/// Some sequence of recorded rewrites leads from `from` to `to`.
pub open spec fn reaches(pool: &Pool, from: usize, to: usize) -> bool {
    exists|rules: Seq<RuleId>| #[trigger] walk_between(pool, from, to, rules)
}

/// The targets of the edges leaving the nodes of `keys`.
pub open spec fn edge_targets(m: Map<usize, Vec<(ExprId, RuleId)>>, keys: Set<usize>) -> Set<usize>
    decreases keys.len(),
{
    if keys.finite() && keys.len() > 0 {
        let a = keys.choose();
        edge_targets(m, keys.remove(a)).union(m[a]@.map_values(|e: (ExprId, RuleId)| e.0.0).to_set())
    } else {
        Set::empty()
    }
}

proof fn lemma_edge_targets_finite(m: Map<usize, Vec<(ExprId, RuleId)>>, keys: Set<usize>)
    ensures
        edge_targets(m, keys).finite(),
    decreases keys.len(),
{
    if keys.finite() && keys.len() > 0 {
        let a = keys.choose();
        lemma_edge_targets_finite(m, keys.remove(a));
        vstd::seq_lib::seq_to_set_is_finite(m[a]@.map_values(|e: (ExprId, RuleId)| e.0.0));
    }
}

proof fn lemma_edge_target_in(m: Map<usize, Vec<(ExprId, RuleId)>>, keys: Set<usize>, a: usize, k: int)
    requires
        keys.finite(),
        keys.contains(a),
        0 <= k < m[a]@.len(),
    ensures
        edge_targets(m, keys).contains(m[a]@[k].0.0),
    decreases keys.len(),
{
    let c = keys.choose();
    let s = m[c]@.map_values(|e: (ExprId, RuleId)| e.0.0);
    if c == a {
        assert(s[k] == m[a]@[k].0.0);
        assert(s.to_set().contains(s[k]));
    } else {
        lemma_edge_target_in(m, keys.remove(c), a, k);
    }
}

/// Every node a walk from `from` can visit.
pub open spec fn universe(pool: &Pool, from: usize) -> Set<usize> {
    edge_targets(pool.outgoing@, pool.outgoing@.dom()).insert(from)
}

proof fn lemma_universe(pool: &Pool, from: usize)
    ensures
        universe(pool, from).finite(),
        universe(pool, from).contains(from),
        forall|a: usize, b: usize, r: RuleId| #[trigger] edge(pool, a, b, r) ==> universe(pool, from).contains(b),
{
    lemma_edge_targets_finite(pool.outgoing@, pool.outgoing@.dom());
    assert forall|a: usize, b: usize, r: RuleId| #[trigger] edge(pool, a, b, r) implies universe(
        pool,
        from,
    ).contains(b) by {
        let k = entries(pool.outgoing@, a).index_of((ExprId(b), r));
        lemma_edge_target_in(pool.outgoing@, pool.outgoing@.dom(), a, k);
    }
}

/// A breadth-first visit from `order[0]`: `order` holds distinct nodes and
/// each node but the first was reached by the edge `parent[i]` names from
/// an earlier one.
pub open spec fn visit_ok(pool: &Pool, order: Seq<usize>, parent: Seq<(usize, RuleId)>) -> bool {
    &&& order.len() >= 1
    &&& order.no_duplicates()
    &&& parent.len() == order.len()
    &&& forall|i: int|
        0 < i < order.len() ==> {
            &&& (#[trigger] parent[i]).0 < i
            &&& edge(pool, order[parent[i].0 as int], order[i], parent[i].1)
        }
}

/// The positions the parent links lead through from the first node to `i`.
pub open spec fn link_nodes(order: Seq<usize>, parent: Seq<(usize, RuleId)>, i: int) -> Seq<usize>
    decreases i,
{
    if i <= 0 || i >= parent.len() || parent[i].0 >= i {
        seq![order[0]]
    } else {
        link_nodes(order, parent, parent[i].0 as int).push(order[i])
    }
}

/// The rules of the parent links from the first node to `i`.
pub open spec fn link_rules(parent: Seq<(usize, RuleId)>, i: int) -> Seq<RuleId>
    decreases i,
{
    if i <= 0 || i >= parent.len() || parent[i].0 >= i {
        Seq::empty()
    } else {
        link_rules(parent, parent[i].0 as int).push(parent[i].1)
    }
}

proof fn lemma_link_walk(pool: &Pool, order: Seq<usize>, parent: Seq<(usize, RuleId)>, i: int)
    requires
        visit_ok(pool, order, parent),
        0 <= i < order.len(),
    ensures
        is_walk(pool, link_nodes(order, parent, i), link_rules(parent, i)),
        link_nodes(order, parent, i)[0] == order[0],
        link_nodes(order, parent, i).last() == order[i],
        walk_between(pool, order[0], order[i], link_rules(parent, i)),
        reaches(pool, order[0], order[i]),
    decreases i,
{
    let nodes = link_nodes(order, parent, i);
    let rules = link_rules(parent, i);
    if i > 0 {
        let p = parent[i].0 as int;
        lemma_link_walk(pool, order, parent, p);
        let pn = link_nodes(order, parent, p);
        let pr = link_rules(parent, p);
        assert(nodes == pn.push(order[i]));
        assert(rules == pr.push(parent[i].1));
        assert forall|j: int| 0 <= j < rules.len() implies #[trigger] edge(pool, nodes[j], nodes[j + 1], rules[j]) by {
            if j < pr.len() {
                assert(edge(pool, pn[j], pn[j + 1], pr[j]));
            } else {
                assert(nodes[j] == pn.last());
            }
        }
    }
    assert(is_walk(pool, nodes, rules));
    assert(walk_between(pool, order[0], order[i], rules));
}

/// Distances along parent links: the first node at zero, each other one
/// more than its parent, never decreasing along the visit.
pub open spec fn depths_ok(order: Seq<usize>, parent: Seq<(usize, RuleId)>, depths: Seq<nat>) -> bool {
    &&& depths.len() == order.len()
    &&& depths[0] == 0
    &&& forall|i: int| 0 < i < order.len() ==> #[trigger] depths[i] == depths[parent[i].0 as int] + 1
    &&& forall|i: int, j: int| 0 <= i <= j < order.len() ==> #[trigger] depths[i] <= #[trigger] depths[j]
}

/// The nodes from `head` on lie at most one further than the one at `head`.
pub open spec fn frontier_ok(depths: Seq<nat>, head: int) -> bool {
    head < depths.len() ==> forall|j: int| head <= j < depths.len() ==> #[trigger] depths[j] <= depths[head] + 1
}

/// Every edge out of the first `n` visited nodes leads to a visited node at
/// most one further.
pub open spec fn near(pool: &Pool, order: Seq<usize>, depths: Seq<nat>, n: int) -> bool {
    forall|j: int, b: usize, r: RuleId|
        0 <= j < n && #[trigger] edge(pool, order[j], b, r) ==> exists|w: int|
            #![trigger order[w]]
            0 <= w < order.len() && order[w] == b && depths[w] <= depths[j] + 1
}

proof fn lemma_walk_depth(pool: &Pool, order: Seq<usize>, depths: Seq<nat>, nodes: Seq<usize>, rules: Seq<RuleId>, k: int)
    requires
        depths.len() == order.len(),
        order.len() >= 1,
        depths[0] == 0,
        near(pool, order, depths, order.len() as int),
        is_walk(pool, nodes, rules),
        nodes[0] == order[0],
        0 <= k < nodes.len(),
    ensures
        exists|w: int| #![trigger order[w]] 0 <= w < order.len() && order[w] == nodes[k] && depths[w] <= k,
    decreases k,
{
    if k == 0 {
        assert(order[0] == nodes[0]);
    } else {
        lemma_walk_depth(pool, order, depths, nodes, rules, k - 1);
        let i = k - 1;
        let w = choose|w: int| #![trigger order[w]] 0 <= w < order.len() && order[w] == nodes[i] && depths[w] <= i;
        assert(edge(pool, nodes[i], nodes[i + 1], rules[i]));
        assert(edge(pool, order[w], nodes[k], rules[i]));
    }
}

proof fn lemma_link_len(order: Seq<usize>, parent: Seq<(usize, RuleId)>, depths: Seq<nat>, i: int)
    requires
        depths_ok(order, parent, depths),
        parent.len() == order.len(),
        forall|j: int| 0 < j < order.len() ==> (#[trigger] parent[j]).0 < j,
        0 <= i < order.len(),
    ensures
        link_rules(parent, i).len() == depths[i],
    decreases i,
{
    if i > 0 {
        assert(parent[i].0 < i);
        lemma_link_len(order, parent, depths, parent[i].0 as int);
        assert(depths[i] == depths[parent[i].0 as int] + 1);
    }
}

/// Every edge leaving a node of `order` leads into `order`.
pub open spec fn closed(pool: &Pool, order: Seq<usize>) -> bool {
    forall|j: int, b: usize, r: RuleId|
        0 <= j < order.len() && #[trigger] edge(pool, order[j], b, r) ==> order.contains(b)
}

proof fn lemma_closed_walk(pool: &Pool, order: Seq<usize>, nodes: Seq<usize>, rules: Seq<RuleId>, k: int)
    requires
        closed(pool, order),
        is_walk(pool, nodes, rules),
        order.contains(nodes[0]),
        0 <= k < nodes.len(),
    ensures
        order.contains(nodes[k]),
    decreases k,
{
    if k > 0 {
        lemma_closed_walk(pool, order, nodes, rules, k - 1);
        let i = k - 1;
        let j = order.index_of(nodes[i]);
        assert(edge(pool, nodes[i], nodes[i + 1], rules[i]));
        assert(edge(pool, order[j], nodes[k], rules[i]));
    }
}

fn position_of(v: &Vec<usize>, x: usize) -> (r: Option<usize>)
    ensures
        r is None <==> !v@.contains(x),
        r is Some ==> r.unwrap() < v@.len() && v@[r.unwrap() as int] == x,
{
    for i in 0..v.len()
        invariant
            forall|j: int| 0 <= j < i ==> v@[j] != x,
    {
        if v[i] == x {
            return Some(i);
        }
    }
    None
}


/// The first recorded rewrite into `x`, if any.
pub open spec fn first_incoming(pool: &Pool, x: usize) -> Option<(ExprId, RuleId)> {
    if pool.incoming@.contains_key(x) && pool.incoming@[x]@.len() > 0 {
        Some(pool.incoming@[x]@[0])
    } else {
        None
    }
}

/// Following first incoming rewrites back from `x` reaches, within `n`
/// steps, an expression nothing was rewritten into.
pub open spec fn history_ends(pool: &Pool, x: usize, n: nat) -> bool
    decreases n,
{
    match first_incoming(pool, x) {
        None => true,
        Some((p, _)) => n > 0 && history_ends(pool, p.0, (n - 1) as nat),
    }
}

/// The rules of at most `n` first incoming rewrites followed back from `x`,
/// latest first.
pub open spec fn back_rules(pool: &Pool, x: usize, n: nat) -> Seq<RuleId>
    decreases n,
{
    match first_incoming(pool, x) {
        None => Seq::empty(),
        Some((p, r)) => if n == 0 {
            Seq::empty()
        } else {
            seq![r] + back_rules(pool, p.0, (n - 1) as nat)
        },
    }
}

proof fn lemma_back_rules_stable(pool: &Pool, x: usize, n: nat, m: nat)
    requires
        history_ends(pool, x, n),
        n <= m,
    ensures
        history_ends(pool, x, m),
        back_rules(pool, x, n) == back_rules(pool, x, m),
    decreases n,
{
    match first_incoming(pool, x) {
        None => {},
        Some((p, r)) => {
            lemma_back_rules_stable(pool, p.0, (n - 1) as nat, (m - 1) as nat);
        },
    }
}

/// The rules a rewrite path found by `find_transformation_path` follows.
fn rules_to(parent: &Vec<(usize, RuleId)>, i: usize) -> (r: Vec<RuleId>)
    requires
        i < parent@.len(),
        forall|j: int| 0 < j < parent@.len() ==> (#[trigger] parent@[j]).0 < j,
    ensures
        r@ == link_rules(parent@, i as int),
    decreases i,
{
    if i == 0 {
        Vec::new()
    } else {
        let p = parent[i].0;
        let mut r = rules_to(parent, p);
        r.push(parent[i].1);
        r
    }
}

impl Pool {
    /// Visits the rewrite graph breadth first from `start`: the nodes in the
    /// order they are first reached, each with the position of the node and
    /// the rule it was reached by; each node's parent links take as few
    /// steps as any walk to it.
    fn explore(&self, start: ExprId) -> (r: (Vec<usize>, Vec<(usize, RuleId)>))
        ensures
            visit_ok(self, r.0@, r.1@),
            r.0@[0] == start.0,
            closed(self, r.0@),
            forall|i: int, rules: Seq<RuleId>|
                0 <= i < r.0@.len() && #[trigger] walk_between(self, start.0, r.0@[i], rules) ==> link_rules(
                    r.1@,
                    i,
                ).len() <= rules.len(),
    {
        let ghost u = universe(self, start.0);
        proof {
            lemma_universe(self, start.0);
        }
        let mut order: Vec<usize> = Vec::new();
        let mut parent: Vec<(usize, RuleId)> = Vec::new();
        order.push(start.0);
        parent.push((0, RuleId(0)));
        let ghost mut depths: Seq<nat> = seq![0nat];
        let mut head: usize = 0;
        proof {
            assert forall|x: usize| order@.to_set().contains(x) implies u.contains(x) by {
                assert(order@[0] == x);
            }
        }
        while head < order.len()
            invariant
                u == universe(self, start.0),
                u.finite(),
                forall|a: usize, b: usize, r: RuleId| #[trigger] edge(self, a, b, r) ==> u.contains(b),
                visit_ok(self, order@, parent@),
                order@[0] == start.0,
                head <= order@.len(),
                order@.to_set().subset_of(u),
                forall|j: int, b: usize, r: RuleId|
                    0 <= j < head && #[trigger] edge(self, order@[j], b, r) ==> order@.contains(b),
                depths_ok(order@, parent@, depths),
                frontier_ok(depths, head as int),
                near(self, order@, depths, head as int),
            decreases u.len() - head,
        {
            proof {
                order@.unique_seq_to_set();
                vstd::set_lib::lemma_len_subset(order@.to_set(), u);
            }
            let current = order[head];
            let ghost before = order@;
            let ghost d = depths[head as int];
            match self.outgoing.get(&current) {
                Some(list) => {
                    for k in 0..list.len()
                        invariant
                            u == universe(self, start.0),
                            u.finite(),
                            forall|a: usize, b: usize, r: RuleId| #[trigger] edge(self, a, b, r) ==> u.contains(b),
                            self.outgoing@.contains_key(current),
                            list@ == self.outgoing@[current]@,
                            head < order@.len(),
                            order@[head as int] == current,
                            before.len() <= order@.len(),
                            forall|j: int| 0 <= j < before.len() ==> order@[j] == before[j],
                            visit_ok(self, order@, parent@),
                            order@[0] == start.0,
                            order@.to_set().subset_of(u),
                            forall|j: int, b: usize, r: RuleId|
                                0 <= j < head && #[trigger] edge(self, order@[j], b, r) ==> order@.contains(b),
                            forall|m: int| 0 <= m < k ==> order@.contains(#[trigger] list@[m].0.0),
                            depths_ok(order@, parent@, depths),
                            d == depths[head as int],
                            frontier_ok(depths, head as int),
                            near(self, order@, depths, head as int),
                            forall|m: int|
                                0 <= m < k ==> exists|w: int|
                                    #![trigger order@[w]]
                                    0 <= w < order@.len() && order@[w] == (#[trigger] list@[m]).0.0 && depths[w] <= d + 1,
                    {
                        let (next, rule) = list[k];
                        assert(edge(self, current, next.0, rule)) by {
                            assert(entries(self.outgoing@, current)[k as int] == (next, rule));
                        }
                        match position_of(&order, next.0) {
                            Some(w) => {
                                proof {
                                    if w < head {
                                        assert(depths[w as int] <= depths[head as int]);
                                    }
                                    assert(order@[w as int] == list@[k as int].0.0);
                                }
                            },
                            None => {
                                let ghost prev = order@;
                                let ghost pd = depths;
                                order.push(next.0);
                                parent.push((head, rule));
                                proof {
                                    depths = depths.push(d + 1);
                                    assert forall|x: usize| order@.to_set().contains(x) implies u.contains(x) by {
                                        let w = order@.index_of(x);
                                        if w < prev.len() {
                                            assert(prev[w] == x);
                                            assert(prev.to_set().contains(x));
                                        }
                                    }
                                    assert forall|j: int, b: usize, r: RuleId|
                                        0 <= j < head && #[trigger] edge(self, order@[j], b, r) implies order@.contains(b) by {
                                        assert(order@[j] == prev[j]);
                                        assert(prev.contains(b));
                                        let w = prev.index_of(b);
                                        assert(order@[w] == b);
                                    }
                                    assert forall|m: int| 0 <= m <= k implies order@.contains(#[trigger] list@[m].0.0) by {
                                        if m < k {
                                            let w = prev.index_of(list@[m].0.0);
                                            assert(order@[w] == list@[m].0.0);
                                        } else {
                                            assert(order@[prev.len() as int] == next.0);
                                        }
                                    }
                                    assert(pd[pd.len() - 1] <= d + 1);
                                    assert forall|i: int, j: int| 0 <= i <= j < order@.len() implies #[trigger] depths[i]
                                        <= #[trigger] depths[j] by {
                                        if j == order@.len() - 1 && i < j {
                                            if i >= head {
                                                assert(pd[i] <= pd[head as int] + 1);
                                            } else {
                                                assert(pd[i] <= pd[head as int]);
                                            }
                                        } else if i < j {
                                            assert(pd[i] <= pd[j]);
                                        }
                                    }
                                    assert forall|i: int| 0 < i < order@.len() implies #[trigger] depths[i] == depths[parent@[i].0 as int]
                                        + 1 by {
                                        if i < prev.len() {
                                            assert(pd[i] == pd[parent@[i].0 as int] + 1);
                                        }
                                    }
                                    assert(depths_ok(order@, parent@, depths));
                                    assert forall|j: int| head <= j < depths.len() implies #[trigger] depths[j] <= depths[head as int] + 1 by {
                                        if j < pd.len() {
                                            assert(pd[j] <= pd[head as int] + 1);
                                        }
                                    }
                                    assert forall|j: int, b: usize, r: RuleId|
                                        0 <= j < head && #[trigger] edge(self, order@[j], b, r) implies exists|w: int|
                                            #![trigger order@[w]]
                                            0 <= w < order@.len() && order@[w] == b && depths[w] <= depths[j] + 1 by {
                                        assert(order@[j] == prev[j]);
                                        assert(edge(self, prev[j], b, r));
                                        let w = choose|w: int|
                                            #![trigger prev[w]]
                                            0 <= w < prev.len() && prev[w] == b && pd[w] <= pd[j] + 1;
                                        assert(order@[w] == prev[w]);
                                    }
                                    assert forall|m: int| 0 <= m <= k implies exists|w: int|
                                        #![trigger order@[w]]
                                        0 <= w < order@.len() && order@[w] == (#[trigger] list@[m]).0.0 && depths[w] <= d + 1 by {
                                        if m < k {
                                            let w = choose|w: int|
                                                #![trigger prev[w]]
                                                0 <= w < prev.len() && prev[w] == list@[m].0.0 && pd[w] <= d + 1;
                                            assert(order@[w] == prev[w]);
                                        } else {
                                            assert(order@[prev.len() as int] == next.0);
                                        }
                                    }
                                }
                            },
                        }
                    }
                    proof {
                        assert forall|j: int, b: usize, r: RuleId|
                            0 <= j < head + 1 && #[trigger] edge(self, order@[j], b, r) implies order@.contains(b) by {
                            if j == head {
                                let m = entries(self.outgoing@, current).index_of((ExprId(b), r));
                                assert(list@[m].0.0 == b);
                            }
                        }
                        assert forall|j: int, b: usize, r: RuleId|
                            0 <= j < head + 1 && #[trigger] edge(self, order@[j], b, r) implies exists|w: int|
                                #![trigger order@[w]]
                                0 <= w < order@.len() && order@[w] == b && depths[w] <= depths[j] + 1 by {
                            if j == head {
                                let m = entries(self.outgoing@, current).index_of((ExprId(b), r));
                                assert(list@[m].0.0 == b);
                                assert(list@[m] == list@[m]);
                            }
                        }
                    }
                },
                None => {
                    proof {
                        assert forall|j: int, b: usize, r: RuleId|
                            0 <= j < head + 1 && #[trigger] edge(self, order@[j], b, r) implies order@.contains(b) by {
                            if j == head {
                                assert(entries(self.outgoing@, current) =~= Seq::empty());
                            }
                        }
                        assert forall|j: int, b: usize, r: RuleId|
                            0 <= j < head + 1 && #[trigger] edge(self, order@[j], b, r) implies exists|w: int|
                                #![trigger order@[w]]
                                0 <= w < order@.len() && order@[w] == b && depths[w] <= depths[j] + 1 by {
                            if j == head {
                                assert(entries(self.outgoing@, current) =~= Seq::empty());
                            }
                        }
                    }
                },
            }
            proof {
                if head + 1 < order@.len() {
                    assert forall|j: int| head + 1 <= j < depths.len() implies #[trigger] depths[j] <= depths[head + 1] + 1 by {
                        assert(depths[j] <= depths[head as int] + 1);
                        assert(depths[head as int] <= depths[head + 1]);
                    }
                }
            }
            head = head + 1;
        }
        proof {
            assert forall|i: int, rules: Seq<RuleId>|
                0 <= i < order@.len() && #[trigger] walk_between(self, start.0, order@[i], rules) implies link_rules(
                parent@,
                i,
            ).len() <= rules.len() by {
                let nodes = choose|nodes: Seq<usize>|
                    #![trigger is_walk(self, nodes, rules)]
                    is_walk(self, nodes, rules) && nodes[0] == start.0 && nodes.last() == order@[i];
                lemma_walk_depth(self, order@, depths, nodes, rules, nodes.len() - 1);
                let w = choose|w: int|
                    #![trigger order@[w]]
                    0 <= w < order@.len() && order@[w] == nodes[nodes.len() - 1] && depths[w] <= nodes.len() - 1;
                assert(w == i);
                lemma_link_len(order@, parent@, depths, i);
            }
        }
        (order, parent)
    }

    /// The rules of a path of recorded rewrites from `from` to `to`, found
    /// breadth first; empty when the two are the same, `None` when no
    /// sequence of rewrites leads there.
    pub fn find_transformation_path(&self, from: ExprId, to: ExprId) -> (r: Option<Vec<RuleId>>)
        ensures
            from == to ==> r is Some && r.unwrap()@.len() == 0,
            r is Some ==> walk_between(self, from.0, to.0, r.unwrap()@),
            r is Some ==> forall|rules: Seq<RuleId>| #[trigger] walk_between(self, from.0, to.0, rules) ==> r.unwrap()@.len()
                <= rules.len(),
            r is None <==> !reaches(self, from.0, to.0),
    {
        if from.0 == to.0 {
            proof {
                let nodes = seq![from.0];
                assert(is_walk(self, nodes, Seq::<RuleId>::empty()));
                assert(walk_between(self, from.0, to.0, Seq::<RuleId>::empty()));
            }
            return Some(Vec::new());
        }
        let (order, parent) = self.explore(from);
        match position_of(&order, to.0) {
            None => {
                proof {
                    if reaches(self, from.0, to.0) {
                        let rules = choose|rules: Seq<RuleId>| #[trigger] walk_between(self, from.0, to.0, rules);
                        let nodes = choose|nodes: Seq<usize>|
                            #![trigger is_walk(self, nodes, rules)]
                            is_walk(self, nodes, rules) && nodes[0] == from.0 && nodes.last() == to.0;
                        lemma_closed_walk(self, order@, nodes, rules, nodes.len() - 1);
                    }
                }
                None
            },
            Some(i) => {
                let path = rules_to(&parent, i);
                proof {
                    lemma_link_walk(self, order@, parent@, i as int);
                    assert forall|rules: Seq<RuleId>| #[trigger] walk_between(self, from.0, to.0, rules) implies path@.len()
                        <= rules.len() by {
                        assert(walk_between(self, from.0, order@[i as int], rules));
                    }
                }
                Some(path)
            },
        }
    }

    /// The rules that produced `expr`, oldest first, found by following the
    /// first recorded rewrite into each expression back to one nothing was
    /// rewritten into.
    pub fn get_derivation_history(&self, expr: ExprId) -> (r: Vec<RuleId>)
        requires
            exists|n: nat| history_ends(self, expr.0, n),
        ensures
            forall|n: nat| history_ends(self, expr.0, n) ==> r@ == (#[trigger] back_rules(self, expr.0, n)).reverse(),
    {
        let ghost n0 = choose|n: nat| history_ends(self, expr.0, n);
        let mut back: Vec<RuleId> = Vec::new();
        let mut current = expr.0;
        let ghost mut k = n0;
        loop
            invariant
                history_ends(self, current, k),
                back@ + back_rules(self, current, k) == back_rules(self, expr.0, n0),
            ensures
                back@ == back_rules(self, expr.0, n0),
            decreases k,
        {
            match self.incoming.get(&current) {
                Some(list) => {
                    if list.len() > 0 {
                        let (p, rule) = list[0];
                        proof {
                            assert(first_incoming(self, current) == Some((p, rule)));
                            assert(back_rules(self, current, k) == seq![rule] + back_rules(self, p.0, (k - 1) as nat));
                            assert(back@.push(rule) + back_rules(self, p.0, (k - 1) as nat) =~= back@ + back_rules(self, current, k));
                        }
                        back.push(rule);
                        current = p.0;
                        proof {
                            k = (k - 1) as nat;
                        }
                    } else {
                        assert(back_rules(self, current, k) =~= Seq::empty());
                        assert(back@ + Seq::<RuleId>::empty() =~= back@);
                        break;
                    }
                },
                None => {
                    assert(back_rules(self, current, k) =~= Seq::empty());
                    assert(back@ + Seq::<RuleId>::empty() =~= back@);
                    break;
                },
            }
        }
        let mut history: Vec<RuleId> = Vec::new();
        let len = back.len();
        for i in 0..len
            invariant
                len == back@.len(),
                history@.len() == i,
                forall|j: int| 0 <= j < i ==> history@[j] == back@[len - 1 - j],
        {
            history.push(back[len - 1 - i]);
        }
        proof {
            assert(history@ =~= back@.reverse());
            assert forall|n: nat| history_ends(self, expr.0, n) implies history@ == (#[trigger] back_rules(self, expr.0, n)).reverse() by {
                if n <= n0 {
                    lemma_back_rules_stable(self, expr.0, n, n0);
                } else {
                    lemma_back_rules_stable(self, expr.0, n0, n);
                }
            }
        }
        history
    }

    /// Every expression some sequence of recorded rewrites leads to from
    /// `start`, `start` included, each once, in the order a breadth-first
    /// walk reaches them.
    pub fn find_all_reachable(&self, start: ExprId) -> (r: Vec<ExprId>)
        ensures
            r@.no_duplicates(),
            r@.len() >= 1,
            r@[0] == start,
            forall|e: ExprId| #[trigger] r@.contains(e) <==> reaches(self, start.0, e.0),
    {
        let (order, parent) = self.explore(start);
        let mut out: Vec<ExprId> = Vec::new();
        for i in 0..order.len()
            invariant
                out@ == order@.take(i as int).map_values(|n: usize| ExprId(n)),
        {
            out.push(ExprId(order[i]));
            assert(order@.take(i + 1) =~= order@.take(i as int).push(order@[i as int]));
        }
        proof {
            assert(order@.take(order@.len() as int) =~= order@);
            assert forall|e: ExprId| #[trigger] out@.contains(e) implies reaches(self, start.0, e.0) by {
                let i = out@.index_of(e);
                lemma_link_walk(self, order@, parent@, i);
            }
            assert forall|e: ExprId| reaches(self, start.0, e.0) implies #[trigger] out@.contains(e) by {
                let rules = choose|rules: Seq<RuleId>| #[trigger] walk_between(self, start.0, e.0, rules);
                let nodes = choose|nodes: Seq<usize>|
                    #![trigger is_walk(self, nodes, rules)]
                    is_walk(self, nodes, rules) && nodes[0] == start.0 && nodes.last() == e.0;
                assert(order@[0] == start.0);
                lemma_closed_walk(self, order@, nodes, rules, nodes.len() - 1);
                let i = order@.index_of(e.0);
                assert(out@[i] == e);
            }
            assert forall|a: int, b: int| 0 <= a < out@.len() && 0 <= b < out@.len() && a != b implies out@[a]
                != out@[b] by {
                assert(order@[a] != order@[b]);
            }
        }
        out
    }
}

} // verus!

verus! {

/// The keys of a map, each once.
fn keys_of<T>(m: &BTreeMap<usize, Vec<T>>) -> (r: Vec<usize>)
    ensures
        r@.no_duplicates(),
        forall|k: usize| #[trigger] r@.contains(k) <==> m@.contains_key(k),
{
    let mut out: Vec<usize> = Vec::new();
    let ghost ks = vstd::std_specs::iter::IteratorSpec::remaining(&vstd::std_specs::btree::spec_keys_iter(m));
    for k in it: m.keys()
        invariant
            it.seq() == ks,
            out@ == ks.take(it.index() as int).map_values(|x: &usize| *x),
    {
        out.push(*k);
        proof {
            assert(ks.take(it.index() + 1) =~= ks.take(it.index() as int).push(k));
        }
    }
    proof {
        assert(out@ =~= ks.unref());
    }
    out
}

} // verus!

verus! {

/// The rewrites recorded into `b` hold one from `a` by rule `r`.
pub open spec fn in_edge(pool: &Pool, a: usize, b: usize, r: RuleId) -> bool {
    entries(pool.incoming@, b).contains((ExprId(a), r))
}

/// Every rewrite recorded into an expression is also recorded out of its
/// source.
pub open spec fn consistent(pool: &Pool) -> bool {
    forall|a: usize, b: usize, r: RuleId| #[trigger] in_edge(pool, a, b, r) ==> edge(pool, a, b, r)
}

/// Some recorded rewrite leads from `a` to `b`.
pub open spec fn linked(pool: &Pool, a: usize, b: usize) -> bool {
    exists|r: RuleId| #[trigger] edge(pool, a, b, r)
}

/// Each node of `path` is rewritten into the next.
pub open spec fn chain(pool: &Pool, path: Seq<usize>) -> bool {
    forall|i: int| 0 <= i < path.len() - 1 ==> #[trigger] linked(pool, path[i], path[i + 1])
}

/// `c` is a cycle of the rewrite graph through distinct expressions: each
/// expression is rewritten into the next, and the last into the first.
pub open spec fn is_cycle(pool: &Pool, c: Seq<ExprId>) -> bool {
    &&& c.len() > 0
    &&& forall|i: int| 0 <= i < c.len() - 1 ==> #[trigger] linked(pool, c[i].0, c[i + 1].0)
    &&& linked(pool, c.last().0, c[0].0)
    &&& c.no_duplicates()
}

/// Every expression the rewrite graph mentions as a source or a target.
pub open spec fn graph_nodes(pool: &Pool) -> Set<usize> {
    edge_targets(pool.outgoing@, pool.outgoing@.dom()).union(pool.outgoing@.dom()).union(pool.incoming@.dom()).union(
        edge_targets(pool.incoming@, pool.incoming@.dom()),
    )
}

proof fn lemma_graph_nodes(pool: &Pool)
    ensures
        graph_nodes(pool).finite(),
        forall|a: usize, b: usize, r: RuleId| #[trigger] edge(pool, a, b, r) ==> graph_nodes(pool).contains(b),
        forall|a: usize| #[trigger] pool.outgoing@.contains_key(a) ==> graph_nodes(pool).contains(a),
        forall|a: usize| #[trigger] pool.incoming@.contains_key(a) ==> graph_nodes(pool).contains(a),
        forall|a: usize, b: usize, r: RuleId| #[trigger] in_edge(pool, a, b, r) ==> graph_nodes(pool).contains(a),
{
    lemma_universe(pool, 0);
    lemma_edge_targets_finite(pool.outgoing@, pool.outgoing@.dom());
    let t = edge_targets(pool.outgoing@, pool.outgoing@.dom());
    vstd::set_lib::lemma_set_union_finite_iff(t, pool.outgoing@.dom());
    vstd::set_lib::lemma_set_union_finite_iff(t.union(pool.outgoing@.dom()), pool.incoming@.dom());
    lemma_edge_targets_finite(pool.incoming@, pool.incoming@.dom());
    vstd::set_lib::lemma_set_union_finite_iff(
        t.union(pool.outgoing@.dom()).union(pool.incoming@.dom()),
        edge_targets(pool.incoming@, pool.incoming@.dom()),
    );
    assert forall|a: usize, b: usize, r: RuleId| #[trigger] in_edge(pool, a, b, r) implies graph_nodes(pool).contains(a) by {
        let k = entries(pool.incoming@, b).index_of((ExprId(a), r));
        lemma_edge_target_in(pool.incoming@, pool.incoming@.dom(), b, k);
    }
    assert forall|a: usize, b: usize, r: RuleId| #[trigger] edge(pool, a, b, r) implies graph_nodes(pool).contains(b) by {
        assert(universe(pool, 0).contains(b));
        if b != 0 {
            assert(edge_targets(pool.outgoing@, pool.outgoing@.dom()).contains(b));
        } else {
            let k = entries(pool.outgoing@, a).index_of((ExprId(b), r));
            lemma_edge_target_in(pool.outgoing@, pool.outgoing@.dom(), a, k);
        }
    }
}

proof fn lemma_chain_slice(pool: &Pool, path: Seq<usize>, s: int)
    requires
        chain(pool, path),
        path.no_duplicates(),
        0 <= s < path.len(),
        linked(pool, path.last(), path[s]),
    ensures
        is_cycle(pool, path.subrange(s, path.len() as int).map_values(|n: usize| ExprId(n))),
{
    let c = path.subrange(s, path.len() as int).map_values(|n: usize| ExprId(n));
    assert forall|i: int| 0 <= i < c.len() - 1 implies #[trigger] linked(pool, c[i].0, c[i + 1].0) by {
        let j = s + i;
        assert(linked(pool, path[j], path[j + 1]));
    }
    assert forall|i: int, j: int| 0 <= i < c.len() && 0 <= j < c.len() && i != j implies c[i] != c[j] by {
        assert(c[i].0 == path[s + i] && c[j].0 == path[s + j]);
    }
}

/// The rewrite graph has no cycle.
pub open spec fn acyclic(pool: &Pool) -> bool {
    forall|c: Seq<ExprId>| !#[trigger] is_cycle(pool, c)
}

/// The depth-first walk's record: the visited expressions are the finished
/// ones and those on the current path; finishing times are below their
/// count; and, while no cycle has been reported, every edge out of a
/// finished expression leads to one that finished earlier.
pub open spec fn finish_ok(pool: &Pool, visited: Set<usize>, path: Seq<usize>, fin: Map<usize, nat>, cycles: Seq<Vec<ExprId>>) -> bool {
    &&& fin.dom().finite()
    &&& forall|x: usize| #[trigger] fin.dom().contains(x) ==> fin[x] < fin.dom().len()
    &&& forall|x: usize| #[trigger] visited.contains(x) <==> (fin.dom().contains(x) || path.contains(x))
    &&& forall|x: usize| #[trigger] path.contains(x) ==> !fin.dom().contains(x)
    &&& descends(pool, fin, cycles)
}

/// Some reported cycle passes through `b`.
pub open spec fn on_cycles(cycles: Seq<Vec<ExprId>>, b: usize) -> bool {
    exists|i: int, j: int| 0 <= i < cycles.len() && 0 <= j < cycles[i]@.len() && (#[trigger] cycles[i]@[j]).0 == b
}

/// Every edge out of a finished expression leads to one that finished
/// earlier, or to an expression on a reported cycle.
pub open spec fn descends(pool: &Pool, fin: Map<usize, nat>, cycles: Seq<Vec<ExprId>>) -> bool {
    forall|a: usize, b: usize, r: RuleId|
        #[trigger] edge(pool, a, b, r) && fin.dom().contains(a) ==> (fin.dom().contains(b) && fin[b] < fin[a]) || on_cycles(
            cycles,
            b,
        )
}

proof fn lemma_on_cycles_grow(c1: Seq<Vec<ExprId>>, c2: Seq<Vec<ExprId>>, b: usize)
    requires
        c1.len() <= c2.len(),
        forall|i: int| 0 <= i < c1.len() ==> c2[i] == c1[i],
        on_cycles(c1, b),
    ensures
        on_cycles(c2, b),
{
    let (i, j) = choose|i: int, j: int| 0 <= i < c1.len() && 0 <= j < c1[i]@.len() && (#[trigger] c1[i]@[j]).0 == b;
    assert(c2[i] == c1[i]);
    assert(c2[i]@[j].0 == b);
}

/// Some cycle of the rewrite graph can be reached from `x`.
pub open spec fn reaches_cycle(pool: &Pool, x: usize) -> bool {
    exists|c: Seq<ExprId>, i: int|
        #![trigger is_cycle(pool, c), c[i]]
        is_cycle(pool, c) && 0 <= i < c.len() && reaches(pool, x, c[i].0)
}

proof fn lemma_edge_reaches(pool: &Pool, a: usize, b: usize, r: RuleId)
    requires
        edge(pool, a, b, r),
    ensures
        reaches(pool, a, b),
{
    let nodes = seq![a, b];
    let rules = seq![r];
    assert(is_walk(pool, nodes, rules));
    assert(walk_between(pool, a, b, rules));
}

proof fn lemma_linked_step(pool: &Pool, x: usize, a: usize, b: usize)
    requires
        reaches(pool, x, a),
        linked(pool, a, b),
    ensures
        reaches(pool, x, b),
{
    let r = choose|r: RuleId| #[trigger] edge(pool, a, b, r);
    lemma_edge_reaches(pool, a, b, r);
    crate::laws::law_reaches_transitive(pool, x, a, b);
}

/// Reaching one expression of a cycle reaches all of them.
proof fn lemma_cycle_reachable(pool: &Pool, x: usize, c: Seq<ExprId>, i0: int)
    requires
        is_cycle(pool, c),
        0 <= i0 < c.len(),
        reaches(pool, x, c[i0].0),
    ensures
        forall|k: int| 0 <= k < c.len() ==> reaches(pool, x, (#[trigger] c[k]).0),
{
    lemma_cycle_reachable_up(pool, x, c, i0, c.len() - 1);
    lemma_linked_step(pool, x, c.last().0, c[0].0);
    assert forall|k: int| 0 <= k < c.len() implies reaches(pool, x, (#[trigger] c[k]).0) by {
        if k >= i0 {
            lemma_cycle_reachable_up(pool, x, c, i0, k);
        } else {
            lemma_cycle_reachable_up(pool, x, c, 0, k);
        }
    }
}

proof fn lemma_cycle_reachable_up(pool: &Pool, x: usize, c: Seq<ExprId>, from: int, k: int)
    requires
        is_cycle(pool, c),
        0 <= from <= k < c.len(),
        reaches(pool, x, c[from].0),
    ensures
        reaches(pool, x, c[k].0),
    decreases k - from,
{
    if k > from {
        lemma_cycle_reachable_up(pool, x, c, from, k - 1);
        let j = k - 1;
        assert(linked(pool, c[j].0, c[j + 1].0));
        lemma_linked_step(pool, x, c[j].0, c[k].0);
    }
}

/// Every expression of a cycle has outgoing rewrites, so it finished.
proof fn lemma_cycle_in_finished(pool: &Pool, fin: Map<usize, nat>, c: Seq<ExprId>)
    requires
        is_cycle(pool, c),
        forall|a: usize| #[trigger] pool.outgoing@.contains_key(a) ==> fin.dom().contains(a),
    ensures
        forall|i: int| 0 <= i < c.len() ==> fin.dom().contains((#[trigger] c[i]).0),
{
    assert forall|i: int| 0 <= i < c.len() implies fin.dom().contains((#[trigger] c[i]).0) by {
        let nxt = if i < c.len() - 1 { c[i + 1].0 } else { c[0].0 };
        assert(linked(pool, c[i].0, nxt));
        let r = choose|r: RuleId| #[trigger] edge(pool, c[i].0, nxt, r);
        assert(pool.outgoing@.contains_key(c[i].0));
    }
}

/// Finishing times cannot fall all the way round a cycle.
proof fn lemma_descending_cycle(fin: Map<usize, nat>, c: Seq<ExprId>)
    requires
        c.len() > 0,
        forall|k: int| 0 <= k < c.len() - 1 ==> fin[(#[trigger] c[k + 1]).0] < fin[c[k].0],
    ensures
        !(fin[c[0].0] < fin[c.last().0]),
{
    lemma_descending_prefix(fin, c, c.len() - 1);
}

proof fn lemma_descending_prefix(fin: Map<usize, nat>, c: Seq<ExprId>, i: int)
    requires
        0 <= i < c.len(),
        forall|k: int| 0 <= k < c.len() - 1 ==> fin[(#[trigger] c[k + 1]).0] < fin[c[k].0],
    ensures
        fin[c[i].0] + i <= fin[c[0].0],
    decreases i,
{
    if i > 0 {
        lemma_descending_prefix(fin, c, i - 1);
        assert(fin[c[(i - 1) + 1].0] < fin[c[i - 1].0]);
    }
}

impl Pool {
    /// The expressions the rewrite graph has entries for: the keys of the
    /// outgoing lists, then those of the incoming lists.
    fn graph_starts(&self) -> (r: Vec<usize>)
        ensures
            forall|k: usize| #[trigger] r@.contains(k) <==> (self.outgoing@.contains_key(k) || self.incoming@.contains_key(k)),
    {
        let mut starts = keys_of(&self.outgoing);
        let more = keys_of(&self.incoming);
        for j in 0..more.len()
            invariant
                forall|k: usize| #[trigger] more@.contains(k) <==> self.incoming@.contains_key(k),
                forall|k: usize| #[trigger] starts@.contains(k) <==> (self.outgoing@.contains_key(k) || more@.take(j as int).contains(k)),
        {
            let ghost prev = starts@;
            starts.push(more[j]);
            proof {
                assert forall|k: usize| #[trigger] starts@.contains(k) <==> (self.outgoing@.contains_key(k) || more@.take(j + 1).contains(k)) by {
                    if starts@.contains(k) {
                        let w = starts@.index_of(k);
                        if w < prev.len() {
                            assert(prev[w] == k);
                            assert(prev.contains(k));
                            if more@.take(j as int).contains(k) {
                                let v = more@.take(j as int).index_of(k);
                                assert(more@.take(j + 1)[v] == k);
                            }
                        } else {
                            assert(more@.take(j + 1)[j as int] == k);
                        }
                    }
                    if more@.take(j + 1).contains(k) {
                        let v = more@.take(j + 1).index_of(k);
                        if v < j {
                            assert(more@.take(j as int)[v] == k);
                            assert(prev.contains(k));
                            let w = prev.index_of(k);
                            assert(starts@[w] == k);
                        } else {
                            assert(starts@[prev.len() as int] == k);
                        }
                    }
                    if self.outgoing@.contains_key(k) {
                        assert(prev.contains(k));
                        let w = prev.index_of(k);
                        assert(starts@[w] == k);
                    }
                }
            }
        }
        proof {
            assert(more@.take(more@.len() as int) =~= more@);
        }
        starts
    }

    fn dfs_cycle_detection(
        &self,
        node: usize,
        visited: &mut BTreeSet<usize>,
        path: &mut Vec<usize>,
        cycles: &mut Vec<Vec<ExprId>>,
        Ghost(u): Ghost<Set<usize>>,
        Ghost(fin): Ghost<Map<usize, nat>>,
    ) -> (r: Ghost<Map<usize, nat>>)
        requires
            u == graph_nodes(self),
            u.finite(),
            u.contains(node),
            old(visited)@.subset_of(u),
            !old(visited)@.contains(node),
            chain(self, old(path)@),
            old(path)@.no_duplicates(),
            old(path)@.len() > 0 ==> linked(self, old(path)@.last(), node),
            forall|i: int| 0 <= i < old(cycles)@.len() ==> is_cycle(self, (#[trigger] old(cycles)@[i])@),
            finish_ok(self, old(visited)@, old(path)@, fin, old(cycles)@),
        ensures
            final(path)@ == old(path)@,
            old(visited)@.subset_of(final(visited)@),
            final(visited)@.subset_of(u),
            final(visited)@.contains(node),
            forall|i: int| 0 <= i < final(cycles)@.len() ==> is_cycle(self, (#[trigger] final(cycles)@[i])@),
            old(cycles)@.len() <= final(cycles)@.len(),
            forall|i: int| 0 <= i < old(cycles)@.len() ==> final(cycles)@[i] == old(cycles)@[i],
            finish_ok(self, final(visited)@, old(path)@, r@, final(cycles)@),
            r@.dom().contains(node),
            forall|k: usize| #[trigger] fin.dom().contains(k) ==> r@.dom().contains(k) && r@[k] == fin[k],
        decreases u.len() - old(visited)@.len(),
    {
        proof {
            lemma_graph_nodes(self);
        }
        visited.insert(node);
        let ghost entry_path = path@;
        path.push(node);
        let ghost mut cur = fin;
        proof {
            assert forall|i: int| 0 <= i < path@.len() - 1 implies #[trigger] linked(self, path@[i], path@[i + 1]) by {
                if i < entry_path.len() - 1 {
                    assert(linked(self, entry_path[i], entry_path[i + 1]));
                }
            }
            assert forall|x: usize| #[trigger] visited@.contains(x) <==> (cur.dom().contains(x) || path@.contains(x)) by {
                if path@.contains(x) && x != node {
                    let w = path@.index_of(x);
                    assert(entry_path[w] == x);
                    assert(entry_path.contains(x));
                }
                if entry_path.contains(x) {
                    let w = entry_path.index_of(x);
                    assert(path@[w] == x);
                }
                if x == node {
                    assert(path@[entry_path.len() as int] == node);
                }
            }
            assert forall|x: usize| #[trigger] path@.contains(x) implies !cur.dom().contains(x) by {
                if x != node {
                    let w = path@.index_of(x);
                    assert(entry_path[w] == x);
                    assert(entry_path.contains(x));
                }
            }
            assert(!entry_path.contains(node));
            assert forall|i: int, j: int| 0 <= i < path@.len() && 0 <= j < path@.len() && i != j implies path@[i]
                != path@[j] by {
                if i < entry_path.len() && j < entry_path.len() {
                    assert(entry_path[i] != entry_path[j]);
                } else if i < entry_path.len() {
                    assert(entry_path.contains(path@[i]));
                } else if j < entry_path.len() {
                    assert(entry_path.contains(path@[j]));
                }
            }
        }
        match self.outgoing.get(&node) {
            Some(list) => {
                for k in 0..list.len()
                    invariant
                        u == graph_nodes(self),
                        u.finite(),
                        self.outgoing@.contains_key(node),
                        list@ == self.outgoing@[node]@,
                        path@ == entry_path.push(node),
                        chain(self, path@),
                        path@.no_duplicates(),
                        old(visited)@.insert(node).subset_of(visited@),
                        !old(visited)@.contains(node),
                        old(visited)@.subset_of(u),
                        visited@.subset_of(u),
                        forall|i: int| 0 <= i < cycles@.len() ==> is_cycle(self, (#[trigger] cycles@[i])@),
                        old(cycles)@.len() <= cycles@.len(),
                        forall|i: int| 0 <= i < old(cycles)@.len() ==> cycles@[i] == old(cycles)@[i],
                        cur.dom().finite(),
                        forall|x: usize| #[trigger] cur.dom().contains(x) ==> cur[x] < cur.dom().len(),
                        forall|x: usize| #[trigger] visited@.contains(x) <==> (cur.dom().contains(x) || path@.contains(x)),
                        forall|x: usize| #[trigger] path@.contains(x) ==> !cur.dom().contains(x),
                        descends(self, cur, cycles@),
                        forall|x: usize| #[trigger] fin.dom().contains(x) ==> cur.dom().contains(x) && cur[x] == fin[x],
                        forall|m: int| 0 <= m < k ==> cur.dom().contains((#[trigger] list@[m]).0.0) || on_cycles(cycles@, list@[m].0.0),
                {
                    let (next, rule) = list[k];
                    proof {
                        assert(entries(self.outgoing@, node)[k as int] == (next, rule));
                        assert(edge(self, node, next.0, rule));
                        assert(linked(self, node, next.0));
                        lemma_graph_nodes(self);
                    }
                    if !visited.contains(&next.0) {
                        proof {
                            vstd::set_lib::lemma_len_subset(visited@, u);
                            vstd::set_lib::lemma_len_subset(old(visited)@, u);
                            vstd::set_lib::lemma_len_subset(old(visited)@.insert(node), visited@);
                            assert(old(visited)@.insert(node).len() == old(visited)@.len() + 1);
                            assert(u.len() - visited@.len() < u.len() - old(visited)@.len());
                        }
                        let ghost before_cur = cur;
                        let ghost before_cycles = cycles@;
                        let Ghost(nf) = self.dfs_cycle_detection(next.0, visited, path, cycles, Ghost(u), Ghost(cur));
                        proof {
                            cur = nf;
                            assert forall|m: int| 0 <= m <= k implies cur.dom().contains((#[trigger] list@[m]).0.0) || on_cycles(
                                cycles@,
                                list@[m].0.0,
                            ) by {
                                if m < k {
                                    if on_cycles(before_cycles, list@[m].0.0) {
                                        lemma_on_cycles_grow(before_cycles, cycles@, list@[m].0.0);
                                    }
                                }
                            }
                            assert forall|i: int| 0 <= i < old(cycles)@.len() implies cycles@[i] == old(cycles)@[i] by {
                                assert(before_cycles[i] == old(cycles)@[i]);
                            }
                        }
                    } else {
                        match position_of(path, next.0) {
                            Some(start) => {
                                let mut cycle: Vec<ExprId> = Vec::new();
                                for j in start..path.len()
                                    invariant
                                        start < path@.len(),
                                        cycle@ == path@.subrange(start as int, j as int).map_values(|n: usize| ExprId(n)),
                                {
                                    cycle.push(ExprId(path[j]));
                                    proof {
                                        assert(path@.subrange(start as int, j + 1) =~= path@.subrange(start as int, j as int).push(path@[j as int]));
                                    }
                                }
                                proof {
                                    assert(path@.last() == node);
                                    lemma_chain_slice(self, path@, start as int);
                                }
                                let ghost before_cycles = cycles@;
                                cycles.push(cycle);
                                proof {
                                    assert(cycles@[before_cycles.len() as int]@[0].0 == next.0);
                                    assert(on_cycles(cycles@, next.0));
                                    assert forall|b: usize| #[trigger] on_cycles(before_cycles, b) implies on_cycles(cycles@, b) by {
                                        lemma_on_cycles_grow(before_cycles, cycles@, b);
                                    }
                                    assert forall|m: int| 0 <= m <= k implies cur.dom().contains((#[trigger] list@[m]).0.0)
                                        || on_cycles(cycles@, list@[m].0.0) by {
                                        if m < k && on_cycles(before_cycles, list@[m].0.0) {
                                            assert(on_cycles(cycles@, list@[m].0.0));
                                        }
                                    }
                                    assert forall|a: usize, b: usize, r: RuleId|
                                        #[trigger] edge(self, a, b, r) && cur.dom().contains(a) implies (cur.dom().contains(b) && cur[b]
                                        < cur[a]) || on_cycles(cycles@, b) by {
                                        if on_cycles(before_cycles, b) {
                                            assert(on_cycles(cycles@, b));
                                        }
                                    }
                                }
                            },
                            None => {
                                proof {
                                    assert(cur.dom().contains(next.0));
                                }
                            },
                        }
                    }
                }
            },
            None => {},
        }
        proof {
            assert(path@[entry_path.len() as int] == node);
            assert(path@.contains(node));
            assert(!cur.dom().contains(node));
        }
        path.pop();
        proof {
            assert(path@ =~= entry_path);
            let t = cur.dom().len();
            let nf = cur.insert(node, t);
            assert(nf.dom() == cur.dom().insert(node));
            assert(nf.dom().len() == t + 1);
            assert forall|x: usize| #[trigger] nf.dom().contains(x) implies nf[x] < nf.dom().len() by {
                if x != node {
                    assert(cur[x] < t);
                }
            }
            assert forall|x: usize| #[trigger] visited@.contains(x) <==> (nf.dom().contains(x) || path@.contains(x)) by {
                if entry_path.push(node).contains(x) && x != node {
                    let w = entry_path.push(node).index_of(x);
                    assert(entry_path[w] == x);
                    assert(entry_path.contains(x));
                }
                if entry_path.contains(x) {
                    let w = entry_path.index_of(x);
                    assert(entry_path.push(node)[w] == x);
                }
            }
            assert forall|x: usize| #[trigger] path@.contains(x) implies !nf.dom().contains(x) by {
                let w = entry_path.index_of(x);
                assert(entry_path.push(node)[w] == x);
                assert(entry_path.push(node).contains(x));
                if x == node {
                    assert(!old(visited)@.contains(node));
                    assert(entry_path.contains(node));
                }
            }
            assert forall|a: usize, b: usize, r: RuleId|
                #[trigger] edge(self, a, b, r) && nf.dom().contains(a) implies (nf.dom().contains(b) && nf[b] < nf[a]) || on_cycles(
                cycles@,
                b,
            ) by {
                if a == node {
                    let m = entries(self.outgoing@, node).index_of((ExprId(b), r));
                    assert(self.outgoing@.contains_key(node));
                    assert(self.outgoing@[node]@[m].0.0 == b);
                    if cur.dom().contains(b) {
                        assert(cur[b] < t);
                    }
                } else {
                    assert(cur.dom().contains(a));
                    if cur.dom().contains(b) && cur[b] < cur[a] {
                        assert(b != node);
                    }
                }
            }
            assert(finish_ok(self, visited@, path@, nf, cycles@));
        }
        Ghost(cur.insert(node, cur.dom().len()))
    }

    /// The cycles `detect_cycles` reports, with the finishing times of its
    /// walk: every expression with outgoing rewrites finished, and every
    /// edge out of a finished expression leads to one that finished earlier
    /// or to an expression on a reported cycle.
    fn detect_cycles_ordered(&self) -> (r: (Vec<Vec<ExprId>>, Ghost<Map<usize, nat>>))
        ensures
            forall|i: int| 0 <= i < r.0@.len() ==> is_cycle(self, (#[trigger] r.0@[i])@),
            forall|a: usize| #[trigger] self.outgoing@.contains_key(a) ==> r.1@.dom().contains(a),
            descends(self, r.1@, r.0@),
    {
        let ghost u = graph_nodes(self);
        proof {
            lemma_graph_nodes(self);
        }
        let mut visited: BTreeSet<usize> = BTreeSet::new();
        let mut cycles: Vec<Vec<ExprId>> = Vec::new();
        let starts = self.graph_starts();
        let ghost mut fin: Map<usize, nat> = Map::empty();
        proof {
            assert(finish_ok(self, visited@, Seq::<usize>::empty(), fin, cycles@));
        }
        for j in 0..starts.len()
            invariant
                u == graph_nodes(self),
                u.finite(),
                forall|k: usize| #[trigger] starts@.contains(k) <==> (self.outgoing@.contains_key(k) || self.incoming@.contains_key(k)),
                forall|a: usize| #[trigger] self.outgoing@.contains_key(a) ==> u.contains(a),
                forall|a: usize| #[trigger] self.incoming@.contains_key(a) ==> u.contains(a),
                visited@.subset_of(u),
                forall|i: int| 0 <= i < cycles@.len() ==> is_cycle(self, (#[trigger] cycles@[i])@),
                finish_ok(self, visited@, Seq::<usize>::empty(), fin, cycles@),
                forall|k: int| 0 <= k < j ==> visited@.contains(#[trigger] starts@[k]),
        {
            let node = starts[j];
            if !visited.contains(&node) {
                let mut path: Vec<usize> = Vec::new();
                proof {
                    assert(starts@.contains(node));
                    assert(self.outgoing@.contains_key(node) || self.incoming@.contains_key(node));
                    assert(path@ =~= Seq::<usize>::empty());
                }
                let Ghost(nf) = self.dfs_cycle_detection(node, &mut visited, &mut path, &mut cycles, Ghost(u), Ghost(fin));
                proof {
                    fin = nf;
                }
            }
        }
        proof {
            assert forall|a: usize| #[trigger] self.outgoing@.contains_key(a) implies fin.dom().contains(a) by {
                assert(starts@.contains(a));
                let w = starts@.index_of(a);
                assert(visited@.contains(starts@[w]));
                assert(!Seq::<usize>::empty().contains(a));
            }
        }
        (cycles, Ghost(fin))
    }

    /// Cycles of the rewrite graph found by a depth-first walk from every
    /// expression it mentions: each one found when an edge closes back onto
    /// the walk's current path. Nothing is found exactly when the graph has
    /// no cycle.
    pub fn detect_cycles(&self) -> (r: Vec<Vec<ExprId>>)
        ensures
            forall|i: int| 0 <= i < r@.len() ==> is_cycle(self, (#[trigger] r@[i])@),
            r@.len() == 0 <==> acyclic(self),
    {
        let (cycles, Ghost(fin)) = self.detect_cycles_ordered();
        proof {
            if cycles@.len() == 0 {
                assert forall|c: Seq<ExprId>| !#[trigger] is_cycle(self, c) by {
                    if is_cycle(self, c) {
                        lemma_cycle_in_finished(self, fin, c);
                        assert forall|k: int| 0 <= k < c.len() - 1 implies fin[(#[trigger] c[k + 1]).0] < fin[c[k].0] by {
                            assert(linked(self, c[k].0, c[k + 1].0));
                            let r = choose|r: RuleId| #[trigger] edge(self, c[k].0, c[k + 1].0, r);
                            assert(!on_cycles(cycles@, c[k + 1].0));
                        }
                        assert(linked(self, c.last().0, c[0].0));
                        let r = choose|r: RuleId| #[trigger] edge(self, c.last().0, c[0].0, r);
                        assert(!on_cycles(cycles@, c[0].0));
                        lemma_descending_cycle(fin, c);
                    }
                }
            } else {
                assert(is_cycle(self, cycles@[0]@));
            }
        }
        cycles
    }

    /// The strongly connected components of the rewrite graph, found by a
    /// depth-first walk that orders the expressions by finishing time and a
    /// second walk against the edges in the reverse of that order. Each
    /// expression with graph entries lies in exactly one component, and
    /// every listed expression is one the rewrite graph mentions; while
    /// the outgoing and incoming records agree, a component holds exactly
    /// the expressions that reach its first one and that it reaches.
    pub fn find_strongly_connected_components(&self) -> (r: Vec<Vec<ExprId>>)
        ensures
            forall|i: int| 0 <= i < r@.len() ==> (#[trigger] r@[i])@.len() > 0 && r@[i]@.no_duplicates(),
            forall|i: int, j: int, x: ExprId|
                0 <= i < r@.len() && 0 <= j < r@.len() && i != j && (#[trigger] r@[i]@.contains(x)) ==> !(
                #[trigger] r@[j]@.contains(x)),
            forall|a: usize|
                #![trigger self.outgoing@.contains_key(a)]
                #![trigger self.incoming@.contains_key(a)]
                self.outgoing@.contains_key(a) || self.incoming@.contains_key(a) ==> exists|i: int|
                    0 <= i < r@.len() && (#[trigger] r@[i]@.contains(ExprId(a))),
            consistent(self) ==> forall|i: int, k: int|
                0 <= i < r@.len() && 0 <= k < r@[i]@.len() ==> reaches(self, (#[trigger] r@[i]@[k]).0, r@[i]@[0].0),
            mirrored(self) ==> forall|i: int, y: usize|
                0 <= i < r@.len() ==> (#[trigger] r@[i]@.contains(ExprId(y)) <==> mutual(self, y, r@[i]@[0].0)),
            forall|i: int, x: ExprId| 0 <= i < r@.len() && #[trigger] r@[i]@.contains(x) ==> graph_nodes(self).contains(x.0),
    {
        let ghost u = graph_nodes(self);
        proof {
            lemma_graph_nodes(self);
        }
        let starts = self.graph_starts();
        let mut visited: BTreeSet<usize> = BTreeSet::new();
        let mut stack: Vec<usize> = Vec::new();
        for j in 0..starts.len()
            invariant
                u == graph_nodes(self),
                u.finite(),
                forall|k: usize| #[trigger] starts@.contains(k) <==> (self.outgoing@.contains_key(k) || self.incoming@.contains_key(k)),
                forall|a: usize| #[trigger] self.outgoing@.contains_key(a) ==> u.contains(a),
                forall|a: usize| #[trigger] self.incoming@.contains_key(a) ==> u.contains(a),
                visited@.subset_of(u),
                stack@.no_duplicates(),
                forall|x: usize| #[trigger] stack@.contains(x) <==> visited@.contains(x),
                forall|k: int| 0 <= k < j ==> visited@.contains(#[trigger] starts@[k]),
                closed_under(self, stack@, visited@),
                order_ok(self, stack@, Seq::<usize>::empty()),
        {
            let node = starts[j];
            if !visited.contains(&node) {
                proof {
                    assert(starts@.contains(node));
                }
                let ghost v0 = visited@;
                let ghost s0 = stack@;
                self.dfs_fill_order(node, &mut visited, &mut stack, Ghost(u), Ghost(Seq::<usize>::empty()));
                proof {
                    let mid = stack@.subrange(s0.len() as int, stack@.len() as int);
                    assert(stack@ =~= s0 + mid);
                    assert forall|x: usize| #[trigger] stack@.contains(x) <==> visited@.contains(x) by {
                        if stack@.contains(x) {
                            let w = stack@.index_of(x);
                            if w < s0.len() {
                                assert(s0[w] == x);
                                assert(s0.contains(x));
                            } else {
                                assert(mid[w - s0.len()] == x);
                                assert(mid.contains(x));
                            }
                        }
                        if visited@.contains(x) {
                            if v0.contains(x) {
                                assert(s0.contains(x));
                                let w = s0.index_of(x);
                                assert(stack@[w] == x);
                            } else {
                                assert(mid.contains(x));
                                let w = mid.index_of(x);
                                assert(stack@[s0.len() + w] == x);
                            }
                        }
                    }
                    assert forall|a: int, b: int| 0 <= a < stack@.len() && 0 <= b < stack@.len() && a != b implies stack@[a]
                        != stack@[b] by {
                        if a < s0.len() && b >= s0.len() {
                            assert(s0.contains(stack@[a]));
                            assert(mid.contains(stack@[b]));
                        } else if b < s0.len() && a >= s0.len() {
                            assert(s0.contains(stack@[b]));
                            assert(mid.contains(stack@[a]));
                        } else if a < s0.len() {
                            assert(s0[a] != s0[b]);
                        } else {
                            assert(mid[a - s0.len()] != mid[b - s0.len()]);
                        }
                    }
                }
            }
        }
        let ghost full = stack@;
        let ghost seen = visited@;
        let mut visited: BTreeSet<usize> = BTreeSet::new();
        let mut components: Vec<Vec<ExprId>> = Vec::new();
        while stack.len() > 0
            invariant
                u == graph_nodes(self),
                u.finite(),
                seen.subset_of(u),
                forall|x: usize| #[trigger] full.contains(x) <==> seen.contains(x),
                forall|k: usize| #[trigger] starts@.contains(k) ==> seen.contains(k),
                forall|k: usize| #[trigger] starts@.contains(k) <==> (self.outgoing@.contains_key(k) || self.incoming@.contains_key(k)),
                stack@.len() <= full.len(),
                stack@ == full.take(stack@.len() as int),
                forall|k: int| stack@.len() <= k < full.len() ==> visited@.contains(#[trigger] full[k]),
                visited@.subset_of(u),
                forall|x: usize|
                    #[trigger] visited@.contains(x) <==> exists|i: int|
                        0 <= i < components@.len() && (#[trigger] components@[i]@.contains(ExprId(x))),
                forall|i: int| 0 <= i < components@.len() ==> (#[trigger] components@[i])@.len() > 0 && components@[i]@.no_duplicates(),
                forall|i: int, j: int, x: ExprId|
                    0 <= i < components@.len() && 0 <= j < components@.len() && i != j && (
                    #[trigger] components@[i]@.contains(x)) ==> !(#[trigger] components@[j]@.contains(x)),
                consistent(self) ==> forall|i: int, k: int|
                    0 <= i < components@.len() && 0 <= k < components@[i]@.len() ==> reaches(
                        self,
                        (#[trigger] components@[i]@[k]).0,
                        components@[i]@[0].0,
                    ),
                full.no_duplicates(),
                order_ok(self, full, Seq::<usize>::empty()),
                mirrored(self) ==> forall|i: int, y: usize|
                    0 <= i < components@.len() ==> (#[trigger] components@[i]@.contains(ExprId(y)) <==> mutual(
                        self,
                        y,
                        components@[i]@[0].0,
                    )),
            decreases stack@.len(),
        {
            let node = stack.pop().unwrap();
            proof {
                assert(full[stack@.len() as int] == node);
                assert(full.contains(node));
            }
            if !visited.contains(&node) {
                let mut component: Vec<ExprId> = Vec::new();
                proof {
                    lemma_reaches_self(self, node);
                }
                let ghost v0 = visited@;
                let ghost comps0 = components@;
                self.dfs_transpose(node, &mut visited, &mut component, Ghost(u), Ghost(node));
                proof {
                    assert(component@.subrange(0, component@.len() as int) =~= component@);
                    assert(component@.len() > 0);
                }
                components.push(component);
                proof {
                    let c = components@[comps0.len() as int]@;
                    assert(c.subrange(0, c.len() as int) =~= c);
                    assert forall|x: usize| #[trigger] visited@.contains(x) <==> exists|i: int|
                        0 <= i < components@.len() && (#[trigger] components@[i]@.contains(ExprId(x))) by {
                        if visited@.contains(x) {
                            if v0.contains(x) {
                                let i = choose|i: int| 0 <= i < comps0.len() && (#[trigger] comps0[i]@.contains(ExprId(x)));
                                assert(components@[i] == comps0[i]);
                            } else {
                                assert(c.contains(ExprId(x)));
                            }
                        }
                        if exists|i: int| 0 <= i < components@.len() && (#[trigger] components@[i]@.contains(ExprId(x))) {
                            let i = choose|i: int| 0 <= i < components@.len() && (#[trigger] components@[i]@.contains(ExprId(x)));
                            if i < comps0.len() {
                                assert(components@[i] == comps0[i]);
                                assert(v0.contains(x));
                            }
                        }
                    }
                    assert forall|i: int, j: int, x: ExprId|
                        0 <= i < components@.len() && 0 <= j < components@.len() && i != j && (
                        #[trigger] components@[i]@.contains(x)) implies !(#[trigger] components@[j]@.contains(x)) by {
                        if i < comps0.len() && j < comps0.len() {
                            assert(components@[i] == comps0[i]);
                            assert(components@[j] == comps0[j]);
                        } else if i < comps0.len() {
                            assert(components@[i] == comps0[i]);
                            assert(v0.contains(x.0));
                        } else {
                            assert(components@[j] == comps0[j]);
                            if components@[j]@.contains(x) {
                                assert(v0.contains(x.0));
                            }
                        }
                    }
                    assert forall|i: int| 0 <= i < components@.len() implies (#[trigger] components@[i])@.len() > 0
                        && components@[i]@.no_duplicates() by {
                        if i < comps0.len() {
                            assert(components@[i] == comps0[i]);
                        }
                    }
                    if consistent(self) {
                        assert forall|i: int, k: int|
                            0 <= i < components@.len() && 0 <= k < components@[i]@.len() implies reaches(
                            self,
                            (#[trigger] components@[i]@[k]).0,
                            components@[i]@[0].0,
                        ) by {
                            if i < comps0.len() {
                                assert(components@[i] == comps0[i]);
                            }
                        }
                    }
                    if mirrored(self) {
                        let m = stack@.len() as int;
                        assert forall|a: usize| #[trigger] self.outgoing@.contains_key(a) implies full.contains(a) by {
                            assert(starts@.contains(a));
                        }
                        lemma_new_component(self, full, m, v0, visited@, comps0, c);
                        assert forall|i: int, y: usize|
                            0 <= i < components@.len() implies (#[trigger] components@[i]@.contains(ExprId(y)) <==> mutual(
                            self,
                            y,
                            components@[i]@[0].0,
                        )) by {
                            if i < comps0.len() {
                                assert(components@[i] == comps0[i]);
                            }
                        }
                    }
                }
            }
            proof {
                assert(stack@ =~= full.take(stack@.len() as int));
                assert forall|k: int| stack@.len() <= k < full.len() implies visited@.contains(#[trigger] full[k]) by {
                    if k == stack@.len() {
                        assert(full[k] == node);
                    }
                }
            }
        }
        proof {
            assert forall|a: usize|
                self.outgoing@.contains_key(a) || self.incoming@.contains_key(a) implies exists|i: int|
                    0 <= i < components@.len() && (#[trigger] components@[i]@.contains(ExprId(a))) by {
                assert(starts@.contains(a));
                assert(seen.contains(a));
                assert(full.contains(a));
                let k = full.index_of(a);
                assert(visited@.contains(full[k]));
            }
            assert forall|i: int, x: ExprId| 0 <= i < components@.len() && #[trigger] components@[i]@.contains(x) implies graph_nodes(
                self,
            ).contains(x.0) by {
                assert(ExprId(x.0) == x);
                assert(visited@.contains(x.0));
            }
        }
        components
    }

    /// Whether some expression on a cycle found by `detect_cycles` can be
    /// reached from `expr` by recorded rewrites: exactly when some cycle of
    /// the rewrite graph can be reached from `expr`.
    pub fn has_infinite_derivation_potential(&self, expr: ExprId) -> (r: bool)
        ensures
            r == reaches_cycle(self, expr.0),
    {
        let reachable = self.find_all_reachable(expr);
        let (cycles, Ghost(fin)) = self.detect_cycles_ordered();
        for i in 0..cycles.len()
            invariant
                forall|e: ExprId| #[trigger] reachable@.contains(e) <==> reaches(self, expr.0, e.0),
                forall|k: int| 0 <= k < cycles@.len() ==> is_cycle(self, (#[trigger] cycles@[k])@),
                forall|a: int, b: int|
                    0 <= a < i && 0 <= b < cycles@[a]@.len() ==> !reaches(self, expr.0, (#[trigger] cycles@[a]@[b]).0),
        {
            let cycle = &cycles[i];
            for j in 0..cycle.len()
                invariant
                    forall|e: ExprId| #[trigger] reachable@.contains(e) <==> reaches(self, expr.0, e.0),
                    forall|k: int| 0 <= k < cycles@.len() ==> is_cycle(self, (#[trigger] cycles@[k])@),
                    cycle == &cycles@[i as int],
                    0 <= i < cycles@.len(),
                    forall|a: int, b: int|
                        0 <= a < i && 0 <= b < cycles@[a]@.len() ==> !reaches(self, expr.0, (#[trigger] cycles@[a]@[b]).0),
                    forall|b: int| 0 <= b < j ==> !reaches(self, expr.0, (#[trigger] cycle@[b]).0),
            {
                let n = cycle[j];
                let mut k: usize = 0;
                while k < reachable.len()
                    invariant
                        0 <= j < cycle@.len(),
                        n == cycle@[j as int],
                        k <= reachable@.len(),
                        forall|e: ExprId| #[trigger] reachable@.contains(e) <==> reaches(self, expr.0, e.0),
                        is_cycle(self, cycle@),
                        forall|m: int| 0 <= m < k ==> (#[trigger] reachable@[m]).0 != n.0,
                    decreases reachable@.len() - k,
                {
                    if reachable[k].0 == n.0 {
                        proof {
                            assert(reachable@[k as int] == n);
                            assert(reachable@.contains(n));
                            assert(is_cycle(self, cycle@) && 0 <= j < cycle@.len() && reaches(self, expr.0, cycle@[j as int].0));
                        }
                        return true;
                    }
                    k = k + 1;
                }
                proof {
                    if reaches(self, expr.0, n.0) {
                        assert(reachable@.contains(n));
                        let m = reachable@.index_of(n);
                        assert(reachable@[m].0 != n.0);
                    }
                }
            }
        }
        proof {
            if reaches_cycle(self, expr.0) {
                let (c, i0) = choose|c: Seq<ExprId>, i: int|
                    #![trigger is_cycle(self, c), c[i]]
                    is_cycle(self, c) && 0 <= i < c.len() && reaches(self, expr.0, c[i].0);
                lemma_cycle_reachable(self, expr.0, c, i0);
                lemma_cycle_in_finished(self, fin, c);
                assert forall|b: usize| #[trigger] on_cycles(cycles@, b) implies !reaches(self, expr.0, b) by {
                    let (a, j) = choose|a: int, j: int|
                        0 <= a < cycles@.len() && 0 <= j < cycles@[a]@.len() && (#[trigger] cycles@[a]@[j]).0 == b;
                    assert(!reaches(self, expr.0, cycles@[a]@[j].0));
                }
                assert forall|k: int| 0 <= k < c.len() - 1 implies fin[(#[trigger] c[k + 1]).0] < fin[c[k].0] by {
                    assert(linked(self, c[k].0, c[k + 1].0));
                    let r = choose|r: RuleId| #[trigger] edge(self, c[k].0, c[k + 1].0, r);
                    assert(reaches(self, expr.0, c[k + 1].0));
                    assert(!on_cycles(cycles@, c[k + 1].0));
                }
                assert(linked(self, c.last().0, c[0].0));
                let r = choose|r: RuleId| #[trigger] edge(self, c.last().0, c[0].0, r);
                assert(reaches(self, expr.0, c[0].0));
                assert(!on_cycles(cycles@, c[0].0));
                lemma_descending_cycle(fin, c);
            }
        }
        false
    }
}

} // verus!

verus! {

proof fn lemma_prepend_edge(pool: &Pool, a: usize, b: usize, r: RuleId, c: usize)
    requires
        edge(pool, a, b, r),
        reaches(pool, b, c),
    ensures
        reaches(pool, a, c),
{
    let rules = choose|rules: Seq<RuleId>| #[trigger] walk_between(pool, b, c, rules);
    let nodes = choose|nodes: Seq<usize>|
        #![trigger is_walk(pool, nodes, rules)]
        is_walk(pool, nodes, rules) && nodes[0] == b && nodes.last() == c;
    let nodes2 = seq![a] + nodes;
    let rules2 = seq![r] + rules;
    assert forall|i: int| 0 <= i < rules2.len() implies #[trigger] edge(pool, nodes2[i], nodes2[i + 1], rules2[i]) by {
        if i > 0 {
            let j = i - 1;
            assert(edge(pool, nodes[j], nodes[j + 1], rules[j]));
        }
    }
    assert(is_walk(pool, nodes2, rules2));
    assert(walk_between(pool, a, c, rules2));
}

proof fn lemma_reaches_self(pool: &Pool, a: usize)
    ensures
        reaches(pool, a, a),
{
    let nodes = seq![a];
    assert(is_walk(pool, nodes, Seq::<RuleId>::empty()));
    assert(walk_between(pool, a, a, Seq::<RuleId>::empty()));
}

/// `a` and `b` reach each other by recorded rewrites.
pub open spec fn mutual(pool: &Pool, a: usize, b: usize) -> bool {
    reaches(pool, a, b) && reaches(pool, b, a)
}

/// The outgoing and the incoming records hold the same rewrites.
pub open spec fn mirrored(pool: &Pool) -> bool {
    &&& consistent(pool)
    &&& forall|a: usize, b: usize, r: RuleId| #[trigger] edge(pool, a, b, r) ==> in_edge(pool, a, b, r)
}

/// Some expression of `x`'s component finished no earlier than `v`.
spec fn covered(pool: &Pool, fin: Seq<usize>, x: usize, v: usize) -> bool {
    exists|i: int, j: int|
        #![trigger fin[i], fin[j]]
        0 <= i <= j < fin.len() && fin[i] == v && mutual(pool, fin[j], x)
}

/// What the first walk knows of its finishing order: whatever a finished
/// expression reaches is covered by its component, unless that component
/// still has an expression on the current path.
spec fn order_ok(pool: &Pool, fin: Seq<usize>, path: Seq<usize>) -> bool {
    forall|x: usize, v: usize|
        #![trigger fin.contains(x), reaches(pool, x, v)]
        fin.contains(x) && reaches(pool, x, v) ==> covered(pool, fin, x, v) || exists|g: usize|
            #![trigger path.contains(g)]
            path.contains(g) && mutual(pool, g, x)
}

/// No rewrite leads from a finished expression to an unvisited one.
spec fn closed_under(pool: &Pool, fin: Seq<usize>, visited: Set<usize>) -> bool {
    forall|a: usize, b: usize, r: RuleId| fin.contains(a) && #[trigger] edge(pool, a, b, r) ==> visited.contains(b)
}

proof fn lemma_mutual_trans(pool: &Pool, a: usize, b: usize, c: usize)
    requires
        mutual(pool, a, b),
        mutual(pool, b, c),
    ensures
        mutual(pool, a, c),
{
    crate::laws::law_reaches_transitive(pool, a, b, c);
    crate::laws::law_reaches_transitive(pool, c, b, a);
}

proof fn lemma_covered_push(pool: &Pool, fin: Seq<usize>, n: usize, x: usize, v: usize)
    requires
        covered(pool, fin, x, v),
    ensures
        covered(pool, fin.push(n), x, v),
{
    let (i, j) = choose|i: int, j: int|
        #![trigger fin[i], fin[j]]
        0 <= i <= j < fin.len() && fin[i] == v && mutual(pool, fin[j], x);
    let f2 = fin.push(n);
    assert(f2[i] == fin[i] && f2[j] == fin[j]);
}

/// Any later node of a walk is reachable from any earlier one.
proof fn lemma_walk_sub(pool: &Pool, nodes: Seq<usize>, rules: Seq<RuleId>, s: int, t: int)
    requires
        is_walk(pool, nodes, rules),
        0 <= s <= t < nodes.len(),
    ensures
        reaches(pool, nodes[s], nodes[t]),
    decreases t - s,
{
    if s == t {
        lemma_reaches_self(pool, nodes[s]);
    } else {
        lemma_walk_sub(pool, nodes, rules, s + 1, t);
        assert(edge(pool, nodes[s], nodes[s + 1], rules[s]));
        lemma_prepend_edge(pool, nodes[s], nodes[s + 1], rules[s], nodes[t]);
    }
}

proof fn lemma_exit_walk(pool: &Pool, fin: Seq<usize>, visited: Set<usize>, nodes: Seq<usize>, rules: Seq<RuleId>, t: int)
    requires
        closed_under(pool, fin, visited),
        is_walk(pool, nodes, rules),
        0 <= t < nodes.len(),
        fin.contains(nodes[t]),
        !fin.contains(nodes.last()),
        reaches(pool, nodes[0], nodes[t]),
    ensures
        exists|g: usize| visited.contains(g) && !fin.contains(g) && reaches(pool, nodes[0], g),
    decreases nodes.len() - t,
{
    assert(t < nodes.len() - 1);
    assert(edge(pool, nodes[t], nodes[t + 1], rules[t]));
    assert(visited.contains(nodes[t + 1]));
    lemma_edge_reaches(pool, nodes[t], nodes[t + 1], rules[t]);
    crate::laws::law_reaches_transitive(pool, nodes[0], nodes[t], nodes[t + 1]);
    if !fin.contains(nodes[t + 1]) {
        assert(visited.contains(nodes[t + 1]) && !fin.contains(nodes[t + 1]) && reaches(pool, nodes[0], nodes[t + 1]));
    } else {
        lemma_exit_walk(pool, fin, visited, nodes, rules, t + 1);
    }
}

/// A walk out of the finished expressions first leaves them for a visited
/// expression.
proof fn lemma_exit(pool: &Pool, fin: Seq<usize>, visited: Set<usize>, x: usize, v: usize)
    requires
        closed_under(pool, fin, visited),
        fin.contains(x),
        reaches(pool, x, v),
        !fin.contains(v),
    ensures
        exists|g: usize| visited.contains(g) && !fin.contains(g) && reaches(pool, x, g),
{
    let rules = choose|rules: Seq<RuleId>| #[trigger] walk_between(pool, x, v, rules);
    let nodes = choose|nodes: Seq<usize>|
        #![trigger is_walk(pool, nodes, rules)]
        is_walk(pool, nodes, rules) && nodes[0] == x && nodes.last() == v;
    lemma_reaches_self(pool, x);
    lemma_exit_walk(pool, fin, visited, nodes, rules, 0);
}

/// Walking back along a walk whose nodes were not visited before, from a
/// newly visited end, stays among the visited ones when every rewrite into
/// a newly visited expression comes from a visited one.
proof fn lemma_back_closed(pool: &Pool, v0: Set<usize>, v1: Set<usize>, nodes: Seq<usize>, rules: Seq<RuleId>, t: int)
    requires
        mirrored(pool),
        is_walk(pool, nodes, rules),
        0 <= t < nodes.len(),
        forall|k: int| 0 <= k < nodes.len() ==> !v0.contains(#[trigger] nodes[k]),
        v1.contains(nodes.last()),
        forall|a: usize, b: usize, r: RuleId|
            v1.contains(b) && !v0.contains(b) && #[trigger] in_edge(pool, a, b, r) ==> v1.contains(a),
    ensures
        v1.contains(nodes[t]),
    decreases nodes.len() - t,
{
    if t < nodes.len() - 1 {
        lemma_back_closed(pool, v0, v1, nodes, rules, t + 1);
        assert(edge(pool, nodes[t], nodes[t + 1], rules[t]));
        assert(in_edge(pool, nodes[t], nodes[t + 1], rules[t]));
        assert(!v0.contains(nodes[t + 1]));
    }
}

/// An expression that reaches a different one has rewrites of its own.
proof fn lemma_reaches_step(pool: &Pool, a: usize, b: usize)
    requires
        reaches(pool, a, b),
        a != b,
    ensures
        pool.outgoing@.contains_key(a),
{
    let rules = choose|rules: Seq<RuleId>| #[trigger] walk_between(pool, a, b, rules);
    let nodes = choose|nodes: Seq<usize>|
        #![trigger is_walk(pool, nodes, rules)]
        is_walk(pool, nodes, rules) && nodes[0] == a && nodes.last() == b;
    assert(rules.len() > 0);
    let i: int = 0;
    assert(edge(pool, nodes[i], nodes[i + 1], rules[i]));
    assert(entries(pool.outgoing@, a).contains((ExprId(nodes[i + 1]), rules[i])));
}

proof fn lemma_order_grow(pool: &Pool, fin: Seq<usize>, path: Seq<usize>, node: usize)
    requires
        order_ok(pool, fin, path),
    ensures
        order_ok(pool, fin, path.push(node)),
{
    assert forall|x: usize, v: usize| fin.contains(x) && reaches(pool, x, v) implies covered(pool, fin, x, v) || exists|g: usize|
        #![trigger path.push(node).contains(g)]
        path.push(node).contains(g) && mutual(pool, g, x) by {
        if !covered(pool, fin, x, v) {
            let g = choose|g: usize| #![trigger path.contains(g)] path.contains(g) && mutual(pool, g, x);
            let k = path.index_of(g);
            assert(path.push(node)[k] == g);
            assert(path.push(node).contains(g));
        }
    }
}

/// Finishing `node`, the last expression on the path, keeps what the walk
/// knows of its finishing order.
proof fn lemma_finish_order(pool: &Pool, fin: Seq<usize>, path: Seq<usize>, node: usize, visited: Set<usize>)
    requires
        order_ok(pool, fin, path.push(node)),
        closed_under(pool, fin.push(node), visited),
        forall|x: usize| #[trigger] visited.contains(x) ==> (fin.push(node).contains(x) || path.contains(x)),
        forall|g: usize| #[trigger] path.contains(g) ==> reaches(pool, g, node),
    ensures
        order_ok(pool, fin.push(node), path),
{
    let f2 = fin.push(node);
    assert(f2[fin.len() as int] == node);
    assert(f2.contains(node));
    lemma_reaches_self(pool, node);
    assert forall|v: usize| reaches(pool, node, v) implies covered(pool, f2, node, v) || exists|g: usize|
        #![trigger path.contains(g)]
        path.contains(g) && mutual(pool, g, node) by {
        if f2.contains(v) {
            let i = f2.index_of(v);
            let j = fin.len() as int;
            assert(f2[i] == v && f2[j] == node);
            assert(mutual(pool, f2[j], node));
        } else {
            lemma_exit(pool, f2, visited, node, v);
            let g = choose|g: usize| visited.contains(g) && !f2.contains(g) && reaches(pool, node, g);
            assert(path.contains(g));
            assert(mutual(pool, g, node));
        }
    }
    assert forall|x: usize, v: usize| f2.contains(x) && reaches(pool, x, v) implies covered(pool, f2, x, v) || exists|g: usize|
        #![trigger path.contains(g)]
        path.contains(g) && mutual(pool, g, x) by {
        if x == node {
            assert(reaches(pool, node, v));
        } else {
            let k = f2.index_of(x);
            assert(k < fin.len());
            assert(fin[k] == x);
            assert(fin.contains(x));
            if covered(pool, fin, x, v) {
                lemma_covered_push(pool, fin, node, x, v);
            } else {
                let g = choose|g: usize| #![trigger path.push(node).contains(g)] path.push(node).contains(g) && mutual(pool, g, x);
                let kg = path.push(node).index_of(g);
                if kg < path.len() {
                    assert(path[kg] == g);
                    assert(path.contains(g));
                } else {
                    assert(g == node);
                    crate::laws::law_reaches_transitive(pool, node, x, v);
                    assert(reaches(pool, node, v));
                    if covered(pool, f2, node, v) {
                        let (i, j) = choose|i: int, j: int|
                            #![trigger f2[i], f2[j]]
                            0 <= i <= j < f2.len() && f2[i] == v && mutual(pool, f2[j], node);
                        lemma_mutual_trans(pool, f2[j], node, x);
                        assert(f2[i] == v && mutual(pool, f2[j], x));
                    } else {
                        let g2 = choose|g2: usize| #![trigger path.contains(g2)] path.contains(g2) && mutual(pool, g2, node);
                        lemma_mutual_trans(pool, g2, node, x);
                        assert(path.contains(g2) && mutual(pool, g2, x));
                    }
                }
            }
        }
    }
}

/// The second walk's new component, found from the last-finished expression
/// not yet placed, holds exactly the expressions that reach it and that it
/// reaches.
proof fn lemma_new_component(
    pool: &Pool,
    full: Seq<usize>,
    m: int,
    v0: Set<usize>,
    v1: Set<usize>,
    comps0: Seq<Vec<ExprId>>,
    c: Seq<ExprId>,
)
    requires
        mirrored(pool),
        full.no_duplicates(),
        order_ok(pool, full, Seq::<usize>::empty()),
        0 <= m < full.len(),
        forall|k: int| m < k < full.len() ==> v0.contains(#[trigger] full[k]),
        !v0.contains(full[m]),
        forall|x: usize|
            #[trigger] v0.contains(x) <==> exists|i: int| 0 <= i < comps0.len() && (#[trigger] comps0[i]@.contains(ExprId(x))),
        forall|i: int, y: usize|
            0 <= i < comps0.len() ==> (#[trigger] comps0[i]@.contains(ExprId(y)) <==> mutual(pool, y, comps0[i]@[0].0)),
        forall|x: ExprId| #[trigger] c.contains(x) <==> (v1.contains(x.0) && !v0.contains(x.0)),
        c.len() > 0,
        c[0] == ExprId(full[m]),
        forall|i: int| 0 <= i < c.len() ==> reaches(pool, (#[trigger] c[i]).0, full[m]),
        forall|a: usize, b: usize, rr: RuleId|
            v1.contains(b) && !v0.contains(b) && #[trigger] in_edge(pool, a, b, rr) ==> v1.contains(a),
        forall|a: usize| #[trigger] pool.outgoing@.contains_key(a) ==> full.contains(a),
    ensures
        forall|y: usize| #[trigger] c.contains(ExprId(y)) <==> mutual(pool, y, full[m]),
{
    let r = full[m];
    assert forall|z: usize| v0.contains(z) implies !mutual(pool, z, r) by {
        if mutual(pool, z, r) {
            let i0 = choose|i: int| 0 <= i < comps0.len() && (#[trigger] comps0[i]@.contains(ExprId(z)));
            assert(mutual(pool, z, comps0[i0]@[0].0));
            lemma_mutual_trans(pool, r, z, comps0[i0]@[0].0);
            assert(comps0[i0]@.contains(ExprId(r)));
            assert(v0.contains(r));
        }
    }
    assert forall|y: usize| #[trigger] c.contains(ExprId(y)) implies mutual(pool, y, r) by {
        let idx = c.index_of(ExprId(y));
        assert(reaches(pool, c[idx].0, r));
        if y != r {
            lemma_reaches_step(pool, y, r);
        } else {
            assert(full[m] == y);
        }
        assert(full.contains(y));
        assert(reaches(pool, y, r));
        assert(!Seq::<usize>::empty().contains(y));
        assert(covered(pool, full, y, r));
        let (i, j) = choose|i: int, j: int|
            #![trigger full[i], full[j]]
            0 <= i <= j < full.len() && full[i] == r && mutual(pool, full[j], y);
        assert(i == m);
        if j > m {
            assert(v0.contains(full[j]));
            let i0 = choose|i: int| 0 <= i < comps0.len() && (#[trigger] comps0[i]@.contains(ExprId(full[j])));
            assert(mutual(pool, full[j], comps0[i0]@[0].0));
            lemma_mutual_trans(pool, y, full[j], comps0[i0]@[0].0);
            assert(comps0[i0]@.contains(ExprId(y)));
            assert(v0.contains(y));
            assert(false);
        }
    }
    assert forall|y: usize| mutual(pool, y, r) implies #[trigger] c.contains(ExprId(y)) by {
        let rules = choose|rules: Seq<RuleId>| #[trigger] walk_between(pool, y, r, rules);
        let nodes = choose|nodes: Seq<usize>|
            #![trigger is_walk(pool, nodes, rules)]
            is_walk(pool, nodes, rules) && nodes[0] == y && nodes.last() == r;
        assert forall|k: int| 0 <= k < nodes.len() implies !v0.contains(#[trigger] nodes[k]) by {
            lemma_walk_sub(pool, nodes, rules, k, nodes.len() - 1);
            lemma_walk_sub(pool, nodes, rules, 0, k);
            crate::laws::law_reaches_transitive(pool, r, y, nodes[k]);
            assert(mutual(pool, nodes[k], r));
        }
        assert(c.contains(c[0]));
        assert(v1.contains(r));
        lemma_back_closed(pool, v0, v1, nodes, rules, 0);
        assert(!v0.contains(y));
    }
}

impl Pool {
    fn dfs_fill_order(
        &self,
        node: usize,
        visited: &mut BTreeSet<usize>,
        stack: &mut Vec<usize>,
        Ghost(u): Ghost<Set<usize>>,
        Ghost(path): Ghost<Seq<usize>>,
    )
        requires
            u == graph_nodes(self),
            u.finite(),
            u.contains(node),
            old(visited)@.subset_of(u),
            !old(visited)@.contains(node),
            forall|g: usize| #[trigger] path.contains(g) ==> reaches(self, g, node),
            forall|x: usize|
                #![trigger old(visited)@.contains(x)]
                #![trigger old(stack)@.contains(x)]
                #![trigger path.contains(x)]
                old(visited)@.contains(x) <==> (old(stack)@.contains(x) || path.contains(x)),
            closed_under(self, old(stack)@, old(visited)@),
            order_ok(self, old(stack)@, path),
        ensures
            forall|x: usize|
                #![trigger final(visited)@.contains(x)]
                #![trigger final(stack)@.contains(x)]
                #![trigger path.contains(x)]
                final(visited)@.contains(x) <==> (final(stack)@.contains(x) || path.contains(x)),
            closed_under(self, final(stack)@, final(visited)@),
            order_ok(self, final(stack)@, path),
            old(visited)@.subset_of(final(visited)@),
            final(visited)@.subset_of(u),
            final(visited)@.contains(node),
            old(stack)@.len() <= final(stack)@.len(),
            final(stack)@.subrange(0, old(stack)@.len() as int) == old(stack)@,
            final(stack)@.subrange(old(stack)@.len() as int, final(stack)@.len() as int).no_duplicates(),
            forall|x: usize|
                #![trigger final(stack)@.subrange(old(stack)@.len() as int, final(stack)@.len() as int).contains(x)]
                final(stack)@.subrange(old(stack)@.len() as int, final(stack)@.len() as int).contains(x) <==> (
                final(visited)@.contains(x) && !old(visited)@.contains(x)),
        decreases u.len() - old(visited)@.len(),
    {
        proof {
            lemma_graph_nodes(self);
        }
        visited.insert(node);
        let ghost s0 = old(stack)@;
        proof {
            lemma_order_grow(self, stack@, path, node);
            broadcast use vstd::seq_lib::lemma_seq_contains_after_push;
            assert forall|x: usize|
                #![trigger visited@.contains(x)]
                #![trigger stack@.contains(x)]
                #![trigger path.push(node).contains(x)]
                visited@.contains(x) <==> (stack@.contains(x) || path.push(node).contains(x)) by {}
        }
        match self.outgoing.get(&node) {
            Some(list) => {
                for k in 0..list.len()
                    invariant
                        forall|g: usize| #[trigger] path.contains(g) ==> reaches(self, g, node),
                        forall|x: usize|
                            #![trigger visited@.contains(x)]
                            #![trigger stack@.contains(x)]
                            #![trigger path.push(node).contains(x)]
                            visited@.contains(x) <==> (stack@.contains(x) || path.push(node).contains(x)),
                        closed_under(self, stack@, visited@),
                        order_ok(self, stack@, path.push(node)),
                        forall|j: int| 0 <= j < k ==> visited@.contains((#[trigger] list@[j]).0.0),
                        u == graph_nodes(self),
                        u.finite(),
                        self.outgoing@.contains_key(node),
                        list@ == self.outgoing@[node]@,
                        old(visited)@.insert(node).subset_of(visited@),
                        !old(visited)@.contains(node),
                        old(visited)@.subset_of(u),
                        visited@.subset_of(u),
                        s0.len() <= stack@.len(),
                        stack@.subrange(0, s0.len() as int) == s0,
                        stack@.subrange(s0.len() as int, stack@.len() as int).no_duplicates(),
                        forall|x: usize|
                            #![trigger stack@.subrange(s0.len() as int, stack@.len() as int).contains(x)]
                            stack@.subrange(s0.len() as int, stack@.len() as int).contains(x) <==> (
                            visited@.contains(x) && !old(visited)@.contains(x) && x != node),
                {
                    let (next, rule) = list[k];
                    proof {
                        assert(entries(self.outgoing@, node)[k as int] == (next, rule));
                        assert(edge(self, node, next.0, rule));
                        lemma_graph_nodes(self);
                    }
                    if !visited.contains(&next.0) {
                        proof {
                            vstd::set_lib::lemma_len_subset(visited@, u);
                            vstd::set_lib::lemma_len_subset(old(visited)@, u);
                            vstd::set_lib::lemma_len_subset(old(visited)@.insert(node), visited@);
                            assert(old(visited)@.insert(node).len() == old(visited)@.len() + 1);
                        }
                        let ghost v1 = visited@;
                        let ghost st1 = stack@;
                        proof {
                            broadcast use vstd::seq_lib::lemma_seq_contains_after_push;
                            lemma_edge_reaches(self, node, next.0, rule);
                            assert forall|g: usize| #[trigger] path.push(node).contains(g) implies reaches(self, g, next.0) by {
                                if g != node {
                                    crate::laws::law_reaches_transitive(self, g, node, next.0);
                                }
                            }
                        }
                        self.dfs_fill_order(next.0, visited, stack, Ghost(u), Ghost(path.push(node)));
                        proof {
                            let mid = stack@.subrange(st1.len() as int, stack@.len() as int);
                            let prev = st1.subrange(s0.len() as int, st1.len() as int);
                            let all = stack@.subrange(s0.len() as int, stack@.len() as int);
                            assert(all =~= prev + mid);
                            assert forall|x: usize| #[trigger] all.contains(x) <==> (visited@.contains(x) && !old(visited)@.contains(
                                x,
                            ) && x != node) by {
                                if all.contains(x) {
                                    let w = all.index_of(x);
                                    if w < prev.len() {
                                        assert(prev[w] == x);
                                        assert(prev.contains(x));
                                    } else {
                                        assert(mid[w - prev.len()] == x);
                                        assert(mid.contains(x));
                                    }
                                }
                                if visited@.contains(x) && !old(visited)@.contains(x) && x != node {
                                    if v1.contains(x) {
                                        assert(prev.contains(x));
                                        let w = prev.index_of(x);
                                        assert(all[w] == x);
                                    } else {
                                        assert(mid.contains(x));
                                        let w = mid.index_of(x);
                                        assert(all[prev.len() + w] == x);
                                    }
                                }
                            }
                            assert forall|i: int, j: int| 0 <= i < all.len() && 0 <= j < all.len() && i != j implies all[i]
                                != all[j] by {
                                if i < prev.len() && j >= prev.len() {
                                    assert(prev.contains(all[i]));
                                    assert(mid.contains(all[j]));
                                } else if j < prev.len() && i >= prev.len() {
                                    assert(prev.contains(all[j]));
                                    assert(mid.contains(all[i]));
                                } else if i < prev.len() {
                                    assert(prev[i] != prev[j]);
                                } else {
                                    assert(mid[i - prev.len()] != mid[j - prev.len()]);
                                }
                            }
                            assert(stack@.subrange(0, s0.len() as int) =~= st1.subrange(0, s0.len() as int));
                        }
                    }
                }
                proof {
                    assert forall|b: usize, r: RuleId| #[trigger] edge(self, node, b, r) implies visited@.contains(b) by {
                        let j = entries(self.outgoing@, node).index_of((ExprId(b), r));
                        assert(list@[j] == (ExprId(b), r));
                    }
                }
            },
            None => {
                proof {
                    assert forall|b: usize, r: RuleId| #[trigger] edge(self, node, b, r) implies visited@.contains(b) by {
                        assert(entries(self.outgoing@, node) == Seq::<(ExprId, RuleId)>::empty());
                    }
                }
            },
        }
        let ghost st2 = stack@;
        stack.push(node);
        proof {
            broadcast use vstd::seq_lib::lemma_seq_contains_after_push;
            assert forall|x: usize|
                #![trigger visited@.contains(x)]
                #![trigger stack@.contains(x)]
                #![trigger path.contains(x)]
                visited@.contains(x) <==> (stack@.contains(x) || path.contains(x)) by {
                assert(st2.push(node).contains(x) <==> (st2.contains(x) || x == node));
                assert(path.push(node).contains(x) <==> (path.contains(x) || x == node));
            }
            assert forall|a: usize, b: usize, r: RuleId| stack@.contains(a) && #[trigger] edge(self, a, b, r) implies visited@.contains(b) by {
                if a != node {
                    assert(st2.contains(a));
                }
            }
            lemma_finish_order(self, st2, path, node, visited@);
        }
        proof {
            let prev = st2.subrange(s0.len() as int, st2.len() as int);
            let all = stack@.subrange(s0.len() as int, stack@.len() as int);
            assert(all =~= prev.push(node));
            assert(stack@.subrange(0, s0.len() as int) =~= st2.subrange(0, s0.len() as int));
            assert forall|x: usize| #[trigger] all.contains(x) <==> (visited@.contains(x) && !old(visited)@.contains(x)) by {
                if all.contains(x) && x != node {
                    let w = all.index_of(x);
                    assert(prev[w] == x);
                    assert(prev.contains(x));
                }
                if visited@.contains(x) && !old(visited)@.contains(x) {
                    if x == node {
                        assert(all[prev.len() as int] == x);
                    } else {
                        assert(prev.contains(x));
                        let w = prev.index_of(x);
                        assert(all[w] == x);
                    }
                }
            }
            assert forall|i: int, j: int| 0 <= i < all.len() && 0 <= j < all.len() && i != j implies all[i] != all[j] by {
                if i < prev.len() && j < prev.len() {
                    assert(prev[i] != prev[j]);
                } else if i < prev.len() {
                    assert(prev.contains(all[i]));
                } else if j < prev.len() {
                    assert(prev.contains(all[j]));
                }
            }
        }
    }

    fn dfs_transpose(
        &self,
        node: usize,
        visited: &mut BTreeSet<usize>,
        component: &mut Vec<ExprId>,
        Ghost(u): Ghost<Set<usize>>,
        Ghost(root): Ghost<usize>,
    )
        requires
            u == graph_nodes(self),
            u.finite(),
            u.contains(node),
            old(visited)@.subset_of(u),
            !old(visited)@.contains(node),
            consistent(self) ==> reaches(self, node, root),
        ensures
            old(visited)@.subset_of(final(visited)@),
            final(visited)@.subset_of(u),
            final(visited)@.contains(node),
            old(component)@.len() < final(component)@.len(),
            final(component)@.subrange(0, old(component)@.len() as int) == old(component)@,
            final(component)@[old(component)@.len() as int] == ExprId(node),
            final(component)@.subrange(old(component)@.len() as int, final(component)@.len() as int).no_duplicates(),
            forall|x: ExprId|
                #![trigger final(component)@.subrange(old(component)@.len() as int, final(component)@.len() as int).contains(x)]
                final(component)@.subrange(old(component)@.len() as int, final(component)@.len() as int).contains(x) <==> (
                final(visited)@.contains(x.0) && !old(visited)@.contains(x.0)),
            consistent(self) ==> forall|i: int|
                old(component)@.len() <= i < final(component)@.len() ==> reaches(
                    self,
                    (#[trigger] final(component)@[i]).0,
                    root,
                ),
            forall|a: usize, b: usize, rr: RuleId|
                final(visited)@.contains(b) && !old(visited)@.contains(b) && #[trigger] in_edge(self, a, b, rr)
                    ==> final(visited)@.contains(a),
        decreases u.len() - old(visited)@.len(),
    {
        proof {
            lemma_graph_nodes(self);
        }
        visited.insert(node);
        let ghost c0 = old(component)@;
        component.push(ExprId(node));
        proof {
            let sub = component@.subrange(c0.len() as int, component@.len() as int);
            assert(sub =~= seq![ExprId(node)]);
            assert(component@.subrange(0, c0.len() as int) =~= c0);
            assert forall|x: ExprId| #[trigger] sub.contains(x) <==> (visited@.contains(x.0) && !old(visited)@.contains(x.0)) by {
                if x.0 == node {
                    assert(sub[0] == x);
                }
            }
            if consistent(self) {
                assert forall|i: int| c0.len() <= i < component@.len() implies reaches(self, (#[trigger] component@[i]).0, root) by {
                    assert(component@[i] == ExprId(node));
                }
            }
        }
        match self.incoming.get(&node) {
            Some(list) => {
                for k in 0..list.len()
                    invariant
                        u == graph_nodes(self),
                        u.finite(),
                        self.incoming@.contains_key(node),
                        list@ == self.incoming@[node]@,
                        old(visited)@.insert(node).subset_of(visited@),
                        !old(visited)@.contains(node),
                        old(visited)@.subset_of(u),
                        visited@.subset_of(u),
                        consistent(self) ==> reaches(self, node, root),
                        c0.len() < component@.len(),
                        component@.subrange(0, c0.len() as int) == c0,
                        component@[c0.len() as int] == ExprId(node),
                        component@.subrange(c0.len() as int, component@.len() as int).no_duplicates(),
                        forall|x: ExprId|
                            #![trigger component@.subrange(c0.len() as int, component@.len() as int).contains(x)]
                            component@.subrange(c0.len() as int, component@.len() as int).contains(x) <==> (
                            visited@.contains(x.0) && !old(visited)@.contains(x.0)),
                        consistent(self) ==> forall|i: int|
                            c0.len() <= i < component@.len() ==> reaches(self, (#[trigger] component@[i]).0, root),
                        forall|j: int| 0 <= j < k ==> visited@.contains((#[trigger] list@[j]).0.0),
                        forall|a: usize, b: usize, rr: RuleId|
                            visited@.contains(b) && !old(visited)@.contains(b) && b != node && #[trigger] in_edge(self, a, b, rr)
                                ==> visited@.contains(a),
                {
                    let (prev, rule) = list[k];
                    proof {
                        assert(entries(self.incoming@, node)[k as int] == (prev, rule));
                        assert(in_edge(self, prev.0, node, rule));
                        lemma_graph_nodes(self);
                        if consistent(self) {
                            lemma_prepend_edge(self, prev.0, node, rule, root);
                        }
                    }
                    if !visited.contains(&prev.0) {
                        proof {
                            vstd::set_lib::lemma_len_subset(visited@, u);
                            vstd::set_lib::lemma_len_subset(old(visited)@, u);
                            vstd::set_lib::lemma_len_subset(old(visited)@.insert(node), visited@);
                            assert(old(visited)@.insert(node).len() == old(visited)@.len() + 1);
                        }
                        let ghost v1 = visited@;
                        let ghost cm = component@;
                        self.dfs_transpose(prev.0, visited, component, Ghost(u), Ghost(root));
                        proof {
                            assert forall|a: usize, b: usize, rr: RuleId|
                                visited@.contains(b) && !old(visited)@.contains(b) && b != node && #[trigger] in_edge(self, a, b, rr)
                                    implies visited@.contains(a) by {
                                if v1.contains(b) {
                                    assert(v1.contains(a));
                                }
                            }
                        }
                        proof {
                            let mid = component@.subrange(cm.len() as int, component@.len() as int);
                            let before = cm.subrange(c0.len() as int, cm.len() as int);
                            let all = component@.subrange(c0.len() as int, component@.len() as int);
                            assert(all =~= before + mid);
                            assert(component@.subrange(0, c0.len() as int) =~= cm.subrange(0, c0.len() as int));
                            assert(component@[c0.len() as int] == cm[c0.len() as int]);
                            assert forall|x: ExprId| #[trigger] all.contains(x) <==> (visited@.contains(x.0) && !old(
                                visited,
                            )@.contains(x.0)) by {
                                if all.contains(x) {
                                    let w = all.index_of(x);
                                    if w < before.len() {
                                        assert(before[w] == x);
                                        assert(before.contains(x));
                                    } else {
                                        assert(mid[w - before.len()] == x);
                                        assert(mid.contains(x));
                                    }
                                }
                                if visited@.contains(x.0) && !old(visited)@.contains(x.0) {
                                    if v1.contains(x.0) {
                                        assert(before.contains(x));
                                        let w = before.index_of(x);
                                        assert(all[w] == x);
                                    } else {
                                        assert(mid.contains(x));
                                        let w = mid.index_of(x);
                                        assert(all[before.len() + w] == x);
                                    }
                                }
                            }
                            assert forall|i: int, j: int| 0 <= i < all.len() && 0 <= j < all.len() && i != j implies all[i]
                                != all[j] by {
                                if i < before.len() && j >= before.len() {
                                    assert(before.contains(all[i]));
                                    assert(mid.contains(all[j]));
                                } else if j < before.len() && i >= before.len() {
                                    assert(before.contains(all[j]));
                                    assert(mid.contains(all[i]));
                                } else if i < before.len() {
                                    assert(before[i] != before[j]);
                                } else {
                                    assert(mid[i - before.len()] != mid[j - before.len()]);
                                }
                            }
                            if consistent(self) {
                                assert forall|i: int| c0.len() <= i < component@.len() implies reaches(
                                    self,
                                    (#[trigger] component@[i]).0,
                                    root,
                                ) by {
                                    if i < cm.len() {
                                        assert(component@[i] == cm[i]);
                                    }
                                }
                            }
                        }
                    }
                }
                proof {
                    assert forall|a: usize, b: usize, rr: RuleId|
                        visited@.contains(b) && !old(visited)@.contains(b) && #[trigger] in_edge(self, a, b, rr)
                            implies visited@.contains(a) by {
                        if b == node {
                            let j = entries(self.incoming@, node).index_of((ExprId(a), rr));
                            assert(list@[j] == (ExprId(a), rr));
                        }
                    }
                }
            },
            None => {
                proof {
                    assert forall|a: usize, b: usize, rr: RuleId|
                        visited@.contains(b) && !old(visited)@.contains(b) && #[trigger] in_edge(self, a, b, rr)
                            implies visited@.contains(a) by {
                        if b == node {
                            assert(entries(self.incoming@, node) == Seq::<(ExprId, RuleId)>::empty());
                        }
                    }
                }
            },
        }
    }
}

} // verus!
