use vstd::prelude::*;

use crate::ast::ExprNode;
use crate::captures::CapturedValue;
use crate::children::{node_ok, nodes_ok, NodeInfo};
use crate::graph::groups_keyed_ok;
use crate::idx::ExprId;
use crate::pool::{Pool, Provenance};
use crate::rules::{applied_nodes, apply_ok, arenas_ok, build_ok, captures_ok, rule_patterns_ok, Match};

verus! {

broadcast use {vstd::std_specs::btree::group_btree_axioms, vstd::laws_cmp::group_laws_cmp};

/// Whether every node of an arena can be walked.
pub fn arena_walkable<T: NodeInfo>(nodes: &Vec<T>) -> (r: bool)
    ensures
        r == nodes_ok(nodes@),
{
    for i in 0..nodes.len()
        invariant
            forall|j: int| 0 <= j < i ==> #[trigger] node_ok(nodes@, j),
    {
        let arity = nodes[i].arity();
        if arity > 0 {
            match nodes[i].last() {
                Some(last) => {
                    if i < 1 || last > i {
                        assert(!node_ok(nodes@, i as int));
                        return false;
                    }
                },
                None => {
                    assert(!node_ok(nodes@, i as int));
                    return false;
                },
            }
        }
    }
    true
}

/// Whether every node appended after `base` can be walked in the arena
/// `base` followed by `extra`.
fn appended_walkable(base: &Vec<ExprNode>, extra: &Vec<(ExprNode, Provenance)>) -> (r: bool)
    requires
        nodes_ok(base@),
    ensures
        r == nodes_ok(base@ + extra@.map_values(|p: (ExprNode, Provenance)| p.0)),
{
    let ghost all = base@ + extra@.map_values(|p: (ExprNode, Provenance)| p.0);
    let n = base.len();
    proof {
        assert forall|j: int| 0 <= j < n implies #[trigger] node_ok(all, j) by {
            assert(node_ok(base@, j));
            assert(all[j] == base@[j]);
        }
    }
    for k in 0..extra.len()
        invariant
            n == base@.len(),
            all == base@ + extra@.map_values(|p: (ExprNode, Provenance)| p.0),
            nodes_ok(base@),
            forall|j: int| 0 <= j < n + k ==> #[trigger] node_ok(all, j),
    {
        let node = extra[k].0;
        assert(all[n + k] == node);
        if node.arity() > 0 {
            match node.last() {
                Some(last) => {
                    let fits = if last >= k {
                        last - k <= n
                    } else {
                        true
                    };
                    if (n == 0 && k == 0) || !fits {
                        assert(!node_ok(all, n + k));
                        return false;
                    }
                },
                None => {
                    assert(!node_ok(all, n + k));
                    return false;
                },
            }
        }
    }
    proof {
        assert forall|j: int| 0 <= j < all.len() implies #[trigger] node_ok(all, j) by {
            if j < n {
                assert(node_ok(base@, j));
                assert(all[j] == base@[j]);
            }
        }
    }
    true
}

impl Pool {
    /// Whether the arenas can be walked and every rule's pattern exists:
    /// what `find_matches` needs.
    pub fn matching_ready(&self) -> (r: bool)
        ensures
            r == (arenas_ok(self) && rule_patterns_ok(self)),
    {
        if !arena_walkable(&self.patterns) || !arena_walkable(&self.exprs) {
            return false;
        }
        for i in 0..self.rules.len()
            invariant
                forall|j: int| 0 <= j < i ==> (#[trigger] self.rules@[j]).pattern.0 < self.patterns@.len(),
        {
            if self.rules[i].pattern.0 >= self.patterns.len() {
                return false;
            }
        }
        true
    }

    /// Whether every grouped expression is a node of the pool.
    pub fn groups_in_range(&self) -> (r: bool)
        ensures
            r == groups_keyed_ok(self),
    {
        let n = self.exprs.len();
        let ghost ks = vstd::std_specs::iter::IteratorSpec::remaining(
            &vstd::std_specs::btree::spec_keys_iter(&self.expr_to_group),
        );
        for k in it: self.expr_to_group.keys()
            invariant
                n == self.exprs@.len(),
                it.seq() == ks,
                forall|j: int| 0 <= j < it.index() ==> *ks[j] < n,
        {
            if *k >= n {
                proof {
                    assert(ks.unref().to_set().contains(*k)) by {
                        assert(ks.unref()[it.index() as int] == *k);
                    }
                }
                return false;
            }
        }
        proof {
            assert forall|k: usize| #[trigger] self.expr_to_group@.contains_key(k) implies k < n by {
                assert(ks.unref().to_set().contains(k));
                let j = ks.unref().index_of(k);
                assert(*ks[j] == k);
            }
        }
        true
    }

    /// Whether the bindings hold only nodes of the pool.
    fn bindings_in_range(&self, m: &Match) -> (r: bool)
        ensures
            r == captures_ok(self, m.captures@),
    {
        let entries = m.captures.iter();
        for i in 0..entries.len()
            invariant
                entries@ == m.captures@,
                forall|j: int|
                    0 <= j < i ==> ((#[trigger] entries@[j]).1 matches CapturedValue::Expression(e) ==> e.0
                        < self.exprs@.len()),
        {
            match entries[i].1 {
                CapturedValue::Expression(e) => {
                    if e.0 >= self.exprs.len() {
                        return false;
                    }
                },
                _ => {},
            }
        }
        true
    }

    /// Whether `apply_rule` can be given the match: the rule, its action
    /// and the matched nodes exist, the matched node lies at or before the
    /// root, the arenas stay walkable with the rewrite's nodes added, and
    /// every grouped expression is a node.
    pub fn can_apply(&self, m: &Match) -> (r: bool)
        ensures
            r == apply_ok(self, m@),
    {
        if m.rule_id.0 >= self.rules.len() {
            return false;
        }
        let action = self.rules[m.rule_id.0].action;
        if action.0 >= self.actions.len() {
            return false;
        }
        if !arena_walkable(&self.actions) || !arena_walkable(&self.exprs) || !self.bindings_in_range(m) {
            return false;
        }
        if m.root.0 >= self.exprs.len() || m.offset.0 > m.root.0 {
            return false;
        }
        if !self.groups_in_range() {
            return false;
        }
        let mut replacement: Vec<(ExprNode, Provenance)> = Vec::new();
        self.build_action_simple(action, &m.captures, &mut replacement);
        let new_nodes = if m.root.0 == m.offset.0 {
            replacement
        } else {
            self.splice_into_root(m.root, m.offset, &replacement)
        };
        assert(new_nodes@ == applied_nodes(self, m@));
        appended_walkable(&self.exprs, &new_nodes)
    }

    /// Applies the match when `can_apply` allows it; `None` otherwise.
    pub fn try_apply_rule(&mut self, m: &Match) -> (r: Option<ExprId>)
        ensures
            !apply_ok(old(self), m@) ==> r is None && *final(self) == *old(self),
            apply_ok(old(self), m@) ==> {
                &&& r == (if crate::rules::replacement(old(self), m@).len() == 0 {
                    None
                } else {
                    Some(ExprId((old(self).exprs@.len() + applied_nodes(old(self), m@).len() - 1) as usize))
                })
                &&& final(self).exprs@ == old(self).exprs@ + (if crate::rules::replacement(old(self), m@).len() == 0 {
                    Seq::empty()
                } else {
                    applied_nodes(old(self), m@).map_values(|p: (ExprNode, Provenance)| p.0)
                })
            },
    {
        if self.can_apply(m) {
            self.apply_rule(m)
        } else {
            None
        }
    }
}

} // verus!
