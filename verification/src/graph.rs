use vstd::prelude::*;

use crate::children::nodes_ok;
use crate::equality::spec_expr_eq;
use crate::idx::{EquivalenceGroupId, ExprId, RuleId};
use crate::pool::Pool;
use std::collections::{BTreeMap, BTreeSet};

verus! {

broadcast use {vstd::std_specs::btree::group_btree_axioms, vstd::laws_cmp::group_laws_cmp};

/// The list stored under `k`, or nothing.
pub open spec fn entries<T>(m: Map<usize, Vec<T>>, k: usize) -> Seq<T> {
    if m.contains_key(k) {
        m[k]@
    } else {
        Seq::empty()
    }
}

/// `m` with `v` appended to the list under `k`: the key is present after,
/// its list grew by `v`, and every other key keeps its list.
pub open spec fn pushed<T>(old_m: Map<usize, Vec<T>>, new_m: Map<usize, Vec<T>>, k: usize, v: T) -> bool {
    &&& new_m.dom() == old_m.dom().insert(k)
    &&& new_m[k]@ == entries(old_m, k).push(v)
    &&& forall|j: usize| j != k && #[trigger] old_m.contains_key(j) ==> new_m[j] == old_m[j]
}

/// `m` with `v` appended to the list under `k` unless the list holds it.
pub open spec fn pushed_once<T>(old_m: Map<usize, Vec<T>>, new_m: Map<usize, Vec<T>>, k: usize, v: T) -> bool {
    if entries(old_m, k).contains(v) {
        &&& new_m.dom() == old_m.dom().insert(k)
        &&& new_m[k]@ == entries(old_m, k)
        &&& forall|j: usize| j != k && #[trigger] old_m.contains_key(j) ==> new_m[j] == old_m[j]
    } else {
        pushed(old_m, new_m, k, v)
    }
}

fn push_entry<T>(m: &mut BTreeMap<usize, Vec<T>>, k: usize, v: T)
    ensures
        pushed(old(m)@, final(m)@, k, v),
{
    let mut list = match m.remove(&k) {
        Some(list) => list,
        None => Vec::new(),
    };
    list.push(v);
    m.insert(k, list);
    assert(m@.dom() =~= old(m)@.dom().insert(k));
}

fn push_group_step_once(
    m: &mut BTreeMap<usize, Vec<(EquivalenceGroupId, RuleId)>>,
    k: usize,
    v: (EquivalenceGroupId, RuleId),
)
    ensures
        pushed_once(old(m)@, final(m)@, k, v),
{
    let mut list = match m.remove(&k) {
        Some(list) => list,
        None => Vec::new(),
    };
    let ghost before = list@;
    let mut found = false;
    for i in 0..list.len()
        invariant
            list@ == before,
            found == (exists|j: int| 0 <= j < i && list@[j] == v),
    {
        if list[i].0 == v.0 && list[i].1 == v.1 {
            found = true;
        }
    }
    if !found {
        list.push(v);
    } else {
        assert(before.contains(v));
    }
    m.insert(k, list);
    assert(m@.dom() =~= old(m)@.dom().insert(k));
}

/// The sets of expressions of the equivalence groups.
pub open spec fn group_sets(pool: &Pool) -> Seq<Set<usize>> {
    pool.equivalence_groups@.map_values(|s: BTreeSet<usize>| s@)
}

/// The expression `k` is grouped, equal to `e`, and its group exists.
pub open spec fn joins(pool: &Pool, e: int, k: int) -> bool {
    &&& 0 <= k
    &&& pool.expr_to_group@.contains_key(k as usize)
    &&& spec_expr_eq(pool.exprs@, e, k)
    &&& pool.expr_to_group@[k as usize].0 < pool.equivalence_groups@.len()
}

/// The first expression from `k` on that `e` joins the group of, or -1.
pub open spec fn first_join(pool: &Pool, e: int, k: int) -> int
    decreases pool.exprs@.len() - k,
{
    if k < 0 || k >= pool.exprs@.len() {
        -1
    } else if joins(pool, e, k) {
        k
    } else {
        first_join(pool, e, k + 1)
    }
}

/// Every grouped expression is a node of the pool.
pub open spec fn groups_keyed_ok(pool: &Pool) -> bool {
    forall|k: usize| #[trigger] pool.expr_to_group@.contains_key(k) ==> k < pool.exprs@.len()
}

/// The rewrite graph of two pools agrees but for the equivalence groups.
pub open spec fn same_edges(a: &Pool, b: &Pool) -> bool {
    &&& a.outgoing@ == b.outgoing@
    &&& a.incoming@ == b.incoming@
    &&& a.by_rule@ == b.by_rule@
    &&& a.equivalence_outgoing@ == b.equivalence_outgoing@
    &&& a.equivalence_incoming@ == b.equivalence_incoming@
    &&& a.blacklisted_chains@ == b.blacklisted_chains@
    &&& a.max_chain_length == b.max_chain_length
    &&& a.current_application_chains@ == b.current_application_chains@
}

/// Everything of two pools but the rewrite graph agrees.
pub open spec fn same_but_graph(a: &Pool, b: &Pool) -> bool {
    &&& a.exprs@ == b.exprs@
    &&& a.expr_ends@ == b.expr_ends@
    &&& a.locations@ == b.locations@
    &&& a.names@ == b.names@
    &&& a.functions@ == b.functions@
    &&& a.patterns@ == b.patterns@
    &&& a.actions@ == b.actions@
    &&& a.rules@ == b.rules@
    &&& a.rulesets@ == b.rulesets@
    &&& a.rule_locations@ == b.rule_locations@
    &&& a.action_locations@ == b.action_locations@
}

/// The groups follow structural equality: every grouped expression has a
/// group that exists and lists it, and two different grouped expressions
/// share a group exactly when they are equal.
pub open spec fn groups_agree(pool: &Pool) -> bool {
    &&& forall|k: usize|
        #[trigger] pool.expr_to_group@.contains_key(k) ==> {
            &&& pool.expr_to_group@[k].0 < pool.equivalence_groups@.len()
            &&& group_sets(pool)[pool.expr_to_group@[k].0 as int].contains(k)
        }
    &&& forall|a: usize, b: usize|
        #![trigger pool.expr_to_group@.contains_key(a), pool.expr_to_group@.contains_key(b)]
        pool.expr_to_group@.contains_key(a) && pool.expr_to_group@.contains_key(b) && a != b ==> (
        pool.expr_to_group@[a] == pool.expr_to_group@[b] <==> spec_expr_eq(pool.exprs@, a as int, b as int))
}

/// Each group's set holds exactly the expressions keyed to that group, so
/// the groups are disjoint and each grouped expression lies in one of them.
pub open spec fn groups_exact(pool: &Pool) -> bool {
    forall|g: int, k: usize|
        #![trigger group_sets(pool)[g].contains(k)]
        0 <= g < group_sets(pool).len() ==> (group_sets(pool)[g].contains(k) <==> (pool.expr_to_group@.contains_key(k)
            && pool.expr_to_group@[k].0 == g))
}

/// The groups after `e` is placed: into the group of the first grouped
/// expression equal to it, or into a new group of its own.
pub open spec fn grouped(old_p: &Pool, new_p: &Pool, e: usize) -> bool {
    let j = first_join(old_p, e as int, 0);
    &&& same_but_graph(old_p, new_p)
    &&& same_edges(old_p, new_p)
    &&& if j >= 0 {
        let g = old_p.expr_to_group@[j as usize];
        &&& group_sets(new_p) == group_sets(old_p).update(g.0 as int, group_sets(old_p)[g.0 as int].insert(e))
        &&& new_p.expr_to_group@ == old_p.expr_to_group@.insert(e, g)
    } else {
        &&& group_sets(new_p) == group_sets(old_p).push(Set::empty().insert(e))
        &&& new_p.expr_to_group@ == old_p.expr_to_group@.insert(
            e,
            EquivalenceGroupId(old_p.equivalence_groups@.len() as usize),
        )
    }
}

impl Pool {
    /// Places `new_expr` into the group of the first grouped expression equal
    /// to it, or into a new group of its own.
    pub fn update_equivalence_groups(&mut self, new_expr: ExprId)
        requires
            nodes_ok(old(self).exprs@),
            new_expr.0 < old(self).exprs@.len(),
            groups_keyed_ok(old(self)),
        ensures
            grouped(old(self), final(self), new_expr.0),
            groups_keyed_ok(final(self)),
    {
        let n = self.exprs.len();
        let mut k: usize = 0;
        let ghost e = new_expr.0 as int;
        while k < n
            invariant
                n == self.exprs@.len(),
                k <= n,
                nodes_ok(self.exprs@),
                e == new_expr.0,
                new_expr.0 < n,
                self == old(self),
                groups_keyed_ok(self),
                first_join(self, e, 0) == first_join(self, e, k as int),
            decreases n - k,
        {
            let found: Option<EquivalenceGroupId> = match self.expr_to_group.get(&k) {
                Some(g) => Some(*g),
                None => None,
            };
            if let Some(group_id) = found {
                if self.expr_eq(new_expr, ExprId(k)) && group_id.0 < self.equivalence_groups.len() {
                    let mut group = self.equivalence_groups[group_id.0].clone();
                    group.insert(new_expr.0);
                    self.equivalence_groups.set(group_id.0, group);
                    self.expr_to_group.insert(new_expr.0, group_id);
                    assert(group_sets(self) =~= group_sets(old(self)).update(
                        group_id.0 as int,
                        group_sets(old(self))[group_id.0 as int].insert(new_expr.0),
                    ));
                    return;
                }
            }
            k = k + 1;
        }
        let group_id = EquivalenceGroupId::new(self.equivalence_groups.len());
        let mut new_group = BTreeSet::new();
        new_group.insert(new_expr.0);
        self.equivalence_groups.push(new_group);
        self.expr_to_group.insert(new_expr.0, group_id);
        assert(group_sets(self) =~= group_sets(old(self)).push(Set::empty().insert(new_expr.0)));
    }

    /// The group of an expression, if it has one.
    pub fn get_equivalence_group(&self, expr_id: ExprId) -> (r: Option<EquivalenceGroupId>)
        ensures
            r == (if self.expr_to_group@.contains_key(expr_id.0) {
                Some(self.expr_to_group@[expr_id.0])
            } else {
                None
            }),
    {
        match self.expr_to_group.get(&expr_id.0) {
            Some(g) => Some(*g),
            None => None,
        }
    }

    /// The expressions of a group, if it exists.
    pub fn get_group_expressions(&self, group_id: EquivalenceGroupId) -> (r: Option<&BTreeSet<usize>>)
        ensures
            group_id.0 < self.equivalence_groups@.len() ==> r == Some(&self.equivalence_groups@[group_id.0 as int]),
            group_id.0 >= self.equivalence_groups@.len() ==> r is None,
    {
        if group_id.0 < self.equivalence_groups.len() {
            Some(&self.equivalence_groups[group_id.0])
        } else {
            None
        }
    }

    /// Every equivalence group.
    pub fn get_all_equivalence_groups(&self) -> (r: &Vec<BTreeSet<usize>>)
        ensures
            r == &self.equivalence_groups,
    {
        &self.equivalence_groups
    }

    /// The rewrites recorded from `expr`.
    pub fn get_outgoing_transformations(&self, expr: ExprId) -> (r: Option<&Vec<(ExprId, RuleId)>>)
        ensures
            match r {
                Some(v) => self.outgoing@.contains_key(expr.0) && *v == self.outgoing@[expr.0],
                None => !self.outgoing@.contains_key(expr.0),
            },
    {
        self.outgoing.get(&expr.0)
    }

    /// The rewrites recorded into `expr`.
    pub fn get_incoming_transformations(&self, expr: ExprId) -> (r: Option<&Vec<(ExprId, RuleId)>>)
        ensures
            match r {
                Some(v) => self.incoming@.contains_key(expr.0) && *v == self.incoming@[expr.0],
                None => !self.incoming@.contains_key(expr.0),
            },
    {
        self.incoming.get(&expr.0)
    }

    /// The rewrites recorded for a rule, as pairs of source and result.
    pub fn get_rule_applications(&self, rule: RuleId) -> (r: Option<&Vec<(ExprId, ExprId)>>)
        ensures
            match r {
                Some(v) => self.by_rule@.contains_key(rule.0) && *v == self.by_rule@[rule.0],
                None => !self.by_rule@.contains_key(rule.0),
            },
    {
        self.by_rule.get(&rule.0)
    }
}

/// The graph after the rewrite `from -> to` by `rule` is recorded: both ends
/// grouped, the edge listed from its source, into its target and under its
/// rule, and the step between their groups listed once each way.
pub open spec fn transformation_added(
    old_p: &Pool,
    mid1: &Pool,
    mid2: &Pool,
    new_p: &Pool,
    from: ExprId,
    to: ExprId,
    rule: RuleId,
) -> bool {
    let fg = mid2.expr_to_group@[from.0];
    let tg = mid2.expr_to_group@[to.0];
    &&& grouped(old_p, mid1, from.0)
    &&& grouped(mid1, mid2, to.0)
    &&& same_but_graph(mid2, new_p)
    &&& new_p.equivalence_groups@ == mid2.equivalence_groups@
    &&& new_p.expr_to_group@ == mid2.expr_to_group@
    &&& pushed(mid2.outgoing@, new_p.outgoing@, from.0, (to, rule))
    &&& pushed(mid2.incoming@, new_p.incoming@, to.0, (from, rule))
    &&& pushed(mid2.by_rule@, new_p.by_rule@, rule.0, (from, to))
    &&& pushed_once(mid2.equivalence_outgoing@, new_p.equivalence_outgoing@, fg.0, (tg, rule))
    &&& pushed_once(mid2.equivalence_incoming@, new_p.equivalence_incoming@, tg.0, (fg, rule))
    &&& new_p.blacklisted_chains@ == mid2.blacklisted_chains@
    &&& new_p.max_chain_length == mid2.max_chain_length
    &&& new_p.current_application_chains@ == mid2.current_application_chains@
}

impl Pool {
    /// Records the rewrite of `from` into `to` by `rule`.
    pub fn add_transformation(&mut self, from: ExprId, to: ExprId, rule: RuleId)
        requires
            nodes_ok(old(self).exprs@),
            from.0 < old(self).exprs@.len(),
            to.0 < old(self).exprs@.len(),
            groups_keyed_ok(old(self)),
        ensures
            exists|mid1: Pool, mid2: Pool|
                transformation_added(old(self), &mid1, &mid2, final(self), from, to, rule),
            final(self).expr_to_group@.contains_key(from.0),
            final(self).expr_to_group@.contains_key(to.0),
            groups_keyed_ok(final(self)),
            same_but_graph(old(self), final(self)),
    {
        self.update_equivalence_groups(from);
        let ghost mid1 = *self;
        self.update_equivalence_groups(to);
        let ghost mid2 = *self;
        let from_group = self.get_equivalence_group(from).unwrap();
        let to_group = self.get_equivalence_group(to).unwrap();
        push_entry(&mut self.outgoing, from.0, (to, rule));
        push_entry(&mut self.incoming, to.0, (from, rule));
        push_entry(&mut self.by_rule, rule.0, (from, to));
        push_group_step_once(&mut self.equivalence_outgoing, from_group.0, (to_group, rule));
        push_group_step_once(&mut self.equivalence_incoming, to_group.0, (from_group, rule));
        assert(transformation_added(old(self), &mid1, &mid2, self, from, to, rule));
    }
}

} // verus!
