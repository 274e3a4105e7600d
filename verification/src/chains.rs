use vstd::prelude::*;

use crate::graph::{entries, same_but_graph};
use crate::idx::{EquivalenceGroupId, RuleId};
use crate::pool::Pool;
use std::collections::{BTreeMap, BTreeSet};

verus! {

broadcast use {vstd::std_specs::btree::group_btree_axioms, vstd::laws_cmp::group_laws_cmp};

/// A step of a rule application chain: the group rewritten and the rule.
pub type Step = (EquivalenceGroupId, RuleId);

/// The rule application chains in progress, by group.
pub open spec fn chains(pool: &Pool) -> Map<usize, Seq<Step>> {
    pool.current_application_chains@.map_values(|c: Vec<Step>| c@)
}

/// Everything of two pools but the chains in progress agrees.
pub open spec fn same_but_chains(a: &Pool, b: &Pool) -> bool {
    &&& same_but_graph(a, b)
    &&& a.outgoing@ == b.outgoing@
    &&& a.incoming@ == b.incoming@
    &&& a.by_rule@ == b.by_rule@
    &&& a.equivalence_groups@ == b.equivalence_groups@
    &&& a.expr_to_group@ == b.expr_to_group@
    &&& a.equivalence_outgoing@ == b.equivalence_outgoing@
    &&& a.equivalence_incoming@ == b.equivalence_incoming@
    &&& a.blacklisted_chains@ == b.blacklisted_chains@
    &&& a.max_chain_length == b.max_chain_length
}

/// The blacklisted chains, as sequences.
pub open spec fn blacklist(pool: &Pool) -> Seq<Seq<Step>> {
    pool.blacklisted_chains@.map_values(|c: Vec<Step>| c@)
}

/// Whether a chain that reached `chain` may go on from `from` by `rule` to
/// `to`: the chain is shorter than the limit, it has not visited `to`, it
/// has not taken this step already, and neither the extended chain nor any
/// suffix of it is blacklisted.
pub open spec fn step_allowed(pool: &Pool, from: EquivalenceGroupId, rule: RuleId, to: EquivalenceGroupId, chain: Seq<Step>) -> bool {
    let proposed = chain.push((from, rule));
    &&& chain.len() < pool.max_chain_length
    &&& forall|k: int| 0 <= k < chain.len() ==> (#[trigger] chain[k]).0 != to
    &&& !chain.contains((from, rule))
    &&& forall|i: int| 0 <= i < proposed.len() ==> !blacklist(pool).contains(#[trigger] proposed.subrange(i, proposed.len() as int))
}

fn same_step(a: Step, b: Step) -> (r: bool)
    ensures
        r == (a == b),
{
    a.0.0 == b.0.0 && a.1.0 == b.1.0
}

/// Whether `a` equals the part of `b` from `start` on.
fn chain_equals_suffix(a: &Vec<Step>, b: &Vec<Step>, start: usize) -> (r: bool)
    requires
        start <= b@.len(),
    ensures
        r == (a@ == b@.subrange(start as int, b@.len() as int)),
{
    if a.len() != b.len() - start {
        assert(a@.len() != b@.subrange(start as int, b@.len() as int).len());
        return false;
    }
    let n = b.len();
    for i in 0..a.len()
        invariant
            n == b@.len(),
            start <= b@.len(),
            a@.len() == b@.len() - start,
            forall|j: int| 0 <= j < i ==> a@[j] == b@[start + j],
    {
        if !same_step(a[i], b[start + i]) {
            assert(a@[i as int] != b@.subrange(start as int, b@.len() as int)[i as int]);
            return false;
        }
    }
    assert(a@ =~= b@.subrange(start as int, b@.len() as int));
    true
}

impl Pool {
    /// Whether the blacklist holds the part of `chain` from `start` on.
    fn blacklist_holds_suffix(&self, chain: &Vec<Step>, start: usize) -> (r: bool)
        requires
            start <= chain@.len(),
        ensures
            r == blacklist(self).contains(chain@.subrange(start as int, chain@.len() as int)),
    {
        let ghost target = chain@.subrange(start as int, chain@.len() as int);
        for i in 0..self.blacklisted_chains.len()
            invariant
                start <= chain@.len(),
                target == chain@.subrange(start as int, chain@.len() as int),
                forall|j: int| 0 <= j < i ==> blacklist(self)[j] != target,
        {
            if chain_equals_suffix(&self.blacklisted_chains[i], chain, start) {
                assert(blacklist(self)[i as int] == target);
                return true;
            }
        }
        false
    }

    /// Whether a rule application chain that has reached `current_chain`
    /// may take the step from `from_group` by `rule` to `to_group`.
    pub fn should_apply_rule(
        &self,
        from_group: EquivalenceGroupId,
        rule: RuleId,
        to_group: EquivalenceGroupId,
        current_chain: &[Step],
    ) -> (r: bool)
        ensures
            r == step_allowed(self, from_group, rule, to_group, current_chain@),
    {
        if current_chain.len() >= self.max_chain_length {
            return false;
        }
        let proposed_step = (from_group, rule);
        for k in 0..current_chain.len()
            invariant
                forall|j: int| 0 <= j < k ==> (#[trigger] current_chain@[j]).0 != to_group,
        {
            if current_chain[k].0.0 == to_group.0 {
                assert(current_chain@[k as int].0 == to_group);
                return false;
            }
        }
        for k in 0..current_chain.len()
            invariant
                proposed_step == (from_group, rule),
                forall|j: int| 0 <= j < k ==> current_chain@[j] != proposed_step,
        {
            if same_step(current_chain[k], proposed_step) {
                assert(current_chain@.contains(proposed_step));
                return false;
            }
        }
        let mut proposed: Vec<Step> = Vec::new();
        for k in 0..current_chain.len()
            invariant
                proposed@ == current_chain@.take(k as int),
        {
            proposed.push(current_chain[k]);
            assert(current_chain@.take(k + 1) =~= current_chain@.take(k as int).push(current_chain@[k as int]));
        }
        assert(current_chain@.take(current_chain@.len() as int) =~= current_chain@);
        proposed.push(proposed_step);
        for i in 0..proposed.len()
            invariant
                proposed_step == (from_group, rule),
                proposed@ == current_chain@.push(proposed_step),
                forall|j: int| 0 <= j < i ==> !blacklist(self).contains(
                    #[trigger] proposed@.subrange(j, proposed@.len() as int),
                ),
        {
            if self.blacklist_holds_suffix(&proposed, i) {
                let ghost p = current_chain@.push(proposed_step);
                assert(blacklist(self).contains(p.subrange(i as int, p.len() as int)));
                return false;
            }
        }
        true
    }

    /// Begins an empty rule application chain for the group.
    pub fn start_rule_application_chain(&mut self, group_id: EquivalenceGroupId)
        ensures
            chains(final(self)) == chains(old(self)).insert(group_id.0, Seq::empty()),
            same_but_chains(old(self), final(self)),
    {
        self.current_application_chains.insert(group_id.0, Vec::new());
        assert(chains(self) =~= chains(old(self)).insert(group_id.0, Seq::empty()));
    }

    /// Appends a step to the group's chain, if it has one.
    pub fn extend_rule_application_chain(&mut self, group_id: EquivalenceGroupId, step: Step)
        ensures
            chains(final(self)) == if chains(old(self)).contains_key(group_id.0) {
                chains(old(self)).insert(group_id.0, chains(old(self))[group_id.0].push(step))
            } else {
                chains(old(self))
            },
            same_but_chains(old(self), final(self)),
    {
        match self.current_application_chains.remove(&group_id.0) {
            Some(mut chain) => {
                chain.push(step);
                self.current_application_chains.insert(group_id.0, chain);
                assert(chains(self) =~= chains(old(self)).insert(group_id.0, chains(old(self))[group_id.0].push(step)));
            },
            None => {
                assert(chains(self) =~= chains(old(self)));
            },
        }
    }

    /// The group's chain, or an empty one.
    pub fn get_current_chain(&self, group_id: EquivalenceGroupId) -> (r: Vec<Step>)
        ensures
            r@ == if chains(self).contains_key(group_id.0) {
                chains(self)[group_id.0]
            } else {
                Seq::empty()
            },
    {
        let mut out: Vec<Step> = Vec::new();
        match self.current_application_chains.get(&group_id.0) {
            Some(chain) => {
                for i in 0..chain.len()
                    invariant
                        out@ == chain@.take(i as int),
                {
                    out.push(chain[i]);
                    assert(chain@.take(i + 1) =~= chain@.take(i as int).push(chain@[i as int]));
                }
                assert(chain@.take(chain@.len() as int) =~= chain@);
            },
            None => {},
        }
        out
    }

    /// Drops the group's chain.
    pub fn clear_application_chain(&mut self, group_id: EquivalenceGroupId)
        ensures
            chains(final(self)) == chains(old(self)).remove(group_id.0),
            same_but_chains(old(self), final(self)),
    {
        self.current_application_chains.remove(&group_id.0);
        assert(chains(self) =~= chains(old(self)).remove(group_id.0));
    }
}

} // verus!

verus! {

/// The equivalence graph holds the step from group `g` by rule `r` to
/// group `h`.
pub open spec fn eq_edge(pool: &Pool, g: usize, h: usize, r: RuleId) -> bool {
    entries(pool.equivalence_outgoing@, g).contains((EquivalenceGroupId(h), r))
}

/// Each step of `path` leads to the group of the next one.
pub open spec fn step_chain(pool: &Pool, path: Seq<Step>) -> bool {
    forall|i: int| 0 <= i < path.len() - 1 ==> #[trigger] eq_edge(pool, path[i].0.0, path[i + 1].0.0, path[i].1)
}

/// No two steps of `path` leave the same group.
pub open spec fn groups_distinct(path: Seq<Step>) -> bool {
    forall|i: int, j: int| 0 <= i < j < path.len() ==> (#[trigger] path[i]).0 != (#[trigger] path[j]).0
}

/// `c` is a cycle of the equivalence graph through distinct groups: each
/// step leads to the group of the next, and the last back to the first.
pub open spec fn is_step_cycle(pool: &Pool, c: Seq<Step>) -> bool {
    &&& c.len() > 0
    &&& step_chain(pool, c)
    &&& eq_edge(pool, c.last().0.0, c[0].0.0, c.last().1)
    &&& groups_distinct(c)
}

/// The groups the steps leaving the groups of `keys` lead to.
pub open spec fn step_targets(m: Map<usize, Vec<Step>>, keys: Set<usize>) -> Set<usize>
    decreases keys.len(),
{
    if keys.finite() && keys.len() > 0 {
        let a = keys.choose();
        step_targets(m, keys.remove(a)).union(m[a]@.map_values(|e: Step| e.0.0).to_set())
    } else {
        Set::empty()
    }
}

proof fn lemma_step_targets_finite(m: Map<usize, Vec<Step>>, keys: Set<usize>)
    ensures
        step_targets(m, keys).finite(),
    decreases keys.len(),
{
    if keys.finite() && keys.len() > 0 {
        let a = keys.choose();
        lemma_step_targets_finite(m, keys.remove(a));
        vstd::seq_lib::seq_to_set_is_finite(m[a]@.map_values(|e: Step| e.0.0));
    }
}

proof fn lemma_step_target_in(m: Map<usize, Vec<Step>>, keys: Set<usize>, a: usize, k: int)
    requires
        keys.finite(),
        keys.contains(a),
        0 <= k < m[a]@.len(),
    ensures
        step_targets(m, keys).contains(m[a]@[k].0.0),
    decreases keys.len(),
{
    let c = keys.choose();
    let s = m[c]@.map_values(|e: Step| e.0.0);
    if c == a {
        assert(s[k] == m[a]@[k].0.0);
        assert(s.to_set().contains(s[k]));
    } else {
        lemma_step_target_in(m, keys.remove(c), a, k);
    }
}

/// The groups the equivalence graph mentions.
pub open spec fn group_nodes(pool: &Pool) -> Set<usize> {
    step_targets(pool.equivalence_outgoing@, pool.equivalence_outgoing@.dom()).union(pool.equivalence_outgoing@.dom())
}

proof fn lemma_group_nodes(pool: &Pool)
    ensures
        group_nodes(pool).finite(),
        forall|g: usize, h: usize, r: RuleId| #[trigger] eq_edge(pool, g, h, r) ==> group_nodes(pool).contains(h),
        forall|g: usize| #[trigger] pool.equivalence_outgoing@.contains_key(g) ==> group_nodes(pool).contains(g),
{
    let m = pool.equivalence_outgoing@;
    lemma_step_targets_finite(m, m.dom());
    vstd::set_lib::lemma_set_union_finite_iff(step_targets(m, m.dom()), m.dom());
    assert forall|g: usize, h: usize, r: RuleId| #[trigger] eq_edge(pool, g, h, r) implies group_nodes(pool).contains(h) by {
        let k = entries(m, g).index_of((EquivalenceGroupId(h), r));
        lemma_step_target_in(m, m.dom(), g, k);
    }
}

/// Some step of `path` starts at group `x`.
pub open spec fn on_path(path: Seq<Step>, x: usize) -> bool {
    exists|i: int| 0 <= i < path.len() && (#[trigger] path[i]).0.0 == x
}

/// The equivalence graph has no cycle.
pub open spec fn groups_acyclic(pool: &Pool) -> bool {
    forall|c: Seq<Step>| !#[trigger] is_step_cycle(pool, c)
}

/// The recorded rewrites, the equivalence groups and their steps, and the
/// chains being followed are the same in both pools.
pub open spec fn rewrites_kept(a: &Pool, b: &Pool) -> bool {
    &&& a.outgoing@ == b.outgoing@
    &&& a.incoming@ == b.incoming@
    &&& a.by_rule@ == b.by_rule@
    &&& a.equivalence_groups@ == b.equivalence_groups@
    &&& a.expr_to_group@ == b.expr_to_group@
    &&& a.equivalence_outgoing@ == b.equivalence_outgoing@
    &&& a.equivalence_incoming@ == b.equivalence_incoming@
    &&& a.max_chain_length == b.max_chain_length
    &&& a.current_application_chains@ == b.current_application_chains@
}

/// The depth-first walk's record over groups: the visited groups are the
/// finished ones and those the current path steps from; finishing times
/// are below their count; and, while no cycle has been reported, every step
/// out of a finished group leads to one that finished earlier.
pub open spec fn group_finish_ok(pool: &Pool, visited: Set<usize>, path: Seq<Step>, fin: Map<usize, nat>, found: nat) -> bool {
    &&& fin.dom().finite()
    &&& forall|x: usize| #[trigger] fin.dom().contains(x) ==> fin[x] < fin.dom().len()
    &&& forall|x: usize| #[trigger] visited.contains(x) <==> (fin.dom().contains(x) || on_path(path, x))
    &&& forall|x: usize| #[trigger] on_path(path, x) ==> !fin.dom().contains(x)
    &&& found == 0 ==> forall|a: usize, b: usize, r: RuleId|
        #[trigger] eq_edge(pool, a, b, r) && fin.dom().contains(a) ==> fin.dom().contains(b) && fin[b] < fin[a]
}

proof fn lemma_no_step_cycle(pool: &Pool, visited: Set<usize>, fin: Map<usize, nat>, starts: Seq<usize>, c: Seq<Step>)
    requires
        group_finish_ok(pool, visited, Seq::<Step>::empty(), fin, 0),
        forall|k: usize| #[trigger] starts.contains(k) <==> pool.equivalence_outgoing@.contains_key(k),
        forall|k: int| 0 <= k < starts.len() ==> visited.contains(#[trigger] starts[k]),
    ensures
        !is_step_cycle(pool, c),
{
    if !is_step_cycle(pool, c) {
        return;
    }
    assert forall|i: int| 0 <= i < c.len() implies fin.dom().contains((#[trigger] c[i]).0.0) by {
        if i < c.len() - 1 {
            assert(eq_edge(pool, c[i].0.0, c[i + 1].0.0, c[i].1));
        } else {
            assert(eq_edge(pool, c.last().0.0, c[0].0.0, c.last().1));
        }
        assert(pool.equivalence_outgoing@.contains_key(c[i].0.0));
        assert(starts.contains(c[i].0.0));
        let w = starts.index_of(c[i].0.0);
        assert(visited.contains(starts[w]));
        assert(!on_path(Seq::<Step>::empty(), c[i].0.0));
    }
    lemma_step_finish_descends(pool, fin, c, c.len() - 1);
    let last = c.len() - 1;
    assert(eq_edge(pool, c[last].0.0, c[0].0.0, c[last].1));
}

proof fn lemma_step_finish_descends(pool: &Pool, fin: Map<usize, nat>, c: Seq<Step>, i: int)
    requires
        forall|a: usize, b: usize, r: RuleId|
            #[trigger] eq_edge(pool, a, b, r) && fin.dom().contains(a) ==> fin.dom().contains(b) && fin[b] < fin[a],
        forall|k: int| 0 <= k < c.len() ==> fin.dom().contains((#[trigger] c[k]).0.0),
        step_chain(pool, c),
        0 <= i < c.len(),
    ensures
        fin[c[i].0.0] + i <= fin[c[0].0.0],
    decreases i,
{
    if i > 0 {
        lemma_step_finish_descends(pool, fin, c, i - 1);
        let k = i - 1;
        assert(eq_edge(pool, c[k].0.0, c[k + 1].0.0, c[k].1));
        assert(fin.dom().contains(c[k].0.0));
    }
}

/// Every step of `c` leaves the same group.
pub open spec fn within_one_group(c: Seq<Step>) -> bool {
    forall|i: int| 0 <= i < c.len() ==> (#[trigger] c[i]).0 == c[0].0
}

/// Every cycle of the equivalence graph stays within one group: the only
/// cycles are steps from a group back to itself.
pub open spec fn groups_loop_free(pool: &Pool) -> bool {
    forall|c: Seq<Step>| #[trigger] is_step_cycle(pool, c) ==> within_one_group(c)
}

/// No cycle reported so far has more than one step.
pub open spec fn all_short(cycles: Seq<Vec<Step>>) -> bool {
    forall|i: int| 0 <= i < cycles.len() ==> (#[trigger] cycles[i])@.len() <= 1
}

/// Every step between two different groups out of a finished group leads to
/// one that finished earlier.
pub open spec fn distinct_descend(pool: &Pool, fin: Map<usize, nat>) -> bool {
    forall|a: usize, b: usize, r: RuleId|
        #[trigger] eq_edge(pool, a, b, r) && a != b && fin.dom().contains(a) ==> fin.dom().contains(b) && fin[b] < fin[a]
}

proof fn lemma_step_finish_weak(pool: &Pool, fin: Map<usize, nat>, c: Seq<Step>, i: int)
    requires
        distinct_descend(pool, fin),
        forall|k: int| 0 <= k < c.len() ==> fin.dom().contains((#[trigger] c[k]).0.0),
        step_chain(pool, c),
        0 <= i < c.len(),
    ensures
        fin[c[i].0.0] <= fin[c[0].0.0],
        fin[c[i].0.0] == fin[c[0].0.0] ==> forall|j: int| 0 <= j <= i ==> (#[trigger] c[j]).0.0 == c[0].0.0,
    decreases i,
{
    if i > 0 {
        lemma_step_finish_weak(pool, fin, c, i - 1);
        let k = i - 1;
        assert(eq_edge(pool, c[k].0.0, c[k + 1].0.0, c[k].1));
        assert(fin.dom().contains(c[k].0.0));
        if fin[c[i].0.0] == fin[c[0].0.0] {
            assert forall|j: int| 0 <= j <= i implies (#[trigger] c[j]).0.0 == c[0].0.0 by {
                if j == i {
                    assert(c[k].0.0 == c[i].0.0);
                }
            }
        }
    }
}

/// With no multi-step cycle reported, every cycle stays within one group.
proof fn lemma_loop_free(pool: &Pool, visited: Set<usize>, fin: Map<usize, nat>, starts: Seq<usize>, c: Seq<Step>)
    requires
        group_finish_ok(pool, visited, Seq::<Step>::empty(), fin, 1),
        distinct_descend(pool, fin),
        forall|k: usize| #[trigger] starts.contains(k) <==> pool.equivalence_outgoing@.contains_key(k),
        forall|k: int| 0 <= k < starts.len() ==> visited.contains(#[trigger] starts[k]),
        is_step_cycle(pool, c),
    ensures
        within_one_group(c),
{
    assert forall|i: int| 0 <= i < c.len() implies fin.dom().contains((#[trigger] c[i]).0.0) by {
        if i < c.len() - 1 {
            assert(eq_edge(pool, c[i].0.0, c[i + 1].0.0, c[i].1));
        } else {
            assert(eq_edge(pool, c.last().0.0, c[0].0.0, c.last().1));
        }
        assert(pool.equivalence_outgoing@.contains_key(c[i].0.0));
        assert(starts.contains(c[i].0.0));
        let w = starts.index_of(c[i].0.0);
        assert(visited.contains(starts[w]));
        assert(!on_path(Seq::<Step>::empty(), c[i].0.0));
    }
    let last = c.len() - 1;
    lemma_step_finish_weak(pool, fin, c, last);
    assert(eq_edge(pool, c[last].0.0, c[0].0.0, c[last].1));
    assert forall|i: int| 0 <= i < c.len() implies (#[trigger] c[i]).0 == c[0].0 by {
        assert(c[i].0.0 == c[0].0.0);
    }
}

fn first_step_from(path: &Vec<Step>, g: usize) -> (r: Option<usize>)
    ensures
        r is None <==> forall|k: int| 0 <= k < path@.len() ==> (#[trigger] path@[k]).0.0 != g,
        r is Some ==> r.unwrap() < path@.len() && path@[r.unwrap() as int].0.0 == g,
{
    for i in 0..path.len()
        invariant
            forall|k: int| 0 <= k < i ==> (#[trigger] path@[k]).0.0 != g,
    {
        if path[i].0.0 == g {
            return Some(i);
        }
    }
    None
}

fn copy_steps(v: &Vec<Step>) -> (r: Vec<Step>)
    ensures
        r@ == v@,
{
    let mut out: Vec<Step> = Vec::new();
    for i in 0..v.len()
        invariant
            out@ == v@.take(i as int),
    {
        out.push(v[i]);
        assert(v@.take(i + 1) =~= v@.take(i as int).push(v@[i as int]));
    }
    assert(v@.take(v@.len() as int) =~= v@);
    out
}

fn equivalence_keys(m: &BTreeMap<usize, Vec<Step>>) -> (r: Vec<usize>)
    ensures
        forall|k: usize| #[trigger] r@.contains(k) <==> m@.contains_key(k),
{
    let mut out: Vec<usize> = Vec::new();
    let ghost ks = vstd::std_specs::iter::IteratorSpec::remaining(&vstd::std_specs::btree::spec_keys_iter(m));
    for k in it: m.keys()
        invariant
            it.seq() == ks,
            out@ == ks.take(it.index() as int).map_values(|x: &usize| *x),
    {
        out.push(*k);
        proof {
            assert(ks.take(it.index() + 1) =~= ks.take(it.index() as int).push(k));
        }
    }
    proof {
        assert(out@ =~= ks.unref());
    }
    out
}

impl Pool {
    fn dfs_detect_equivalence_cycles(
        &self,
        group_id: usize,
        visited: &mut BTreeSet<usize>,
        path: &mut Vec<Step>,
        cycles: &mut Vec<Vec<Step>>,
        Ghost(u): Ghost<Set<usize>>,
        Ghost(fin): Ghost<Map<usize, nat>>,
    ) -> (r: Ghost<Map<usize, nat>>)
        requires
            u == group_nodes(self),
            u.finite(),
            u.contains(group_id),
            old(visited)@.subset_of(u),
            !old(visited)@.contains(group_id),
            step_chain(self, old(path)@),
            groups_distinct(old(path)@),
            old(path)@.len() > 0 ==> eq_edge(self, old(path)@.last().0.0, group_id, old(path)@.last().1),
            forall|i: int| 0 <= i < old(cycles)@.len() ==> is_step_cycle(self, (#[trigger] old(cycles)@[i])@),
            group_finish_ok(self, old(visited)@, old(path)@, fin, old(cycles)@.len()),
            all_short(old(cycles)@) ==> distinct_descend(self, fin),
        ensures
            final(path)@ == old(path)@,
            final(cycles)@.subrange(0, old(cycles)@.len() as int) == old(cycles)@,
            all_short(final(cycles)@) ==> distinct_descend(self, r@),
            old(visited)@.subset_of(final(visited)@),
            final(visited)@.subset_of(u),
            forall|i: int| 0 <= i < final(cycles)@.len() ==> is_step_cycle(self, (#[trigger] final(cycles)@[i])@),
            old(cycles)@.len() <= final(cycles)@.len(),
            group_finish_ok(self, final(visited)@, old(path)@, r@, final(cycles)@.len()),
            r@.dom().contains(group_id),
            forall|k: usize| #[trigger] fin.dom().contains(k) ==> r@.dom().contains(k) && r@[k] == fin[k],
        decreases u.len() - old(visited)@.len(),
    {
        proof {
            lemma_group_nodes(self);
        }
        visited.insert(group_id);
        let ghost entry = path@;
        let ghost mut cur = fin;
        proof {
            assert(!on_path(entry, group_id));
            assert(!fin.dom().contains(group_id));
        }
        match self.equivalence_outgoing.get(&group_id) {
            Some(list) => {
                for k in 0..list.len()
                    invariant
                        u == group_nodes(self),
                        u.finite(),
                        self.equivalence_outgoing@.contains_key(group_id),
                        list@ == self.equivalence_outgoing@[group_id]@,
                        path@ == entry,
                        step_chain(self, path@),
                        groups_distinct(path@),
                        path@.len() > 0 ==> eq_edge(self, path@.last().0.0, group_id, path@.last().1),
                        old(visited)@.insert(group_id).subset_of(visited@),
                        !old(visited)@.contains(group_id),
                        old(visited)@.subset_of(u),
                        visited@.subset_of(u),
                        forall|i: int| 0 <= i < cycles@.len() ==> is_step_cycle(self, (#[trigger] cycles@[i])@),
                        old(cycles)@.len() <= cycles@.len(),
                        cur.dom().finite(),
                        forall|x: usize| #[trigger] cur.dom().contains(x) ==> cur[x] < cur.dom().len(),
                        forall|x: usize| #[trigger] visited@.contains(x) <==> (cur.dom().contains(x) || on_path(entry, x) || x == group_id),
                        forall|x: usize| #[trigger] on_path(entry, x) ==> !cur.dom().contains(x),
                        !cur.dom().contains(group_id),
                        !on_path(entry, group_id),
                        cycles@.len() == 0 ==> forall|a: usize, b: usize, r: RuleId|
                            #[trigger] eq_edge(self, a, b, r) && cur.dom().contains(a) ==> cur.dom().contains(b) && cur[b] < cur[a],
                        forall|x: usize| #[trigger] fin.dom().contains(x) ==> cur.dom().contains(x) && cur[x] == fin[x],
                        cycles@.len() == 0 ==> forall|m: int| 0 <= m < k ==> cur.dom().contains((#[trigger] list@[m]).0.0),
                        cycles@.subrange(0, old(cycles)@.len() as int) == old(cycles)@,
                        all_short(cycles@) ==> distinct_descend(self, cur),
                        all_short(cycles@) ==> forall|m: int|
                            0 <= m < k && (#[trigger] list@[m]).0.0 != group_id ==> cur.dom().contains(list@[m].0.0),
                {
                    let (next_group, rule) = list[k];
                    proof {
                        assert(entries(self.equivalence_outgoing@, group_id)[k as int] == (next_group, rule));
                        assert(eq_edge(self, group_id, next_group.0, rule));
                        lemma_group_nodes(self);
                    }
                    let ghost before = path@;
                    path.push((EquivalenceGroupId(group_id), rule));
                    proof {
                        assert forall|i: int| 0 <= i < path@.len() - 1 implies #[trigger] eq_edge(
                            self,
                            path@[i].0.0,
                            path@[i + 1].0.0,
                            path@[i].1,
                        ) by {
                            if i < before.len() - 1 {
                                assert(eq_edge(self, before[i].0.0, before[i + 1].0.0, before[i].1));
                            }
                        }
                        assert forall|x: usize| #[trigger] on_path(path@, x) <==> (on_path(entry, x) || x == group_id) by {
                            if on_path(path@, x) {
                                let i = choose|i: int| 0 <= i < path@.len() && (#[trigger] path@[i]).0.0 == x;
                                if i < entry.len() {
                                    assert(entry[i] == path@[i]);
                                }
                            }
                            if on_path(entry, x) {
                                let i = choose|i: int| 0 <= i < entry.len() && (#[trigger] entry[i]).0.0 == x;
                                assert(path@[i] == entry[i]);
                            }
                            if x == group_id {
                                assert(path@[entry.len() as int].0.0 == group_id);
                            }
                        }
                    }
                    match first_step_from(path, next_group.0) {
                        Some(start) => {
                            let mut cycle: Vec<Step> = Vec::new();
                            for j in start..path.len()
                                invariant
                                    start < path@.len(),
                                    cycle@ == path@.subrange(start as int, j as int),
                            {
                                cycle.push(path[j]);
                                proof {
                                    assert(path@.subrange(start as int, j + 1) =~= path@.subrange(start as int, j as int).push(
                                        path@[j as int],
                                    ));
                                }
                            }
                            proof {
                                let c = cycle@;
                                assert(c =~= path@.subrange(start as int, path@.len() as int));
                                assert forall|i: int| 0 <= i < c.len() - 1 implies #[trigger] eq_edge(
                                    self,
                                    c[i].0.0,
                                    c[i + 1].0.0,
                                    c[i].1,
                                ) by {
                                    let j = start + i;
                                    assert(eq_edge(self, path@[j].0.0, path@[j + 1].0.0, path@[j].1));
                                }
                            }
                            let ghost cyc0 = cycles@;
                            cycles.push(cycle);
                            proof {
                                assert(cycles@.subrange(0, old(cycles)@.len() as int) =~= cyc0.subrange(
                                    0,
                                    old(cycles)@.len() as int,
                                ));
                                if all_short(cycles@) {
                                    assert(cycles@[cyc0.len() as int]@.len() <= 1);
                                    assert forall|i: int| 0 <= i < cyc0.len() implies (#[trigger] cyc0[i])@.len() <= 1 by {
                                        assert(cycles@[i] == cyc0[i]);
                                    }
                                    if next_group.0 != group_id {
                                        assert(path@[entry.len() as int].0.0 == group_id);
                                        assert(start < entry.len());
                                        assert(false);
                                    }
                                }
                            }
                        },
                        None => {
                            proof {
                                assert(!on_path(path@, next_group.0));
                            }
                            if !visited.contains(&next_group.0) {
                                proof {
                                    vstd::set_lib::lemma_len_subset(visited@, u);
                                    vstd::set_lib::lemma_len_subset(old(visited)@, u);
                                    vstd::set_lib::lemma_len_subset(old(visited)@.insert(group_id), visited@);
                                    assert(old(visited)@.insert(group_id).len() == old(visited)@.len() + 1);
                                    assert(group_finish_ok(self, visited@, path@, cur, cycles@.len()));
                                }
                                let ghost before_cur = cur;
                                let ghost cyc0 = cycles@;
                                let Ghost(nf) = self.dfs_detect_equivalence_cycles(
                                    next_group.0,
                                    visited,
                                    path,
                                    cycles,
                                    Ghost(u),
                                    Ghost(cur),
                                );
                                proof {
                                    cur = nf;
                                    assert(cycles@.subrange(0, old(cycles)@.len() as int) =~= cyc0.subrange(
                                        0,
                                        old(cycles)@.len() as int,
                                    ));
                                    if all_short(cycles@) {
                                        assert forall|i: int| 0 <= i < cyc0.len() implies (#[trigger] cyc0[i])@.len() <= 1 by {
                                            assert(cycles@.subrange(0, cyc0.len() as int)[i] == cyc0[i]);
                                        }
                                        assert forall|m: int|
                                            0 <= m <= k && (#[trigger] list@[m]).0.0 != group_id implies cur.dom().contains(
                                            list@[m].0.0,
                                        ) by {
                                            if m < k {
                                                assert(before_cur.dom().contains(list@[m].0.0));
                                            }
                                        }
                                    }
                                    assert(on_path(path@, group_id));
                                    assert(!cur.dom().contains(group_id));
                                    assert forall|m: int| 0 <= m <= k && cycles@.len() == 0 implies cur.dom().contains(
                                        (#[trigger] list@[m]).0.0,
                                    ) by {
                                        if m < k {
                                            assert(before_cur.dom().contains(list@[m].0.0));
                                        }
                                    }
                                    assert forall|x: usize| #[trigger] on_path(entry, x) implies !cur.dom().contains(x) by {
                                        assert(on_path(path@, x));
                                    }
                                    assert forall|x: usize| #[trigger] visited@.contains(x) <==> (cur.dom().contains(x) || on_path(
                                        entry,
                                        x,
                                    ) || x == group_id) by {
                                        if visited@.contains(x) && !cur.dom().contains(x) {
                                            assert(on_path(path@, x));
                                        }
                                    }
                                }
                            } else {
                                proof {
                                    assert(cur.dom().contains(next_group.0));
                                    assert forall|m: int| 0 <= m <= k && cycles@.len() == 0 implies cur.dom().contains(
                                        (#[trigger] list@[m]).0.0,
                                    ) by {}
                                }
                            }
                        },
                    }
                    path.pop();
                    proof {
                        assert(path@ =~= before);
                    }
                }
            },
            None => {},
        }
        proof {
            let t = cur.dom().len();
            let nf = cur.insert(group_id, t);
            assert(nf.dom() == cur.dom().insert(group_id));
            assert(nf.dom().len() == t + 1);
            assert forall|x: usize| #[trigger] nf.dom().contains(x) implies nf[x] < nf.dom().len() by {
                if x != group_id {
                    assert(cur[x] < t);
                }
            }
            if cycles@.len() == 0 {
                assert forall|a: usize, b: usize, r: RuleId|
                    #[trigger] eq_edge(self, a, b, r) && nf.dom().contains(a) implies nf.dom().contains(b) && nf[b] < nf[a] by {
                    if a == group_id {
                        let m = entries(self.equivalence_outgoing@, group_id).index_of((EquivalenceGroupId(b), r));
                        assert(self.equivalence_outgoing@.contains_key(group_id));
                        assert(self.equivalence_outgoing@[group_id]@[m].0.0 == b);
                        assert(cur.dom().contains(b));
                    } else {
                        assert(cur.dom().contains(a));
                    }
                }
            }
            assert(group_finish_ok(self, visited@, path@, nf, cycles@.len()));
            if all_short(cycles@) {
                assert forall|a: usize, b: usize, r: RuleId|
                    #[trigger] eq_edge(self, a, b, r) && a != b && nf.dom().contains(a) implies nf.dom().contains(b) && nf[b]
                        < nf[a] by {
                    if a == group_id {
                        let m = entries(self.equivalence_outgoing@, group_id).index_of((EquivalenceGroupId(b), r));
                        assert(self.equivalence_outgoing@.contains_key(group_id));
                        assert(self.equivalence_outgoing@[group_id]@[m].0.0 == b);
                        assert(cur.dom().contains(b));
                    } else {
                        assert(cur.dom().contains(a));
                    }
                }
            }
        }
        Ghost(cur.insert(group_id, cur.dom().len()))
    }

    /// Cycles of the equivalence graph found by a depth-first walk from each
    /// group with outgoing steps, each one the steps of the walk's path from
    /// the group an edge closes back onto. Nothing is found exactly when the
    /// equivalence graph has no cycle, and some cycle of more than one step
    /// is found whenever a cycle passes through two groups.
    pub fn detect_equivalence_cycles(&self) -> (r: Vec<Vec<Step>>)
        ensures
            forall|i: int| 0 <= i < r@.len() ==> is_step_cycle(self, (#[trigger] r@[i])@),
            r@.len() == 0 <==> groups_acyclic(self),
            all_short(r@) ==> groups_loop_free(self),
    {
        let ghost u = group_nodes(self);
        proof {
            lemma_group_nodes(self);
        }
        let starts = equivalence_keys(&self.equivalence_outgoing);
        let mut visited: BTreeSet<usize> = BTreeSet::new();
        let mut cycles: Vec<Vec<Step>> = Vec::new();
        let ghost mut fin: Map<usize, nat> = Map::empty();
        for j in 0..starts.len()
            invariant
                u == group_nodes(self),
                u.finite(),
                forall|k: usize| #[trigger] starts@.contains(k) <==> self.equivalence_outgoing@.contains_key(k),
                forall|g: usize| #[trigger] self.equivalence_outgoing@.contains_key(g) ==> u.contains(g),
                visited@.subset_of(u),
                forall|i: int| 0 <= i < cycles@.len() ==> is_step_cycle(self, (#[trigger] cycles@[i])@),
                group_finish_ok(self, visited@, Seq::<Step>::empty(), fin, cycles@.len()),
                forall|k: int| 0 <= k < j ==> visited@.contains(#[trigger] starts@[k]),
                all_short(cycles@) ==> distinct_descend(self, fin),
        {
            let g = starts[j];
            if !visited.contains(&g) {
                proof {
                    assert(starts@.contains(g));
                }
                let mut path: Vec<Step> = Vec::new();
                proof {
                    assert(path@ =~= Seq::<Step>::empty());
                }
                let Ghost(nf) = self.dfs_detect_equivalence_cycles(g, &mut visited, &mut path, &mut cycles, Ghost(u), Ghost(fin));
                proof {
                    fin = nf;
                }
            }
        }
        proof {
            if cycles@.len() == 0 {
                assert forall|c: Seq<Step>| !#[trigger] is_step_cycle(self, c) by {
                    lemma_no_step_cycle(self, visited@, fin, starts@, c);
                }
            } else {
                assert(is_step_cycle(self, cycles@[0]@));
            }
            if all_short(cycles@) {
                assert forall|c: Seq<Step>| #[trigger] is_step_cycle(self, c) implies within_one_group(c) by {
                    lemma_loop_free(self, visited@, fin, starts@, c);
                }
            }
        }
        cycles
    }

    /// Adds a chain to the blacklist unless it is there already.
    fn blacklist_chain(&mut self, chain: Vec<Step>)
        ensures
            blacklist(final(self)) == if blacklist(old(self)).contains(chain@) {
                blacklist(old(self))
            } else {
                blacklist(old(self)).push(chain@)
            },
            final(self).max_chain_length == old(self).max_chain_length,
            same_but_graph(old(self), final(self)),
            final(self).equivalence_outgoing@ == old(self).equivalence_outgoing@,
            rewrites_kept(old(self), final(self)),
    {
        let n = chain.len();
        if self.blacklist_holds_suffix(&chain, 0) {
            assert(chain@.subrange(0, n as int) =~= chain@);
            return;
        }
        assert(chain@.subrange(0, n as int) =~= chain@);
        self.blacklisted_chains.push(chain);
        assert(blacklist(self) =~= blacklist(old(self)).push(chain@));
    }

    /// Blacklists every cycle of more than one step that
    /// `detect_equivalence_cycles` finds: nothing changes when the
    /// equivalence graph has no cycle, and when a cycle passes through two
    /// groups the blacklist afterwards holds a cycle of more than one step.
    pub fn detect_and_blacklist_cycles(&mut self)
        ensures
            blacklist(final(self)).len() >= blacklist(old(self)).len(),
            blacklist(final(self)).subrange(0, blacklist(old(self)).len() as int) == blacklist(old(self)),
            forall|i: int|
                blacklist(old(self)).len() <= i < blacklist(final(self)).len() ==> is_step_cycle(
                    old(self),
                    #[trigger] blacklist(final(self))[i],
                ) && blacklist(final(self))[i].len() > 1 && !blacklist(old(self)).contains(blacklist(final(self))[i]),
            forall|i: int, j: int|
                blacklist(old(self)).len() <= i < j < blacklist(final(self)).len() ==> #[trigger] blacklist(final(self))[i]
                    != #[trigger] blacklist(final(self))[j],
            rewrites_kept(old(self), final(self)),
            groups_acyclic(old(self)) ==> blacklist(final(self)) == blacklist(old(self)),
            blacklist(old(self)).no_duplicates() ==> blacklist(final(self)).no_duplicates(),
            !groups_loop_free(old(self)) ==> exists|i: int|
                0 <= i < blacklist(final(self)).len() && #[trigger] is_step_cycle(old(self), blacklist(final(self))[i])
                    && blacklist(final(self))[i].len() > 1,
            same_but_graph(old(self), final(self)),
    {
        let cycles = self.detect_equivalence_cycles();
        let ghost b0 = blacklist(self);
        let ghost s0 = *self;
        for i in 0..cycles.len()
            invariant
                forall|k: int| 0 <= k < cycles@.len() ==> is_step_cycle(&s0, (#[trigger] cycles@[k])@),
                self.equivalence_outgoing@ == s0.equivalence_outgoing@,
                same_but_graph(&s0, self),
                rewrites_kept(&s0, self),
                b0 == blacklist(&s0),
                blacklist(self).len() >= b0.len(),
                blacklist(self).subrange(0, b0.len() as int) == b0,
                forall|k: int|
                    b0.len() <= k < blacklist(self).len() ==> is_step_cycle(&s0, #[trigger] blacklist(self)[k])
                        && blacklist(self)[k].len() > 1 && !b0.contains(blacklist(self)[k]),
                forall|a: int, b: int|
                    b0.len() <= a < b < blacklist(self).len() ==> #[trigger] blacklist(self)[a] != #[trigger] blacklist(
                        self,
                    )[b],
                cycles@.len() == 0 ==> blacklist(self) == b0,
                forall|j: int| 0 <= j < i && (#[trigger] cycles@[j])@.len() > 1 ==> blacklist(self).contains(cycles@[j]@),
        {
            if cycles[i].len() > 1 {
                let c = copy_steps(&cycles[i]);
                let ghost bl = blacklist(self);
                let ghost cv = cycles@[i as int]@;
                self.blacklist_chain(c);
                proof {
                    broadcast use vstd::seq_lib::lemma_seq_contains_after_push;
                    assert(blacklist(self).contains(cv));
                    assert forall|j: int| 0 <= j < i && (#[trigger] cycles@[j])@.len() > 1 implies blacklist(self).contains(
                        cycles@[j]@,
                    ) by {
                        assert(bl.contains(cycles@[j]@));
                    }
                    if !bl.contains(cv) {
                        assert(blacklist(self) == bl.push(cv));
                        assert(blacklist(self).subrange(0, b0.len() as int) =~= bl.subrange(0, b0.len() as int));
                        assert forall|k: int|
                            b0.len() <= k < blacklist(self).len() implies is_step_cycle(&s0, #[trigger] blacklist(self)[k])
                                && blacklist(self)[k].len() > 1 && !b0.contains(blacklist(self)[k]) by {
                            if k < bl.len() {
                                assert(blacklist(self)[k] == bl[k]);
                            } else {
                                if b0.contains(cv) {
                                    let w = b0.index_of(cv);
                                    assert(bl[w] == cv);
                                }
                            }
                        }
                        assert forall|a: int, b: int|
                            b0.len() <= a < b < blacklist(self).len() implies #[trigger] blacklist(self)[a] != #[trigger] blacklist(
                                self,
                            )[b] by {
                            if b == bl.len() {
                                assert(bl[a] != cv);
                            } else {
                                assert(bl[a] != bl[b]);
                            }
                        }
                    }
                }
            }
        }
        proof {
            assert(s0.equivalence_outgoing@ == old(self).equivalence_outgoing@);
            if !groups_loop_free(old(self)) {
                assert(!all_short(cycles@));
                let k = choose|k: int| 0 <= k < cycles@.len() && (#[trigger] cycles@[k])@.len() > 1;
                assert(blacklist(self).contains(cycles@[k]@));
                let w = blacklist(self).index_of(cycles@[k]@);
                assert(is_step_cycle(&s0, cycles@[k]@));
                assert(is_step_cycle(old(self), blacklist(self)[w]));
            }
            let bf = blacklist(self);
            if b0.no_duplicates() {
                assert forall|a: int, b: int| 0 <= a < bf.len() && 0 <= b < bf.len() && a != b implies bf[a] != bf[b] by {
                    if a < b0.len() {
                        assert(bf[a] == bf.subrange(0, b0.len() as int)[a]);
                    }
                    if b < b0.len() {
                        assert(bf[b] == bf.subrange(0, b0.len() as int)[b]);
                    }
                    if a >= b0.len() && b < b0.len() {
                        assert(!b0.contains(bf[a]));
                        assert(b0[b] == bf[b]);
                    }
                    if b >= b0.len() && a < b0.len() {
                        assert(!b0.contains(bf[b]));
                        assert(b0[a] == bf[a]);
                    }
                }
            }
        }
    }
}

} // verus!
