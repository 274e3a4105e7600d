use vstd::prelude::*;

use crate::captures::CapturedValue;
use crate::chains::{step_allowed, Step};
use crate::children::{lemma_child_list_bounds, node_ok, nodes_ok, spec_child_list, spec_children, spec_length, NodeInfo};
use crate::equality::{kids_eq, spec_expr_eq};
use crate::graph::{entries, grouped, groups_keyed_ok, same_but_graph, transformation_added};
use crate::idx::{EquivalenceGroupId, ExprId, NameId, RuleId};
use crate::laws::law_recorded_rewrite;
use crate::ast::ExprNode;
use crate::pool::{same_graph, same_rule_side, Pool, Provenance};
use crate::rules::{
    applied_nodes, apply_ok, arenas_ok, kids_matches, replacement, rule_matches, rule_patterns_ok, tree_matches,
};
use crate::traversal::edge;

verus! {

broadcast use {vstd::std_specs::btree::group_btree_axioms, vstd::laws_cmp::group_laws_cmp};

/// One rewrite: the expression rewritten, the rule, and the result.
pub type Rewrite = (ExprId, RuleId, ExprId);

/// Every expression a recorded rewrite leads to is grouped.
pub open spec fn targets_grouped(pool: &Pool) -> bool {
    forall|a: usize, b: usize, r: RuleId| #[trigger] edge(pool, a, b, r) ==> pool.expr_to_group@.contains_key(b)
}

/// What a search over the pool needs: the arenas can be walked, every
/// rule's pattern exists, and the grouped expressions and the targets of
/// recorded rewrites are nodes with groups.
pub open spec fn search_ready(pool: &Pool) -> bool {
    &&& arenas_ok(pool)
    &&& rule_patterns_ok(pool)
    &&& groups_keyed_ok(pool)
    &&& targets_grouped(pool)
}

/// The pool `b` extends `a`: the expressions of `a` stay in place, every
/// recorded rewrite stays, every grouped expression stays grouped, and the
/// rules are the same.
pub open spec fn grows(a: &Pool, b: &Pool) -> bool {
    &&& a.exprs@.len() <= b.exprs@.len()
    &&& b.exprs@.subrange(0, a.exprs@.len() as int) == a.exprs@
    &&& forall|x: usize, y: usize, r: RuleId| #[trigger] edge(a, x, y, r) ==> edge(b, x, y, r)
    &&& forall|k: usize| #[trigger] a.expr_to_group@.contains_key(k) ==> b.expr_to_group@.contains_key(k)
    &&& same_rule_side(a, b)
}

/// Where a path of rewrites from `start` ends.
pub open spec fn path_end(start: ExprId, steps: Seq<Rewrite>) -> ExprId {
    if steps.len() == 0 {
        start
    } else {
        steps.last().2
    }
}

/// `steps` leads by recorded rewrites from `start` to `end`, each step
/// starting where the one before ended.
pub open spec fn rewrite_path(pool: &Pool, start: ExprId, steps: Seq<Rewrite>, end: ExprId) -> bool {
    &&& path_end(start, steps) == end
    &&& steps.len() > 0 ==> steps[0].0 == start
    &&& forall|i: int| 0 <= i < steps.len() - 1 ==> (#[trigger] steps[i]).2 == steps[i + 1].0
    &&& forall|i: int| 0 <= i < steps.len() ==> edge(pool, (#[trigger] steps[i]).0.0, steps[i].2.0, steps[i].1)
}

/// The recorded rewrites of `cur`, from position `k` of its list on and in
/// list order, that lead into a group not in `visited` and that
/// `should_apply_rule` allows from group `sg` after `chain`; each one taken
/// adds its group to those seen.
pub open spec fn fresh_moves(
    pool: &Pool,
    cur: ExprId,
    sg: EquivalenceGroupId,
    visited: Seq<usize>,
    chain: Seq<Step>,
    k: int,
) -> Seq<(ExprId, RuleId)>
    decreases entries(pool.outgoing@, cur.0).len() - k,
{
    let es = entries(pool.outgoing@, cur.0);
    if k < 0 || k >= es.len() {
        Seq::empty()
    } else {
        let ng = pool.expr_to_group@[es[k].0.0];
        if !visited.contains(ng.0) && step_allowed(pool, sg, es[k].1, ng, chain) {
            seq![es[k]] + fresh_moves(pool, cur, sg, visited.push(ng.0), chain, k + 1)
        } else {
            fresh_moves(pool, cur, sg, visited, chain, k + 1)
        }
    }
}

/// The recorded rewrites of `start` that a breadth-first search from it
/// takes first: those into groups other than its own, one per group, in list
/// order, that `should_apply_rule` allows as first steps.
pub open spec fn first_layer(pool: &Pool, start: ExprId) -> Seq<(ExprId, RuleId)> {
    let sg = pool.expr_to_group@[start.0];
    fresh_moves(pool, start, sg, seq![sg.0], Seq::empty(), 0)
}

/// The one-step path of rewrite `m` from `start`.
pub open spec fn one_step(start: ExprId, m: (ExprId, RuleId)) -> Seq<Rewrite> {
    seq![(start, m.1, m.0)]
}

/// The rewrites among the first `n` of `moves` whose result is structurally
/// equal to the expression at `t`, in order.
pub open spec fn target_hits(nodes: Seq<ExprNode>, moves: Seq<(ExprId, RuleId)>, t: int, n: int) -> Seq<
    (ExprId, RuleId),
>
    decreases n,
{
    if n <= 0 || n > moves.len() {
        Seq::empty()
    } else if spec_expr_eq(nodes, moves[n - 1].0.0 as int, t) {
        target_hits(nodes, moves, t, n - 1).push(moves[n - 1])
    } else {
        target_hits(nodes, moves, t, n - 1)
    }
}

/// The rewrites of `first_layer` whose result equals `target`, in order.
pub open spec fn first_layer_hits(pool: &Pool, start: ExprId, target: ExprId) -> Seq<(ExprId, RuleId)> {
    target_hits(pool.exprs@, first_layer(pool, start), target.0 as int, first_layer(pool, start).len() as int)
}

/// A search state as a value: the expression reached, the group it was
/// filed under, and the rewrites that led there.
pub type Visit = (ExprId, EquivalenceGroupId, Seq<Rewrite>);

/// The steps of a path as a chain: the group of each rewritten expression
/// with the rule applied to it.
pub open spec fn path_chain(pool: &Pool, path: Seq<Rewrite>) -> Seq<Step> {
    path.map_values(|s: Rewrite| (pool.expr_to_group@[s.0.0], s.1))
}

/// The state that move `m` from state `v` leads to.
pub open spec fn visit_after(pool: &Pool, v: Visit, m: (ExprId, RuleId)) -> Visit {
    (m.0, pool.expr_to_group@[m.0.0], v.2.push((v.0, m.1, m.0)))
}

/// The search states held in a queue, as values.
pub open spec fn queue_view(q: Seq<SearchState>) -> Seq<Visit> {
    q.map_values(|s: SearchState| (s.expr_id, s.group_id, s.path@))
}

/// The breadth-first search over the recorded rewrites of `pool`, from the
/// state at `head` of `queue` on, with the groups in `visited` seen and
/// `paths` reported so far; its result is every path it reports, in order.
/// A state is taken from the queue while fewer than `max_nodes` states have
/// been taken: one at depth `max_depth` or more is dropped; with a target, one
/// whose expression equals it is reported and not expanded; any other has the
/// states of its `fresh_moves` queued behind the others and, without a target
/// and when it is not the start, is reported.
pub open spec fn bfs_run(
    pool: &Pool,
    target: Option<ExprId>,
    max_depth: nat,
    max_nodes: nat,
    queue: Seq<Visit>,
    visited: Seq<usize>,
    paths: Seq<Seq<Rewrite>>,
    head: nat,
) -> Seq<Seq<Rewrite>>
    decreases max_nodes - head,
{
    if head >= queue.len() || head + 1 >= max_nodes {
        paths
    } else {
        let v = queue[head as int];
        if v.2.len() >= max_depth {
            bfs_run(pool, target, max_depth, max_nodes, queue, visited, paths, head + 1)
        } else if target is Some && spec_expr_eq(pool.exprs@, v.0.0 as int, target.unwrap().0 as int) {
            bfs_run(pool, target, max_depth, max_nodes, queue, visited, paths.push(v.2), head + 1)
        } else {
            let moves = fresh_moves(pool, v.0, v.1, visited, path_chain(pool, v.2), 0);
            let q2 = queue + moves.map_values(|m: (ExprId, RuleId)| visit_after(pool, v, m));
            let vis2 = visited + moves.map_values(|m: (ExprId, RuleId)| pool.expr_to_group@[m.0.0].0);
            let p2 = if target is None && v.2.len() > 0 {
                paths.push(v.2)
            } else {
                paths
            };
            bfs_run(pool, target, max_depth, max_nodes, q2, vis2, p2, head + 1)
        }
    }
}

/// The paths a breadth-first search over the recorded rewrites of `pool`
/// reports, in the order it reports them: nothing when `start` has no group
/// or `max_nodes` is 0; otherwise `bfs_run` from the start alone, its group
/// seen.
pub open spec fn bfs_paths(
    pool: &Pool,
    start: ExprId,
    target: Option<ExprId>,
    max_depth: nat,
    max_nodes: nat,
) -> Seq<Seq<Rewrite>> {
    if !pool.expr_to_group@.contains_key(start.0) || max_nodes == 0 {
        Seq::empty()
    } else {
        let g = pool.expr_to_group@[start.0];
        bfs_run(pool, target, max_depth, max_nodes, seq![(start, g, Seq::empty())], seq![g.0], Seq::empty(), 0)
    }
}

/// A match as a value: the expression searched, the node matched, the rule,
/// and the bindings.
pub type MatchView = (ExprId, ExprId, RuleId, Seq<(NameId, CapturedValue)>);

/// Applying match `m` to `p` makes a new expression: it can be applied and
/// its rule builds something.
pub open spec fn makes_new(p: &Pool, m: MatchView) -> bool {
    apply_ok(p, m) && replacement(p, m).len() > 0
}

/// The position of the expression that applying match `m` to `p` makes.
pub open spec fn made_id(p: &Pool, m: MatchView) -> usize {
    (p.exprs@.len() + applied_nodes(p, m).len() - 1) as usize
}

/// `q` is `p` after `apply_rule` made a new expression from match `m`: the
/// new nodes are appended, and the rewrite from the matched expression to the
/// new one is recorded.
pub open spec fn rule_applied(p: &Pool, m: MatchView, q: &Pool) -> bool {
    let new_nodes = applied_nodes(p, m);
    let nr = made_id(p, m);
    &&& q.exprs@ == p.exprs@ + new_nodes.map_values(|x: (ExprNode, Provenance)| x.0)
    &&& q.locations@ == p.locations@ + new_nodes.map_values(|x: (ExprNode, Provenance)| x.1)
    &&& q.expr_ends@ == p.expr_ends@.insert(nr)
    &&& exists|m0: Pool, m1: Pool, m2: Pool|
        #![trigger transformation_added(&m0, &m1, &m2, q, m.0, ExprId(nr), m.2)]
        {
            &&& same_graph(p, &m0)
            &&& same_but_graph(&m0, q)
            &&& transformation_added(&m0, &m1, &m2, q, m.0, ExprId(nr), m.2)
        }
    &&& q.names@ == p.names@
    &&& q.functions@ == p.functions@
    &&& same_rule_side(p, q)
    &&& nodes_ok(q.exprs@)
    &&& groups_keyed_ok(q)
}

/// `q` is `p` after the search tried match `m`: when it makes a new
/// expression, the rule is applied and the new expression placed into the
/// equivalence groups; otherwise nothing changes.
pub open spec fn match_tried(p: &Pool, m: MatchView, q: &Pool) -> bool {
    if makes_new(p, m) {
        exists|mid: Pool|
            #[trigger] rule_applied(p, m, &mid) && grouped(&mid, q, made_id(p, m)) && groups_keyed_ok(q)
    } else {
        *q == *p
    }
}

/// The groups of some search states, in order.
pub open spec fn visit_groups(vs: Seq<Visit>) -> Seq<usize> {
    vs.map_values(|x: Visit| x.1.0)
}

/// The states the first `n` matches `ms` found at state `v` add to the
/// queue, in order, when `subs[k + 1]` is the pool after trying `ms[k]` on
/// `subs[k]`: a new expression is queued when its group is neither in
/// `visited` nor among those queued before, and `should_apply_rule` allows
/// the step from the group of `v` after the chain of its path.
pub open spec fn rule_moves(subs: Seq<Pool>, ms: Seq<MatchView>, v: Visit, visited: Seq<usize>, n: int) -> Seq<Visit>
    decreases n,
{
    if n <= 0 {
        Seq::empty()
    } else {
        let prev = rule_moves(subs, ms, v, visited, n - 1);
        let p = subs[n - 1];
        let q = subs[n];
        let m = ms[n - 1];
        let nr = made_id(&p, m);
        let g = q.expr_to_group@[nr];
        if makes_new(&p, m) && !(visited + visit_groups(prev)).contains(g.0) && step_allowed(
            &q,
            v.1,
            m.2,
            g,
            path_chain(&q, v.2),
        ) {
            prev.push((ExprId(nr), g, v.2.push((v.0, m.2, ExprId(nr)))))
        } else {
            prev
        }
    }
}

/// The whole search as a value: its queue of states, the groups seen, the
/// paths reported, and how many states it has taken.
pub type Front = (Seq<Visit>, Seq<usize>, Seq<Seq<Rewrite>>, nat);

/// The search stops at front `f`: no state is left to take, or `max_nodes`
/// states would have been taken.
pub open spec fn front_done(f: Front, max_nodes: nat) -> bool {
    f.3 >= f.0.len() || f.3 + 1 >= max_nodes
}

/// The front a search from `start` begins with: the start alone, its group
/// seen, nothing reported.
pub open spec fn first_front(pool: &Pool, start: ExprId) -> Front {
    let g = pool.expr_to_group@[start.0];
    (seq![(start, g, Seq::empty())], seq![g.0], Seq::empty(), 0)
}

/// One step of the search, from pool `pa` and front `fa` to `pb` and `fb`,
/// with `subs` the pools it passes through while it tries the matches. It
/// takes the next state `v`. One at depth `max_depth` or more is dropped.
/// With a target, one whose expression equals it is reported. Any other is
/// expanded: the states of its `fresh_moves` are queued, then the matches of
/// every rule anywhere in its expression are tried in order and the states of
/// `rule_moves` queued; without a target, its path is reported unless it is
/// the start.
pub open spec fn search_step(
    pa: &Pool,
    fa: Front,
    subs: Seq<Pool>,
    pb: &Pool,
    fb: Front,
    target: Option<ExprId>,
    max_depth: nat,
    max_nodes: nat,
) -> bool {
    let v = fa.0[fa.3 as int];
    &&& !front_done(fa, max_nodes)
    &&& if v.2.len() >= max_depth {
        &&& subs == seq![*pa]
        &&& *pb == *pa
        &&& fb == (fa.0, fa.1, fa.2, fa.3 + 1)
    } else if target is Some && spec_expr_eq(pa.exprs@, v.0.0 as int, target.unwrap().0 as int) {
        &&& subs == seq![*pa]
        &&& *pb == *pa
        &&& fb == (fa.0, fa.1, fa.2.push(v.2), fa.3 + 1)
    } else {
        let moves = fresh_moves(pa, v.0, v.1, fa.1, path_chain(pa, v.2), 0);
        let q1 = fa.0 + moves.map_values(|m: (ExprId, RuleId)| visit_after(pa, v, m));
        let vis1 = fa.1 + moves.map_values(|m: (ExprId, RuleId)| pa.expr_to_group@[m.0.0].0);
        let ms = tree_matches(pa, v.0, v.0.0 as int);
        let rm = rule_moves(subs, ms, v, vis1, ms.len() as int);
        let ps = if target is None && v.2.len() > 0 {
            fa.2.push(v.2)
        } else {
            fa.2
        };
        &&& subs.len() == ms.len() + 1
        &&& subs[0] == *pa
        &&& subs.last() == *pb
        &&& forall|k: int| 0 <= k < ms.len() ==> match_tried(&subs[k], #[trigger] ms[k], &subs[k + 1])
        &&& fb == (q1 + rm, vis1 + visit_groups(rm), ps, fa.3 + 1)
    }
}

/// A run of the search from `start` on `pool`: the pools and fronts after
/// each step, and the pools each step passes through, every step as
/// `search_step` says.
pub open spec fn search_trace(
    pool: &Pool,
    start: ExprId,
    target: Option<ExprId>,
    max_depth: nat,
    max_nodes: nat,
    pools: Seq<Pool>,
    fronts: Seq<Front>,
    subs: Seq<Seq<Pool>>,
) -> bool {
    &&& pools.len() == fronts.len()
    &&& subs.len() + 1 == pools.len()
    &&& pools[0] == *pool
    &&& fronts[0] == first_front(pool, start)
    &&& forall|i: int|
        0 <= i < subs.len() ==> search_step(
            &pools[i],
            fronts[i],
            #[trigger] subs[i],
            &pools[i + 1],
            fronts[i + 1],
            target,
            max_depth,
            max_nodes,
        )
}

proof fn lemma_trace_push(
    pool: &Pool,
    start: ExprId,
    target: Option<ExprId>,
    max_depth: nat,
    max_nodes: nat,
    pools: Seq<Pool>,
    fronts: Seq<Front>,
    subs: Seq<Seq<Pool>>,
    s: Seq<Pool>,
    pb: Pool,
    fb: Front,
)
    requires
        search_trace(pool, start, target, max_depth, max_nodes, pools, fronts, subs),
        search_step(&pools.last(), fronts.last(), s, &pb, fb, target, max_depth, max_nodes),
    ensures
        search_trace(pool, start, target, max_depth, max_nodes, pools.push(pb), fronts.push(fb), subs.push(s)),
{
    let tp = pools.push(pb);
    let tf = fronts.push(fb);
    let ts = subs.push(s);
    assert forall|i: int| 0 <= i < ts.len() implies search_step(
        &tp[i],
        tf[i],
        #[trigger] ts[i],
        &tp[i + 1],
        tf[i + 1],
        target,
        max_depth,
        max_nodes,
    ) by {
        if i < subs.len() {
            assert(ts[i] == subs[i]);
            assert(tp[i] == pools[i] && tp[i + 1] == pools[i + 1]);
            assert(tf[i] == fronts[i] && tf[i + 1] == fronts[i + 1]);
        } else {
            assert(tp[i] == pools.last() && tf[i] == fronts.last());
        }
    }
}

proof fn lemma_rule_moves_step(sb: Seq<Pool>, q: Pool, ms: Seq<MatchView>, v: Visit, visited: Seq<usize>, k: int)
    requires
        0 <= k,
        sb.len() == k + 1,
    ensures
        ({
            let prev = rule_moves(sb, ms, v, visited, k);
            let p = sb[k];
            let m = ms[k];
            let nr = made_id(&p, m);
            let g = q.expr_to_group@[nr];
            rule_moves(sb.push(q), ms, v, visited, k + 1) == if makes_new(&p, m) && !(visited + visit_groups(
                prev,
            )).contains(g.0) && step_allowed(&q, v.1, m.2, g, path_chain(&q, v.2)) {
                prev.push((ExprId(nr), g, v.2.push((v.0, m.2, ExprId(nr)))))
            } else {
                prev
            }
        }),
{
    lemma_rule_moves_prefix(sb, sb.push(q), ms, v, visited, k);
    assert(sb.push(q)[k] == sb[k]);
    assert(sb.push(q)[k + 1] == q);
}

proof fn lemma_rule_moves_prefix(a: Seq<Pool>, b: Seq<Pool>, ms: Seq<MatchView>, v: Visit, visited: Seq<usize>, n: int)
    requires
        0 <= n < a.len(),
        n < b.len(),
        forall|i: int| 0 <= i <= n ==> a[i] == b[i],
    ensures
        rule_moves(a, ms, v, visited, n) == rule_moves(b, ms, v, visited, n),
    decreases n,
{
    if n > 0 {
        lemma_rule_moves_prefix(a, b, ms, v, visited, n - 1);
        assert(a[n - 1] == b[n - 1]);
        assert(a[n] == b[n]);
    }
}

proof fn lemma_no_rules_no_matches(pool: &Pool, root: ExprId, v: int)
    requires
        pool.rules@.len() == 0,
    ensures
        tree_matches(pool, root, v).len() == 0,
    decreases v, 1int, 0int,
{
    if 0 <= v < pool.exprs@.len() {
        lemma_no_rules_kids(pool, root, v, spec_children(pool.exprs@, v).len() as int);
    }
}

proof fn lemma_no_rules_kids(pool: &Pool, root: ExprId, v: int, m: int)
    requires
        pool.rules@.len() == 0,
    ensures
        kids_matches(pool, root, v, m).len() == 0,
    decreases v, 0int, m,
{
    let kids = spec_children(pool.exprs@, v);
    if m > 0 && m <= kids.len() {
        let c = kids[kids.len() - m];
        lemma_no_rules_kids(pool, root, v, m - 1);
        if 0 <= c < v {
            lemma_no_rules_no_matches(pool, root, c);
        }
    }
}

proof fn lemma_hits_prefix(nodes: Seq<ExprNode>, moves: Seq<(ExprId, RuleId)>, t: int, n: int, m: int)
    requires
        0 <= n <= m <= moves.len(),
    ensures
        target_hits(nodes, moves, t, n).len() <= target_hits(nodes, moves, t, m).len(),
        forall|i: int|
            0 <= i < target_hits(nodes, moves, t, n).len() ==> target_hits(nodes, moves, t, n)[i] == target_hits(
                nodes,
                moves,
                t,
                m,
            )[i],
    decreases m - n,
{
    if n < m {
        lemma_hits_prefix(nodes, moves, t, n, m - 1);
    }
}

proof fn lemma_fresh_entries(pool: &Pool, start: ExprId, sg: EquivalenceGroupId, visited: Seq<usize>, chain: Seq<Step>, k: int)
    ensures
        forall|i: int|
            0 <= i < fresh_moves(pool, start, sg, visited, chain, k).len() ==> entries(pool.outgoing@, start.0).contains(
                #[trigger] fresh_moves(pool, start, sg, visited, chain, k)[i],
            ),
    decreases entries(pool.outgoing@, start.0).len() - k,
{
    let es = entries(pool.outgoing@, start.0);
    if 0 <= k < es.len() {
        let ng = pool.expr_to_group@[es[k].0.0];
        if !visited.contains(ng.0) && step_allowed(pool, sg, es[k].1, ng, chain) {
            lemma_fresh_entries(pool, start, sg, visited.push(ng.0), chain, k + 1);
            let f = fresh_moves(pool, start, sg, visited, chain, k);
            let rest = fresh_moves(pool, start, sg, visited.push(ng.0), chain, k + 1);
            assert forall|i: int| 0 <= i < f.len() implies es.contains(#[trigger] f[i]) by {
                if i == 0 {
                    assert(es[k] == f[0]);
                } else {
                    assert(f[i] == rest[i - 1]);
                }
            }
        } else {
            lemma_fresh_entries(pool, start, sg, visited, chain, k + 1);
            assert(fresh_moves(pool, start, sg, visited, chain, k) == fresh_moves(pool, start, sg, visited, chain, k + 1));
        }
    }
}

/// The recorded rewrites of `cur`, from position `k` of its list on, whose
/// result lies in a group not in `visited` and that `should_apply_rule`
/// allows from the group of `cur` after `chain`, in list order.
pub open spec fn allowed_moves(pool: &Pool, cur: ExprId, visited: Seq<usize>, chain: Seq<Step>, k: int) -> Seq<(ExprId, RuleId)>
    decreases entries(pool.outgoing@, cur.0).len() - k,
{
    let es = entries(pool.outgoing@, cur.0);
    if k < 0 || k >= es.len() {
        Seq::empty()
    } else {
        let ng = pool.expr_to_group@[es[k].0.0];
        let rest = allowed_moves(pool, cur, visited, chain, k + 1);
        if !visited.contains(ng.0) && step_allowed(pool, pool.expr_to_group@[cur.0], es[k].1, ng, chain) {
            seq![es[k]] + rest
        } else {
            rest
        }
    }
}

/// A state of the breadth-first search: where it stands, its group, the
/// rewrites that led there, and how many.
pub struct SearchState {
    pub expr_id: ExprId,
    pub group_id: EquivalenceGroupId,
    pub path: Vec<Rewrite>,
    pub depth: usize,
}

/// A search state agrees with the pool.
pub open spec fn state_ok(pool: &Pool, start: ExprId, s: SearchState) -> bool {
    &&& rewrite_path(pool, start, s.path@, s.expr_id)
    &&& s.depth == s.path@.len()
    &&& s.expr_id.0 < pool.exprs@.len()
    &&& pool.expr_to_group@.contains_key(s.expr_id.0)
    &&& forall|i: int| 0 <= i < s.path@.len() ==> pool.expr_to_group@.contains_key((#[trigger] s.path@[i]).0.0)
}

/// A path the search reports: it follows recorded rewrites from `start`,
/// is shorter than `max_depth`, is not empty when no target is given, and
/// ends at an expression equal to the target when one is.
pub open spec fn result_ok(pool: &Pool, start: ExprId, p: Seq<Rewrite>, target: Option<ExprId>, max_depth: usize) -> bool {
    &&& rewrite_path(pool, start, p, path_end(start, p))
    &&& path_end(start, p).0 < pool.exprs@.len()
    &&& p.len() < max_depth
    &&& target is None ==> p.len() > 0
    &&& target matches Some(t) ==> spec_expr_eq(pool.exprs@, path_end(start, p).0 as int, t.0 as int)
}

proof fn lemma_child_list_prefix(nodes: Seq<ExprNode>, more: Seq<ExprNode>, cur: int, remaining: nat)
    requires
        nodes_ok(nodes),
        0 <= cur < nodes.len(),
    ensures
        spec_child_list(nodes + more, cur, remaining) == spec_child_list(nodes, cur, remaining),
    decreases remaining,
{
    let all = nodes + more;
    assert(all[cur] == nodes[cur]);
    assert(spec_length(all, cur) == spec_length(nodes, cur));
    if remaining > 0 && cur >= spec_length(nodes, cur) {
        let next = cur - spec_length(nodes, cur);
        if next < nodes.len() && next >= 0 {
            lemma_child_list_prefix(nodes, more, next, (remaining - 1) as nat);
        }
    }
}

proof fn lemma_expr_eq_prefix(nodes: Seq<ExprNode>, more: Seq<ExprNode>, a: int, b: int)
    requires
        nodes_ok(nodes),
        0 <= a < nodes.len(),
        0 <= b < nodes.len(),
    ensures
        spec_expr_eq(nodes + more, a, b) == spec_expr_eq(nodes, a, b),
    decreases a, 1int, 0int,
{
    let all = nodes + more;
    assert(all[a] == nodes[a]);
    assert(all[b] == nodes[b]);
    match (nodes[a], nodes[b]) {
        (ExprNode::Call { .. }, ExprNode::Call { .. }) => {
            lemma_kids_eq_prefix(nodes, more, a, b, 0);
        },
        _ => {},
    }
}

proof fn lemma_children_prefix(nodes: Seq<ExprNode>, more: Seq<ExprNode>, a: int)
    requires
        nodes_ok(nodes),
        0 <= a < nodes.len(),
    ensures
        spec_children(nodes + more, a) == spec_children(nodes, a),
{
    let all = nodes + more;
    assert(all[a] == nodes[a]);
    if nodes[a].spec_arity() > 0 {
        assert(node_ok(nodes, a));
        lemma_child_list_prefix(nodes, more, a - 1, nodes[a].spec_arity() as nat);
    }
}

proof fn lemma_kids_eq_prefix(nodes: Seq<ExprNode>, more: Seq<ExprNode>, a: int, b: int, k: int)
    requires
        nodes_ok(nodes),
        0 <= a < nodes.len(),
        0 <= b < nodes.len(),
    ensures
        kids_eq(nodes + more, a, b, k) == kids_eq(nodes, a, b, k),
    decreases a, 0int, spec_children(nodes, a).len() - k,
{
    lemma_children_prefix(nodes, more, a);
    lemma_children_prefix(nodes, more, b);
    let ka = spec_children(nodes, a);
    let kb = spec_children(nodes, b);
    if 0 <= k < ka.len() && k < kb.len() {
        assert(nodes[a].spec_arity() > 0);
        assert(nodes[b].spec_arity() > 0);
        assert(node_ok(nodes, a));
        assert(node_ok(nodes, b));
        lemma_child_list_bounds(nodes, a - 1, nodes[a].spec_arity() as nat);
        lemma_child_list_bounds(nodes, b - 1, nodes[b].spec_arity() as nat);
        if 0 <= ka[k] < a {
            lemma_expr_eq_prefix(nodes, more, ka[k], kb[k]);
        }
        lemma_kids_eq_prefix(nodes, more, a, b, k + 1);
    }
}

proof fn lemma_grows_trans(a: &Pool, b: &Pool, c: &Pool)
    requires
        grows(a, b),
        grows(b, c),
    ensures
        grows(a, c),
{
    assert(c.exprs@.subrange(0, a.exprs@.len() as int) =~= c.exprs@.subrange(0, b.exprs@.len() as int).subrange(
        0,
        a.exprs@.len() as int,
    ));
}

proof fn lemma_state_grows(a: &Pool, b: &Pool, start: ExprId, s: SearchState)
    requires
        grows(a, b),
        state_ok(a, start, s),
    ensures
        state_ok(b, start, s),
{
    assert forall|i: int| 0 <= i < s.path@.len() implies edge(b, (#[trigger] s.path@[i]).0.0, s.path@[i].2.0, s.path@[i].1) by {
        assert(edge(a, s.path@[i].0.0, s.path@[i].2.0, s.path@[i].1));
    }
    assert forall|i: int| 0 <= i < s.path@.len() implies b.expr_to_group@.contains_key((#[trigger] s.path@[i]).0.0) by {
        assert(a.expr_to_group@.contains_key(s.path@[i].0.0));
    }
    assert(a.expr_to_group@.contains_key(s.expr_id.0));
}

proof fn lemma_result_grows(a: &Pool, b: &Pool, start: ExprId, p: Seq<Rewrite>, target: Option<ExprId>, max_depth: usize)
    requires
        grows(a, b),
        nodes_ok(a.exprs@),
        target matches Some(t) ==> t.0 < a.exprs@.len(),
        result_ok(a, start, p, target, max_depth),
    ensures
        result_ok(b, start, p, target, max_depth),
{
    assert forall|i: int| 0 <= i < p.len() implies edge(b, (#[trigger] p[i]).0.0, p[i].2.0, p[i].1) by {
        assert(edge(a, p[i].0.0, p[i].2.0, p[i].1));
    }
    if let Some(t) = target {
        let more = b.exprs@.subrange(a.exprs@.len() as int, b.exprs@.len() as int);
        assert(b.exprs@ =~= a.exprs@ + more);
        lemma_expr_eq_prefix(a.exprs@, more, path_end(start, p).0 as int, t.0 as int);
    }
}

pub proof fn lemma_tree_matches_root(pool: &Pool, root: ExprId, v: int)
    ensures
        forall|j: int| 0 <= j < tree_matches(pool, root, v).len() ==> (#[trigger] tree_matches(pool, root, v)[j]).0 == root,
    decreases v, 1int, 0int,
{
    if 0 <= v < pool.exprs@.len() {
        lemma_rule_matches_root(pool, root, v, pool.rules@.len() as int);
        lemma_kids_matches_root(pool, root, v, spec_children(pool.exprs@, v).len() as int);
        let a = rule_matches(pool, root, v, pool.rules@.len() as int);
        let b = kids_matches(pool, root, v, spec_children(pool.exprs@, v).len() as int);
        assert forall|j: int| 0 <= j < (a + b).len() implies #[trigger] (a + b)[j].0 == root by {
            if j < a.len() {
                assert((a + b)[j] == a[j]);
            } else {
                assert((a + b)[j] == b[j - a.len()]);
            }
        }
    }
}

pub proof fn lemma_rule_matches_root(pool: &Pool, root: ExprId, v: int, n: int)
    ensures
        forall|j: int| 0 <= j < rule_matches(pool, root, v, n).len() ==> (#[trigger] rule_matches(pool, root, v, n)[j]).0 == root,
    decreases n,
{
    if n > 0 {
        lemma_rule_matches_root(pool, root, v, n - 1);
        let prev = rule_matches(pool, root, v, n - 1);
        let cur = rule_matches(pool, root, v, n);
        assert forall|j: int| 0 <= j < cur.len() implies #[trigger] cur[j].0 == root by {
            if j < prev.len() {
                assert(cur[j] == prev[j]);
            }
        }
    }
}

pub proof fn lemma_kids_matches_root(pool: &Pool, root: ExprId, v: int, m: int)
    ensures
        forall|j: int| 0 <= j < kids_matches(pool, root, v, m).len() ==> (#[trigger] kids_matches(pool, root, v, m)[j]).0 == root,
    decreases v, 0int, m,
{
    let kids = spec_children(pool.exprs@, v);
    if m > 0 && m <= kids.len() {
        let c = kids[kids.len() - m];
        lemma_kids_matches_root(pool, root, v, m - 1);
        if 0 <= c < v {
            lemma_tree_matches_root(pool, root, c);
            let a = kids_matches(pool, root, v, m - 1);
            let b = tree_matches(pool, root, c);
            assert(kids_matches(pool, root, v, m) == a + b);
            assert forall|j: int| 0 <= j < (a + b).len() implies #[trigger] (a + b)[j].0 == root by {
                if j < a.len() {
                    assert((a + b)[j] == a[j]);
                } else {
                    assert((a + b)[j] == b[j - a.len()]);
                }
            }
        } else {
            assert(kids_matches(pool, root, v, m) == kids_matches(pool, root, v, m - 1));
        }
    }
}

} // verus!

verus! {

proof fn lemma_after_apply(p0: &Pool, p1: &Pool, root: ExprId, nr: ExprId, rule: RuleId)
    requires
        search_ready(p0),
        p0.exprs@.len() <= p1.exprs@.len(),
        p1.exprs@.subrange(0, p0.exprs@.len() as int) == p0.exprs@,
        exists|m0: Pool, m1: Pool, m2: Pool|
            #![trigger transformation_added(&m0, &m1, &m2, p1, root, nr, rule)]
            {
                &&& same_graph(p0, &m0)
                &&& crate::graph::same_but_graph(&m0, p1)
                &&& transformation_added(&m0, &m1, &m2, p1, root, nr, rule)
            },
        same_rule_side(p0, p1),
        nodes_ok(p1.exprs@),
        groups_keyed_ok(p1),
    ensures
        grows(p0, p1),
        search_ready(p1),
        edge(p1, root.0, nr.0, rule),
        p1.expr_to_group@.contains_key(nr.0),
{
    let (m0, m1, m2) = choose|m0: Pool, m1: Pool, m2: Pool|
        #![trigger transformation_added(&m0, &m1, &m2, p1, root, nr, rule)]
        {
            &&& same_graph(p0, &m0)
            &&& crate::graph::same_but_graph(&m0, p1)
            &&& transformation_added(&m0, &m1, &m2, p1, root, nr, rule)
        };
    law_recorded_rewrite(&m0, &m1, &m2, p1, root, nr, rule);
    assert(m2.outgoing@ == m0.outgoing@);
    assert forall|x: usize, y: usize, r: RuleId| #[trigger] edge(p0, x, y, r) implies edge(p1, x, y, r) by {
        assert(edge(&m0, x, y, r));
    }
    assert forall|k: usize| #[trigger] p0.expr_to_group@.contains_key(k) implies p1.expr_to_group@.contains_key(k) by {
        assert(m0.expr_to_group@.contains_key(k));
        assert(m1.expr_to_group@.contains_key(k));
        assert(m2.expr_to_group@.contains_key(k));
    }
    assert(m2.expr_to_group@.contains_key(nr.0));
    assert forall|a: usize, b: usize, r: RuleId| #[trigger] edge(p1, a, b, r) implies p1.expr_to_group@.contains_key(b) by {
        if a == root.0 {
            let k = entries(p1.outgoing@, a).index_of((ExprId(b), r));
            if k < entries(m2.outgoing@, a).len() {
                assert(entries(m2.outgoing@, a)[k] == (ExprId(b), r));
                assert(edge(&m0, a, b, r));
                assert(edge(p0, a, b, r));
                assert(p0.expr_to_group@.contains_key(b));
            } else {
                assert((ExprId(b), r) == (nr, rule));
            }
        } else {
            assert(m2.outgoing@.contains_key(a));
            assert(p1.outgoing@[a] == m2.outgoing@[a]);
            assert(edge(&m0, a, b, r));
            assert(edge(p0, a, b, r));
            assert(p0.expr_to_group@.contains_key(b));
        }
    }
}

proof fn lemma_after_grouping(p0: &Pool, p1: &Pool, e: usize)
    requires
        search_ready(p0),
        crate::graph::grouped(p0, p1, e),
        groups_keyed_ok(p1),
    ensures
        grows(p0, p1),
        search_ready(p1),
        p1.expr_to_group@.contains_key(e),
{
    assert(p1.exprs@.subrange(0, p0.exprs@.len() as int) =~= p0.exprs@);
    assert forall|x: usize, y: usize, r: RuleId| #[trigger] edge(p0, x, y, r) implies edge(p1, x, y, r) by {}
    assert forall|k: usize| #[trigger] p0.expr_to_group@.contains_key(k) implies p1.expr_to_group@.contains_key(k) by {}
    assert forall|a: usize, b: usize, r: RuleId| #[trigger] edge(p1, a, b, r) implies p1.expr_to_group@.contains_key(b) by {
        assert(edge(p0, a, b, r));
    }
}

} // verus!

verus! {

fn copy_rewrites(v: &Vec<Rewrite>) -> (r: Vec<Rewrite>)
    ensures
        r@ == v@,
{
    let mut out: Vec<Rewrite> = Vec::new();
    for i in 0..v.len()
        invariant
            out@ == v@.take(i as int),
    {
        out.push(v[i]);
        assert(v@.take(i + 1) =~= v@.take(i as int).push(v@[i as int]));
    }
    assert(v@.take(v@.len() as int) =~= v@);
    out
}

fn holds(v: &Vec<usize>, x: usize) -> (r: bool)
    ensures
        r == v@.contains(x),
{
    for i in 0..v.len()
        invariant
            forall|j: int| 0 <= j < i ==> v@[j] != x,
    {
        if v[i] == x {
            return true;
        }
    }
    false
}

/// `path` extended by one rewrite leads on to its result.
proof fn lemma_extend_path(pool: &Pool, start: ExprId, path: Seq<Rewrite>, cur: ExprId, step: Rewrite)
    requires
        rewrite_path(pool, start, path, cur),
        step.0 == cur,
        edge(pool, step.0.0, step.2.0, step.1),
    ensures
        rewrite_path(pool, start, path.push(step), step.2),
{
    let p = path.push(step);
    assert forall|i: int| 0 <= i < p.len() - 1 implies (#[trigger] p[i]).2 == p[i + 1].0 by {
        if i < path.len() - 1 {
            assert(path[i].2 == path[i + 1].0);
        } else {
            assert(p[i] == path.last());
        }
    }
    assert forall|i: int| 0 <= i < p.len() implies edge(pool, (#[trigger] p[i]).0.0, p[i].2.0, p[i].1) by {
        if i < path.len() {
            assert(p[i] == path[i]);
        }
    }
}

impl Pool {
    /// The chain of group steps a path took: the group of each rewritten
    /// expression with the rule applied to it.
    fn chain_of(&self, path: &Vec<Rewrite>) -> (r: Vec<Step>)
        requires
            forall|i: int| 0 <= i < path@.len() ==> self.expr_to_group@.contains_key((#[trigger] path@[i]).0.0),
        ensures
            r@.len() == path@.len(),
            forall|i: int|
                0 <= i < path@.len() ==> #[trigger] r@[i] == (self.expr_to_group@[path@[i].0.0], path@[i].1),
    {
        let mut out: Vec<Step> = Vec::new();
        for i in 0..path.len()
            invariant
                forall|j: int| 0 <= j < path@.len() ==> self.expr_to_group@.contains_key((#[trigger] path@[j]).0.0),
                out@.len() == i,
                forall|j: int| 0 <= j < i ==> #[trigger] out@[j] == (self.expr_to_group@[path@[j].0.0], path@[j].1),
        {
            let (from, rule, _) = path[i];
            assert(self.expr_to_group@.contains_key(path@[i as int].0.0));
            let g = self.get_equivalence_group(from).unwrap();
            out.push((g, rule));
        }
        out
    }

    /// A bounded breadth-first search from `start_expr` over recorded
    /// rewrites and over the rewrites the rules produce, one expression per
    /// equivalence group, taking only steps `should_apply_rule` allows.
    /// With a target, reports the paths that reach an expression equal to
    /// it; without, every non-empty path explored. No expression at depth
    /// `max_depth` or more is expanded, and the search stops after
    /// `max_nodes_explored` states. Nothing when `start_expr` has no group.
    /// When the limits leave room for the first layer, the search reports
    /// first its one-step paths, in order: all of them without a target, those
    /// whose result equals the target with one; and a start equal to the
    /// target is reported alone, as the empty path. In general, the search
    /// is a run of `search_step`s from `first_front` that ends where
    /// `front_done` holds: the pool it leaves is the last pool of that run,
    /// and it reports the paths of the last front, in order. On a pool
    /// without rules the search changes nothing, and what it reports is
    /// `bfs_paths`, in order.
    #[verifier::rlimit(80)]
    pub fn bounded_bfs(
        &mut self,
        start_expr: ExprId,
        target_expr: Option<ExprId>,
        max_depth: usize,
        max_nodes_explored: usize,
    ) -> (r: Vec<Vec<Rewrite>>)
        requires
            search_ready(old(self)),
            target_expr matches Some(t) ==> t.0 < old(self).exprs@.len(),
        ensures
            search_ready(final(self)),
            grows(old(self), final(self)),
            forall|i: int| 0 <= i < r@.len() ==> result_ok(final(self), start_expr, (#[trigger] r@[i])@, target_expr, max_depth),
            !old(self).expr_to_group@.contains_key(start_expr.0) ==> r@.len() == 0,
            target_expr is None && old(self).expr_to_group@.contains_key(start_expr.0) && max_depth >= 2
                && max_nodes_explored >= first_layer(old(self), start_expr).len() + 2 ==> {
                &&& r@.len() >= first_layer(old(self), start_expr).len()
                &&& forall|i: int|
                    0 <= i < first_layer(old(self), start_expr).len() ==> (#[trigger] r@[i])@ == one_step(
                        start_expr,
                        first_layer(old(self), start_expr)[i],
                    )
            },
            target_expr is Some && old(self).expr_to_group@.contains_key(start_expr.0) && spec_expr_eq(
                old(self).exprs@,
                start_expr.0 as int,
                target_expr.unwrap().0 as int,
            ) && max_depth > 0 && max_nodes_explored > 1 ==> r@.len() == 1 && r@[0]@.len() == 0,
            target_expr is Some && old(self).expr_to_group@.contains_key(start_expr.0) && !spec_expr_eq(
                old(self).exprs@,
                start_expr.0 as int,
                target_expr.unwrap().0 as int,
            ) && max_depth >= 2 && max_nodes_explored >= first_layer(old(self), start_expr).len() + 2 ==> {
                &&& r@.len() >= first_layer_hits(old(self), start_expr, target_expr.unwrap()).len()
                &&& forall|i: int|
                    0 <= i < first_layer_hits(old(self), start_expr, target_expr.unwrap()).len() ==> (
                    #[trigger] r@[i])@ == one_step(start_expr, first_layer_hits(old(self), start_expr, target_expr.unwrap())[i])
            },
            old(self).expr_to_group@.contains_key(start_expr.0) && max_nodes_explored > 0 ==> exists|
                pools: Seq<Pool>,
                fronts: Seq<Front>,
                subs: Seq<Seq<Pool>>,
            |
                {
                    &&& #[trigger] search_trace(
                        old(self),
                        start_expr,
                        target_expr,
                        max_depth as nat,
                        max_nodes_explored as nat,
                        pools,
                        fronts,
                        subs,
                    )
                    &&& pools.last() == *final(self)
                    &&& front_done(fronts.last(), max_nodes_explored as nat)
                    &&& r@.map_values(|p: Vec<Rewrite>| p@) == fronts.last().2
                },
            old(self).rules@.len() == 0 ==> {
                &&& *final(self) == *old(self)
                &&& r@.map_values(|p: Vec<Rewrite>| p@) == bfs_paths(
                    old(self),
                    start_expr,
                    target_expr,
                    max_depth as nat,
                    max_nodes_explored as nat,
                )
            },
    {
        let start_group = match self.get_equivalence_group(start_expr) {
            Some(g) => g,
            None => {
                proof {
                    assert(self.exprs@.subrange(0, self.exprs@.len() as int) =~= self.exprs@);
                }
                let none: Vec<Vec<Rewrite>> = Vec::new();
                proof {
                    assert(none@.map_values(|p: Vec<Rewrite>| p@) =~= Seq::<Seq<Rewrite>>::empty());
                }
                return none;
            },
        };
        let ghost p0 = *self;
        proof {
            assert(self.exprs@.subrange(0, self.exprs@.len() as int) =~= self.exprs@);
            assert(start_expr.0 < self.exprs@.len());
        }
        let mut paths: Vec<Vec<Rewrite>> = Vec::new();
        if max_nodes_explored == 0 {
            proof {
                assert(paths@.map_values(|p: Vec<Rewrite>| p@) =~= Seq::<Seq<Rewrite>>::empty());
            }
            return paths;
        }
        let mut queue: Vec<SearchState> = Vec::new();
        queue.push(SearchState { expr_id: start_expr, group_id: start_group, path: Vec::new(), depth: 0 });
        let mut visited: Vec<usize> = Vec::new();
        visited.push(start_group.0);
        let mut head: usize = 0;
        let mut explored: usize = 0;
        let ghost fl = first_layer(&p0, start_expr);
        let ghost promise = target_expr is None && max_depth >= 2 && max_nodes_explored >= fl.len() + 2;
        let ghost tt = target_expr.unwrap().0 as int;
        let ghost layer = max_depth >= 2 && max_nodes_explored >= fl.len() + 2 && (target_expr is None || !spec_expr_eq(
            p0.exprs@,
            start_expr.0 as int,
            tt,
        ));
        let ghost tgt = layer && target_expr is Some;
        let ghost hits = target_hits(p0.exprs@, fl, tt, fl.len() as int);
        let ghost eqstart = target_expr is Some && spec_expr_eq(p0.exprs@, start_expr.0 as int, tt) && max_depth > 0
            && max_nodes_explored > 1;
        let ghost norules = p0.rules@.len() == 0;
        let ghost model = bfs_paths(&p0, start_expr, target_expr, max_depth as nat, max_nodes_explored as nat);
        let ghost mdn = max_depth as nat;
        let ghost mnn = max_nodes_explored as nat;
        let ghost mut tp: Seq<Pool> = seq![p0];
        let ghost mut tf: Seq<Front> = seq![first_front(&p0, start_expr)];
        let ghost mut ts: Seq<Seq<Pool>> = Seq::empty();
        proof {
            assert(queue_view(queue@) =~= seq![(start_expr, start_group, Seq::<Rewrite>::empty())]);
            assert(paths@.map_values(|p: Vec<Rewrite>| p@) =~= Seq::<Seq<Rewrite>>::empty());
            assert(search_trace(&p0, start_expr, target_expr, mdn, mnn, tp, tf, ts));
            lemma_fresh_entries(&p0, start_expr, start_group, seq![start_group.0], Seq::empty(), 0);
            assert forall|i: int| 0 <= i < fl.len() implies (#[trigger] fl[i]).0.0 < p0.exprs@.len() by {
                let w = entries(p0.outgoing@, start_expr.0).index_of(fl[i]);
                assert(edge(&p0, start_expr.0, fl[i].0.0, fl[i].1));
            }
        }
        while head < queue.len()
            invariant_except_break
                explored < max_nodes_explored,
                tf.last() == (queue_view(queue@), visited@, paths@.map_values(|p: Vec<Rewrite>| p@), head as nat),
            invariant
                search_ready(self),
                grows(&p0, self),
                p0 == *old(self),
                target_expr matches Some(t) ==> t.0 < self.exprs@.len(),
                explored <= max_nodes_explored,
                head <= queue@.len(),
                forall|j: int| 0 <= j < queue@.len() ==> state_ok(self, start_expr, #[trigger] queue@[j]),
                forall|j: int| 0 <= j < paths@.len() ==> result_ok(self, start_expr, (#[trigger] paths@[j])@, target_expr, max_depth),
                head == explored,
                fl == fresh_moves(&p0, start_expr, start_group, seq![start_group.0], Seq::empty(), 0),
                promise == (target_expr is None && max_depth >= 2 && max_nodes_explored >= fl.len() + 2),
                tt == target_expr.unwrap().0 as int,
                search_ready(&p0),
                target_expr is Some ==> 0 <= tt < p0.exprs@.len(),
                layer == (max_depth >= 2 && max_nodes_explored >= fl.len() + 2 && (target_expr is None || !spec_expr_eq(
                    p0.exprs@,
                    start_expr.0 as int,
                    tt,
                ))),
                tgt == (layer && target_expr is Some),
                hits == target_hits(p0.exprs@, fl, tt, fl.len() as int),
                eqstart == (target_expr is Some && spec_expr_eq(p0.exprs@, start_expr.0 as int, tt) && max_depth > 0
                    && max_nodes_explored > 1),
                forall|i: int| 0 <= i < fl.len() ==> (#[trigger] fl[i]).0.0 < p0.exprs@.len(),
                tgt && 1 <= head <= fl.len() + 1 ==> paths@.len() == target_hits(p0.exprs@, fl, tt, head - 1).len(),
                tgt && head >= fl.len() + 1 ==> paths@.len() >= hits.len(),
                tgt ==> forall|i: int|
                    0 <= i < paths@.len() && i < hits.len() ==> (#[trigger] paths@[i])@ == one_step(start_expr, hits[i]),
                eqstart && head >= 1 ==> queue@.len() == 1 && paths@.len() == 1 && paths@[0]@.len() == 0,
                head == 0 ==> {
                    &&& *self == p0
                    &&& queue@.len() == 1
                    &&& queue@[0].expr_id == start_expr
                    &&& queue@[0].group_id == start_group
                    &&& queue@[0].path@.len() == 0
                    &&& queue@[0].depth == 0
                    &&& visited@ == seq![start_group.0]
                    &&& paths@.len() == 0
                },
                layer && head >= 1 ==> queue@.len() > fl.len() && forall|i: int|
                    1 <= i <= fl.len() ==> (#[trigger] queue@[i]).path@ == one_step(start_expr, fl[i - 1])
                        && queue@[i].depth == 1 && queue@[i].expr_id == fl[i - 1].0,
                promise && 1 <= head <= fl.len() + 1 ==> paths@.len() == head - 1,
                promise && head >= fl.len() + 1 ==> paths@.len() >= fl.len(),
                promise ==> forall|i: int|
                    0 <= i < paths@.len() && i < fl.len() ==> (#[trigger] paths@[i])@ == one_step(start_expr, fl[i]),
                norules == (p0.rules@.len() == 0),
                mdn == max_depth as nat,
                mnn == max_nodes_explored as nat,
                search_trace(&p0, start_expr, target_expr, mdn, mnn, tp, tf, ts),
                tp.last() == *self,
                model == bfs_paths(&p0, start_expr, target_expr, max_depth as nat, max_nodes_explored as nat),
                p0.expr_to_group@.contains_key(start_expr.0),
                norules ==> *self == p0,
                norules ==> bfs_run(
                    &p0,
                    target_expr,
                    max_depth as nat,
                    max_nodes_explored as nat,
                    queue_view(queue@),
                    visited@,
                    paths@.map_values(|p: Vec<Rewrite>| p@),
                    head as nat,
                ) == model,
            ensures
                search_ready(self),
                grows(&p0, self),
                forall|j: int| 0 <= j < paths@.len() ==> result_ok(self, start_expr, (#[trigger] paths@[j])@, target_expr, max_depth),
                promise ==> paths@.len() >= fl.len() && forall|i: int|
                    0 <= i < fl.len() ==> (#[trigger] paths@[i])@ == one_step(start_expr, fl[i]),
                tgt ==> paths@.len() >= hits.len() && forall|i: int|
                    0 <= i < hits.len() ==> (#[trigger] paths@[i])@ == one_step(start_expr, hits[i]),
                eqstart ==> paths@.len() == 1 && paths@[0]@.len() == 0,
                norules ==> *self == p0 && paths@.map_values(|p: Vec<Rewrite>| p@) == model,
                search_trace(&p0, start_expr, target_expr, mdn, mnn, tp, tf, ts),
                tp.last() == *self,
                front_done(tf.last(), mnn),
                tf.last().2 == paths@.map_values(|p: Vec<Rewrite>| p@),
            decreases max_nodes_explored - explored,
        {
            let ghost sq = queue_view(queue@);
            let ghost sv = visited@;
            let ghost sp = paths@.map_values(|p: Vec<Rewrite>| p@);
            let ghost sh = head as nat;
            let ghost pa = *self;
            let ghost fa = tf.last();
            let cur_expr = queue[head].expr_id;
            let cur_group = queue[head].group_id;
            let cur_depth = queue[head].depth;
            let cur_path = copy_rewrites(&queue[head].path);
            proof {
                assert(state_ok(self, start_expr, queue@[head as int]));
            }
            head = head + 1;
            explored = explored + 1;
            if explored >= max_nodes_explored {
                proof {
                    assert(fa == (sq, sv, sp, sh));
                }
                break;
            }
            if cur_depth >= max_depth {
                proof {
                    assert(sq[sh as int] == (cur_expr, cur_group, cur_path@));
                let nf = (queue_view(queue@), visited@, paths@.map_values(|p: Vec<Rewrite>| p@), head as nat);
                assert(search_step(&pa, fa, seq![pa], self, nf, target_expr, mdn, mnn));
                lemma_trace_push(&p0, start_expr, target_expr, mdn, mnn, tp, tf, ts, seq![pa], *self, nf);
                tp = tp.push(*self);
                tf = tf.push(nf);
                ts = ts.push(seq![pa]);
                }
                continue;
            }
            match target_expr {
                Some(t) => {
                    let ghost h0 = (head - 1) as int;
                    let ghost pb = paths@;
                    proof {
                        let more = self.exprs@.subrange(p0.exprs@.len() as int, self.exprs@.len() as int);
                        assert(self.exprs@ =~= p0.exprs@ + more);
                        if tgt && 1 <= h0 <= fl.len() {
                            assert(cur_expr == fl[h0 - 1].0);
                            lemma_expr_eq_prefix(p0.exprs@, more, cur_expr.0 as int, tt);
                        }
                        if h0 == 0 {
                            assert(cur_expr == start_expr);
                        }
                    }
                    if self.expr_eq(cur_expr, t) {
                        paths.push(cur_path);
                        proof {
                            assert forall|i: int| 0 <= i < pb.len() implies paths@[i] == pb[i] by {}
                            if tgt && 1 <= h0 <= fl.len() {
                                lemma_hits_prefix(p0.exprs@, fl, tt, h0, fl.len() as int);
                                assert(target_hits(p0.exprs@, fl, tt, h0) == target_hits(p0.exprs@, fl, tt, h0 - 1).push(
                                    fl[h0 - 1],
                                ));
                                let l = pb.len() as int;
                                assert(target_hits(p0.exprs@, fl, tt, h0)[l] == fl[h0 - 1]);
                                assert(hits[l] == fl[h0 - 1]);
                            }
                            if tgt && h0 > fl.len() {
                                assert(pb.len() >= hits.len());
                            }
                            if norules {
                                assert(sq[sh as int] == (cur_expr, cur_group, cur_path@));
                                assert(paths@.map_values(|p: Vec<Rewrite>| p@) =~= sp.push(cur_path@));
                            }
                            assert(sq[sh as int] == (cur_expr, cur_group, cur_path@));
                            assert(paths@.map_values(|p: Vec<Rewrite>| p@) =~= sp.push(cur_path@));
                            let nf = (queue_view(queue@), visited@, paths@.map_values(|p: Vec<Rewrite>| p@), head as nat);
                assert(search_step(&pa, fa, seq![pa], self, nf, target_expr, mdn, mnn));
                lemma_trace_push(&p0, start_expr, target_expr, mdn, mnn, tp, tf, ts, seq![pa], *self, nf);
                tp = tp.push(*self);
                tf = tf.push(nf);
                ts = ts.push(seq![pa]);
                        }
                        continue;
                    }
                    proof {
                        if tgt && 1 <= h0 <= fl.len() {
                            assert(target_hits(p0.exprs@, fl, tt, h0) == target_hits(p0.exprs@, fl, tt, h0 - 1));
                        }
                    }
                },
                None => {},
            }
            let ghost cv: Visit = (cur_expr, cur_group, cur_path@);
            let ghost ch = path_chain(self, cur_path@);
            let ghost mv = fresh_moves(self, cur_expr, cur_group, sv, ch, 0);
            proof {
                assert(sq[sh as int] == cv);
                assert(queue_view(queue@) =~= sq + mv.subrange(0, 0).map_values(
                    |m: (ExprId, RuleId)| visit_after(self, cv, m),
                ));
                assert(visited@ =~= sv + mv.subrange(0, 0).map_values(
                    |m: (ExprId, RuleId)| self.expr_to_group@[m.0.0].0,
                ));
                assert(mv.subrange(0, mv.len() as int) =~= mv);
            }
            match self.get_outgoing_transformations(cur_expr) {
                Some(list) => {
                    for k in 0..list.len()
                        invariant
                            sq.len() <= queue@.len() <= sq.len() + mv.len(),
                            queue_view(queue@) == sq + mv.subrange(0, queue@.len() - sq.len()).map_values(
                                |m: (ExprId, RuleId)| visit_after(self, cv, m),
                            ),
                            visited@ == sv + mv.subrange(0, queue@.len() - sq.len()).map_values(
                                |m: (ExprId, RuleId)| self.expr_to_group@[m.0.0].0,
                            ),
                            mv.subrange(queue@.len() - sq.len(), mv.len() as int) == fresh_moves(
                                self,
                                cur_expr,
                                cur_group,
                                visited@,
                                ch,
                                k as int,
                            ),
                            ch == path_chain(self, cur_path@),
                            cv == (cur_expr, cur_group, cur_path@),
                            search_ready(self),
                            self.outgoing@.contains_key(cur_expr.0),
                            *list == self.outgoing@[cur_expr.0],
                            rewrite_path(self, start_expr, cur_path@, cur_expr),
                            cur_path@.len() == cur_depth,
                            cur_depth < max_depth,
                            cur_expr.0 < self.exprs@.len(),
                            forall|i: int| 0 <= i < cur_path@.len() ==> self.expr_to_group@.contains_key((#[trigger] cur_path@[i]).0.0),
                            self.expr_to_group@.contains_key(cur_expr.0),
                            forall|j: int| 0 <= j < queue@.len() ==> state_ok(self, start_expr, #[trigger] queue@[j]),
                            head <= queue@.len(),
                            head == 1 ==> *self == p0 && cur_expr == start_expr && cur_group == start_group
                                && cur_path@.len() == 0,
                            head == 1 ==> {
                                &&& 1 <= queue@.len() <= fl.len() + 1
                                &&& fl.subrange(queue@.len() - 1, fl.len() as int) == fresh_moves(
                                    &p0,
                                    start_expr,
                                    start_group,
                                    visited@,
                                    Seq::empty(),
                                    k as int,
                                )
                                &&& forall|i: int|
                                    1 <= i < queue@.len() ==> (#[trigger] queue@[i]).path@ == one_step(start_expr, fl[i - 1])
                                        && queue@[i].depth == 1 && queue@[i].expr_id == fl[i - 1].0
                            },
                            layer && head >= 2 ==> queue@.len() > fl.len() && forall|i: int|
                                1 <= i <= fl.len() ==> (#[trigger] queue@[i]).path@ == one_step(start_expr, fl[i - 1])
                                    && queue@[i].depth == 1 && queue@[i].expr_id == fl[i - 1].0,
                    {
                        let (next_expr, rule) = list[k];
                        proof {
                            assert(entries(self.outgoing@, cur_expr.0)[k as int] == (next_expr, rule));
                            assert(edge(self, cur_expr.0, next_expr.0, rule));
                        }
                        let next_group = self.get_equivalence_group(next_expr).unwrap();
                        let chain = self.chain_of(&cur_path);
                        let ghost t0 = queue@.len() - sq.len();
                        let ghost qv0 = queue_view(queue@);
                        let ghost vis0 = visited@;
                        proof {
                            assert(chain@ =~= ch);
                            assert(self.expr_to_group@[next_expr.0] == next_group);
                            if head == 1 {
                                assert(chain@ =~= Seq::<Step>::empty());
                                assert(list@ == entries(p0.outgoing@, start_expr.0));
                            }
                        }
                        if !holds(&visited, next_group.0) && self.should_apply_rule(cur_group, rule, next_group, &chain) {
                            let mut new_path = copy_rewrites(&cur_path);
                            new_path.push((cur_expr, rule, next_expr));
                            proof {
                                if head == 1 {
                                    assert(new_path@ =~= seq![(start_expr, rule, next_expr)]);
                                    assert(entries(p0.outgoing@, start_expr.0)[k as int] == (next_expr, rule));
                                    assert(p0.expr_to_group@[next_expr.0] == next_group);
                                    assert(step_allowed(&p0, start_group, rule, next_group, Seq::<Step>::empty()));
                                    assert(fresh_moves(&p0, start_expr, start_group, visited@, Seq::empty(), k as int) == seq![(next_expr, rule)]
                                        + fresh_moves(&p0, start_expr, start_group, visited@.push(next_group.0), Seq::empty(), k + 1));
                                    let l = queue@.len() - 1;
                                    assert(fl.subrange(l, fl.len() as int)[0] == (next_expr, rule));
                                    assert(fl.subrange(l + 1, fl.len() as int) =~= fl.subrange(l, fl.len() as int).subrange(
                                        1,
                                        fl.len() - l,
                                    ));
                                }
                                lemma_extend_path(self, start_expr, cur_path@, cur_expr, (cur_expr, rule, next_expr));
                                assert(self.expr_to_group@.contains_key(next_expr.0));
                                assert(next_expr.0 < self.exprs@.len());
                                assert forall|i: int| 0 <= i < new_path@.len() implies self.expr_to_group@.contains_key(
                                    (#[trigger] new_path@[i]).0.0,
                                ) by {
                                    if i < cur_path@.len() {
                                        assert(new_path@[i] == cur_path@[i]);
                                    }
                                }
                            }
                            let ghost q0 = queue@;
                            queue.push(SearchState { expr_id: next_expr, group_id: next_group, path: new_path, depth: cur_depth + 1 });
                            visited.push(next_group.0);
                            proof {
                                assert forall|i: int| 0 <= i < q0.len() implies queue@[i] == q0[i] by {}
                                assert(fresh_moves(self, cur_expr, cur_group, vis0, ch, k as int) == seq![(next_expr, rule)]
                                    + fresh_moves(self, cur_expr, cur_group, vis0.push(next_group.0), ch, k + 1));
                                let tail = mv.subrange(t0, mv.len() as int);
                                assert(tail[0] == (next_expr, rule));
                                assert(mv[t0] == (next_expr, rule));
                                assert(mv.subrange(t0 + 1, mv.len() as int) =~= tail.subrange(1, tail.len() as int));
                                assert(queue_view(queue@) =~= qv0.push(visit_after(self, cv, (next_expr, rule))));
                                assert(mv.subrange(0, t0 + 1) =~= mv.subrange(0, t0).push(mv[t0]));
                                assert(queue_view(queue@) =~= sq + mv.subrange(0, t0 + 1).map_values(
                                    |m: (ExprId, RuleId)| visit_after(self, cv, m),
                                ));
                                assert(visited@ =~= sv + mv.subrange(0, t0 + 1).map_values(
                                    |m: (ExprId, RuleId)| self.expr_to_group@[m.0.0].0,
                                ));
                            }
                        } else {
                            proof {
                                assert(fresh_moves(self, cur_expr, cur_group, vis0, ch, k as int) == fresh_moves(
                                    self,
                                    cur_expr,
                                    cur_group,
                                    vis0,
                                    ch,
                                    k + 1,
                                ));
                                if head == 1 {
                                    assert(entries(p0.outgoing@, start_expr.0)[k as int] == (next_expr, rule));
                                    assert(p0.expr_to_group@[next_expr.0] == next_group);
                                    assert(fresh_moves(&p0, start_expr, start_group, visited@, Seq::empty(), k as int) == fresh_moves(
                                        &p0,
                                        start_expr,
                                        start_group,
                                        visited@,
                                        Seq::empty(),
                                        k + 1,
                                    ));
                                }
                            }
                        }
                    }
                    proof {
                        if head == 1 {
                            assert(fresh_moves(&p0, start_expr, start_group, visited@, Seq::empty(), list@.len() as int)
                                =~= Seq::<(ExprId, RuleId)>::empty());
                        }
                        assert(fresh_moves(self, cur_expr, cur_group, visited@, ch, list@.len() as int)
                            =~= Seq::<(ExprId, RuleId)>::empty());
                        assert(mv.subrange(0, mv.len() as int) =~= mv);
                    }
                },
                None => {
                    proof {
                        assert(entries(self.outgoing@, cur_expr.0) =~= Seq::<(ExprId, RuleId)>::empty());
                        assert(mv =~= Seq::<(ExprId, RuleId)>::empty());
                        assert(mv.subrange(0, mv.len() as int) =~= mv);
                        if head == 1 {
                            assert(entries(p0.outgoing@, start_expr.0) =~= Seq::<(ExprId, RuleId)>::empty());
                            assert(fl =~= Seq::<(ExprId, RuleId)>::empty());
                        }
                    }
                },
            }
            let ghost qx = queue_view(queue@);
            let ghost vx = visited@;
            proof {
                assert(qx == sq + mv.map_values(|m: (ExprId, RuleId)| visit_after(self, cv, m)));
                assert(vx == sv + mv.map_values(|m: (ExprId, RuleId)| self.expr_to_group@[m.0.0].0));
            }
            let matches = self.find_matches(cur_expr);
            let ghost ms = matches@.map_values(|m: crate::rules::Match| m@);
            let ghost mut sb: Seq<Pool> = seq![*self];
            proof {
                assert(*self == pa);
                assert(qx =~= sq + mv.map_values(|m: (ExprId, RuleId)| visit_after(&pa, cv, m)));
                assert(vx =~= sv + mv.map_values(|m: (ExprId, RuleId)| pa.expr_to_group@[m.0.0].0));
                assert(queue_view(queue@) =~= qx + rule_moves(sb, ms, cv, vx, 0));
                assert(visited@ =~= vx + visit_groups(rule_moves(sb, ms, cv, vx, 0)));
                if norules {
                    lemma_no_rules_no_matches(self, cur_expr, cur_expr.0 as int);
                    assert(matches@.map_values(|m: crate::rules::Match| m@).len() == 0);
                }
                lemma_tree_matches_root(self, cur_expr, cur_expr.0 as int);
                assert forall|j: int| 0 <= j < matches@.len() implies (#[trigger] matches@[j]).root == cur_expr by {
                    assert(matches@.map_values(|m: crate::rules::Match| m@)[j] == matches@[j]@);
                }
            }
            for k in 0..matches.len()
                invariant
                    ms == matches@.map_values(|m: crate::rules::Match| m@),
                    ms == tree_matches(&pa, cur_expr, cur_expr.0 as int),
                    sb.len() == k + 1,
                    sb[0] == pa,
                    sb.last() == *self,
                    forall|j: int| 0 <= j < k ==> match_tried(&sb[j], #[trigger] ms[j], &sb[j + 1]),
                    queue_view(queue@) == qx + rule_moves(sb, ms, cv, vx, k as int),
                    visited@ == vx + visit_groups(rule_moves(sb, ms, cv, vx, k as int)),
                    cv == (cur_expr, cur_group, cur_path@),
                    norules ==> matches@.len() == 0,
                    norules ==> *self == p0 && queue_view(queue@) == qx && visited@ == vx,
                    search_ready(self),
                    grows(&p0, self),
                    target_expr matches Some(t) ==> t.0 < self.exprs@.len(),
                    forall|j: int| 0 <= j < matches@.len() ==> (#[trigger] matches@[j]).root == cur_expr,
                    rewrite_path(self, start_expr, cur_path@, cur_expr),
                    cur_path@.len() == cur_depth,
                    cur_depth < max_depth,
                    cur_expr.0 < self.exprs@.len(),
                    forall|i: int| 0 <= i < cur_path@.len() ==> self.expr_to_group@.contains_key((#[trigger] cur_path@[i]).0.0),
                    self.expr_to_group@.contains_key(cur_expr.0),
                    forall|j: int| 0 <= j < queue@.len() ==> state_ok(self, start_expr, #[trigger] queue@[j]),
                    forall|j: int| 0 <= j < paths@.len() ==> result_ok(self, start_expr, (#[trigger] paths@[j])@, target_expr, max_depth),
                    head <= queue@.len(),
                    layer && head >= 1 ==> queue@.len() > fl.len() && forall|i: int|
                        1 <= i <= fl.len() ==> (#[trigger] queue@[i]).path@ == one_step(start_expr, fl[i - 1])
                            && queue@[i].depth == 1 && queue@[i].expr_id == fl[i - 1].0,
            {
                let m = &matches[k];
                let ghost pk = *self;
                let ghost rmk = rule_moves(sb, ms, cv, vx, k as int);
                let ghost qb = queue_view(queue@);
                let ghost vb = visited@;
                proof {
                    assert(ms[k as int] == m@);
                }
                if self.can_apply(m) {
                    let ghost before = *self;
                    let applied = self.apply_rule(m);
                    match applied {
                        Some(new_expr) => {
                            let ghost mid0 = *self;
                            proof {
                                assert(rule_applied(&pk, ms[k as int], &mid0));
                                assert(new_expr.0 == made_id(&pk, ms[k as int]));
                            }
                            proof {
                                assert(m.root == cur_expr);
                                assert(self.exprs@.subrange(0, before.exprs@.len() as int) =~= before.exprs@);
                                lemma_after_apply(&before, self, m.root, new_expr, m.rule_id);
                            }
                            let ghost mid = *self;
                            self.update_equivalence_groups(new_expr);
                            proof {
                                lemma_after_grouping(&mid, self, new_expr.0);
                                lemma_grows_trans(&before, &mid, self);
                                lemma_grows_trans(&p0, &before, self);
                                assert(edge(self, cur_expr.0, new_expr.0, m.rule_id));
                                assert forall|j: int| 0 <= j < queue@.len() implies state_ok(self, start_expr, #[trigger] queue@[j]) by {
                                    lemma_state_grows(&before, self, start_expr, queue@[j]);
                                }
                                assert forall|j: int| 0 <= j < paths@.len() implies result_ok(
                                    self,
                                    start_expr,
                                    (#[trigger] paths@[j])@,
                                    target_expr,
                                    max_depth,
                                ) by {
                                    lemma_result_grows(&before, self, start_expr, paths@[j]@, target_expr, max_depth);
                                }
                                let cs = SearchState { expr_id: cur_expr, group_id: cur_group, path: cur_path, depth: cur_depth };
                                assert(state_ok(&before, start_expr, cs));
                                lemma_state_grows(&before, self, start_expr, cs);
                            }
                            proof {
                                assert(match_tried(&pk, ms[k as int], self));
                            }
                            match self.get_equivalence_group(new_expr) {
                                Some(new_group) => {
                                    let ch2 = self.chain_of(&cur_path);
                                    proof {
                                        assert(ch2@ =~= path_chain(self, cur_path@));
                                    }
                                    if !holds(&visited, new_group.0) && self.should_apply_rule(
                                        cur_group,
                                        m.rule_id,
                                        new_group,
                                        &ch2,
                                    ) {
                                        let mut new_path = copy_rewrites(&cur_path);
                                        new_path.push((cur_expr, m.rule_id, new_expr));
                                        proof {
                                            lemma_extend_path(self, start_expr, cur_path@, cur_expr, (cur_expr, m.rule_id, new_expr));
                                            assert forall|i: int| 0 <= i < new_path@.len() implies self.expr_to_group@.contains_key(
                                                (#[trigger] new_path@[i]).0.0,
                                            ) by {
                                                if i < cur_path@.len() {
                                                    assert(new_path@[i] == cur_path@[i]);
                                                }
                                            }
                                        }
                                        let ghost q0 = queue@;
                                        queue.push(SearchState { expr_id: new_expr, group_id: new_group, path: new_path, depth: cur_depth + 1 });
                                        visited.push(new_group.0);
                                        proof {
                                            assert forall|i: int| 0 <= i < q0.len() implies queue@[i] == q0[i] by {}
                                            let x: Visit = (new_expr, new_group, cur_path@.push((cur_expr, m.rule_id, new_expr)));
                                            lemma_rule_moves_step(sb, *self, ms, cv, vx, k as int);
                                            assert(rule_moves(sb.push(*self), ms, cv, vx, k + 1) == rmk.push(x));
                                            assert(queue_view(queue@) =~= qb.push(x));
                                            assert(visit_groups(rmk.push(x)) =~= visit_groups(rmk).push(x.1.0));
                                            assert(queue_view(queue@) =~= qx + rmk.push(x));
                                            assert(visited@ =~= vx + visit_groups(rmk.push(x)));
                                        }
                                    } else {
                                        proof {
                                            lemma_rule_moves_step(sb, *self, ms, cv, vx, k as int);
                                            assert(rule_moves(sb.push(*self), ms, cv, vx, k + 1) == rmk);
                                        }
                                    }
                                },
                                None => {
                                    proof {
                                        assert(false);
                                    }
                                },
                            }
                        },
                        None => {
                            proof {
                                assert(*self == pk);
                                assert(!makes_new(&pk, ms[k as int]));
                                lemma_rule_moves_step(sb, *self, ms, cv, vx, k as int);
                                assert(rule_moves(sb.push(*self), ms, cv, vx, k + 1) == rmk);
                            }
                        },
                    }
                } else {
                    proof {
                        assert(!makes_new(&pk, ms[k as int]));
                        lemma_rule_moves_step(sb, *self, ms, cv, vx, k as int);
                        assert(rule_moves(sb.push(*self), ms, cv, vx, k + 1) == rmk);
                    }
                }
                proof {
                    let sb2 = sb.push(*self);
                    assert forall|j: int| 0 <= j < k + 1 implies match_tried(&sb2[j], #[trigger] ms[j], &sb2[j + 1]) by {
                        if j < k {
                            assert(sb2[j] == sb[j] && sb2[j + 1] == sb[j + 1]);
                        } else {
                            assert(sb2[j] == pk);
                        }
                    }
                    sb = sb2;
                }
            }
            let ghost pa0 = paths@;
            if target_expr.is_none() && cur_depth > 0 {
                paths.push(cur_path);
            }
            proof {
                assert forall|i: int| 0 <= i < pa0.len() implies paths@[i] == pa0[i] by {}
                if norules {
                    let pv = paths@.map_values(|p: Vec<Rewrite>| p@);
                    if target_expr is None && cur_depth > 0 {
                        assert(pv =~= sp.push(cur_path@));
                    } else {
                        assert(pv =~= sp);
                    }
                    assert(bfs_run(&p0, target_expr, max_depth as nat, max_nodes_explored as nat, sq, sv, sp, sh)
                        == bfs_run(&p0, target_expr, max_depth as nat, max_nodes_explored as nat, qx, vx, pv, sh + 1));
                }
                assert(sq[sh as int] == cv);
                assert(fa == (sq, sv, sp, sh));
                if target_expr is None && cur_depth > 0 {
                    assert(paths@.map_values(|p: Vec<Rewrite>| p@) =~= sp.push(cur_path@));
                } else {
                    assert(paths@.map_values(|p: Vec<Rewrite>| p@) =~= sp);
                }
                let nf = (queue_view(queue@), visited@, paths@.map_values(|p: Vec<Rewrite>| p@), head as nat);
                assert(search_step(&pa, fa, sb, self, nf, target_expr, mdn, mnn));
                lemma_trace_push(&p0, start_expr, target_expr, mdn, mnn, tp, tf, ts, sb, *self, nf);
                tp = tp.push(*self);
                tf = tf.push(nf);
                ts = ts.push(sb);
            }
        }
        proof {
            assert(search_trace(old(self), start_expr, target_expr, mdn, mnn, tp, tf, ts));
        }
        paths
    }
}

} // verus!

verus! {

impl Pool {
    /// Whether every target of a recorded rewrite is grouped.
    fn targets_in_groups(&self) -> (r: bool)
        ensures
            r == targets_grouped(self),
    {
        let ghost ks = vstd::std_specs::iter::IteratorSpec::remaining(&vstd::std_specs::btree::spec_keys_iter(&self.outgoing));
        for a in it: self.outgoing.keys()
            invariant
                it.seq() == ks,
                forall|j: int, b: usize, r: RuleId|
                    0 <= j < it.index() && #[trigger] edge(self, *ks[j], b, r) ==> self.expr_to_group@.contains_key(b),
        {
            let list = self.outgoing.get(a).unwrap();
            proof {
                assert(ks.unref().to_set().contains(*a)) by {
                    assert(ks.unref()[it.index() as int] == *a);
                }
            }
            for k in 0..list.len()
                invariant
                    self.outgoing@.contains_key(*a),
                    *list == self.outgoing@[*a],
                    forall|m: int| 0 <= m < k ==> self.expr_to_group@.contains_key((#[trigger] list@[m]).0.0),
            {
                if self.get_equivalence_group(list[k].0).is_none() {
                    proof {
                        assert(entries(self.outgoing@, *a)[k as int] == list@[k as int]);
                        assert(edge(self, *a, list@[k as int].0.0, list@[k as int].1));
                    }
                    return false;
                }
            }
            proof {
                assert forall|j: int, b: usize, r: RuleId|
                    0 <= j < it.index() + 1 && #[trigger] edge(self, *ks[j], b, r) implies self.expr_to_group@.contains_key(b) by {
                    if j == it.index() {
                        assert(*ks[j] == *a);
                        let m = entries(self.outgoing@, *a).index_of((ExprId(b), r));
                        assert(list@[m].0.0 == b);
                    }
                }
            }
        }
        proof {
            assert forall|x: usize, b: usize, r: RuleId| #[trigger] edge(self, x, b, r) implies self.expr_to_group@.contains_key(b) by {
                assert(self.outgoing@.contains_key(x));
                assert(ks.unref().to_set().contains(x));
                let j = ks.unref().index_of(x);
                assert(*ks[j] == x);
            }
        }
        true
    }

    /// The recorded rewrites of `cur`, in list order, whose result lies in a
    /// group not in `visited` and that `should_apply_rule` allows after
    /// `chain`: the moves a walk from `cur` can take by a recorded rewrite.
    pub fn recorded_moves(&self, cur: ExprId, visited: &Vec<usize>, chain: &Vec<Step>) -> (r: Vec<(ExprId, RuleId)>)
        requires
            self.expr_to_group@.contains_key(cur.0),
            targets_grouped(self),
        ensures
            r@ == allowed_moves(self, cur, visited@, chain@, 0),
    {
        let mut out: Vec<(ExprId, RuleId)> = Vec::new();
        let cur_group = self.get_equivalence_group(cur).unwrap();
        match self.get_outgoing_transformations(cur) {
            Some(list) => {
                for k in 0..list.len()
                    invariant
                        self.outgoing@.contains_key(cur.0),
                        *list == self.outgoing@[cur.0],
                        targets_grouped(self),
                        cur_group == self.expr_to_group@[cur.0],
                        out@ + allowed_moves(self, cur, visited@, chain@, k as int) == allowed_moves(
                            self,
                            cur,
                            visited@,
                            chain@,
                            0,
                        ),
                {
                    let (next, rule) = list[k];
                    proof {
                        assert(entries(self.outgoing@, cur.0)[k as int] == (next, rule));
                        assert(edge(self, cur.0, next.0, rule));
                    }
                    let next_group = self.get_equivalence_group(next).unwrap();
                    let ghost before = out@;
                    if !holds(visited, next_group.0) && self.should_apply_rule(cur_group, rule, next_group, chain.as_slice()) {
                        out.push((next, rule));
                        proof {
                            assert(before + allowed_moves(self, cur, visited@, chain@, k as int) =~= out@ + allowed_moves(
                                self,
                                cur,
                                visited@,
                                chain@,
                                k + 1,
                            ));
                        }
                    }
                }
                proof {
                    assert(allowed_moves(self, cur, visited@, chain@, list@.len() as int) =~= Seq::<(ExprId, RuleId)>::empty());
                    assert(out@ =~= out@ + Seq::<(ExprId, RuleId)>::empty());
                }
            },
            None => {
                proof {
                    assert(entries(self.outgoing@, cur.0) =~= Seq::<(ExprId, RuleId)>::empty());
                }
            },
        }
        out
    }

    /// Whether the pool is ready for `bounded_bfs`.
    pub fn search_ready_check(&self) -> (r: bool)
        ensures
            r == search_ready(self),
    {
        self.matching_ready() && self.groups_in_range() && self.targets_in_groups()
    }
}

} // verus!
