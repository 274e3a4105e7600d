use vstd::prelude::*;

use crate::ast::{Action, ExprNode, Function, Pattern, Rule, Ruleset};
use crate::children::{nodes_ok, node_ok, spec_children, Children, NodeInfo};
use crate::idx::{ActionId, EquivalenceGroupId, ExprId, FunctionId, NameId, PatternId, RuleId, RulesetId};
use crate::text::{join_comma, nat_text, push_char, push_joined, usize_to_string};
use std::collections::{BTreeMap, BTreeSet};

verus! {

broadcast use {vstd::std_specs::btree::group_btree_axioms, vstd::laws_cmp::group_laws_cmp};

/// A span of source text.
#[derive(Debug, Clone, Copy, PartialEq, Eq, Structural)]
pub struct Location {
    pub start: usize,
    pub end: usize,
}

impl Location {
    pub fn new(start: usize, end: usize) -> (r: Self)
        ensures
            r.start == start,
            r.end == end,
    {
        Self { start, end }
    }

    /// The length of the span.
    pub fn span(&self) -> (r: usize)
        requires
            self.start <= self.end,
        ensures
            r == self.end - self.start,
    {
        self.end - self.start
    }
}

/// Where an expression node came from.
#[derive(Debug, Clone, Copy)]
pub enum Provenance {
    Parsed(Location),
    Rule { rule_id: RuleId, source_node: ExprId, source_location: Location },
}

/// A path from a root to a subexpression, one child index per level.
#[derive(Debug, Clone, PartialEq)]
pub struct Coordinate {
    pub path: Vec<usize>,
}

impl Coordinate {
    pub fn root() -> (r: Self)
        ensures
            r.path@ == Seq::<usize>::empty(),
    {
        Self { path: Vec::new() }
    }

    /// The coordinate one level further down, at child `index`.
    pub fn child(&self, index: usize) -> (r: Self)
        ensures
            r.path@ == self.path@.push(index),
    {
        let mut path = copy_path(&self.path);
        path.push(index);
        Self { path }
    }

    /// The coordinate one level up; `None` at the root.
    pub fn parent(&self) -> (r: Option<Self>)
        ensures
            self.path@.len() == 0 ==> r is None,
            self.path@.len() > 0 ==> r is Some && r->0.path@ == self.path@.drop_last(),
    {
        if self.path.len() == 0 {
            None
        } else {
            let mut path = copy_path(&self.path);
            path.pop();
            Some(Self { path })
        }
    }
}

/// `[a, b, ...]`: the child indices of a coordinate, separated by commas.
pub open spec fn coordinate_text(path: Seq<usize>) -> Seq<char> {
    seq!['['] + join_comma(path.map_values(|x: usize| nat_text(x as nat))) + seq![']']
}

impl Coordinate {
    /// The text of the coordinate: `[]` at the root, else its child indices
    /// in brackets.
    pub fn to_text(&self) -> (r: String)
        ensures
            r@ == coordinate_text(self.path@),
    {
        let mut parts: Vec<String> = Vec::new();
        for i in 0..self.path.len()
            invariant
                parts@.map_values(|p: String| p@) == self.path@.take(i as int).map_values(|x: usize| nat_text(x as nat)),
        {
            let t = usize_to_string(self.path[i]);
            let ghost before = parts@;
            parts.push(t);
            proof {
                assert(parts@.map_values(|p: String| p@) =~= before.map_values(|p: String| p@).push(t@));
                assert(self.path@.take(i + 1).map_values(|x: usize| nat_text(x as nat)) =~= self.path@.take(
                    i as int,
                ).map_values(|x: usize| nat_text(x as nat)).push(nat_text(self.path@[i as int] as nat)));
            }
        }
        assert(self.path@.take(self.path@.len() as int) =~= self.path@);
        let mut s = String::new();
        push_char(&mut s, '[');
        push_joined(&mut s, &parts);
        push_char(&mut s, ']');
        assert(s@ =~= coordinate_text(self.path@));
        s
    }
}

fn copy_path(v: &Vec<usize>) -> (r: Vec<usize>)
    ensures
        r@ == v@,
{
    let mut r: Vec<usize> = Vec::new();
    for i in 0..v.len()
        invariant
            r@ == v@.take(i as int),
    {
        r.push(v[i]);
        assert(v@.take(i + 1) == v@.take(i as int).push(v@[i as int]));
    }
    assert(v@.take(v@.len() as int) =~= v@);
    r
}

/// Walks from a node up through its parents to the root.
pub struct AncestorIterator<'a> {
    pool: &'a Pool,
    current: Option<ExprId>,
}

impl<'a> AncestorIterator<'a> {
    pub closed spec fn pool_of(&self) -> &'a Pool {
        self.pool
    }

    /// The node to be handed out next.
    pub closed spec fn current_of(&self) -> Option<ExprId> {
        self.current
    }

    /// Hands out the current node and moves to its parent.
    pub fn next(&mut self) -> (r: Option<ExprId>)
        requires
            nodes_ok(old(self).pool_of().exprs@),
        ensures
            r == old(self).current_of(),
            final(self).pool_of() == old(self).pool_of(),
            r is Some ==> final(self).current_of() == spec_parent(
                old(self).pool_of().exprs@,
                r.unwrap().0 as int,
            ),
            r is None ==> final(self).current_of() is None,
    {
        match self.current {
            Some(current) => {
                self.current = self.pool.parent(current);
                Some(current)
            },
            None => None,
        }
    }
}

/// Walks the other children of a node's parent.
pub struct SiblingIterator {
    children: Vec<ExprId>,
    pos: usize,
    exclude: ExprId,
}

impl SiblingIterator {
    /// The siblings not yet handed out.
    pub closed spec fn rest(&self) -> Seq<ExprId> {
        self.children@.skip(self.pos as int)
    }

    pub closed spec fn valid(&self) -> bool {
        self.pos <= self.children@.len()
    }

    /// Hands out the next sibling.
    pub fn next(&mut self) -> (r: Option<ExprId>)
        requires
            old(self).valid(),
        ensures
            final(self).valid(),
            old(self).rest().len() == 0 ==> r is None && final(self).rest().len() == 0,
            old(self).rest().len() > 0 ==> r == Some(old(self).rest()[0]) && final(self).rest()
                == old(self).rest().drop_first(),
    {
        if self.pos < self.children.len() {
            let child = self.children[self.pos];
            let ghost before = self.rest();
            self.pos = self.pos + 1;
            assert(self.rest() =~= before.drop_first());
            Some(child)
        } else {
            None
        }
    }
}

/// Positions listed in increasing order are listed from smallest up.
proof fn lemma_increasing_positions(s: Seq<&usize>)
    requires
        vstd::std_specs::btree::increasing_seq(s),
    ensures
        forall|i: int, j: int| 0 <= i < j < s.len() ==> *s[i] < *s[j],
{
    broadcast use vstd::std_specs::btree::axiom_increasing_seq_meaning;

    assert(vstd::laws_cmp::obeys_cmp::<&usize>());
    assert forall|i: int, j: int| 0 <= i < j < s.len() implies *s[i] < *s[j] by {
        assert(vstd::std_specs::cmp::OrdSpec::cmp_spec(&s[i], &s[j]) is Less);
        assert(vstd::std_specs::cmp::OrdSpec::cmp_spec(s[i], s[j]) is Less);
    }
}

/// The first node after `i` whose children region covers position `i`.
pub open spec fn covers(nodes: Seq<ExprNode>, j: int, i: int) -> bool {
    &&& nodes[j].spec_arity() > 0
    &&& nodes[j].spec_last() is Some
    &&& j - nodes[j].spec_last()->0 <= i
}

/// Where the children region of the node at `j` starts; `j` itself for a
/// node without children.
pub open spec fn region_start(nodes: Seq<ExprNode>, j: int) -> int {
    if nodes[j].spec_arity() > 0 && nodes[j].spec_last() is Some {
        j - nodes[j].spec_last()->0
    } else {
        j
    }
}

/// The arena holds trees: a node's children lie in its children region,
/// and a node inside another's region keeps its own region inside it.
pub open spec fn tree_shaped(nodes: Seq<ExprNode>) -> bool {
    &&& forall|j: int, k: int|
        0 <= k < j < nodes.len() && #[trigger] covers(nodes, j, k) ==> region_start(nodes, j) <= region_start(nodes, k)
    &&& forall|p: int, t: int|
        0 <= p < nodes.len() && 0 <= t < spec_children(nodes, p).len() ==> region_start(nodes, p)
            <= #[trigger] spec_children(nodes, p)[t]
}

/// Position `j` is the parent of position `i`: the nearest later node whose
/// children region reaches back over `i`.
pub open spec fn is_parent_pos(nodes: Seq<ExprNode>, i: int, j: int) -> bool {
    &&& i < j < nodes.len()
    &&& covers(nodes, j, i)
    &&& forall|k: int| i < k < j ==> !covers(nodes, k, i)
}

/// The parent of position `i`, if any node covers it.
pub open spec fn spec_parent(nodes: Seq<ExprNode>, i: int) -> Option<ExprId> {
    if exists|j: int| #[trigger] is_parent_pos(nodes, i, j) {
        Some(ExprId((choose|j: int| is_parent_pos(nodes, i, j)) as usize))
    } else {
        None
    }
}

pub proof fn lemma_parent_pos(nodes: Seq<ExprNode>, i: int)
    requires
        0 <= i,
        nodes.len() <= usize::MAX,
    ensures
        spec_parent(nodes, i) is Some ==> is_parent_pos(nodes, i, spec_parent(nodes, i).unwrap().0 as int),
{
    if exists|j: int| #[trigger] is_parent_pos(nodes, i, j) {
        let j = choose|j: int| is_parent_pos(nodes, i, j);
        assert(spec_parent(nodes, i).unwrap().0 as int == j);
    }
}

pub proof fn lemma_parent_is(nodes: Seq<ExprNode>, i: int, j: int)
    requires
        is_parent_pos(nodes, i, j),
        0 <= j <= usize::MAX,
    ensures
        spec_parent(nodes, i) == Some(ExprId(j as usize)),
{
    let chosen = choose|j: int| is_parent_pos(nodes, i, j);
    assert(chosen == j) by {
        if chosen < j {
            assert(!covers(nodes, chosen, i));
        } else if chosen > j {
            assert(!covers(nodes, j, i));
        }
    }
}

/// The sequence with every occurrence of `x` left out.
pub open spec fn without(s: Seq<ExprId>, x: ExprId) -> Seq<ExprId>
    decreases s.len(),
{
    if s.len() == 0 {
        s
    } else if s.last() == x {
        without(s.drop_last(), x)
    } else {
        without(s.drop_last(), x).push(s.last())
    }
}

/// The first position from `k` on that holds `x`, or -1.
pub open spec fn find_from<T>(s: Seq<T>, x: T, k: int) -> int
    decreases s.len() - k,
{
    if k < 0 || k >= s.len() {
        -1
    } else if s[k] == x {
        k
    } else {
        find_from(s, x, k + 1)
    }
}

/// Where interning `x` puts it: where it first occurs, else at the end.
pub open spec fn interned_at<T>(s: Seq<T>, x: T) -> int {
    if find_from(s, x, 0) >= 0 {
        find_from(s, x, 0)
    } else {
        s.len() as int
    }
}

/// The table after interning `x`: unchanged if it holds `x`, else with `x` added.
pub open spec fn interned<T>(s: Seq<T>, x: T) -> Seq<T> {
    if find_from(s, x, 0) >= 0 {
        s
    } else {
        s.push(x)
    }
}

/// When `x` is not found from `k` on, no position from `k` on holds it.
pub proof fn lemma_find_from_none<T>(s: Seq<T>, x: T, k: int, i: int)
    requires
        0 <= k <= i < s.len(),
        find_from(s, x, k) == -1,
    ensures
        s[i] != x,
    decreases i - k,
{
    if k < i {
        lemma_find_from_none(s, x, k + 1, i);
    }
}

/// When `x` is found from `k` on, it is there, and not before it from `k` on.
pub proof fn lemma_find_from_some<T>(s: Seq<T>, x: T, k: int)
    requires
        0 <= k,
    ensures
        find_from(s, x, k) == -1 || (k <= find_from(s, x, k) < s.len() && s[find_from(s, x, k)] == x),
    decreases s.len() - k,
{
    if k < s.len() && s[k] != x {
        lemma_find_from_some(s, x, k + 1);
    }
}

/// The interned names as texts.
pub open spec fn names_view(pool: &Pool) -> Seq<Seq<char>> {
    pool.names@.map_values(|n: String| n@)
}

/// No two interned names are equal.
pub open spec fn names_unique(names: Seq<String>) -> bool {
    forall|i: int, j: int| 0 <= i < j < names.len() ==> names[i]@ != names[j]@
}

/// No two interned functions are equal.
pub open spec fn functions_unique(functions: Seq<Function>) -> bool {
    forall|i: int, j: int| 0 <= i < j < functions.len() ==> functions[i] != functions[j]
}

/// The function symbols every pool starts with, in order.
pub open spec fn builtin_functions() -> Seq<Function> {
    seq![
        Function::Add,
        Function::Subtract,
        Function::Multiply,
        Function::Divide,
        Function::Power,
        Function::Negate,
        Function::Plus,
    ]
}

/// The arena of expressions, patterns, actions and rules, with interned
/// names and functions, and the graph of rewrites applied so far.
#[derive(Debug, Clone)]
pub struct Pool {
    pub exprs: Vec<ExprNode>,
    pub expr_ends: BTreeSet<usize>,
    pub names: Vec<String>,
    pub functions: Vec<Function>,
    pub patterns: Vec<Pattern>,
    pub rules: Vec<Rule>,
    pub rulesets: Vec<Ruleset>,
    pub actions: Vec<Action>,
    pub locations: Vec<Provenance>,
    pub rule_locations: Vec<Location>,
    pub action_locations: Vec<Location>,
    pub outgoing: BTreeMap<usize, Vec<(ExprId, RuleId)>>,
    pub incoming: BTreeMap<usize, Vec<(ExprId, RuleId)>>,
    pub by_rule: BTreeMap<usize, Vec<(ExprId, ExprId)>>,
    pub equivalence_groups: Vec<BTreeSet<usize>>,
    pub expr_to_group: BTreeMap<usize, EquivalenceGroupId>,
    pub equivalence_outgoing: BTreeMap<usize, Vec<(EquivalenceGroupId, RuleId)>>,
    pub equivalence_incoming: BTreeMap<usize, Vec<(EquivalenceGroupId, RuleId)>>,
    pub blacklisted_chains: Vec<Vec<(EquivalenceGroupId, RuleId)>>,
    pub max_chain_length: usize,
    pub current_application_chains: BTreeMap<usize, Vec<(EquivalenceGroupId, RuleId)>>,
}

/// The expression side of two pools agrees.
pub open spec fn same_exprs(a: &Pool, b: &Pool) -> bool {
    &&& a.exprs@ == b.exprs@
    &&& a.expr_ends@ == b.expr_ends@
    &&& a.locations@ == b.locations@
}

/// The rule side of two pools agrees.
pub open spec fn same_rule_side(a: &Pool, b: &Pool) -> bool {
    &&& a.patterns@ == b.patterns@
    &&& a.actions@ == b.actions@
    &&& a.rules@ == b.rules@
    &&& a.rulesets@ == b.rulesets@
    &&& a.rule_locations@ == b.rule_locations@
    &&& a.action_locations@ == b.action_locations@
}

/// The interned names and functions of two pools agree.
pub open spec fn same_symbols(a: &Pool, b: &Pool) -> bool {
    &&& a.names@ == b.names@
    &&& a.functions@ == b.functions@
}

/// The rewrite graphs of two pools agree.
pub open spec fn same_graph(a: &Pool, b: &Pool) -> bool {
    &&& a.outgoing@ == b.outgoing@
    &&& a.incoming@ == b.incoming@
    &&& a.by_rule@ == b.by_rule@
    &&& a.equivalence_groups@ == b.equivalence_groups@
    &&& a.expr_to_group@ == b.expr_to_group@
    &&& a.equivalence_outgoing@ == b.equivalence_outgoing@
    &&& a.equivalence_incoming@ == b.equivalence_incoming@
    &&& a.blacklisted_chains@ == b.blacklisted_chains@
    &&& a.max_chain_length == b.max_chain_length
    &&& a.current_application_chains@ == b.current_application_chains@
}

impl Pool {
    /// The arenas can be walked and the symbol tables hold no duplicates.
    pub open spec fn wf(&self) -> bool {
        &&& nodes_ok(self.exprs@)
        &&& nodes_ok(self.patterns@)
        &&& nodes_ok(self.actions@)
        &&& names_unique(self.names@)
        &&& functions_unique(self.functions@)
    }

    /// The state of a pool that was just made or reset: empty but for the
    /// built-in functions.
    pub open spec fn is_fresh(&self) -> bool {
        &&& self.exprs@.len() == 0
        &&& self.expr_ends@ == Set::<usize>::empty()
        &&& self.names@.len() == 0
        &&& self.functions@ == builtin_functions()
        &&& self.patterns@.len() == 0
        &&& self.rules@.len() == 0
        &&& self.rulesets@.len() == 0
        &&& self.actions@.len() == 0
        &&& self.locations@.len() == 0
        &&& self.rule_locations@.len() == 0
        &&& self.action_locations@.len() == 0
        &&& self.outgoing@ == Map::<usize, Vec<(ExprId, RuleId)>>::empty()
        &&& self.incoming@ == Map::<usize, Vec<(ExprId, RuleId)>>::empty()
        &&& self.by_rule@ == Map::<usize, Vec<(ExprId, ExprId)>>::empty()
        &&& self.equivalence_groups@.len() == 0
        &&& self.expr_to_group@ == Map::<usize, EquivalenceGroupId>::empty()
        &&& self.equivalence_outgoing@ == Map::<usize, Vec<(EquivalenceGroupId, RuleId)>>::empty()
        &&& self.equivalence_incoming@ == Map::<usize, Vec<(EquivalenceGroupId, RuleId)>>::empty()
        &&& self.blacklisted_chains@.len() == 0
        &&& self.current_application_chains@ == Map::<
            usize,
            Vec<(EquivalenceGroupId, RuleId)>,
        >::empty()
    }

    fn intern_builtins(&mut self)
        requires
            old(self).functions@.len() == 0,
        ensures
            final(self).functions@ == builtin_functions(),
            same_exprs(old(self), final(self)),
            same_rule_side(old(self), final(self)),
            same_graph(old(self), final(self)),
            final(self).names@ == old(self).names@,
    {
        self.intern_function(Function::Add);
        proof {
            reveal_with_fuel(find_from, 8);
            assert(find_from(self.functions@, Function::Subtract, 0) == -1);
        }
        self.intern_function(Function::Subtract);
        proof {
            reveal_with_fuel(find_from, 8);
            assert(find_from(self.functions@, Function::Multiply, 0) == -1);
        }
        self.intern_function(Function::Multiply);
        proof {
            reveal_with_fuel(find_from, 8);
            assert(find_from(self.functions@, Function::Divide, 0) == -1);
        }
        self.intern_function(Function::Divide);
        proof {
            reveal_with_fuel(find_from, 8);
            assert(find_from(self.functions@, Function::Power, 0) == -1);
        }
        self.intern_function(Function::Power);
        proof {
            reveal_with_fuel(find_from, 8);
            assert(find_from(self.functions@, Function::Negate, 0) == -1);
        }
        self.intern_function(Function::Negate);
        proof {
            reveal_with_fuel(find_from, 8);
            assert(find_from(self.functions@, Function::Plus, 0) == -1);
        }
        self.intern_function(Function::Plus);
        assert(self.functions@ =~= builtin_functions());
    }

    /// An empty pool holding only the built-in functions.
    pub fn new() -> (pool: Self)
        ensures
            pool.is_fresh(),
            pool.max_chain_length == 1024,
            pool.wf(),
    {
        let mut pool = Self {
            exprs: Vec::new(),
            expr_ends: BTreeSet::new(),
            names: Vec::new(),
            functions: Vec::new(),
            patterns: Vec::new(),
            rules: Vec::new(),
            rulesets: Vec::new(),
            actions: Vec::new(),
            locations: Vec::new(),
            rule_locations: Vec::new(),
            action_locations: Vec::new(),
            outgoing: BTreeMap::new(),
            incoming: BTreeMap::new(),
            by_rule: BTreeMap::new(),
            equivalence_groups: Vec::new(),
            expr_to_group: BTreeMap::new(),
            equivalence_outgoing: BTreeMap::new(),
            equivalence_incoming: BTreeMap::new(),
            blacklisted_chains: Vec::new(),
            max_chain_length: 1024,
            current_application_chains: BTreeMap::new(),
        };
        pool.intern_builtins();
        pool
    }

    /// Appends an expression node and returns its id.
    pub fn add_expr(&mut self, node: ExprNode) -> (r: ExprId)
        ensures
            r.0 == old(self).exprs@.len(),
            final(self).exprs@ == old(self).exprs@.push(node),
            final(self).expr_ends@ == old(self).expr_ends@,
            final(self).locations@ == old(self).locations@,
            same_rule_side(old(self), final(self)),
            same_symbols(old(self), final(self)),
            same_graph(old(self), final(self)),
    {
        let id = self.exprs.len();
        self.exprs.push(node);
        ExprId::new(id)
    }

    /// Appends an expression node with where it came from.
    pub fn add_expr_with_provenance(&mut self, node: ExprNode, provenance: Provenance) -> (r: ExprId)
        ensures
            r.0 == old(self).exprs@.len(),
            final(self).exprs@ == old(self).exprs@.push(node),
            final(self).locations@ == old(self).locations@.push(provenance),
            final(self).expr_ends@ == old(self).expr_ends@,
            same_rule_side(old(self), final(self)),
            same_symbols(old(self), final(self)),
            same_graph(old(self), final(self)),
    {
        let id = self.exprs.len();
        self.exprs.push(node);
        self.locations.push(provenance);
        ExprId::new(id)
    }

    /// Records that the node `expr_id` ends a whole expression.
    pub fn mark_expr_end(&mut self, expr_id: ExprId)
        ensures
            final(self).expr_ends@ == old(self).expr_ends@.insert(expr_id.0),
            final(self).exprs@ == old(self).exprs@,
            final(self).locations@ == old(self).locations@,
            same_rule_side(old(self), final(self)),
            same_symbols(old(self), final(self)),
            same_graph(old(self), final(self)),
    {
        self.expr_ends.insert(expr_id.0);
    }

    /// The recorded expression ends, in increasing order.
    fn end_positions(&self) -> (r: Vec<usize>)
        ensures
            r@.to_set() == self.expr_ends@,
            forall|i: int, j: int| 0 <= i < j < r@.len() ==> r@[i] < r@[j],
    {
        let mut r: Vec<usize> = Vec::new();
        let ghost all = self.expr_ends@;
        proof {
            lemma_increasing_positions(vstd::std_specs::iter::IteratorSpec::remaining(&vstd::std_specs::btree::spec_btree_keys_iter(&self.expr_ends)));
        }
        for end in it: self.expr_ends.iter()
            invariant
                forall|i: int, j: int| 0 <= i < j < it.seq().len() ==> *it.seq()[i] < *it.seq()[j],
                forall|i: int, j: int| 0 <= i < j < r@.len() ==> r@[i] < r@[j],
                it.seq().unref().to_set() == all,
                it.index() <= it.seq().len(),
                r@ == it.seq().unref().take(it.index() as int),
                it.index() == it.seq().len() ==> r@ == it.seq().unref(),
        {
            let ghost i = it.index();
            r.push(*end);
            proof {
                assert(it.seq().unref().take(i + 1) =~= it.seq().unref().take(i as int).push(*end));
                assert(i + 1 == it.seq().len() ==> it.seq().unref().take(i + 1) =~= it.seq().unref());
            }
        }
        r
    }

    /// The first recorded expression end at or after `expr_id`.
    pub fn find_root(&self, expr_id: ExprId) -> (r: Option<ExprId>)
        ensures
            r is Some ==> {
                &&& self.expr_ends@.contains(r.unwrap().0)
                &&& r.unwrap().0 >= expr_id.0
                &&& forall|e: usize| #[trigger]
                    self.expr_ends@.contains(e) && e >= expr_id.0 ==> r.unwrap().0 <= e
            },
            r is None ==> forall|e: usize| #[trigger] self.expr_ends@.contains(e) ==> e < expr_id.0,
    {
        let ends = self.end_positions();
        let mut best: Option<usize> = None;
        for i in 0..ends.len()
            invariant
                ends@.to_set() == self.expr_ends@,
                best is Some ==> self.expr_ends@.contains(best->0) && best->0 >= expr_id.0,
                forall|k: int| 0 <= k < i && ends@[k] >= expr_id.0 ==> best is Some && best->0 <= ends@[k],
        {
            let end = ends[i];
            if end >= expr_id.0 {
                let better = match best {
                    Some(b) => end < b,
                    None => true,
                };
                if better {
                    assert(ends@.to_set().contains(end));
                    best = Some(end);
                }
            }
        }
        proof {
            assert forall|e: usize| #[trigger] self.expr_ends@.contains(e) && e >= expr_id.0 implies best is Some
                && best->0 <= e by {
                assert(ends@.to_set().contains(e));
                let k = choose|k: int| 0 <= k < ends@.len() && ends@[k] == e;
            }
        }
        match best {
            Some(b) => Some(ExprId(b)),
            None => None,
        }
    }

    /// Whether `expr_id` ends a whole expression.
    pub fn is_root(&self, expr_id: ExprId) -> (r: bool)
        ensures
            r == self.expr_ends@.contains(expr_id.0),
    {
        self.expr_ends.contains(&expr_id.0)
    }

    /// Every recorded expression end, each once, in increasing order.
    pub fn get_all_roots(&self) -> (r: Vec<ExprId>)
        ensures
            forall|k: int| 0 <= k < r@.len() ==> self.expr_ends@.contains(#[trigger] r@[k].0),
            forall|i: int, j: int| 0 <= i < j < r@.len() ==> r@[i].0 < r@[j].0,
            forall|e: usize| #[trigger]
                self.expr_ends@.contains(e) ==> exists|k: int| 0 <= k < r@.len() && r@[k].0 == e,
    {
        let ends = self.end_positions();
        let mut r: Vec<ExprId> = Vec::new();
        for i in 0..ends.len()
            invariant
                ends@.to_set() == self.expr_ends@,
                forall|a: int, b: int| 0 <= a < b < ends@.len() ==> ends@[a] < ends@[b],
                r@.len() == i,
                forall|k: int| 0 <= k < i ==> r@[k].0 == ends@[k],
        {
            r.push(ExprId(ends[i]));
        }
        proof {
            assert forall|k: int| 0 <= k < r@.len() implies self.expr_ends@.contains(#[trigger] r@[k].0) by {
                assert(ends@.to_set().contains(ends@[k]));
            }
            assert forall|e: usize| #[trigger] self.expr_ends@.contains(e) implies exists|k: int|
                0 <= k < r@.len() && r@[k].0 == e by {
                assert(ends@.to_set().contains(e));
                let k = choose|k: int| 0 <= k < ends@.len() && ends@[k] == e;
                assert(r@[k].0 == e);
            }
            assert forall|a: int, b: int| 0 <= a < b < r@.len() implies r@[a].0 < r@[b].0 by {
                assert(r@[a].0 == ends@[a] && r@[b].0 == ends@[b]);
            }
        }
        r
    }

    /// The nearest later node whose children region reaches back over `expr_id`.
    pub fn parent(&self, expr_id: ExprId) -> (r: Option<ExprId>)
        requires
            nodes_ok(self.exprs@),
        ensures
            r == spec_parent(self.exprs@, expr_id.0 as int),
    {
        let node_idx = expr_id.0;
        let len = self.exprs.len();
        if node_idx >= len {
            return None;
        }
        let mut candidate_idx = node_idx + 1;
        while candidate_idx < len
            invariant
                node_idx == expr_id.0,
                node_idx < candidate_idx <= len,
                len == self.exprs@.len(),
                nodes_ok(self.exprs@),
                forall|k: int| node_idx < k < candidate_idx ==> !covers(self.exprs@, k, node_idx as int),
            decreases len - candidate_idx,
        {
            let candidate_node = &self.exprs[candidate_idx];
            assert(node_ok(self.exprs@, candidate_idx as int));
            match candidate_node {
                ExprNode::Call { last, arity, .. } | ExprNode::Struct { last, arity, .. } => {
                    if *arity > 0 {
                        let first_child_pos = candidate_idx - *last;
                        if first_child_pos <= node_idx && node_idx <= candidate_idx {
                            let ghost j = candidate_idx as int;
                            assert(is_parent_pos(self.exprs@, node_idx as int, j));
                            proof {
                                lemma_parent_is(self.exprs@, node_idx as int, j);
                            }
                            return Some(ExprId(candidate_idx));
                        }
                    }
                },
                _ => {},
            }
            candidate_idx = candidate_idx + 1;
        }
        None
    }

    /// Walks from `expr_id` up through its parents.
    pub fn ancestors(&self, expr_id: ExprId) -> (r: AncestorIterator)
        ensures
            r.pool_of() == self,
            r.current_of() == Some(expr_id),
    {
        AncestorIterator { pool: self, current: Some(expr_id) }
    }

    /// Walks the other children of `expr_id`'s parent.
    pub fn siblings(&self, expr_id: ExprId) -> (r: SiblingIterator)
        requires
            nodes_ok(self.exprs@),
        ensures
            r.valid(),
            spec_parent(self.exprs@, expr_id.0 as int) is None ==> r.rest() == Seq::<ExprId>::empty(),
            spec_parent(self.exprs@, expr_id.0 as int) is Some ==> r.rest() == without(
                spec_children(self.exprs@, spec_parent(self.exprs@, expr_id.0 as int).unwrap().0 as int)
                    .map_values(|i: int| ExprId(i as usize)),
                expr_id,
            ),
    {
        let _n = self.exprs.len();
        proof {
            lemma_parent_pos(self.exprs@, expr_id.0 as int);
        }
        if let Some(parent_id) = self.parent(expr_id) {
            let children = self.children(parent_id);
            let ghost kids = spec_children(self.exprs@, parent_id.0 as int).map_values(|i: int| ExprId(i as usize));
            assert(children@ =~= kids);
            let mut kept: Vec<ExprId> = Vec::new();
            for i in 0..children.len()
                invariant
                    kept@ == without(children@.take(i as int), expr_id),
            {
                let c = children[i];
                assert(children@.take(i + 1).drop_last() =~= children@.take(i as int));
                if c != expr_id {
                    kept.push(c);
                }
            }
            assert(children@.take(children@.len() as int) =~= children@);
            let r = SiblingIterator { children: kept, pos: 0, exclude: expr_id };
            assert(r.children@.skip(0) =~= r.children@);
            r
        } else {
            let r = SiblingIterator { children: Vec::new(), pos: 0, exclude: expr_id };
            assert(r.children@.skip(0) =~= Seq::<ExprId>::empty());
            r
        }
    }

    /// The id of `name`: the first interned name equal to it, or a new id
    /// for it added last.
    pub fn intern_string(&mut self, name: String) -> (r: NameId)
        ensures
            r.0 as int == interned_at(names_view(old(self)), name@),
            names_view(final(self)) == interned(names_view(old(self)), name@),
            final(self).names@.len() == names_view(final(self)).len(),
            names_unique(old(self).names@) ==> names_unique(final(self).names@),
            final(self).functions@ == old(self).functions@,
            same_exprs(old(self), final(self)),
            same_rule_side(old(self), final(self)),
            same_graph(old(self), final(self)),
    {
        let n = self.names.len();
        for i in 0..n
            invariant
                n == self.names@.len(),
                find_from(names_view(self), name@, 0) == find_from(names_view(self), name@, i as int),
        {
            if self.names[i] == name {
                return NameId::new(i);
            }
        }
        let id = NameId::new(n);
        let ghost before = names_view(self);
        self.names.push(name);
        proof {
            assert(names_view(self) =~= before.push(name@));
            if names_unique(old(self).names@) {
                assert forall|i: int, j: int| 0 <= i < j < self.names@.len() implies self.names@[i]@ != self.names@[j]@ by {
                    if j == n {
                        lemma_find_from_none(before, name@, 0, i);
                    }
                }
            }
        }
        id
    }

    /// The id of `func`: the first interned function equal to it, or a new
    /// id for it added last.
    pub fn intern_function(&mut self, func: Function) -> (r: FunctionId)
        ensures
            r.0 as int == interned_at(old(self).functions@, func),
            final(self).functions@ == interned(old(self).functions@, func),
            functions_unique(old(self).functions@) ==> functions_unique(final(self).functions@),
            final(self).names@ == old(self).names@,
            same_exprs(old(self), final(self)),
            same_rule_side(old(self), final(self)),
            same_graph(old(self), final(self)),
    {
        let n = self.functions.len();
        for i in 0..n
            invariant
                n == self.functions@.len(),
                find_from(self.functions@, func, 0) == find_from(self.functions@, func, i as int),
        {
            if self.functions[i] == func {
                return FunctionId::new(i);
            }
        }
        let id = FunctionId::new(n);
        let ghost before = self.functions@;
        self.functions.push(func);
        proof {
            if functions_unique(old(self).functions@) {
                assert forall|i: int, j: int| 0 <= i < j < self.functions@.len() implies self.functions@[i] != self.functions@[j] by {
                    if j == n {
                        lemma_find_from_none(before, func, 0, i);
                    }
                }
            }
        }
        id
    }

    /// Where the node `id` came from, if recorded.
    pub fn get_provenance(&self, id: ExprId) -> (r: Option<&Provenance>)
        ensures
            id.0 < self.locations@.len() ==> r == Some(&self.locations@[id.0 as int]),
            id.0 >= self.locations@.len() ==> r is None,
    {
        if id.0 < self.locations.len() {
            Some(&self.locations[id.0])
        } else {
            None
        }
    }

    /// Appends a pattern node and returns its id.
    pub fn add_pattern(&mut self, pattern: Pattern) -> (r: PatternId)
        ensures
            r.0 == old(self).patterns@.len(),
            final(self).patterns@ == old(self).patterns@.push(pattern),
            final(self).actions@ == old(self).actions@,
            final(self).rules@ == old(self).rules@,
            final(self).rulesets@ == old(self).rulesets@,
            final(self).rule_locations@ == old(self).rule_locations@,
            final(self).action_locations@ == old(self).action_locations@,
            same_exprs(old(self), final(self)),
            same_symbols(old(self), final(self)),
            same_graph(old(self), final(self)),
    {
        let id = self.patterns.len();
        self.patterns.push(pattern);
        PatternId::new(id)
    }

    /// Appends a rule and returns its id.
    pub fn add_rule(&mut self, rule: Rule) -> (r: RuleId)
        ensures
            r.0 == old(self).rules@.len(),
            final(self).rules@ == old(self).rules@.push(rule),
            final(self).patterns@ == old(self).patterns@,
            final(self).actions@ == old(self).actions@,
            final(self).rulesets@ == old(self).rulesets@,
            final(self).rule_locations@ == old(self).rule_locations@,
            final(self).action_locations@ == old(self).action_locations@,
            same_exprs(old(self), final(self)),
            same_symbols(old(self), final(self)),
            same_graph(old(self), final(self)),
    {
        let id = self.rules.len();
        self.rules.push(rule);
        RuleId::new(id)
    }

    /// Appends a rule with the span of its source text.
    pub fn add_rule_with_location(&mut self, rule: Rule, location: Location) -> (r: RuleId)
        ensures
            r.0 == old(self).rules@.len(),
            final(self).rules@ == old(self).rules@.push(rule),
            final(self).rule_locations@ == old(self).rule_locations@.push(location),
            final(self).patterns@ == old(self).patterns@,
            final(self).actions@ == old(self).actions@,
            final(self).rulesets@ == old(self).rulesets@,
            final(self).action_locations@ == old(self).action_locations@,
            same_exprs(old(self), final(self)),
            same_symbols(old(self), final(self)),
            same_graph(old(self), final(self)),
    {
        let rule_id = self.rules.len();
        self.rules.push(rule);
        self.rule_locations.push(location);
        RuleId::new(rule_id)
    }

    /// The recorded source span of a rule.
    pub fn get_rule_location(&self, rule_id: RuleId) -> (r: Option<&Location>)
        ensures
            rule_id.0 < self.rule_locations@.len() ==> r == Some(&self.rule_locations@[rule_id.0 as int]),
            rule_id.0 >= self.rule_locations@.len() ==> r is None,
    {
        if rule_id.0 < self.rule_locations.len() {
            Some(&self.rule_locations[rule_id.0])
        } else {
            None
        }
    }

    /// Appends a ruleset and returns its id.
    pub fn add_ruleset(&mut self, ruleset: Ruleset) -> (r: RulesetId)
        ensures
            r.0 == old(self).rulesets@.len(),
            final(self).rulesets@ == old(self).rulesets@.push(ruleset),
            final(self).patterns@ == old(self).patterns@,
            final(self).actions@ == old(self).actions@,
            final(self).rules@ == old(self).rules@,
            final(self).rule_locations@ == old(self).rule_locations@,
            final(self).action_locations@ == old(self).action_locations@,
            same_exprs(old(self), final(self)),
            same_symbols(old(self), final(self)),
            same_graph(old(self), final(self)),
    {
        let id = self.rulesets.len();
        self.rulesets.push(ruleset);
        RulesetId::new(id)
    }

    /// The rules of a ruleset that exist, in order; none for an unknown ruleset.
    pub fn get_ruleset_rules(&self, ruleset_id: RulesetId) -> (r: Vec<Rule>)
        ensures
            r@ == spec_ruleset_rules(self, ruleset_id),
    {
        let start = if ruleset_id.0 < self.rulesets.len() {
            self.rulesets[ruleset_id.0].rules_start
        } else {
            0
        };
        let end = if ruleset_id.0 < self.rulesets.len() {
            self.rulesets[ruleset_id.0].rules_end
        } else {
            0
        };
        let stop = if end < self.rules.len() { end } else { self.rules.len() };
        let mut r: Vec<Rule> = Vec::new();
        if start < stop {
            let mut i = start;
            while i < stop
                invariant
                    start <= i <= stop,
                    stop <= self.rules@.len(),
                    r@ == self.rules@.subrange(start as int, i as int),
                decreases stop - i,
            {
                r.push(self.rules[i]);
                assert(self.rules@.subrange(start as int, i + 1) == self.rules@.subrange(start as int, i as int).push(self.rules@[i as int]));
                i = i + 1;
            }
        } else {
            assert(r@ =~= Seq::<Rule>::empty());
        }
        r
    }

    pub fn get_rules_len(&self) -> (r: usize)
        ensures
            r == self.rules@.len(),
    {
        self.rules.len()
    }

    /// How many rules a ruleset spans; 0 for an unknown ruleset.
    pub fn get_ruleset_rule_count(&self, ruleset_id: RulesetId) -> (r: usize)
        requires
            ruleset_id.0 < self.rulesets@.len() ==> self.rulesets@[ruleset_id.0 as int].rules_start
                <= self.rulesets@[ruleset_id.0 as int].rules_end,
        ensures
            ruleset_id.0 < self.rulesets@.len() ==> r == self.rulesets@[ruleset_id.0 as int].rules_end
                - self.rulesets@[ruleset_id.0 as int].rules_start,
            ruleset_id.0 >= self.rulesets@.len() ==> r == 0,
    {
        if ruleset_id.0 < self.rulesets.len() {
            let ruleset = &self.rulesets[ruleset_id.0];
            ruleset.rules_end - ruleset.rules_start
        } else {
            0
        }
    }

    /// Appends an action node and returns its id.
    pub fn add_action(&mut self, action: Action) -> (r: ActionId)
        ensures
            r.0 == old(self).actions@.len(),
            final(self).actions@ == old(self).actions@.push(action),
            final(self).patterns@ == old(self).patterns@,
            final(self).rules@ == old(self).rules@,
            final(self).rulesets@ == old(self).rulesets@,
            final(self).rule_locations@ == old(self).rule_locations@,
            final(self).action_locations@ == old(self).action_locations@,
            same_exprs(old(self), final(self)),
            same_symbols(old(self), final(self)),
            same_graph(old(self), final(self)),
    {
        let id = self.actions.len();
        self.actions.push(action);
        ActionId::new(id)
    }

    /// Appends an action node with the span of its source text.
    pub fn add_action_with_location(&mut self, action: Action, location: Location) -> (r: ActionId)
        ensures
            r.0 == old(self).actions@.len(),
            final(self).actions@ == old(self).actions@.push(action),
            final(self).action_locations@ == old(self).action_locations@.push(location),
            final(self).patterns@ == old(self).patterns@,
            final(self).rules@ == old(self).rules@,
            final(self).rulesets@ == old(self).rulesets@,
            final(self).rule_locations@ == old(self).rule_locations@,
            same_exprs(old(self), final(self)),
            same_symbols(old(self), final(self)),
            same_graph(old(self), final(self)),
    {
        let action_id = self.actions.len();
        self.actions.push(action);
        self.action_locations.push(location);
        ActionId::new(action_id)
    }

    /// The recorded source span of an action node.
    pub fn get_action_location(&self, action_id: ActionId) -> (r: Option<&Location>)
        ensures
            action_id.0 < self.action_locations@.len() ==> r == Some(
                &self.action_locations@[action_id.0 as int],
            ),
            action_id.0 >= self.action_locations@.len() ==> r is None,
    {
        if action_id.0 < self.action_locations.len() {
            Some(&self.action_locations[action_id.0])
        } else {
            None
        }
    }

    /// Empties the pool, keeping only the built-in functions.
    pub fn reset(&mut self)
        ensures
            final(self).is_fresh(),
            final(self).wf(),
            final(self).max_chain_length == old(self).max_chain_length,
    {
        self.exprs.clear();
        self.expr_ends.clear();
        self.names.clear();
        self.functions.clear();
        self.patterns.clear();
        self.rules.clear();
        self.rulesets.clear();
        self.actions.clear();
        self.locations.clear();
        self.rule_locations.clear();
        self.action_locations.clear();
        self.outgoing.clear();
        self.incoming.clear();
        self.by_rule.clear();
        self.equivalence_groups.clear();
        self.expr_to_group.clear();
        self.equivalence_outgoing.clear();
        self.equivalence_incoming.clear();
        self.blacklisted_chains.clear();
        self.current_application_chains.clear();
        self.intern_builtins();
    }

    /// The children of `expr`, last argument first.
    pub fn get_children_vec(pool: &Pool, expr: ExprId) -> (r: Vec<ExprId>)
        requires
            expr.0 < pool.exprs@.len(),
            nodes_ok(pool.exprs@),
        ensures
            r@.len() == spec_children(pool.exprs@, expr.0 as int).len(),
            forall|k: int| 0 <= k < r@.len() ==> #[trigger] r@[k].0 as int == spec_children(pool.exprs@, expr.0 as int)[k],
    {
        pool.children(expr)
    }
}

/// The rules a ruleset covers that exist.
pub open spec fn spec_ruleset_rules(pool: &Pool, ruleset_id: RulesetId) -> Seq<Rule> {
    let start: int = if ruleset_id.0 < pool.rulesets@.len() {
        pool.rulesets@[ruleset_id.0 as int].rules_start as int
    } else {
        0
    };
    let end: int = if ruleset_id.0 < pool.rulesets@.len() {
        pool.rulesets@[ruleset_id.0 as int].rules_end as int
    } else {
        0
    };
    let stop: int = if end < pool.rules@.len() { end } else { pool.rules@.len() as int };
    if start < stop {
        pool.rules@.subrange(start, stop)
    } else {
        Seq::empty()
    }
}

impl Default for Pool {
    /// The same pool as `Pool::new`.
    fn default() -> (pool: Self)
        ensures
            pool.is_fresh(),
            pool.max_chain_length == 1024,
            pool.wf(),
    {
        Self::new()
    }
}

impl Children<ExprId> for Pool {
    type Tree = ExprNode;

    open spec fn tree_nodes(&self) -> Seq<ExprNode> {
        self.exprs@
    }

    open spec fn id_index(id: ExprId) -> int {
        id.0 as int
    }

    fn id_at(i: usize) -> (r: ExprId) {
        ExprId(i)
    }

    fn index_of(id: ExprId) -> (r: usize) {
        id.0
    }

    fn node_slice(&self) -> (r: &[ExprNode]) {
        self.exprs.as_slice()
    }

    fn get_node(&self, id: ExprId) -> (r: &ExprNode) {
        &self.exprs[id.0]
    }
}

impl Children<PatternId> for Pool {
    type Tree = Pattern;

    open spec fn tree_nodes(&self) -> Seq<Pattern> {
        self.patterns@
    }

    open spec fn id_index(id: PatternId) -> int {
        id.0 as int
    }

    fn id_at(i: usize) -> (r: PatternId) {
        PatternId(i)
    }

    fn index_of(id: PatternId) -> (r: usize) {
        id.0
    }

    fn node_slice(&self) -> (r: &[Pattern]) {
        self.patterns.as_slice()
    }

    fn get_node(&self, id: PatternId) -> (r: &Pattern) {
        &self.patterns[id.0]
    }
}

impl Children<ActionId> for Pool {
    type Tree = Action;

    open spec fn tree_nodes(&self) -> Seq<Action> {
        self.actions@
    }

    open spec fn id_index(id: ActionId) -> int {
        id.0 as int
    }

    fn id_at(i: usize) -> (r: ActionId) {
        ActionId(i)
    }

    fn index_of(id: ActionId) -> (r: usize) {
        id.0
    }

    fn node_slice(&self) -> (r: &[Action]) {
        self.actions.as_slice()
    }

    fn get_node(&self, id: ActionId) -> (r: &Action) {
        &self.actions[id.0]
    }
}


} // verus!
