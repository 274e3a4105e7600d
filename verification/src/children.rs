use vstd::prelude::*;

use crate::ast::{Action, ExprNode, Function, Pattern, Rule};

verus! {

/// What a tree node tells about its children: how many there are, and how
/// far back from the node they start.
pub trait NodeInfo {
    spec fn spec_arity(&self) -> usize;

    spec fn spec_last(&self) -> Option<usize>;

    fn arity(&self) -> (r: usize)
        ensures
            r == self.spec_arity(),
    ;

    fn last(&self) -> (r: Option<usize>)
        ensures
            r == self.spec_last(),
    ;
}

impl NodeInfo for ExprNode {
    open spec fn spec_arity(&self) -> usize {
        match self {
            ExprNode::Number(_) | ExprNode::Variable(_) => 0,
            ExprNode::Call { arity, .. } | ExprNode::Struct { arity, .. } => *arity,
        }
    }

    open spec fn spec_last(&self) -> Option<usize> {
        match self {
            ExprNode::Number(_) | ExprNode::Variable(_) => None,
            ExprNode::Call { last, .. } | ExprNode::Struct { last, .. } => Some(*last),
        }
    }

    fn arity(&self) -> (r: usize) {
        match self {
            ExprNode::Number(_) | ExprNode::Variable(_) => 0,
            ExprNode::Call { arity, .. } | ExprNode::Struct { arity, .. } => *arity,
        }
    }

    fn last(&self) -> (r: Option<usize>) {
        match self {
            ExprNode::Number(_) | ExprNode::Variable(_) => None,
            ExprNode::Call { last, .. } | ExprNode::Struct { last, .. } => Some(*last),
        }
    }
}

impl NodeInfo for Action {
    open spec fn spec_arity(&self) -> usize {
        match self {
            Action::Number(_) | Action::Variable(_) => 0,
            Action::Call { arity, .. }
            | Action::Struct { arity, .. }
            | Action::VarCallName { arity, .. }
            | Action::VarStructName { arity, .. }
            | Action::Compute { arity, .. } => *arity,
        }
    }

    open spec fn spec_last(&self) -> Option<usize> {
        match self {
            Action::Number(_) | Action::Variable(_) => None,
            Action::Call { last, .. }
            | Action::Struct { last, .. }
            | Action::VarCallName { last, .. }
            | Action::VarStructName { last, .. }
            | Action::Compute { last, .. } => Some(*last),
        }
    }

    fn arity(&self) -> (r: usize) {
        match self {
            Action::Number(_) | Action::Variable(_) => 0,
            Action::Call { arity, .. }
            | Action::Struct { arity, .. }
            | Action::VarCallName { arity, .. }
            | Action::VarStructName { arity, .. }
            | Action::Compute { arity, .. } => *arity,
        }
    }

    fn last(&self) -> (r: Option<usize>) {
        match self {
            Action::Number(_) | Action::Variable(_) => None,
            Action::Call { last, .. }
            | Action::Struct { last, .. }
            | Action::VarCallName { last, .. }
            | Action::VarStructName { last, .. }
            | Action::Compute { last, .. } => Some(*last),
        }
    }
}

impl NodeInfo for Pattern {
    open spec fn spec_arity(&self) -> usize {
        match self {
            Pattern::Number(_)
            | Pattern::Variable(_)
            | Pattern::AnyNumber(_)
            | Pattern::Wildcard(_) => 0,
            Pattern::Call { arity, .. }
            | Pattern::Struct { arity, .. }
            | Pattern::VarCallName { arity, .. }
            | Pattern::VarStructName { arity, .. } => *arity,
        }
    }

    open spec fn spec_last(&self) -> Option<usize> {
        match self {
            Pattern::Number(_)
            | Pattern::Variable(_)
            | Pattern::AnyNumber(_)
            | Pattern::Wildcard(_) => None,
            Pattern::Call { last, .. }
            | Pattern::Struct { last, .. }
            | Pattern::VarCallName { last, .. }
            | Pattern::VarStructName { last, .. } => Some(*last),
        }
    }

    fn arity(&self) -> (r: usize) {
        match self {
            Pattern::Number(_)
            | Pattern::Variable(_)
            | Pattern::AnyNumber(_)
            | Pattern::Wildcard(_) => 0,
            Pattern::Call { arity, .. }
            | Pattern::Struct { arity, .. }
            | Pattern::VarCallName { arity, .. }
            | Pattern::VarStructName { arity, .. } => *arity,
        }
    }

    fn last(&self) -> (r: Option<usize>) {
        match self {
            Pattern::Number(_)
            | Pattern::Variable(_)
            | Pattern::AnyNumber(_)
            | Pattern::Wildcard(_) => None,
            Pattern::Call { last, .. }
            | Pattern::Struct { last, .. }
            | Pattern::VarCallName { last, .. }
            | Pattern::VarStructName { last, .. } => Some(*last),
        }
    }
}

impl NodeInfo for Function {
    open spec fn spec_arity(&self) -> usize {
        0
    }

    open spec fn spec_last(&self) -> Option<usize> {
        None
    }

    fn arity(&self) -> (r: usize) {
        0
    }

    fn last(&self) -> (r: Option<usize>) {
        None
    }
}

impl NodeInfo for String {
    open spec fn spec_arity(&self) -> usize {
        0
    }

    open spec fn spec_last(&self) -> Option<usize> {
        None
    }

    fn arity(&self) -> (r: usize) {
        0
    }

    fn last(&self) -> (r: Option<usize>) {
        None
    }
}

impl NodeInfo for Rule {
    open spec fn spec_arity(&self) -> usize {
        0
    }

    open spec fn spec_last(&self) -> Option<usize> {
        None
    }

    fn arity(&self) -> (r: usize) {
        0
    }

    fn last(&self) -> (r: Option<usize>) {
        None
    }
}

/// A node whose children can be walked: it has children only if it knows
/// where they start, it is not the first node, and they start at or after
/// the beginning of the arena.
pub open spec fn node_ok<T: NodeInfo>(nodes: Seq<T>, i: int) -> bool {
    nodes[i].spec_arity() > 0 ==> {
        &&& nodes[i].spec_last() is Some
        &&& 1 <= i
        &&& nodes[i].spec_last()->0 <= i
    }
}

/// Every node of the arena can be walked.
pub open spec fn nodes_ok<T: NodeInfo>(nodes: Seq<T>) -> bool {
    forall|i: int| 0 <= i < nodes.len() ==> #[trigger] node_ok(nodes, i)
}

/// Appending a node that can be walked keeps every node walkable.
pub proof fn lemma_nodes_ok_push<T: NodeInfo>(nodes: Seq<T>, x: T)
    requires
        nodes_ok(nodes),
        node_ok(nodes.push(x), nodes.len() as int),
    ensures
        nodes_ok(nodes.push(x)),
{
    assert forall|i: int| 0 <= i < nodes.push(x).len() implies #[trigger] node_ok(nodes.push(x), i) by {
        if i < nodes.len() {
            assert(node_ok(nodes, i));
            assert(nodes.push(x)[i] == nodes[i]);
        }
    }
}

/// Appending a node keeps whether the earlier nodes can be walked.
pub proof fn lemma_node_ok_push<T: NodeInfo>(nodes: Seq<T>, x: T)
    ensures
        forall|i: int| 0 <= i < nodes.len() ==> (#[trigger] node_ok(nodes.push(x), i) <==> node_ok(nodes, i)),
{
    assert forall|i: int| 0 <= i < nodes.len() implies (#[trigger] node_ok(nodes.push(x), i) <==> node_ok(nodes, i)) by {
        assert(nodes.push(x)[i] == nodes[i]);
    }
}

/// How many arena slots the node at `i` claims: itself and, for a compound
/// node, the `last` slots before it.
pub open spec fn spec_length<T: NodeInfo>(nodes: Seq<T>, i: int) -> int {
    if nodes[i].spec_arity() > 0 && nodes[i].spec_last() is Some {
        nodes[i].spec_last()->0 + 1
    } else {
        1
    }
}

/// The children found by walking back from `cur`, at most `remaining` of
/// them: each child is followed by the one that ends where it starts; the
/// walk stops early when a child starts at the front of the arena.
pub open spec fn spec_child_list<T: NodeInfo>(nodes: Seq<T>, cur: int, remaining: nat) -> Seq<int>
    decreases remaining,
{
    if remaining == 0 {
        seq![]
    } else if cur >= spec_length(nodes, cur) {
        seq![cur].add(spec_child_list(nodes, cur - spec_length(nodes, cur), (remaining - 1) as nat))
    } else {
        seq![cur]
    }
}

/// The children of the node at `i`, last argument first.
pub open spec fn spec_children<T: NodeInfo>(nodes: Seq<T>, i: int) -> Seq<int> {
    if nodes[i].spec_arity() > 0 {
        spec_child_list(nodes, i - 1, nodes[i].spec_arity() as nat)
    } else {
        seq![]
    }
}

/// Every node of the arena has as many children as its arity says.
pub open spec fn children_complete<T: NodeInfo>(nodes: Seq<T>) -> bool {
    forall|i: int| 0 <= i < nodes.len() ==> (#[trigger] spec_children(nodes, i)).len() == nodes[i].spec_arity()
}

pub proof fn lemma_child_list_bounds<T: NodeInfo>(nodes: Seq<T>, cur: int, remaining: nat)
    requires
        0 <= cur < nodes.len(),
        nodes_ok(nodes),
    ensures
        forall|k: int|
            0 <= k < spec_child_list(nodes, cur, remaining).len() ==> 0 <= #[trigger] spec_child_list(
                nodes,
                cur,
                remaining,
            )[k] <= cur,
        spec_child_list(nodes, cur, remaining).len() <= remaining,
    decreases remaining,
{
    if remaining > 0 && cur >= spec_length(nodes, cur) {
        let next = cur - spec_length(nodes, cur);
        lemma_child_list_bounds(nodes, next, (remaining - 1) as nat);
        let rest = spec_child_list(nodes, next, (remaining - 1) as nat);
        assert forall|k: int| 0 <= k < spec_child_list(nodes, cur, remaining).len() implies 0
            <= #[trigger] spec_child_list(nodes, cur, remaining)[k] <= cur by {
            if k > 0 {
                assert(spec_child_list(nodes, cur, remaining)[k] == rest[k - 1]);
            }
        }
    }
}

/// Every child of a node lies before it in the arena.
pub proof fn lemma_children_before<T: NodeInfo>(nodes: Seq<T>, i: int)
    requires
        0 <= i < nodes.len(),
        nodes_ok(nodes),
    ensures
        forall|k: int|
            0 <= k < spec_children(nodes, i).len() ==> 0 <= #[trigger] spec_children(nodes, i)[k]
                < i,
        spec_children(nodes, i).len() <= nodes[i].spec_arity(),
{
    assert(node_ok(nodes, i));
    if nodes[i].spec_arity() > 0 {
        lemma_child_list_bounds(nodes, i - 1, nodes[i].spec_arity() as nat);
    }
}

/// The slot count of the node at `i`.
pub fn node_length<T: NodeInfo>(nodes: &[T], i: usize) -> (r: usize)
    requires
        i < nodes@.len(),
        node_ok(nodes@, i as int),
    ensures
        r == spec_length(nodes@, i as int),
{
    let node = &nodes[i];
    match node.last() {
        Some(last) => {
            if node.arity() > 0 {
                let first_child_pos = i - last;
                i - first_child_pos + 1
            } else {
                1
            }
        },
        None => 1,
    }
}

/// The slots counted by following first children down from `i`, one node's
/// claimed slots at each step; defined while every step moves strictly back.
pub open spec fn total_len_defined<T: NodeInfo>(nodes: Seq<T>, i: int) -> bool
    decreases i,
{
    if 0 <= i < nodes.len() && node_ok(nodes, i) {
        if nodes[i].spec_arity() > 0 && nodes[i].spec_last() is Some {
            let last = nodes[i].spec_last()->0;
            last >= 1 && total_len_defined(nodes, i - last)
        } else {
            true
        }
    } else {
        false
    }
}

pub open spec fn spec_total_len<T: NodeInfo>(nodes: Seq<T>, i: int) -> int
    decreases i,
{
    if 0 <= i < nodes.len() && nodes[i].spec_arity() > 0 && nodes[i].spec_last() is Some {
        let last = nodes[i].spec_last()->0;
        if last >= 1 && last <= i {
            spec_length(nodes, i) + spec_total_len(nodes, i - last)
        } else {
            1
        }
    } else {
        1
    }
}

/// The slots claimed by the node at `i` and, recursively, by its first child.
pub fn total_len_at<T: NodeInfo>(nodes: &[T], i: usize) -> (r: usize)
    requires
        total_len_defined(nodes@, i as int),
        spec_total_len(nodes@, i as int) <= usize::MAX,
    ensures
        r == spec_total_len(nodes@, i as int),
    decreases i,
{
    let node = &nodes[i];
    match node.last() {
        Some(last) => {
            if node.arity() > 0 {
                let len = node_length(nodes, i);
                let rest = total_len_at(nodes, i - last);
                len + rest
            } else {
                1
            }
        },
        None => 1,
    }
}

/// Walks the children of a node, last argument first, handing out their
/// arena positions.
pub struct ChildIterator<'a, T> {
    nodes: &'a [T],
    current_idx: usize,
    remaining: usize,
    is_empty: bool,
}

impl<'a, T: NodeInfo> ChildIterator<'a, T> {
    /// The children not yet handed out.
    pub closed spec fn rest(&self) -> Seq<int> {
        if self.is_empty || self.remaining == 0 {
            seq![]
        } else {
            spec_child_list(self.nodes@, self.current_idx as int, self.remaining as nat)
        }
    }

    /// The iterator can still walk the arena it was made on.
    pub closed spec fn valid(&self) -> bool {
        &&& nodes_ok(self.nodes@)
        &&& (!self.is_empty && self.remaining > 0) ==> self.current_idx < self.nodes@.len()
    }

    pub closed spec fn arena(&self) -> Seq<T> {
        self.nodes@
    }

    /// Starts the walk below the node at `self_idx`, which has `arity` children.
    pub fn new(nodes: &'a [T], self_idx: usize, arity: usize) -> (r: Self)
        requires
            1 <= self_idx < nodes@.len(),
            nodes_ok(nodes@),
        ensures
            r.valid(),
            r.arena() == nodes@,
            r.rest() == (if arity == 0 {
                Seq::<int>::empty()
            } else {
                spec_child_list(nodes@, self_idx - 1, arity as nat)
            }),
    {
        Self { nodes, current_idx: self_idx - 1, remaining: arity, is_empty: arity == 0 }
    }

    /// A walk that yields nothing.
    pub fn empty(nodes: &'a [T]) -> (r: Self)
        ensures
            r.rest() == Seq::<int>::empty(),
            r.arena() == nodes@,
            nodes_ok(nodes@) ==> r.valid(),
    {
        Self { nodes, current_idx: 0, remaining: 0, is_empty: true }
    }

    /// Hands out the next child's position, or `None` when the walk is over.
    pub fn next(&mut self) -> (r: Option<usize>)
        requires
            old(self).valid(),
        ensures
            final(self).valid(),
            final(self).arena() == old(self).arena(),
            old(self).rest().len() == 0 ==> r is None,
            r is None ==> final(self).rest().len() == 0,
            old(self).rest().len() > 0 ==> {
                &&& r is Some
                &&& r->0 as int == old(self).rest()[0]
                &&& final(self).rest() == old(self).rest().drop_first()
            },
    {
        if self.is_empty || self.remaining == 0 {
            return None;
        }
        let id = self.current_idx;
        assert(node_ok(self.nodes@, self.current_idx as int));
        let len = node_length(self.nodes, id);
        let ghost old_rest = self.rest();
        if self.current_idx >= len {
            assert(old_rest == seq![id as int].add(
                spec_child_list(self.nodes@, (id - len) as int, (self.remaining - 1) as nat),
            ));
            self.current_idx = self.current_idx - len;
        } else {
            self.remaining = 0;
            assert(old_rest.drop_first() =~= Seq::<int>::empty());
            return Some(id);
        }
        self.remaining = self.remaining - 1;
        assert(old_rest.drop_first() =~= self.rest());
        Some(id)
    }
}

/// An arena of tree nodes addressed by `Id`.
pub trait Children<Id: Copy>: Sized {
    type Tree: NodeInfo;

    /// The nodes of the arena.
    spec fn tree_nodes(&self) -> Seq<Self::Tree>;

    /// The arena position an id names.
    spec fn id_index(id: Id) -> int;

    /// The id of an arena position.
    fn id_at(i: usize) -> (r: Id)
        ensures
            Self::id_index(r) == i as int,
    ;

    /// The arena position of an id.
    fn index_of(id: Id) -> (r: usize)
        ensures
            r as int == Self::id_index(id),
    ;

    /// All nodes of the arena.
    fn node_slice(&self) -> (r: &[Self::Tree])
        ensures
            r@ == self.tree_nodes(),
    ;

    fn get_node(&self, id: Id) -> (r: &Self::Tree)
        requires
            0 <= Self::id_index(id) < self.tree_nodes().len(),
        ensures
            *r == self.tree_nodes()[Self::id_index(id)],
    ;

    /// The children of a node, last argument first.
    fn children(&self, node_id: Id) -> (r: Vec<Id>)
        requires
            0 <= Self::id_index(node_id) < self.tree_nodes().len(),
            nodes_ok(self.tree_nodes()),
        ensures
            r@.len() == spec_children(self.tree_nodes(), Self::id_index(node_id)).len(),
            forall|k: int|
                0 <= k < r@.len() ==> Self::id_index(#[trigger] r@[k]) == spec_children(
                    self.tree_nodes(),
                    Self::id_index(node_id),
                )[k],
    {
        let node = self.get_node(node_id);
        let arity = node.arity();
        let nodes = self.node_slice();
        let mut it = if arity > 0 {
            assert(node_ok(self.tree_nodes(), Self::id_index(node_id)));
            ChildIterator::new(nodes, Self::index_of(node_id), arity)
        } else {
            ChildIterator::empty(nodes)
        };
        let ghost all = spec_children(self.tree_nodes(), Self::id_index(node_id));
        let mut r: Vec<Id> = Vec::new();
        proof {
            lemma_children_before(self.tree_nodes(), Self::id_index(node_id));
        }
        loop
            invariant
                it.valid(),
                it.arena() == self.tree_nodes(),
                nodes_ok(self.tree_nodes()),
                r@.len() + it.rest().len() == all.len(),
                all.len() <= arity,
                forall|k: int| 0 <= k < r@.len() ==> Self::id_index(#[trigger] r@[k]) == all[k],
                forall|k: int|
                    0 <= k < it.rest().len() ==> #[trigger] it.rest()[k] == all[r@.len() + k],
            ensures
                r@.len() == all.len(),
                forall|k: int| 0 <= k < r@.len() ==> Self::id_index(#[trigger] r@[k]) == all[k],
            decreases it.rest().len(),
        {
            match it.next() {
                Some(pos) => {
                    r.push(Self::id_at(pos));
                },
                None => {
                    break;
                },
            }
        }
        r
    }

    /// How many arena slots the node claims.
    fn length(&self, node_id: Id) -> (r: usize)
        requires
            0 <= Self::id_index(node_id) < self.tree_nodes().len(),
            node_ok(self.tree_nodes(), Self::id_index(node_id)),
        ensures
            r == spec_length(self.tree_nodes(), Self::id_index(node_id)),
    {
        node_length(self.node_slice(), Self::index_of(node_id))
    }

    /// The slots claimed by the node and, recursively, by its first child.
    fn total_len(&self, node_id: Id) -> (r: usize)
        requires
            total_len_defined(self.tree_nodes(), Self::id_index(node_id)),
            spec_total_len(self.tree_nodes(), Self::id_index(node_id)) <= usize::MAX,
        ensures
            r == spec_total_len(self.tree_nodes(), Self::id_index(node_id)),
    {
        total_len_at(self.node_slice(), Self::index_of(node_id))
    }

    /// The node's children region and the node itself: from the position
    /// `last` slots back, through the node.
    fn get_child_slice(&self, node_id: Id) -> (r: &[Self::Tree])
        requires
            0 <= Self::id_index(node_id) < self.tree_nodes().len(),
            node_ok(self.tree_nodes(), Self::id_index(node_id)),
        ensures
            r@ == self.tree_nodes().subrange(
                Self::id_index(node_id) + 1 - spec_length(self.tree_nodes(), Self::id_index(node_id)),
                Self::id_index(node_id) + 1,
            ),
    {
        let node = self.get_node(node_id);
        let node_idx: usize = Self::index_of(node_id);
        let nodes = self.node_slice();
        let _n = nodes.len();
        match node.last() {
            Some(last) => {
                if node.arity() > 0 {
                    let first_child_pos = node_idx - last;
                    &nodes[first_child_pos..node_idx + 1]
                } else {
                    &nodes[node_idx..node_idx + 1]
                }
            },
            None => &nodes[node_idx..node_idx + 1],
        }
    }

    /// The slots the node claims, ending with the node itself.
    fn get_full_slice(&self, node_id: Id) -> (r: &[Self::Tree])
        requires
            0 <= Self::id_index(node_id) < self.tree_nodes().len(),
            node_ok(self.tree_nodes(), Self::id_index(node_id)),
        ensures
            r@ == self.tree_nodes().subrange(
                Self::id_index(node_id) + 1 - spec_length(self.tree_nodes(), Self::id_index(node_id)),
                Self::id_index(node_id) + 1,
            ),
    {
        let len = self.length(node_id);
        let node_idx: usize = Self::index_of(node_id);
        let nodes = self.node_slice();
        let _n = nodes.len();
        let start_idx = (node_idx + 1) - len;
        &nodes[start_idx..node_idx + 1]
    }

    fn get(&self, node_id: Id) -> (r: Option<&Self::Tree>)
        requires
            0 <= Self::id_index(node_id) < self.tree_nodes().len(),
        ensures
            r == Some(&self.tree_nodes()[Self::id_index(node_id)]),
    {
        Some(self.get_node(node_id))
    }

    /// The `index`-th child, counting from the last argument.
    fn child(&self, node_id: Id, index: usize) -> (r: Option<Id>)
        requires
            0 <= Self::id_index(node_id) < self.tree_nodes().len(),
            nodes_ok(self.tree_nodes()),
        ensures
            index < spec_children(self.tree_nodes(), Self::id_index(node_id)).len() ==> {
                &&& r is Some
                &&& Self::id_index(r->0) == spec_children(self.tree_nodes(), Self::id_index(node_id))[index as int]
            },
            index >= spec_children(self.tree_nodes(), Self::id_index(node_id)).len() ==> r is None,
    {
        let kids = self.children(node_id);
        if index < kids.len() {
            Some(kids[index])
        } else {
            None
        }
    }
}

/// Storage of leaf values addressed by `Id`.
pub trait LeafNode<Id: Copy> {
    type Tree;

    fn get_storage(&self) -> &[Self::Tree];
}

} // verus!
