use vstd::prelude::*;

use crate::ast::{Action, ComputeOp, ExprNode, Pattern};
use crate::captures::{keys_distinct, last_pos, lookup, CapturedValue, Captures};
use crate::children::{lemma_children_before, node_ok, nodes_ok, spec_children, spec_length, Children};
use crate::equality::spec_expr_eq;
use crate::idx::{ActionId, ExprId, NameId, PatternId, RuleId};
use crate::graph::{groups_keyed_ok, same_but_graph, transformation_added};
use crate::pool::{same_graph, same_rule_side, same_symbols, Location, Pool, Provenance};

verus! {

/// Every expression a binding names is a node of the pool.
pub open spec fn captures_ok(pool: &Pool, caps: Seq<(NameId, CapturedValue)>) -> bool {
    forall|i: int|
        0 <= i < caps.len() ==> ((#[trigger] caps[i]).1 matches CapturedValue::Expression(e) ==> e.0
            < pool.exprs@.len())
}

pub proof fn lemma_lookup_ok(pool: &Pool, caps: Seq<(NameId, CapturedValue)>, k: NameId)
    requires
        captures_ok(pool, caps),
    ensures
        lookup(caps, k) matches Some(CapturedValue::Expression(e)) ==> e.0 < pool.exprs@.len(),
{
    crate::captures::lemma_last_pos(caps, k);
    if lookup(caps, k) is Some {
        assert(caps[last_pos(caps, k)].1 == lookup(caps, k)->0);
    }
}

/// A wildcard binding: a new name binds to the node; a name already bound to
/// an expression matches a node equal to it; any other binding fails.
pub open spec fn bind_expr(pool: &Pool, c: NameId, e: int, caps: Seq<(NameId, CapturedValue)>) -> (
    bool,
    Seq<(NameId, CapturedValue)>,
) {
    match lookup(caps, c) {
        None => (true, caps.push((c, CapturedValue::Expression(ExprId(e as usize))))),
        Some(CapturedValue::Expression(r)) => (spec_expr_eq(pool.exprs@, r.0 as int, e), caps),
        Some(_) => (false, caps),
    }
}

/// Whether the pattern rooted at `p` matches the expression rooted at `e`,
/// starting from the bindings `caps`, and the bindings when the match ended
/// (on failure, those made before it failed). Children are matched pairwise
/// from the last argument on and the first failure ends the match.
pub open spec fn match_node(pool: &Pool, p: int, e: int, caps: Seq<(NameId, CapturedValue)>) -> (
    bool,
    Seq<(NameId, CapturedValue)>,
)
    decreases p, 1int, 0int,
{
    if 0 <= p < pool.patterns@.len() && 0 <= e < pool.exprs@.len() {
        match (pool.patterns@[p], pool.exprs@[e]) {
            (Pattern::Number(a), ExprNode::Number(b)) => (a == b, caps),
            (Pattern::Variable(a), ExprNode::Variable(b)) => (a == b, caps),
            (Pattern::AnyNumber(c), ExprNode::Number(_)) => bind_expr(pool, c, e, caps),
            (Pattern::Wildcard(c), _) => bind_expr(pool, c, e, caps),
            (
                Pattern::Call { fun: pf, arity: pa, .. },
                ExprNode::Call { fun: nf, arity: na, .. },
            ) => if pf != nf || pa != na {
                (false, caps)
            } else {
                match_kids(pool, p, e, 0, caps)
            },
            (
                Pattern::Struct { name: pn, arity: pa, .. },
                ExprNode::Struct { name: nn, arity: na, .. },
            ) => if pn != nn || pa != na {
                (false, caps)
            } else {
                match_kids(pool, p, e, 0, caps)
            },
            (
                Pattern::VarCallName { var, arity: pa, .. },
                ExprNode::Call { fun: nf, arity: na, .. },
            ) => if pa != na {
                (false, caps)
            } else {
                match lookup(caps, var) {
                    None => match_kids(pool, p, e, 0, caps.push((var, CapturedValue::Function(nf)))),
                    Some(CapturedValue::Function(f)) => if f != nf {
                        (false, caps)
                    } else {
                        match_kids(pool, p, e, 0, caps)
                    },
                    Some(_) => (false, caps),
                }
            },
            (
                Pattern::VarStructName { var, arity: pa, .. },
                ExprNode::Struct { name: nn, arity: na, .. },
            ) => if pa != na {
                (false, caps)
            } else {
                match lookup(caps, var) {
                    None => match_kids(
                        pool,
                        p,
                        e,
                        0,
                        caps.push((var, CapturedValue::StructName(nn))),
                    ),
                    Some(CapturedValue::StructName(n)) => if n != nn {
                        (false, caps)
                    } else {
                        match_kids(pool, p, e, 0, caps)
                    },
                    Some(_) => (false, caps),
                }
            },
            _ => (false, caps),
        }
    } else {
        (false, caps)
    }
}

/// Matches the children of `p` against those of `e` from position `k` of
/// their child lists on, while both lists last.
pub open spec fn match_kids(
    pool: &Pool,
    p: int,
    e: int,
    k: int,
    caps: Seq<(NameId, CapturedValue)>,
) -> (bool, Seq<(NameId, CapturedValue)>)
    decreases p, 0int, spec_children(pool.patterns@, p).len() - k,
{
    let pk = spec_children(pool.patterns@, p);
    let ek = spec_children(pool.exprs@, e);
    if k < 0 || k >= pk.len() || k >= ek.len() {
        (true, caps)
    } else if !(0 <= pk[k] < p) {
        (false, caps)
    } else {
        let r = match_node(pool, pk[k], ek[k], caps);
        if !r.0 {
            r
        } else {
            match_kids(pool, p, e, k + 1, r.1)
        }
    }
}

/// The pattern and expression arenas can be walked.
pub open spec fn arenas_ok(pool: &Pool) -> bool {
    nodes_ok(pool.patterns@) && nodes_ok(pool.exprs@)
}

impl Pool {
    fn bind(&self, c: NameId, node_id: ExprId, captures: &mut Captures) -> (r: bool)
        requires
            nodes_ok(self.exprs@),
            node_id.0 < self.exprs@.len(),
            captures_ok(self, old(captures)@),
        ensures
            (r, final(captures)@) == bind_expr(self, c, node_id.0 as int, old(captures)@),
            captures_ok(self, final(captures)@),
            keys_distinct(old(captures)@) ==> keys_distinct(final(captures)@),
    {
        proof {
            lemma_lookup_ok(self, captures@, c);
        }
        let found: Option<CapturedValue> = match captures.get(&c) {
            Some(v) => Some(*v),
            None => None,
        };
        match found {
            None => {
                captures.insert(c, CapturedValue::Expression(node_id));
                true
            },
            Some(CapturedValue::Expression(registered_id)) => self.expr_eq(registered_id, node_id),
            Some(_) => false,
        }
    }

    /// Whether the pattern matches the expression rooted at `node_id`,
    /// binding its variables in `captures`.
    pub fn pattern_matches(&self, pattern_id: PatternId, node_id: ExprId, captures: &mut Captures) -> (r:
        bool)
        requires
            arenas_ok(self),
            pattern_id.0 < self.patterns@.len(),
            node_id.0 < self.exprs@.len(),
            captures_ok(self, old(captures)@),
        ensures
            (r, final(captures)@) == match_node(
                self,
                pattern_id.0 as int,
                node_id.0 as int,
                old(captures)@,
            ),
            captures_ok(self, final(captures)@),
            keys_distinct(old(captures)@) ==> keys_distinct(final(captures)@),
        decreases pattern_id.0, 1int,
    {
        match (self.patterns[pattern_id.0], self.exprs[node_id.0]) {
            (Pattern::Number(a), ExprNode::Number(b)) => a == b,
            (Pattern::Variable(a), ExprNode::Variable(b)) => a == b,
            (Pattern::AnyNumber(c), ExprNode::Number(_)) => self.bind(c, node_id, captures),
            (Pattern::Wildcard(c), _) => self.bind(c, node_id, captures),
            (
                Pattern::Call { fun: pf, arity: pa, .. },
                ExprNode::Call { fun: nf, arity: na, .. },
            ) => {
                if pf != nf || pa != na {
                    return false;
                }
                self.children_match(pattern_id, node_id, captures)
            },
            (
                Pattern::Struct { name: pn, arity: pa, .. },
                ExprNode::Struct { name: nn, arity: na, .. },
            ) => {
                if pn != nn || pa != na {
                    return false;
                }
                self.children_match(pattern_id, node_id, captures)
            },
            (
                Pattern::VarCallName { var, arity: pa, .. },
                ExprNode::Call { fun: nf, arity: na, .. },
            ) => {
                if pa != na {
                    return false;
                }
                let found: Option<CapturedValue> = match captures.get(&var) {
                    Some(v) => Some(*v),
                    None => None,
                };
                match found {
                    None => {
                        captures.insert(var, CapturedValue::Function(nf));
                    },
                    Some(CapturedValue::Function(f)) => {
                        if f != nf {
                            return false;
                        }
                    },
                    Some(_) => {
                        return false;
                    },
                }
                self.children_match(pattern_id, node_id, captures)
            },
            (
                Pattern::VarStructName { var, arity: pa, .. },
                ExprNode::Struct { name: nn, arity: na, .. },
            ) => {
                if pa != na {
                    return false;
                }
                let found: Option<CapturedValue> = match captures.get(&var) {
                    Some(v) => Some(*v),
                    None => None,
                };
                match found {
                    None => {
                        captures.insert(var, CapturedValue::StructName(nn));
                    },
                    Some(CapturedValue::StructName(n)) => {
                        if n != nn {
                            return false;
                        }
                    },
                    Some(_) => {
                        return false;
                    },
                }
                self.children_match(pattern_id, node_id, captures)
            },
            _ => false,
        }
    }

    fn children_match(&self, pattern_id: PatternId, node_id: ExprId, captures: &mut Captures) -> (r:
        bool)
        requires
            arenas_ok(self),
            pattern_id.0 < self.patterns@.len(),
            node_id.0 < self.exprs@.len(),
            captures_ok(self, old(captures)@),
        ensures
            (r, final(captures)@) == match_kids(
                self,
                pattern_id.0 as int,
                node_id.0 as int,
                0,
                old(captures)@,
            ),
            captures_ok(self, final(captures)@),
            keys_distinct(old(captures)@) ==> keys_distinct(final(captures)@),
        decreases pattern_id.0, 0int,
    {
        let pk = self.children(pattern_id);
        let ek = self.children(node_id);
        proof {
            lemma_children_before(self.patterns@, pattern_id.0 as int);
            lemma_children_before(self.exprs@, node_id.0 as int);
        }
        let ghost p = pattern_id.0 as int;
        let ghost e = node_id.0 as int;
        let ghost sp = spec_children(self.patterns@, p);
        let ghost se = spec_children(self.exprs@, e);
        let ghost start = captures@;
        let mut k: usize = 0;
        while k < pk.len() && k < ek.len()
            invariant
                arenas_ok(self),
                p == pattern_id.0,
                e == node_id.0,
                p < self.patterns@.len(),
                e < self.exprs@.len(),
                sp == spec_children(self.patterns@, p),
                se == spec_children(self.exprs@, e),
                pk@.len() == sp.len(),
                ek@.len() == se.len(),
                forall|m: int| 0 <= m < pk@.len() ==> (#[trigger] pk@[m]).0 as int == sp[m],
                forall|m: int| 0 <= m < ek@.len() ==> (#[trigger] ek@[m]).0 as int == se[m],
                forall|m: int| 0 <= m < sp.len() ==> 0 <= #[trigger] sp[m] < p,
                forall|m: int| 0 <= m < se.len() ==> 0 <= #[trigger] se[m] < e,
                k <= pk@.len(),
                captures_ok(self, captures@),
                start == old(captures)@,
                keys_distinct(start) ==> keys_distinct(captures@),
                match_kids(self, p, e, 0, start) == match_kids(self, p, e, k as int, captures@),
            decreases pk@.len() - k,
        {
            let ghost before = captures@;
            proof {
                assert(sp[k as int] == pk@[k as int].0 && se[k as int] == ek@[k as int].0);
            }
            let ok = self.pattern_matches(pk[k], ek[k], captures);
            proof {
                let r = match_node(self, sp[k as int], se[k as int], before);
                assert(match_kids(self, p, e, k as int, before) == if !r.0 {
                    r
                } else {
                    match_kids(self, p, e, k + 1, r.1)
                });
            }
            if !ok {
                return false;
            }
            k = k + 1;
        }
        true
    }
}

} // verus!

verus! {

/// A place where a rule's pattern matched: the expression searched, the
/// node matched, the rule, and the bindings the match made.
#[derive(Debug, Clone)]
pub struct Match {
    pub root: ExprId,
    pub offset: ExprId,
    pub rule_id: RuleId,
    pub captures: Captures,
}

impl View for Match {
    type V = (ExprId, ExprId, RuleId, Seq<(NameId, CapturedValue)>);

    open spec fn view(&self) -> (ExprId, ExprId, RuleId, Seq<(NameId, CapturedValue)>) {
        (self.root, self.offset, self.rule_id, self.captures@)
    }
}

/// Every rule names a pattern of the pool.
pub open spec fn rule_patterns_ok(pool: &Pool) -> bool {
    forall|i: int| 0 <= i < pool.rules@.len() ==> (#[trigger] pool.rules@[i]).pattern.0 < pool.patterns@.len()
}

/// The matches of the first `n` rules at node `v`, in rule order, each
/// starting from no bindings.
pub open spec fn rule_matches(pool: &Pool, root: ExprId, v: int, n: int) -> Seq<
    (ExprId, ExprId, RuleId, Seq<(NameId, CapturedValue)>),
>
    decreases n,
{
    if n <= 0 {
        Seq::empty()
    } else {
        let prev = rule_matches(pool, root, v, n - 1);
        let res = match_node(pool, pool.rules@[n - 1].pattern.0 as int, v, Seq::empty());
        if res.0 {
            prev.push((root, ExprId(v as usize), RuleId((n - 1) as usize), res.1))
        } else {
            prev
        }
    }
}

/// The matches of every rule at every node of the expression rooted at `v`,
/// visiting a node before its children and the children in argument order.
pub open spec fn tree_matches(pool: &Pool, root: ExprId, v: int) -> Seq<
    (ExprId, ExprId, RuleId, Seq<(NameId, CapturedValue)>),
>
    decreases v, 1int, 0int,
{
    if 0 <= v < pool.exprs@.len() {
        rule_matches(pool, root, v, pool.rules@.len() as int) + kids_matches(
            pool,
            root,
            v,
            spec_children(pool.exprs@, v).len() as int,
        )
    } else {
        Seq::empty()
    }
}

/// The matches within the first `m` arguments of the node at `v`.
pub open spec fn kids_matches(pool: &Pool, root: ExprId, v: int, m: int) -> Seq<
    (ExprId, ExprId, RuleId, Seq<(NameId, CapturedValue)>),
>
    decreases v, 0int, m,
{
    let kids = spec_children(pool.exprs@, v);
    if m <= 0 || m > kids.len() {
        Seq::empty()
    } else {
        let c = kids[kids.len() - m];
        if 0 <= c < v {
            kids_matches(pool, root, v, m - 1) + tree_matches(pool, root, c)
        } else {
            kids_matches(pool, root, v, m - 1)
        }
    }
}

impl Pool {
    /// Every match of every rule anywhere in the expression rooted at `root`.
    pub fn find_matches(&self, root: ExprId) -> (r: Vec<Match>)
        requires
            arenas_ok(self),
            rule_patterns_ok(self),
            root.0 < self.exprs@.len(),
        ensures
            r@.map_values(|m: Match| m@) == tree_matches(self, root, root.0 as int),
    {
        let mut matches: Vec<Match> = Vec::new();
        self.find_matches_recursive(root, root, &mut matches);
        assert(matches@.map_values(|m: Match| m@) =~= tree_matches(self, root, root.0 as int));
        matches
    }

    fn find_matches_recursive(&self, root: ExprId, node_id: ExprId, matches: &mut Vec<Match>)
        requires
            arenas_ok(self),
            rule_patterns_ok(self),
            node_id.0 < self.exprs@.len(),
        ensures
            final(matches)@.map_values(|m: Match| m@) == old(matches)@.map_values(|m: Match| m@)
                + tree_matches(self, root, node_id.0 as int),
        decreases node_id.0,
    {
        let ghost start = matches@.map_values(|m: Match| m@);
        let ghost v = node_id.0 as int;
        let n = self.rules.len();
        for rule_id in 0..n
            invariant
                n == self.rules@.len(),
                arenas_ok(self),
                rule_patterns_ok(self),
                node_id.0 < self.exprs@.len(),
                v == node_id.0,
                matches@.map_values(|m: Match| m@) == start + rule_matches(self, root, v, rule_id as int),
        {
            let rule = self.rules[rule_id];
            assert(rule.pattern.0 < self.patterns@.len());
            let mut captures = Captures::new();
            let ghost before = matches@.map_values(|m: Match| m@);
            if self.pattern_matches(rule.pattern, node_id, &mut captures) {
                matches.push(Match { root, offset: node_id, rule_id: RuleId::new(rule_id), captures });
                assert(matches@.map_values(|m: Match| m@) =~= before.push(matches@.last()@));
            }
            assert(matches@.map_values(|m: Match| m@) =~= start + rule_matches(self, root, v, rule_id + 1));
        }
        let kids = self.children(node_id);
        proof {
            lemma_children_before(self.exprs@, v);
        }
        let ghost sk = spec_children(self.exprs@, v);
        let ghost mid = matches@.map_values(|m: Match| m@);
        let mut m = kids.len();
        while m > 0
            invariant
                arenas_ok(self),
                rule_patterns_ok(self),
                node_id.0 < self.exprs@.len(),
                v == node_id.0,
                sk == spec_children(self.exprs@, v),
                kids@.len() == sk.len(),
                forall|j: int| 0 <= j < kids@.len() ==> (#[trigger] kids@[j]).0 as int == sk[j],
                forall|j: int| 0 <= j < sk.len() ==> 0 <= #[trigger] sk[j] < v,
                m <= kids@.len(),
                matches@.map_values(|m: Match| m@) == mid + kids_matches(
                    self,
                    root,
                    v,
                    kids@.len() - m,
                ),
            decreases m,
        {
            m = m - 1;
            let child = kids[m];
            let ghost before = matches@.map_values(|m: Match| m@);
            self.find_matches_recursive(root, child, matches);
            proof {
                let done = (kids@.len() - m) as int;
                assert(sk[sk.len() - done] == child.0);
                assert(kids_matches(self, root, v, done) == kids_matches(self, root, v, done - 1)
                    + tree_matches(self, root, child.0 as int));
            }
            assert(matches@.map_values(|m: Match| m@) =~= mid + kids_matches(self, root, v, kids@.len() - m));
        }
        assert(start + rule_matches(self, root, v, n as int) + kids_matches(self, root, v, sk.len() as int)
            =~= start + tree_matches(self, root, v));
    }
}

} // verus!

verus! {

/// The provenance given to nodes a rule's action builds.
pub open spec fn rule_provenance() -> Provenance {
    Provenance::Rule { rule_id: RuleId(0), source_node: ExprId(0), source_location: Location { start: 0, end: 0 } }
}

/// Where the node `e` came from, or a parsed empty span when unrecorded.
pub open spec fn provenance_of(pool: &Pool, e: int) -> Provenance {
    if 0 <= e < pool.locations@.len() {
        pool.locations@[e]
    } else {
        Provenance::Parsed(Location { start: 0, end: 0 })
    }
}

/// The slots the node `e` claims, each with the provenance of `e`.
pub open spec fn copied(pool: &Pool, e: int) -> Seq<(ExprNode, Provenance)> {
    let len = spec_length(pool.exprs@, e);
    pool.exprs@.subrange(e + 1 - len, e + 1).map_values(|n: ExprNode| (n, provenance_of(pool, e)))
}

/// The sum of the numbers added left to right, if no partial sum overflows.
pub open spec fn checked_sum(args: Seq<i32>) -> Option<i32>
    decreases args.len(),
{
    if args.len() == 0 {
        Some(0i32)
    } else {
        match checked_sum(args.drop_last()) {
            Some(s) => s.checked_add(args.last()),
            None => None,
        }
    }
}

/// The product of the numbers multiplied left to right, if no partial product
/// overflows.
pub open spec fn checked_product(args: Seq<i32>) -> Option<i32>
    decreases args.len(),
{
    if args.len() == 0 {
        Some(1i32)
    } else {
        match checked_product(args.drop_last()) {
            Some(s) => s.checked_mul(args.last()),
            None => None,
        }
    }
}

/// `base` to the power `exp`, if no power on the way overflows.
pub open spec fn checked_pow(base: i32, exp: nat) -> Option<i32>
    decreases exp,
{
    if exp == 0 {
        Some(1i32)
    } else {
        match checked_pow(base, (exp - 1) as nat) {
            Some(p) => p.checked_mul(base),
            None => None,
        }
    }
}

/// The value of an arithmetic operation on its arguments: addition and
/// multiplication of any number of them, subtraction, division (by a non-zero
/// divisor, rounding toward zero) and power (to a non-negative exponent) of two,
/// negation of one; `None` for other argument counts and on overflow.
pub open spec fn compute_spec(op: ComputeOp, args: Seq<i32>) -> Option<i32> {
    match op {
        ComputeOp::Add => checked_sum(args),
        ComputeOp::Subtract => if args.len() == 2 {
            args[0].checked_sub(args[1])
        } else {
            None
        },
        ComputeOp::Multiply => checked_product(args),
        ComputeOp::Divide => if args.len() == 2 && args[1] != 0 {
            args[0].checked_div(args[1])
        } else {
            None
        },
        ComputeOp::Power => if args.len() == 2 && args[1] >= 0 {
            checked_pow(args[0], args[1] as nat)
        } else {
            None
        },
        ComputeOp::Negate => if args.len() == 1 {
            0i32.checked_sub(args[0])
        } else {
            None
        },
    }
}

/// How many bound variables an evaluation may follow: one more than there are
/// bindings, enough for every chain that does not come back to where it began.
pub open spec fn eval_fuel(caps: Seq<(NameId, CapturedValue)>) -> nat {
    if caps.len() < usize::MAX {
        (caps.len() + 1) as nat
    } else {
        caps.len()
    }
}

/// The number an expression stands for: a number, or a variable bound to an
/// expression that stands for one, followed at most `fuel` times.
pub open spec fn eval_num(pool: &Pool, caps: Seq<(NameId, CapturedValue)>, e: int, fuel: nat) -> Option<
    i32,
>
    decreases fuel,
{
    if fuel == 0 || !(0 <= e < pool.exprs@.len()) {
        None
    } else {
        match pool.exprs@[e] {
            ExprNode::Number(n) => Some(n),
            ExprNode::Variable(v) => match lookup(caps, v) {
                Some(CapturedValue::Expression(x)) => eval_num(pool, caps, x.0 as int, (fuel - 1) as nat),
                _ => None,
            },
            _ => None,
        }
    }
}

/// The number an argument of a computation stands for: a number, or a
/// variable bound to an expression that evaluates to one.
pub open spec fn arg_value(pool: &Pool, caps: Seq<(NameId, CapturedValue)>, c: int) -> Option<i32> {
    if 0 <= c < pool.actions@.len() {
        match pool.actions@[c] {
            Action::Number(n) => Some(n),
            Action::Variable(v) => match lookup(caps, v) {
                Some(CapturedValue::Expression(x)) => eval_num(pool, caps, x.0 as int, eval_fuel(caps)),
                _ => None,
            },
            _ => None,
        }
    } else {
        None
    }
}

/// The values of the first `m` arguments, in argument order, of a node whose
/// children are `kids` (which run last argument first), if each has one; a
/// computation applies its operator to them in this order.
pub open spec fn compute_args(pool: &Pool, caps: Seq<(NameId, CapturedValue)>, kids: Seq<int>, m: int) -> Option<
    Seq<i32>,
>
    decreases m,
{
    if m <= 0 {
        Some(Seq::empty())
    } else {
        match compute_args(pool, caps, kids, m - 1) {
            Some(prev) => match arg_value(pool, caps, kids[kids.len() - m]) {
                Some(x) => Some(prev.push(x)),
                None => None,
            },
            None => None,
        }
    }
}

/// The `last` of a compound node whose `n` children were just appended.
pub open spec fn new_last(arity: usize, n: int) -> usize {
    if arity > 0 {
        n as usize
    } else {
        0
    }
}

/// The nodes `out` holds once the action rooted at `a` is built onto it:
/// numbers and unbound variables as themselves, a variable bound to an
/// expression as a copy of that expression, a call or struct after its
/// arguments (a name bound to a function or struct name in place of the
/// variable; nothing when unbound), and a computation as its value (nothing
/// when it has none).
pub open spec fn build(pool: &Pool, a: int, caps: Seq<(NameId, CapturedValue)>, out: Seq<(ExprNode, Provenance)>) -> Seq<
    (ExprNode, Provenance),
>
    decreases a, 1int, 0int,
{
    if 0 <= a < pool.actions@.len() {
        let prov = rule_provenance();
        let nk = spec_children(pool.actions@, a).len() as int;
        match pool.actions@[a] {
            Action::Number(n) => out.push((ExprNode::Number(n), prov)),
            Action::Variable(v) => match lookup(caps, v) {
                Some(CapturedValue::Expression(x)) => out + copied(pool, x.0 as int),
                _ => out.push((ExprNode::Variable(v), prov)),
            },
            Action::Call { fun, arity, .. } => {
                let o = build_kids(pool, a, caps, nk, out);
                o.push((ExprNode::Call { fun, last: new_last(arity, o.len() - out.len()), arity }, prov))
            },
            Action::Struct { name, arity, .. } => {
                let o = build_kids(pool, a, caps, nk, out);
                o.push((ExprNode::Struct { name, last: new_last(arity, o.len() - out.len()), arity }, prov))
            },
            Action::VarCallName { var, arity, .. } => match lookup(caps, var) {
                Some(CapturedValue::Function(fun)) => {
                    let o = build_kids(pool, a, caps, nk, out);
                    o.push((ExprNode::Call { fun, last: new_last(arity, o.len() - out.len()), arity }, prov))
                },
                _ => out,
            },
            Action::VarStructName { var, arity, .. } => match lookup(caps, var) {
                Some(CapturedValue::StructName(name)) => {
                    let o = build_kids(pool, a, caps, nk, out);
                    o.push(
                        (ExprNode::Struct { name, last: new_last(arity, o.len() - out.len()), arity }, prov),
                    )
                },
                _ => out,
            },
            Action::Compute { op, arity, .. } => {
                let kids = spec_children(pool.actions@, a);
                if kids.len() != arity {
                    out
                } else {
                    match compute_args(pool, caps, kids, kids.len() as int) {
                        Some(args) => match compute_spec(op, args) {
                            Some(value) => out.push((ExprNode::Number(value), prov)),
                            None => out,
                        },
                        None => out,
                    }
                }
            },
        }
    } else {
        out
    }
}

/// `out` with the first `m` arguments of the action node `a` built onto it,
/// in argument order.
pub open spec fn build_kids(
    pool: &Pool,
    a: int,
    caps: Seq<(NameId, CapturedValue)>,
    m: int,
    out: Seq<(ExprNode, Provenance)>,
) -> Seq<(ExprNode, Provenance)>
    decreases a, 0int, m,
{
    let kids = spec_children(pool.actions@, a);
    if m <= 0 || m > kids.len() {
        out
    } else {
        let o = build_kids(pool, a, caps, m - 1, out);
        let c = kids[kids.len() - m];
        if 0 <= c < a {
            build(pool, c, caps, o)
        } else {
            o
        }
    }
}

/// The actions and expressions can be walked and the bindings name nodes.
pub open spec fn build_ok(pool: &Pool, caps: Seq<(NameId, CapturedValue)>) -> bool {
    nodes_ok(pool.actions@) && nodes_ok(pool.exprs@) && captures_ok(pool, caps)
}

proof fn lemma_lookup_node_ok(pool: &Pool, caps: Seq<(NameId, CapturedValue)>, k: NameId)
    requires
        captures_ok(pool, caps),
        nodes_ok(pool.exprs@),
    ensures
        lookup(caps, k) matches Some(CapturedValue::Expression(e)) ==> e.0 < pool.exprs@.len() && node_ok(
            pool.exprs@,
            e.0 as int,
        ),
{
    lemma_lookup_ok(pool, caps, k);
}

impl Pool {
    /// Appends the slots the node `expr_id` claims, each with its provenance.
    pub fn copy_expression_to_vec(&self, expr_id: ExprId, output: &mut Vec<(ExprNode, Provenance)>)
        requires
            expr_id.0 < self.exprs@.len(),
            node_ok(self.exprs@, expr_id.0 as int),
        ensures
            final(output)@ == old(output)@ + copied(self, expr_id.0 as int),
    {
        let expr_slice = self.get_full_slice(expr_id);
        let provenance = match self.get_provenance(expr_id) {
            Some(p) => *p,
            None => Provenance::Parsed(Location::new(0, 0)),
        };
        let ghost start = output@;
        let ghost c = copied(self, expr_id.0 as int);
        assert(expr_slice@.map_values(|n: ExprNode| (n, provenance)) =~= c);
        for i in 0..expr_slice.len()
            invariant
                output@ == start + expr_slice@.take(i as int).map_values(|n: ExprNode| (n, provenance)),
        {
            output.push((expr_slice[i], provenance));
            assert(expr_slice@.take(i + 1) =~= expr_slice@.take(i as int).push(expr_slice@[i as int]));
            assert(output@ =~= start + expr_slice@.take(i + 1).map_values(|n: ExprNode| (n, provenance)));
        }
        assert(expr_slice@.take(expr_slice@.len() as int) =~= expr_slice@);
    }

    fn checked_pow_exec(base: i32, exp: i32) -> (r: Option<i32>)
        requires
            exp >= 0,
        ensures
            r == checked_pow(base, exp as nat),
    {
        if base == 0 || base == 1 || base == -1 {
            proof {
                lemma_pow_small(base, exp as nat);
            }
            if exp == 0 {
                return Some(1);
            }
            if base == -1 && exp % 2 == 1 {
                return Some(-1);
            }
            if base == -1 {
                return Some(1);
            }
            return Some(base);
        }
        let mut acc: i32 = 1;
        let mut i: i32 = 0;
        while i < exp
            invariant
                0 <= i <= exp,
                checked_pow(base, i as nat) == Some(acc),
                base != 0 && base != 1 && base != -1,
            decreases exp - i,
        {
            match acc.checked_mul(base) {
                Some(p) => {
                    acc = p;
                },
                None => {
                    proof {
                        lemma_pow_overflow_stays(base, (i + 1) as nat, exp as nat);
                    }
                    return None;
                },
            }
            i = i + 1;
        }
        Some(acc)
    }

    /// The value of an arithmetic operation on its arguments, if it has one.
    pub fn compute_operation_simple(&self, op: ComputeOp, args: &[i32]) -> (r: Option<i32>)
        ensures
            r == compute_spec(op, args@),
    {
        match op {
            ComputeOp::Add => {
                let mut acc: Option<i32> = Some(0);
                for i in 0..args.len()
                    invariant
                        acc == checked_sum(args@.take(i as int)),
                {
                    assert(args@.take(i + 1).drop_last() =~= args@.take(i as int));
                    acc = match acc {
                        Some(s) => s.checked_add(args[i]),
                        None => None,
                    };
                }
                assert(args@.take(args@.len() as int) =~= args@);
                acc
            },
            ComputeOp::Subtract => if args.len() == 2 {
                args[0].checked_sub(args[1])
            } else {
                None
            },
            ComputeOp::Multiply => {
                let mut acc: Option<i32> = Some(1);
                for i in 0..args.len()
                    invariant
                        acc == checked_product(args@.take(i as int)),
                {
                    assert(args@.take(i + 1).drop_last() =~= args@.take(i as int));
                    acc = match acc {
                        Some(s) => s.checked_mul(args[i]),
                        None => None,
                    };
                }
                assert(args@.take(args@.len() as int) =~= args@);
                acc
            },
            ComputeOp::Divide => if args.len() == 2 && args[1] != 0 {
                args[0].checked_div(args[1])
            } else {
                None
            },
            ComputeOp::Power => if args.len() == 2 && args[1] >= 0 {
                Self::checked_pow_exec(args[0], args[1])
            } else {
                None
            },
            ComputeOp::Negate => if args.len() == 1 {
                0i32.checked_sub(args[0])
            } else {
                None
            },
        }
    }

    fn eval_with_fuel(&self, expr_id: ExprId, captures: &Captures, fuel: usize) -> (r: Option<i32>)
        requires
            captures_ok(self, captures@),
        ensures
            r == eval_num(self, captures@, expr_id.0 as int, fuel as nat),
        decreases fuel,
    {
        if fuel == 0 || expr_id.0 >= self.exprs.len() {
            return None;
        }
        match self.exprs[expr_id.0] {
            ExprNode::Number(n) => Some(n),
            ExprNode::Variable(var_id) => {
                match captures.get(&var_id) {
                    Some(CapturedValue::Expression(captured_expr)) => self.eval_with_fuel(
                        *captured_expr,
                        captures,
                        fuel - 1,
                    ),
                    _ => None,
                }
            },
            _ => None,
        }
    }

    /// The number an expression stands for: a number, or a variable bound to
    /// an expression that stands for one. A chain of bindings that comes back
    /// to where it began stands for no number.
    pub fn evaluate_numeric_expr(&self, expr_id: ExprId, captures: &Captures) -> (r: Option<i32>)
        requires
            captures_ok(self, captures@),
        ensures
            r == eval_num(self, captures@, expr_id.0 as int, eval_fuel(captures@)),
    {
        let n = captures.len();
        let fuel = if n < usize::MAX {
            n + 1
        } else {
            n
        };
        self.eval_with_fuel(expr_id, captures, fuel)
    }
}

proof fn lemma_pow_small(base: i32, exp: nat)
    requires
        base == 0 || base == 1 || base == -1,
    ensures
        checked_pow(base, exp) == if exp == 0 {
            Some(1i32)
        } else if base == -1 && exp % 2 == 1 {
            Some(-1i32)
        } else if base == -1 {
            Some(1i32)
        } else {
            Some(base)
        },
    decreases exp,
{
    if exp > 0 {
        lemma_pow_small(base, (exp - 1) as nat);
    }
}

proof fn lemma_pow_overflow_stays(base: i32, i: nat, exp: nat)
    requires
        checked_pow(base, i) is None,
        i <= exp,
    ensures
        checked_pow(base, exp) is None,
    decreases exp - i,
{
    if i < exp {
        lemma_pow_overflow_stays(base, i + 1, exp);
    }
}

} // verus!

verus! {

impl Pool {
    /// Appends the expression the action rooted at `action_id` builds from
    /// the bindings. A computation takes its operands in the order they are
    /// written: `[a - b]` is `a` minus `b`, so `[10 - 3]` builds 7 and
    /// `[20 / 4]` builds 5, as the rules `sub_numbers` and `sub_coeffs` of
    /// the prebuilt rulesets intend.
    pub fn build_action_simple(
        &self,
        action_id: ActionId,
        captures: &Captures,
        output: &mut Vec<(ExprNode, Provenance)>,
    )
        requires
            build_ok(self, captures@),
            action_id.0 < self.actions@.len(),
        ensures
            final(output)@ == build(self, action_id.0 as int, captures@, old(output)@),
            old(output)@.len() <= final(output)@.len(),
        decreases action_id.0, 1int,
    {
        let provenance = Provenance::Rule {
            rule_id: RuleId::new(0),
            source_node: ExprId::new(0),
            source_location: Location::new(0, 0),
        };
        match self.actions[action_id.0] {
            Action::Number(n) => {
                output.push((ExprNode::Number(n), provenance));
            },
            Action::Variable(var_id) => {
                proof {
                    lemma_lookup_node_ok(self, captures@, var_id);
                }
                match captures.get(&var_id) {
                    Some(CapturedValue::Expression(expr_id)) => {
                        self.copy_expression_to_vec(*expr_id, output);
                    },
                    _ => {
                        output.push((ExprNode::Variable(var_id), provenance));
                    },
                }
            },
            Action::Call { fun, arity, .. } => {
                let start_pos = output.len();
                self.build_children(action_id, captures, output);
                let last = if arity > 0 {
                    output.len() - start_pos
                } else {
                    0
                };
                output.push((ExprNode::Call { fun, last, arity }, provenance));
            },
            Action::Struct { name, arity, .. } => {
                let start_pos = output.len();
                self.build_children(action_id, captures, output);
                let last = if arity > 0 {
                    output.len() - start_pos
                } else {
                    0
                };
                output.push((ExprNode::Struct { name, last, arity }, provenance));
            },
            Action::VarCallName { var, arity, .. } => {
                if let Some(CapturedValue::Function(fun)) = captures.get(&var) {
                    let fun = *fun;
                    let start_pos = output.len();
                    self.build_children(action_id, captures, output);
                    let last = if arity > 0 {
                        output.len() - start_pos
                    } else {
                        0
                    };
                    output.push((ExprNode::Call { fun, last, arity }, provenance));
                }
            },
            Action::VarStructName { var, arity, .. } => {
                if let Some(CapturedValue::StructName(name)) = captures.get(&var) {
                    let name = *name;
                    let start_pos = output.len();
                    self.build_children(action_id, captures, output);
                    let last = if arity > 0 {
                        output.len() - start_pos
                    } else {
                        0
                    };
                    output.push((ExprNode::Struct { name, last, arity }, provenance));
                }
            },
            Action::Compute { op, arity, .. } => {
                let children = self.children(action_id);
                let ghost kids = spec_children(self.actions@, action_id.0 as int);
                if children.len() == arity {
                    let mut args: Vec<i32> = Vec::new();
                    for i in 0..children.len()
                        invariant
                            build_ok(self, captures@),
                            kids == spec_children(self.actions@, action_id.0 as int),
                            children@.len() == kids.len(),
                            forall|m: int| 0 <= m < children@.len() ==> (#[trigger] children@[m]).0 as int == kids[m],
                            compute_args(self, captures@, kids, i as int) == Some(args@),
                            output@ == old(output)@,
                            action_id.0 < self.actions@.len(),
                            children@.len() == arity,
                            self.actions@[action_id.0 as int] matches Action::Compute { op: o, arity: ar, .. } && o
                                == op && ar == arity,
                    {
                        let child_id = children[children.len() - 1 - i];
                        let ghost prev = args@;
                        assert(kids[kids.len() - (i + 1)] == child_id.0);
                        let value: Option<i32> = if child_id.0 < self.actions.len() {
                            match self.actions[child_id.0] {
                                Action::Number(n) => Some(n),
                                Action::Variable(var_id) => {
                                    match captures.get(&var_id) {
                                        Some(CapturedValue::Expression(expr_id)) => self.evaluate_numeric_expr(
                                            *expr_id,
                                            captures,
                                        ),
                                        _ => None,
                                    }
                                },
                                _ => None,
                            }
                        } else {
                            None
                        };
                        assert(value == arg_value(self, captures@, kids[kids.len() - (i + 1)]));
                        match value {
                            Some(v) => {
                                args.push(v);
                            },
                            None => {
                                assert(compute_args(self, captures@, kids, kids.len() as int) is None) by {
                                    lemma_compute_args_none(self, captures@, kids, i + 1, kids.len() as int);
                                }
                                return;
                            },
                        }
                    }
                    if let Some(result) = self.compute_operation_simple(op, args.as_slice()) {
                        output.push((ExprNode::Number(result), provenance));
                    }
                }
            },
        }
    }

    fn build_children(&self, action_id: ActionId, captures: &Captures, output: &mut Vec<(ExprNode, Provenance)>)
        requires
            build_ok(self, captures@),
            action_id.0 < self.actions@.len(),
        ensures
            final(output)@ == build_kids(
                self,
                action_id.0 as int,
                captures@,
                spec_children(self.actions@, action_id.0 as int).len() as int,
                old(output)@,
            ),
            old(output)@.len() <= final(output)@.len(),
        decreases action_id.0, 0int,
    {
        let kids = self.children(action_id);
        proof {
            lemma_children_before(self.actions@, action_id.0 as int);
        }
        let ghost a = action_id.0 as int;
        let ghost sk = spec_children(self.actions@, a);
        let ghost start = output@;
        let mut m = kids.len();
        while m > 0
            invariant
                build_ok(self, captures@),
                action_id.0 < self.actions@.len(),
                a == action_id.0,
                sk == spec_children(self.actions@, a),
                kids@.len() == sk.len(),
                forall|j: int| 0 <= j < kids@.len() ==> (#[trigger] kids@[j]).0 as int == sk[j],
                forall|j: int| 0 <= j < sk.len() ==> 0 <= #[trigger] sk[j] < a,
                m <= kids@.len(),
                start == old(output)@,
                start.len() <= output@.len(),
                output@ == build_kids(self, a, captures@, kids@.len() - m, start),
            decreases m,
        {
            m = m - 1;
            let child = kids[m];
            proof {
                let done = (kids@.len() - m) as int;
                assert(sk[sk.len() - done] == child.0);
            }
            self.build_action_simple(child, captures, output);
        }
    }
}

proof fn lemma_compute_args_none(
    pool: &Pool,
    caps: Seq<(NameId, CapturedValue)>,
    kids: Seq<int>,
    i: int,
    n: int,
)
    requires
        1 <= i <= n,
        compute_args(pool, caps, kids, i) is None,
    ensures
        compute_args(pool, caps, kids, n) is None,
    decreases n - i,
{
    if i < n {
        lemma_compute_args_none(pool, caps, kids, i + 1, n);
    }
}

} // verus!

verus! {

/// The `last` of a node whose subtree grew from `target_len` to `repl_len`
/// nodes at the splice.
pub open spec fn shift_last(last: usize, repl_len: int, target_len: int) -> usize {
    ((last - target_len) as usize).saturating_add(repl_len as usize)
}

/// Whether the node at position `i` after a splice at `start` encloses the
/// spliced region: it stands after the replacement and, counted before the
/// splice, its subtree began at or before `start`.
pub open spec fn encloses_splice(last: usize, i: int, start: int, repl_len: int, target_len: int) -> bool {
    &&& last <= i
    &&& start + repl_len <= i
    &&& i + target_len <= start + repl_len + last
}

/// A node at position `i` after a splice at `start`: a compound node that
/// encloses the spliced region reaches over the change in length.
pub open spec fn fix_node(node: ExprNode, i: int, start: int, repl_len: int, target_len: int) -> ExprNode {
    match node {
        ExprNode::Call { fun, last, arity } => if encloses_splice(last, i, start, repl_len, target_len) {
            ExprNode::Call { fun, last: shift_last(last, repl_len, target_len), arity }
        } else {
            node
        },
        ExprNode::Struct { name, last, arity } => if encloses_splice(last, i, start, repl_len, target_len) {
            ExprNode::Struct { name, last: shift_last(last, repl_len, target_len), arity }
        } else {
            node
        },
        _ => node,
    }
}

/// Every node of `v` fixed after a splice at `start`.
pub open spec fn fixed(v: Seq<(ExprNode, Provenance)>, start: int, repl_len: int, target_len: int) -> Seq<
    (ExprNode, Provenance),
> {
    Seq::new(v.len(), |i: int| (fix_node(v[i].0, i, start, repl_len, target_len), v[i].1))
}

/// The nodes a rewrite appends: the replacement itself when it replaces the
/// whole root, else a copy of the root with the region of the matched node
/// spliced out for the replacement and the enclosing nodes fixed.
pub open spec fn rewritten(pool: &Pool, root: int, offset: int, repl: Seq<(ExprNode, Provenance)>) -> Seq<
    (ExprNode, Provenance),
> {
    if root == offset {
        repl
    } else {
        let root_vec = copied(pool, root);
        let rel = (root - offset) as usize;
        let tl = spec_length(pool.exprs@, offset);
        let rl = spec_length(pool.exprs@, root);
        let tend = (rl as usize).saturating_sub(rel);
        let tstart = tend.saturating_sub(tl as usize);
        let spliced = root_vec.subrange(0, tstart as int) + repl + root_vec.subrange(
            tend as int,
            root_vec.len() as int,
        );
        fixed(spliced, tstart as int, repl.len() as int, tl)
    }
}

/// The replacement a match's rule builds.
pub open spec fn replacement(pool: &Pool, m: (ExprId, ExprId, RuleId, Seq<(NameId, CapturedValue)>)) -> Seq<
    (ExprNode, Provenance),
> {
    build(pool, pool.rules@[m.2.0 as int].action.0 as int, m.3, Seq::empty())
}

/// The nodes applying a match appends.
pub open spec fn applied_nodes(pool: &Pool, m: (ExprId, ExprId, RuleId, Seq<(NameId, CapturedValue)>)) -> Seq<
    (ExprNode, Provenance),
> {
    rewritten(pool, m.0.0 as int, m.1.0 as int, replacement(pool, m))
}

/// What applying a match needs: the rule, its action and the matched nodes
/// exist, the matched node lies at or before the root, the arenas can be
/// walked before and after the new nodes are added, and the grouped
/// expressions are nodes.
pub open spec fn apply_ok(pool: &Pool, m: (ExprId, ExprId, RuleId, Seq<(NameId, CapturedValue)>)) -> bool {
    &&& m.2.0 < pool.rules@.len()
    &&& pool.rules@[m.2.0 as int].action.0 < pool.actions@.len()
    &&& build_ok(pool, m.3)
    &&& m.0.0 < pool.exprs@.len()
    &&& m.1.0 <= m.0.0
    &&& nodes_ok(pool.exprs@ + applied_nodes(pool, m).map_values(|p: (ExprNode, Provenance)| p.0))
    &&& groups_keyed_ok(pool)
}

/// Whether a node at position `i` encloses the spliced region.
fn encloses_splice_exec(last: usize, i: usize, start: usize, repl_len: usize, target_len: usize) -> (r: bool)
    ensures
        r == encloses_splice(last, i as int, start as int, repl_len as int, target_len as int),
{
    if last <= i && i >= start && i - start >= repl_len {
        let d = i - start - repl_len;
        last >= d && last - d >= target_len
    } else {
        false
    }
}

impl Pool {
    fn fix_indices_after_splice(
        &self,
        expr_vec: &mut Vec<(ExprNode, Provenance)>,
        splice_start: usize,
        repl_len: usize,
        target_len: usize,
    )
        ensures
            final(expr_vec)@ == fixed(old(expr_vec)@, splice_start as int, repl_len as int, target_len as int),
    {
        let ghost start = expr_vec@;
        let n = expr_vec.len();
        for i in 0..n
            invariant
                n == start.len(),
                expr_vec@.len() == start.len(),
                forall|j: int|
                    0 <= j < i ==> #[trigger] expr_vec@[j] == fixed(
                        start,
                        splice_start as int,
                        repl_len as int,
                        target_len as int,
                    )[j],
                forall|j: int| i <= j < start.len() ==> #[trigger] expr_vec@[j] == start[j],
        {
            let (node, prov) = expr_vec[i];
            let new_node = match node {
                ExprNode::Call { fun, last, arity } => {
                    if encloses_splice_exec(last, i, splice_start, repl_len, target_len) {
                        ExprNode::Call { fun, last: (last - target_len).saturating_add(repl_len), arity }
                    } else {
                        node
                    }
                },
                ExprNode::Struct { name, last, arity } => {
                    if encloses_splice_exec(last, i, splice_start, repl_len, target_len) {
                        ExprNode::Struct { name, last: (last - target_len).saturating_add(repl_len), arity }
                    } else {
                        node
                    }
                },
                _ => node,
            };
            expr_vec.set(i, (new_node, prov));
        }
        assert(expr_vec@ =~= fixed(start, splice_start as int, repl_len as int, target_len as int));
    }

    pub(crate) fn splice_into_root(&self, root: ExprId, offset: ExprId, replacement_vec: &Vec<(ExprNode, Provenance)>) -> (r: Vec<
        (ExprNode, Provenance),
    >)
        requires
            nodes_ok(self.exprs@),
            root.0 < self.exprs@.len(),
            offset.0 <= root.0,
            root.0 != offset.0,
        ensures
            r@ == rewritten(self, root.0 as int, offset.0 as int, replacement_vec@),
    {
        let mut root_vec: Vec<(ExprNode, Provenance)> = Vec::new();
        proof {
            assert(node_ok(self.exprs@, root.0 as int));
            assert(node_ok(self.exprs@, offset.0 as int));
        }
        self.copy_expression_to_vec(root, &mut root_vec);
        let relative_pos = root.0 - offset.0;
        let target_slice_len = self.get_full_slice(offset).len();
        let root_slice_len = self.get_full_slice(root).len();
        let target_end = root_slice_len.saturating_sub(relative_pos);
        let target_start = target_end.saturating_sub(target_slice_len);
        let replacement_len = replacement_vec.len();
        let mut spliced: Vec<(ExprNode, Provenance)> = Vec::new();
        for i in 0..target_start
            invariant
                target_start <= root_vec@.len(),
                spliced@ == root_vec@.subrange(0, i as int),
        {
            spliced.push(root_vec[i]);
            assert(spliced@ =~= root_vec@.subrange(0, i + 1));
        }
        for i in 0..replacement_len
            invariant
                replacement_len == replacement_vec@.len(),
                target_start <= root_vec@.len(),
                spliced@ == root_vec@.subrange(0, target_start as int) + replacement_vec@.subrange(0, i as int),
        {
            spliced.push(replacement_vec[i]);
            assert(spliced@ =~= root_vec@.subrange(0, target_start as int) + replacement_vec@.subrange(0, i + 1));
        }
        assert(replacement_vec@.subrange(0, replacement_len as int) =~= replacement_vec@);
        let n = root_vec.len();
        for i in target_end..n
            invariant
                n == root_vec@.len(),
                target_start <= target_end <= n,
                spliced@ == root_vec@.subrange(0, target_start as int) + replacement_vec@
                    + root_vec@.subrange(target_end as int, i as int),
        {
            spliced.push(root_vec[i]);
            assert(spliced@ =~= root_vec@.subrange(0, target_start as int) + replacement_vec@
                + root_vec@.subrange(target_end as int, i + 1));
        }
        self.fix_indices_after_splice(&mut spliced, target_start, replacement_len, target_slice_len);
        spliced
    }

    fn append_nodes(&mut self, new_nodes: &Vec<(ExprNode, Provenance)>)
        ensures
            final(self).exprs@ == old(self).exprs@ + new_nodes@.map_values(|p: (ExprNode, Provenance)| p.0),
            final(self).locations@ == old(self).locations@ + new_nodes@.map_values(|p: (ExprNode, Provenance)| p.1),
            final(self).expr_ends@ == old(self).expr_ends@,
            same_graph(old(self), final(self)),
            same_rule_side(old(self), final(self)),
            same_symbols(old(self), final(self)),
    {
        let ghost old_exprs = self.exprs@;
        let ghost old_locs = self.locations@;
        for i in 0..new_nodes.len()
            invariant
                self.exprs@ == old_exprs + new_nodes@.take(i as int).map_values(|p: (ExprNode, Provenance)| p.0),
                self.locations@ == old_locs + new_nodes@.take(i as int).map_values(|p: (ExprNode, Provenance)| p.1),
                self.expr_ends@ == old(self).expr_ends@,
                same_graph(old(self), self),
                same_rule_side(old(self), self),
                same_symbols(old(self), self),
        {
            let (node, prov) = new_nodes[i];
            self.exprs.push(node);
            self.locations.push(prov);
            assert(new_nodes@.take(i + 1) =~= new_nodes@.take(i as int).push(new_nodes@[i as int]));
            assert(self.exprs@ =~= old_exprs + new_nodes@.take(i + 1).map_values(|p: (ExprNode, Provenance)| p.0));
            assert(self.locations@ =~= old_locs + new_nodes@.take(i + 1).map_values(|p: (ExprNode, Provenance)| p.1));
        }
        assert(new_nodes@.take(new_nodes@.len() as int) =~= new_nodes@);
    }

    /// Rewrites the expression a match was found in: builds the rule's
    /// replacement, appends the rewritten root as a new expression, and
    /// records the rewrite. `None` when the replacement is empty.
    pub fn apply_rule(&mut self, match_: &Match) -> (r: Option<ExprId>)
        requires
            apply_ok(old(self), match_@),
        ensures
            replacement(old(self), match_@).len() == 0 ==> r is None && *final(self) == *old(self),
            replacement(old(self), match_@).len() > 0 ==> {
                let new_nodes = applied_nodes(old(self), match_@);
                let nr = old(self).exprs@.len() + new_nodes.len() - 1;
                &&& r == Some(ExprId(nr as usize))
                &&& final(self).exprs@ == old(self).exprs@ + new_nodes.map_values(
                    |p: (ExprNode, Provenance)| p.0,
                )
                &&& final(self).locations@ == old(self).locations@ + new_nodes.map_values(
                    |p: (ExprNode, Provenance)| p.1,
                )
                &&& final(self).expr_ends@ == old(self).expr_ends@.insert(nr as usize)
                &&& exists|m0: Pool, m1: Pool, m2: Pool|
                    #![trigger transformation_added(&m0, &m1, &m2, final(self), match_.root, ExprId(nr as usize), match_.rule_id)]
                    {
                        &&& same_graph(old(self), &m0)
                        &&& same_but_graph(&m0, final(self))
                        &&& transformation_added(&m0, &m1, &m2, final(self), match_.root, ExprId(nr as usize), match_.rule_id)
                    }
            },
            final(self).names@ == old(self).names@,
            final(self).functions@ == old(self).functions@,
            same_rule_side(old(self), final(self)),
            nodes_ok(final(self).exprs@),
            groups_keyed_ok(final(self)),
    {
        let rule = self.rules[match_.rule_id.0];
        let mut replacement_vec: Vec<(ExprNode, Provenance)> = Vec::new();
        self.build_action_simple(rule.action, &match_.captures, &mut replacement_vec);
        if replacement_vec.len() == 0 {
            return None;
        }
        let new_nodes = if match_.root.0 == match_.offset.0 {
            replacement_vec
        } else {
            self.splice_into_root(match_.root, match_.offset, &replacement_vec)
        };
        assert(new_nodes@ == applied_nodes(old(self), match_@));
        self.append_nodes(&new_nodes);
        let new_root = ExprId(self.exprs.len() - 1);
        self.mark_expr_end(new_root);
        let ghost m0 = *self;
        self.add_transformation(match_.root, new_root, match_.rule_id);
        Some(new_root)
    }
}

} // verus!
