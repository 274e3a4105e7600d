use vstd::prelude::*;

use crate::ast::{Action, ComputeOp, ExprNode, Function, Pattern};
use crate::children::{nodes_ok, spec_length};
use crate::parser::syntax::{Dialect, Event, Head, NameKind, Op};
use crate::pool::{interned, interned_at, names_view, Location, Pool, Provenance};

verus! {

/// What parsing changes in a pool: the three arenas with their locations, and
/// the interned names and functions.
pub struct Build {
    pub exprs: Seq<ExprNode>,
    pub locs: Seq<Provenance>,
    pub patterns: Seq<Pattern>,
    pub actions: Seq<Action>,
    pub action_locs: Seq<Location>,
    pub names: Seq<Seq<char>>,
    pub funcs: Seq<Function>,
}

pub open spec fn build_of(pool: &Pool) -> Build {
    Build {
        exprs: pool.exprs@,
        locs: pool.locations@,
        patterns: pool.patterns@,
        actions: pool.actions@,
        action_locs: pool.action_locations@,
        names: names_view(pool),
        funcs: pool.functions@,
    }
}

/// The state of building from events: the pool, the ids of the nodes built
/// and not yet used as arguments, the heads of the calls and structs begun,
/// where a bracketed computation's locations count from (and whether one is
/// being built), and the error that stopped the building, if any.
pub struct Replay {
    pub b: Build,
    pub stack: Seq<usize>,
    pub heads: Seq<usize>,
    pub base: int,
    pub compute: bool,
    pub err: Option<Seq<char>>,
}

pub open spec fn replay_start(pool: &Pool) -> Replay {
    start_from(build_of(pool))
}

/// The building state before any event.
pub open spec fn start_from(b: Build) -> Replay {
    Replay { b, stack: Seq::empty(), heads: Seq::empty(), base: 0, compute: false, err: None }
}

/// The value of a run of decimal digits.
pub open spec fn digits_value(t: Seq<char>) -> nat
    decreases t.len(),
{
    if t.len() == 0 {
        0
    } else {
        10 * digits_value(t.drop_last()) + digit_of(t.last())
    }
}

/// The value of a decimal digit.
pub open spec fn digit_of(c: char) -> nat {
    if '0' <= c <= '9' {
        (c as int - '0' as int) as nat
    } else {
        0
    }
}

pub open spec fn invalid_number(t: Seq<char>) -> Seq<char> {
    seq!['I', 'n', 'v', 'a', 'l', 'i', 'd', ' ', 'n', 'u', 'm', 'b', 'e', 'r', ':', ' '] + t
}

/// The function a binary operator calls.
pub open spec fn binary_function(op: Op) -> Function {
    match op {
        Op::Add => Function::Add,
        Op::Sub => Function::Subtract,
        Op::Mul => Function::Multiply,
        Op::Div => Function::Divide,
        Op::Pow => Function::Power,
    }
}

/// The function a prefix operator calls.
pub open spec fn unary_function(op: Op) -> Function {
    if op == Op::Sub {
        Function::Negate
    } else {
        Function::Plus
    }
}

/// The computation a binary operator performs.
pub open spec fn compute_op(op: Op) -> ComputeOp {
    match op {
        Op::Add => ComputeOp::Add,
        Op::Sub => ComputeOp::Subtract,
        Op::Mul => ComputeOp::Multiply,
        Op::Div => ComputeOp::Divide,
        Op::Pow => ComputeOp::Power,
    }
}

/// The number of nodes of the arena a language builds into.
pub open spec fn arena_len(d: Dialect, b: Build) -> int {
    match d {
        Dialect::Expr => b.exprs.len() as int,
        Dialect::Pattern => b.patterns.len() as int,
        _ => b.actions.len() as int,
    }
}

/// `r` with a node added to the arena of `d` (the expression, pattern or
/// action form, with the span as its location) and its id pushed.
pub open spec fn add_node(
    d: Dialect,
    r: Replay,
    e: ExprNode,
    p: Pattern,
    a: Action,
    start: int,
    end: int,
) -> Replay {
    let id = arena_len(d, r.b) as usize;
    let b = r.b;
    let nb = match d {
        Dialect::Expr => Build {
            exprs: b.exprs.push(e),
            locs: b.locs.push(Provenance::Parsed(Location { start: start as usize, end: end as usize })),
            ..b
        },
        Dialect::Pattern => Build { patterns: b.patterns.push(p), ..b },
        _ => Build {
            actions: b.actions.push(a),
            action_locs: b.action_locs.push(
                Location { start: rel(start, r.base), end: rel(end, r.base) },
            ),
            ..b
        },
    };
    Replay { b: nb, stack: r.stack.push(id), ..r }
}

/// A position counted from `base`.
pub open spec fn rel(x: int, base: int) -> usize {
    if x >= base {
        (x - base) as usize
    } else {
        0
    }
}

/// The `last` of a chain operator's node over operands `l` and `r`.
pub open spec fn binary_last(d: Dialect, b: Build, l: usize, r: usize) -> usize {
    let n = arena_len(d, b);
    if d == Dialect::Expr {
        let ls = l + 1 - spec_length(b.exprs, l as int);
        let rs = r + 1 - spec_length(b.exprs, r as int);
        (n - (if ls < rs {
            ls
        } else {
            rs
        })) as usize
    } else {
        (n - (if l < r {
            l
        } else {
            r
        })) as usize
    }
}

/// The `last` of a call or struct node with arguments `args`: from its first
/// argument for expressions, from its last one otherwise.
pub open spec fn headed_last(d: Dialect, b: Build, args: Seq<usize>) -> usize {
    if args.len() == 0 {
        0
    } else if d == Dialect::Expr {
        (arena_len(d, b) - args[0]) as usize
    } else {
        (arena_len(d, b) - args.last()) as usize
    }
}

/// One event applied to the building state.
pub open spec fn step(d: Dialect, s: Seq<char>, r: Replay, ev: Event) -> Replay {
    if r.err is Some {
        r
    } else {
        let dd = if r.compute {
            Dialect::Action
        } else {
            d
        };
        match ev {
            Event::Number(a, b) => {
                let t = s.subrange(a as int, b as int);
                if !(a <= b <= s.len()) {
                    Replay { err: Some(Seq::empty()), ..r }
                } else if digits_value(t) > i32::MAX {
                    Replay { err: Some(invalid_number(t)), ..r }
                } else {
                    let v = digits_value(t) as i32;
                    add_node(dd, r, ExprNode::Number(v), Pattern::Number(v), Action::Number(v), a as int, b as int)
                }
            },
            Event::Name(kind, a, b) => if !(a <= b <= s.len()) {
                Replay { err: Some(Seq::empty()), ..r }
            } else {
                let t = s.subrange(a as int, b as int);
                let id = crate::idx::NameId(interned_at(r.b.names, t) as usize);
                let r1 = Replay { b: Build { names: interned(r.b.names, t), ..r.b }, ..r };
                let p = match kind {
                    NameKind::Variable => Pattern::Variable(id),
                    NameKind::Wildcard => Pattern::Wildcard(id),
                    NameKind::AnyNumber => Pattern::AnyNumber(id),
                };
                add_node(dd, r1, ExprNode::Variable(id), p, Action::Variable(id), a as int, b as int)
            },
            Event::Open(head, a, b) => if !(a <= b <= s.len()) {
                Replay { err: Some(Seq::empty()), ..r }
            } else {
                let t = s.subrange(a as int, b as int);
                let id = interned_at(r.b.names, t) as usize;
                let names = interned(r.b.names, t);
                if head == Head::Call {
                    let f = Function::Custom(crate::idx::NameId(id));
                    Replay {
                        b: Build { names, funcs: interned(r.b.funcs, f), ..r.b },
                        heads: r.heads.push(interned_at(r.b.funcs, f) as usize),
                        ..r
                    }
                } else {
                    Replay { b: Build { names, ..r.b }, heads: r.heads.push(id), ..r }
                }
            },
            Event::Close(head, n, a, b) => {
                if r.heads.len() == 0 || r.stack.len() < n {
                    Replay { err: Some(Seq::empty()), ..r }
                } else {
                    let h = r.heads.last();
                    let args = r.stack.subrange(r.stack.len() - n, r.stack.len() as int);
                    let rest = r.stack.subrange(0, r.stack.len() - n);
                    let last = headed_last(dd, r.b, args);
                    let r1 = Replay { heads: r.heads.drop_last(), stack: rest, ..r };
                    let (e, p, act) = match head {
                        Head::Call => (
                            ExprNode::Call { fun: crate::idx::FunctionId(h), last, arity: n },
                            Pattern::Call { fun: crate::idx::FunctionId(h), last, arity: n },
                            Action::Call { fun: crate::idx::FunctionId(h), last, arity: n },
                        ),
                        Head::Struct => (
                            ExprNode::Struct { name: crate::idx::NameId(h), last, arity: n },
                            Pattern::Struct { name: crate::idx::NameId(h), last, arity: n },
                            Action::Struct { name: crate::idx::NameId(h), last, arity: n },
                        ),
                        Head::VarCall => (
                            ExprNode::Call { fun: crate::idx::FunctionId(h), last, arity: n },
                            Pattern::VarCallName { var: crate::idx::NameId(h), last, arity: n },
                            Action::VarCallName { var: crate::idx::NameId(h), last, arity: n },
                        ),
                        Head::VarStruct => (
                            ExprNode::Struct { name: crate::idx::NameId(h), last, arity: n },
                            Pattern::VarStructName { var: crate::idx::NameId(h), last, arity: n },
                            Action::VarStructName { var: crate::idx::NameId(h), last, arity: n },
                        ),
                    };
                    add_node(dd, r1, e, p, act, a as int, b as int)
                }
            },
            Event::Binary(op, a, b) => {
                if r.stack.len() < 2 {
                    Replay { err: Some(Seq::empty()), ..r }
                } else {
                    let right = r.stack.last();
                    let left = r.stack[r.stack.len() - 2];
                    let rest = r.stack.subrange(0, r.stack.len() - 2);
                    let last = binary_last(dd, r.b, left, right);
                    if r.compute || d == Dialect::Compute {
                        let c = Action::Compute { op: compute_op(op), last, arity: 2 };
                        add_node(dd, Replay { stack: rest, ..r }, ExprNode::Number(0), Pattern::Number(0), c, a as int, b as int)
                    } else {
                        let f = binary_function(op);
                        let fid = crate::idx::FunctionId(interned_at(r.b.funcs, f) as usize);
                        let r1 = Replay { b: Build { funcs: interned(r.b.funcs, f), ..r.b }, stack: rest, ..r };
                        add_node(
                            dd,
                            r1,
                            ExprNode::Call { fun: fid, last, arity: 2 },
                            Pattern::Call { fun: fid, last, arity: 2 },
                            Action::Call { fun: fid, last, arity: 2 },
                            a as int,
                            b as int,
                        )
                    }
                }
            },
            Event::Unary(op, a, b) => {
                if r.stack.len() < 1 {
                    Replay { err: Some(Seq::empty()), ..r }
                } else {
                    let x = r.stack.last();
                    let rest = r.stack.drop_last();
                    let last = (arena_len(dd, r.b) - x) as usize;
                    if r.compute || d == Dialect::Compute {
                        if op == Op::Sub {
                            let c = Action::Compute { op: ComputeOp::Negate, last, arity: 1 };
                            add_node(dd, Replay { stack: rest, ..r }, ExprNode::Number(0), Pattern::Number(0), c, a as int, b as int)
                        } else {
                            r
                        }
                    } else {
                        let f = unary_function(op);
                        let fid = crate::idx::FunctionId(interned_at(r.b.funcs, f) as usize);
                        let r1 = Replay { b: Build { funcs: interned(r.b.funcs, f), ..r.b }, stack: rest, ..r };
                        add_node(
                            dd,
                            r1,
                            ExprNode::Call { fun: fid, last, arity: 1 },
                            Pattern::Call { fun: fid, last, arity: 1 },
                            Action::Call { fun: fid, last, arity: 1 },
                            a as int,
                            b as int,
                        )
                    }
                }
            },
            Event::ComputeOpen(k) => if d == Dialect::Action {
                Replay { base: k as int, compute: true, ..r }
            } else {
                r
            },
            Event::ComputeClose => Replay { base: 0, compute: false, ..r },
        }
    }
}

/// The events applied in order.
pub open spec fn replay(d: Dialect, s: Seq<char>, r: Replay, evs: Seq<Event>) -> Replay
    decreases evs.len(),
{
    if evs.len() == 0 {
        r
    } else {
        step(d, s, replay(d, s, r, evs.drop_last()), evs.last())
    }
}

} // verus!

verus! {

/// The building state kept while events are applied.
pub struct Builder {
    pub stack: Vec<usize>,
    pub heads: Vec<usize>,
    pub base: usize,
    pub compute: bool,
    pub err: Option<String>,
}

pub open spec fn view_of(bl: &Builder, pool: &Pool) -> Replay {
    Replay {
        b: build_of(pool),
        stack: bl.stack@,
        heads: bl.heads@,
        base: bl.base as int,
        compute: bl.compute,
        err: match bl.err {
            Some(e) => Some(e@),
            None => None,
        },
    }
}

/// The arenas can be walked and every id on the stack names a node of the
/// arena being built.
pub open spec fn builder_ok(d: Dialect, bl: &Builder, pool: &Pool) -> bool {
    &&& forall|i: int|
        0 <= i < bl.stack@.len() ==> (#[trigger] bl.stack@[i] as int) < arena_len(d, build_of(pool))
            && arena_node_ok(d, pool, bl.stack@[i] as int)
    &&& bl.compute ==> d == Dialect::Action
}

/// The node `i` of the arena `d` builds into can be walked.
pub open spec fn arena_node_ok(d: Dialect, pool: &Pool, i: int) -> bool {
    match d {
        Dialect::Expr => crate::children::node_ok(pool.exprs@, i),
        Dialect::Pattern => crate::children::node_ok(pool.patterns@, i),
        _ => crate::children::node_ok(pool.actions@, i),
    }
}

/// Every node of the arena `d` builds into can be walked.
pub open spec fn arena_nodes_ok(d: Dialect, pool: &Pool) -> bool {
    match d {
        Dialect::Expr => nodes_ok(pool.exprs@),
        Dialect::Pattern => nodes_ok(pool.patterns@),
        _ => nodes_ok(pool.actions@),
    }
}

/// Everything of two pools that parsing leaves alone agrees.
pub open spec fn same_outside_build(a: &Pool, b: &Pool) -> bool {
    &&& a.expr_ends@ == b.expr_ends@
    &&& a.rules@ == b.rules@
    &&& a.rulesets@ == b.rulesets@
    &&& a.rule_locations@ == b.rule_locations@
    &&& crate::pool::same_graph(a, b)
}

pub fn text_of(s: &Vec<char>, a: usize, b: usize) -> (r: String)
    requires
        a <= b <= s@.len(),
    ensures
        r@ == s@.subrange(a as int, b as int),
{
    let mut r = String::new();
    for i in a..b
        invariant
            b <= s@.len(),
            r@ == s@.subrange(a as int, i as int),
    {
        crate::text::push_char(&mut r, s[i]);
        assert(r@ =~= s@.subrange(a as int, i + 1));
    }
    r
}

proof fn lemma_digits_grow(t: Seq<char>, k: int)
    requires
        0 <= k <= t.len(),
    ensures
        digits_value(t.take(k)) <= digits_value(t),
    decreases t.len() - k,
{
    if k < t.len() {
        lemma_digits_grow(t, k + 1);
        assert(t.take(k + 1).drop_last() =~= t.take(k));
    } else {
        assert(t.take(k) =~= t);
    }
}

fn number_value(s: &Vec<char>, a: usize, b: usize) -> (r: Option<i32>)
    requires
        a <= b <= s@.len(),
    ensures
        r matches Some(v) ==> digits_value(s@.subrange(a as int, b as int)) <= i32::MAX && v as int == digits_value(
            s@.subrange(a as int, b as int),
        ),
        r is None ==> digits_value(s@.subrange(a as int, b as int)) > i32::MAX,
{
    let ghost t = s@.subrange(a as int, b as int);
    let mut v: u64 = 0;
    let mut i = a;
    while i < b
        invariant
            a <= i <= b <= s@.len(),
            t == s@.subrange(a as int, b as int),
            v as int == digits_value(t.take(i - a)),
            v <= i32::MAX,
        decreases b - i,
    {
        let c = s[i];
        let dgt: u64 = if '0' <= c && c <= '9' {
            (c as u64) - ('0' as u64)
        } else {
            0
        };
        proof {
            assert(t.take(i - a + 1).drop_last() =~= t.take(i - a));
            assert(t.take(i - a + 1).last() == c);
        }
        let w = v * 10 + dgt;
        if w > 2147483647u64 {
            proof {
                lemma_digits_grow(t, i - a + 1);
            }
            return None;
        }
        v = w;
        i = i + 1;
    }
    assert(t.take(b - a) =~= t);
    Some(v as i32)
}

fn invalid_number_message(s: &Vec<char>, a: usize, b: usize) -> (r: String)
    requires
        a <= b <= s@.len(),
    ensures
        r@ == invalid_number(s@.subrange(a as int, b as int)),
{
    let mut m = String::new();
    crate::text::push_char(&mut m, 'I');
    crate::text::push_char(&mut m, 'n');
    crate::text::push_char(&mut m, 'v');
    crate::text::push_char(&mut m, 'a');
    crate::text::push_char(&mut m, 'l');
    crate::text::push_char(&mut m, 'i');
    crate::text::push_char(&mut m, 'd');
    crate::text::push_char(&mut m, ' ');
    crate::text::push_char(&mut m, 'n');
    crate::text::push_char(&mut m, 'u');
    crate::text::push_char(&mut m, 'm');
    crate::text::push_char(&mut m, 'b');
    crate::text::push_char(&mut m, 'e');
    crate::text::push_char(&mut m, 'r');
    crate::text::push_char(&mut m, ':');
    crate::text::push_char(&mut m, ' ');
    let t = text_of(s, a, b);
    crate::text::push_string(&mut m, &t);
    assert(m@ =~= invalid_number(s@.subrange(a as int, b as int)));
    m
}

} // verus!

verus! {

fn rel_exec(x: usize, base: usize) -> (r: usize)
    ensures
        r == rel(x as int, base as int),
{
    if x >= base {
        x - base
    } else {
        0
    }
}

/// The arena a language builds into and its target state.
fn arena_len_exec(d: Dialect, pool: &Pool) -> (r: usize)
    ensures
        r as int == arena_len(d, build_of(pool)),
{
    match d {
        Dialect::Expr => pool.exprs.len(),
        Dialect::Pattern => pool.patterns.len(),
        _ => pool.actions.len(),
    }
}

/// The node added to the arena of `d` can be walked there.
pub open spec fn new_node_ok(d: Dialect, pool: &Pool, e: ExprNode, p: Pattern, a: Action) -> bool {
    match d {
        Dialect::Expr => crate::children::node_ok(pool.exprs@.push(e), pool.exprs@.len() as int),
        Dialect::Pattern => crate::children::node_ok(pool.patterns@.push(p), pool.patterns@.len() as int),
        _ => crate::children::node_ok(pool.actions@.push(a), pool.actions@.len() as int),
    }
}

fn add_node_exec(
    d: Dialect,
    bl: &mut Builder,
    pool: &mut Pool,
    e: ExprNode,
    p: Pattern,
    a: Action,
    start: usize,
    end: usize,
)
    requires
        builder_ok(d, old(bl), old(pool)),
        new_node_ok(d, old(pool), e, p, a),
    ensures
        view_of(final(bl), final(pool)) == add_node(d, view_of(old(bl), old(pool)), e, p, a, start as int, end as int),
        builder_ok(d, final(bl), final(pool)),
        arena_nodes_ok(d, old(pool)) ==> arena_nodes_ok(d, final(pool)),
        same_outside_build(old(pool), final(pool)),
{
    let id = arena_len_exec(d, pool);
    match d {
        Dialect::Expr => {
            pool.add_expr_with_provenance(e, Provenance::Parsed(Location::new(start, end)));
            proof {
                if nodes_ok(old(pool).exprs@) {
                    crate::children::lemma_nodes_ok_push(old(pool).exprs@, e);
                }
                crate::children::lemma_node_ok_push(old(pool).exprs@, e);
            }
        },
        Dialect::Pattern => {
            pool.add_pattern(p);
            proof {
                if nodes_ok(old(pool).patterns@) {
                    crate::children::lemma_nodes_ok_push(old(pool).patterns@, p);
                }
                crate::children::lemma_node_ok_push(old(pool).patterns@, p);
            }
        },
        _ => {
            let s0 = rel_exec(start, bl.base);
            let e0 = rel_exec(end, bl.base);
            pool.add_action_with_location(a, Location::new(s0, e0));
            proof {
                if nodes_ok(old(pool).actions@) {
                    crate::children::lemma_nodes_ok_push(old(pool).actions@, a);
                }
                crate::children::lemma_node_ok_push(old(pool).actions@, a);
            }
        },
    }
    bl.stack.push(id);
    assert(names_view(pool) == names_view(old(pool)));
    assert(view_of(bl, pool).b == add_node(d, view_of(old(bl), old(pool)), e, p, a, start as int, end as int).b);
}

} // verus!

verus! {

fn set_error(bl: &mut Builder, pool: &Pool, msg: String)
    ensures
        view_of(final(bl), pool) == (Replay { err: Some(msg@), ..view_of(old(bl), pool) }),
        final(bl).stack@ == old(bl).stack@,
        final(bl).compute == old(bl).compute,
{
    bl.err = Some(msg);
}

fn intern_text(pool: &mut Pool, s: &Vec<char>, a: usize, b: usize) -> (r: usize)
    requires
        a <= b <= s@.len(),
    ensures
        r as int == interned_at(names_view(old(pool)), s@.subrange(a as int, b as int)),
        build_of(final(pool)) == (Build {
            names: interned(names_view(old(pool)), s@.subrange(a as int, b as int)),
            ..build_of(old(pool))
        }),
        same_outside_build(old(pool), final(pool)),
        final(pool).functions@ == old(pool).functions@,
{
    let t = text_of(s, a, b);
    let id = pool.intern_string(t);
    id.0
}

fn intern_fn(pool: &mut Pool, f: Function) -> (r: usize)
    ensures
        r as int == interned_at(old(pool).functions@, f),
        build_of(final(pool)) == (Build { funcs: interned(old(pool).functions@, f), ..build_of(old(pool)) }),
        same_outside_build(old(pool), final(pool)),
{
    let id = pool.intern_function(f);
    id.0
}

fn binary_function_exec(op: Op) -> (r: Function)
    ensures
        r == binary_function(op),
{
    match op {
        Op::Add => Function::Add,
        Op::Sub => Function::Subtract,
        Op::Mul => Function::Multiply,
        Op::Div => Function::Divide,
        Op::Pow => Function::Power,
    }
}

fn compute_op_exec(op: Op) -> (r: ComputeOp)
    ensures
        r == compute_op(op),
{
    match op {
        Op::Add => ComputeOp::Add,
        Op::Sub => ComputeOp::Subtract,
        Op::Mul => ComputeOp::Multiply,
        Op::Div => ComputeOp::Divide,
        Op::Pow => ComputeOp::Power,
    }
}

} // verus!

verus! {

fn event_leaf(d: Dialect, s: &Vec<char>, bl: &mut Builder, pool: &mut Pool, ev: Event)
    requires
        builder_ok(d, old(bl), old(pool)),
        old(bl).err is None,
        ev is Number || ev is Name,
    ensures
        view_of(final(bl), final(pool)) == step(d, s@, view_of(old(bl), old(pool)), ev),
        builder_ok(d, final(bl), final(pool)),
        arena_nodes_ok(d, old(pool)) ==> arena_nodes_ok(d, final(pool)),
        same_outside_build(old(pool), final(pool)),
{
    let dd = if bl.compute {
        Dialect::Action
    } else {
        d
    };
    match ev {
        Event::Number(a, b) => {
            if !(a <= b && b <= s.len()) {
                set_error(bl, pool, String::new());
                return;
            }
            match number_value(s, a, b) {
                Some(v) => {
                    add_node_exec(dd, bl, pool, ExprNode::Number(v), Pattern::Number(v), Action::Number(v), a, b);
                },
                None => {
                    let m = invalid_number_message(s, a, b);
                    set_error(bl, pool, m);
                },
            }
        },
        Event::Name(kind, a, b) => {
            if !(a <= b && b <= s.len()) {
                set_error(bl, pool, String::new());
                return;
            }
            let ghost r0 = view_of(bl, pool);
            let id = intern_text(pool, s, a, b);
            let nid = crate::idx::NameId(id);
            let p = match kind {
                NameKind::Variable => Pattern::Variable(nid),
                NameKind::Wildcard => Pattern::Wildcard(nid),
                NameKind::AnyNumber => Pattern::AnyNumber(nid),
            };
            add_node_exec(dd, bl, pool, ExprNode::Variable(nid), p, Action::Variable(nid), a, b);
        },
        _ => {},
    }
}

fn event_open(d: Dialect, s: &Vec<char>, bl: &mut Builder, pool: &mut Pool, head: Head, a: usize, b: usize)
    requires
        builder_ok(d, old(bl), old(pool)),
        old(bl).err is None,
    ensures
        view_of(final(bl), final(pool)) == step(d, s@, view_of(old(bl), old(pool)), Event::Open(head, a, b)),
        builder_ok(d, final(bl), final(pool)),
        arena_nodes_ok(d, old(pool)) ==> arena_nodes_ok(d, final(pool)),
        same_outside_build(old(pool), final(pool)),
{
    if !(a <= b && b <= s.len()) {
        set_error(bl, pool, String::new());
        return;
    }
    let id = intern_text(pool, s, a, b);
    if head == Head::Call {
        let fid = intern_fn(pool, Function::Custom(crate::idx::NameId(id)));
        bl.heads.push(fid);
    } else {
        bl.heads.push(id);
    }
}

fn event_close(d: Dialect, bl: &mut Builder, pool: &mut Pool, head: Head, n: usize, a: usize, b: usize)
    requires
        builder_ok(d, old(bl), old(pool)),
        old(bl).err is None,
    ensures
        forall|s: Seq<char>|
            view_of(final(bl), final(pool)) == #[trigger] step(d, s, view_of(old(bl), old(pool)), Event::Close(head, n, a, b)),
        builder_ok(d, final(bl), final(pool)),
        arena_nodes_ok(d, old(pool)) ==> arena_nodes_ok(d, final(pool)),
        same_outside_build(old(pool), final(pool)),
{
    let dd = if bl.compute {
        Dialect::Action
    } else {
        d
    };
    if bl.heads.len() == 0 || bl.stack.len() < n {
        set_error(bl, pool, String::new());
        return;
    }
    let h = bl.heads[bl.heads.len() - 1];
    let len = bl.stack.len();
    let len_arena = arena_len_exec(dd, pool);
    let last = if n == 0 {
        0
    } else if dd == Dialect::Expr {
        len_arena - bl.stack[len - n]
    } else {
        len_arena - bl.stack[len - 1]
    };
    let ghost args = bl.stack@.subrange(len - n, len as int);
    assert(last == headed_last(dd, build_of(pool), args));
    bl.heads.pop();
    bl.stack.truncate(len - n);
    let (e, p, act) = match head {
        Head::Call => (
            ExprNode::Call { fun: crate::idx::FunctionId(h), last, arity: n },
            Pattern::Call { fun: crate::idx::FunctionId(h), last, arity: n },
            Action::Call { fun: crate::idx::FunctionId(h), last, arity: n },
        ),
        Head::Struct => (
            ExprNode::Struct { name: crate::idx::NameId(h), last, arity: n },
            Pattern::Struct { name: crate::idx::NameId(h), last, arity: n },
            Action::Struct { name: crate::idx::NameId(h), last, arity: n },
        ),
        Head::VarCall => (
            ExprNode::Call { fun: crate::idx::FunctionId(h), last, arity: n },
            Pattern::VarCallName { var: crate::idx::NameId(h), last, arity: n },
            Action::VarCallName { var: crate::idx::NameId(h), last, arity: n },
        ),
        Head::VarStruct => (
            ExprNode::Struct { name: crate::idx::NameId(h), last, arity: n },
            Pattern::VarStructName { var: crate::idx::NameId(h), last, arity: n },
            Action::VarStructName { var: crate::idx::NameId(h), last, arity: n },
        ),
    };
    add_node_exec(dd, bl, pool, e, p, act, a, b);
}

} // verus!

verus! {

fn event_binary(d: Dialect, bl: &mut Builder, pool: &mut Pool, op: Op, a: usize, b: usize)
    requires
        builder_ok(d, old(bl), old(pool)),
        old(bl).err is None,
    ensures
        forall|s: Seq<char>|
            view_of(final(bl), final(pool)) == #[trigger] step(d, s, view_of(old(bl), old(pool)), Event::Binary(op, a, b)),
        builder_ok(d, final(bl), final(pool)),
        arena_nodes_ok(d, old(pool)) ==> arena_nodes_ok(d, final(pool)),
        same_outside_build(old(pool), final(pool)),
{
    let dd = if bl.compute {
        Dialect::Action
    } else {
        d
    };
    let len = bl.stack.len();
    if len < 2 {
        set_error(bl, pool, String::new());
        return;
    }
    let right = bl.stack[len - 1];
    let left = bl.stack[len - 2];
    let n = arena_len_exec(dd, pool);
    let first = if dd == Dialect::Expr {
        proof {
            assert(arena_node_ok(d, pool, left as int));
            assert(arena_node_ok(d, pool, right as int));
        }
        let ls = left + 1 - crate::children::node_length(pool.exprs.as_slice(), left);
        let rs = right + 1 - crate::children::node_length(pool.exprs.as_slice(), right);
        if ls < rs {
            ls
        } else {
            rs
        }
    } else if left < right {
        left
    } else {
        right
    };
    let last = n - first;
    assert(last == binary_last(dd, build_of(pool), left, right));
    bl.stack.truncate(len - 2);
    if bl.compute || d == Dialect::Compute {
        let c = Action::Compute { op: compute_op_exec(op), last, arity: 2 };
        add_node_exec(dd, bl, pool, ExprNode::Number(0), Pattern::Number(0), c, a, b);
    } else {
        let fid = crate::idx::FunctionId(intern_fn(pool, binary_function_exec(op)));
        add_node_exec(
            dd,
            bl,
            pool,
            ExprNode::Call { fun: fid, last, arity: 2 },
            Pattern::Call { fun: fid, last, arity: 2 },
            Action::Call { fun: fid, last, arity: 2 },
            a,
            b,
        );
    }
}

fn event_unary(d: Dialect, bl: &mut Builder, pool: &mut Pool, op: Op, a: usize, b: usize)
    requires
        builder_ok(d, old(bl), old(pool)),
        old(bl).err is None,
    ensures
        forall|s: Seq<char>|
            view_of(final(bl), final(pool)) == #[trigger] step(d, s, view_of(old(bl), old(pool)), Event::Unary(op, a, b)),
        builder_ok(d, final(bl), final(pool)),
        arena_nodes_ok(d, old(pool)) ==> arena_nodes_ok(d, final(pool)),
        same_outside_build(old(pool), final(pool)),
{
    let dd = if bl.compute {
        Dialect::Action
    } else {
        d
    };
    let len = bl.stack.len();
    if len < 1 {
        set_error(bl, pool, String::new());
        return;
    }
    let x = bl.stack[len - 1];
    let n = arena_len_exec(dd, pool);
    let last = n - x;
    if bl.compute || d == Dialect::Compute {
        if op == Op::Sub {
            bl.stack.truncate(len - 1);
            let c = Action::Compute { op: ComputeOp::Negate, last, arity: 1 };
            add_node_exec(dd, bl, pool, ExprNode::Number(0), Pattern::Number(0), c, a, b);
        }
    } else {
        bl.stack.truncate(len - 1);
        let f = if op == Op::Sub {
            Function::Negate
        } else {
            Function::Plus
        };
        let fid = crate::idx::FunctionId(intern_fn(pool, f));
        add_node_exec(
            dd,
            bl,
            pool,
            ExprNode::Call { fun: fid, last, arity: 1 },
            Pattern::Call { fun: fid, last, arity: 1 },
            Action::Call { fun: fid, last, arity: 1 },
            a,
            b,
        );
    }
}

/// One event applied to the pool and the building state.
fn apply_event(d: Dialect, s: &Vec<char>, bl: &mut Builder, pool: &mut Pool, ev: Event)
    requires
        builder_ok(d, old(bl), old(pool)),
    ensures
        view_of(final(bl), final(pool)) == step(d, s@, view_of(old(bl), old(pool)), ev),
        builder_ok(d, final(bl), final(pool)),
        arena_nodes_ok(d, old(pool)) ==> arena_nodes_ok(d, final(pool)),
        same_outside_build(old(pool), final(pool)),
{
    if bl.err.is_some() {
        return;
    }
    match ev {
        Event::Number(..) | Event::Name(..) => event_leaf(d, s, bl, pool, ev),
        Event::Open(head, a, b) => event_open(d, s, bl, pool, head, a, b),
        Event::Close(head, n, a, b) => event_close(d, bl, pool, head, n, a, b),
        Event::Binary(op, a, b) => event_binary(d, bl, pool, op, a, b),
        Event::Unary(op, a, b) => event_unary(d, bl, pool, op, a, b),
        Event::ComputeOpen(k) => {
            if d == Dialect::Action {
                bl.base = k;
                bl.compute = true;
            }
        },
        Event::ComputeClose => {
            bl.base = 0;
            bl.compute = false;
        },
    }
}

/// Applies the events in order to the pool.
pub fn run_events(d: Dialect, s: &Vec<char>, events: &Vec<Event>, pool: &mut Pool) -> (r: Builder)
    ensures
        view_of(&r, final(pool)) == replay(d, s@, replay_start(old(pool)), events@),
        builder_ok(d, &r, final(pool)),
        arena_nodes_ok(d, old(pool)) ==> arena_nodes_ok(d, final(pool)),
        same_outside_build(old(pool), final(pool)),
{
    let mut bl = Builder { stack: Vec::new(), heads: Vec::new(), base: 0, compute: false, err: None };
    assert(view_of(&bl, pool) == replay_start(pool));
    for i in 0..events.len()
        invariant
            builder_ok(d, &bl, pool),
            arena_nodes_ok(d, old(pool)) ==> arena_nodes_ok(d, pool),
            view_of(&bl, pool) == replay(d, s@, replay_start(old(pool)), events@.take(i as int)),
            same_outside_build(old(pool), pool),
    {
        let ghost before = view_of(&bl, pool);
        apply_event(d, s, &mut bl, pool, events[i]);
        proof {
            let t = events@.take(i + 1);
            assert(t.drop_last() =~= events@.take(i as int));
            assert(t.last() == events@[i as int]);
        }
    }
    assert(events@.take(events@.len() as int) =~= events@);
    bl
}

} // verus!

verus! {

/// The root a finished building produced: the last id on the stack.
pub open spec fn built_root(fin: Replay) -> Option<usize> {
    if fin.err is None && fin.stack.len() > 0 {
        Some(fin.stack.last())
    } else {
        None
    }
}

/// The message of a failed building.
pub open spec fn built_error(fin: Replay) -> Seq<char> {
    match fin.err {
        Some(m) => m,
        None => Seq::empty(),
    }
}

/// Builds the nodes the events describe and gives the root built last, or
/// the message of the error that stopped the building.
pub fn build_events(d: Dialect, s: &Vec<char>, events: &Vec<Event>, pool: &mut Pool) -> (r: Result<usize, String>)
    ensures
        build_of(final(pool)) == replay(d, s@, replay_start(old(pool)), events@).b,
        same_outside_build(old(pool), final(pool)),
        arena_nodes_ok(d, old(pool)) ==> arena_nodes_ok(d, final(pool)),
        match r {
            Ok(id) => built_root(replay(d, s@, replay_start(old(pool)), events@)) == Some(id)
                && (id as int) < arena_len(d, build_of(final(pool))),
            Err(m) => built_root(replay(d, s@, replay_start(old(pool)), events@)) is None && m@ == built_error(
                replay(d, s@, replay_start(old(pool)), events@),
            ),
        },
{
    let bl = run_events(d, s, events, pool);
    match bl.err {
        Some(m) => Err(m),
        None => {
            if bl.stack.len() == 0 {
                Err(String::new())
            } else {
                let id = bl.stack[bl.stack.len() - 1];
                Ok(id)
            }
        },
    }
}

pub open spec fn parse_error_text() -> Seq<char> {
    seq!['P', 'a', 'r', 's', 'e', ' ', 'e', 'r', 'r', 'o', 'r', ':', ' ', 'u', 'n', 'e', 'x', 'p', 'e', 'c', 't', 'e', 'd', ' ', 'i', 'n', 'p', 'u', 't']
}

/// The message of a syntax error.
pub fn parse_error_message() -> (r: String)
    ensures
        r@ == parse_error_text(),
{
    let mut m = String::new();
    let t = "Parse error: unexpected input";
    proof {
        reveal_strlit("Parse error: unexpected input");
    }
    m.append(t);
    assert(m@ =~= parse_error_text());
    m
}

} // verus!
