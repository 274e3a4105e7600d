use vstd::prelude::*;

use vstd::arithmetic::power::pow;
use crate::ast::{Action, ComputeOp, ExprNode, Function, Pattern};
use crate::captures::{lookup, CapturedValue};
use crate::children::{children_complete, lemma_children_before, nodes_ok, spec_children, NodeInfo};
use crate::display::{pattern_node_text, action_args, action_text, call_text, compute_text, expr_args, expr_text, function_at, infix_text, name_text, pattern_text, prefix_text};
use crate::equality::{kids_eq, spec_expr_eq};
use crate::idx::{FunctionId, NameId};
use crate::parser::replay::{binary_function, compute_op, digit_of, digits_value, unary_function};
use crate::text::{digit_char, nat_text};
use crate::parser::syntax::{op_of, Dialect, Event, NameKind};
use crate::parser::replay::{step, Replay};
use crate::pool::interned_at;
use crate::pool::Pool;
use crate::rules::{arg_value, bind_expr, build, compute_args, compute_spec, match_kids, match_node};
use crate::children::spec_length;

verus! {

/// The sum of some numbers, as an integer.
pub open spec fn sum_of(args: Seq<i32>) -> int
    decreases args.len(),
{
    if args.len() == 0 {
        0
    } else {
        sum_of(args.drop_last()) + args.last()
    }
}

/// The product of some numbers, as an integer.
pub open spec fn product_of(args: Seq<i32>) -> int
    decreases args.len(),
{
    if args.len() == 0 {
        1
    } else {
        product_of(args.drop_last()) * args.last()
    }
}

/// Whether an integer fits in an `i32`.
pub open spec fn fits(x: int) -> bool {
    i32::MIN <= x <= i32::MAX
}

/// A sum, when it is computed, is the sum of the arguments.
pub proof fn law_compute_add(args: Seq<i32>)
    ensures
        compute_spec(ComputeOp::Add, args) matches Some(v) ==> v == sum_of(args),
    decreases args.len(),
{
    if args.len() > 0 {
        law_compute_add(args.drop_last());
    }
}

/// A product, when it is computed, is the product of the arguments.
pub proof fn law_compute_multiply(args: Seq<i32>)
    ensures
        compute_spec(ComputeOp::Multiply, args) matches Some(v) ==> v == product_of(args),
    decreases args.len(),
{
    if args.len() > 0 {
        law_compute_multiply(args.drop_last());
    }
}

/// A difference takes the second argument from the first, whenever the
/// result fits.
pub proof fn law_compute_subtract(a: i32, b: i32)
    ensures
        compute_spec(ComputeOp::Subtract, seq![a, b]) == if fits(a - b) {
            Some((a - b) as i32)
        } else {
            None
        },
{
}

/// A negation is the opposite of its argument, whenever that fits.
pub proof fn law_compute_negate(a: i32)
    ensures
        compute_spec(ComputeOp::Negate, seq![a]) == if fits(-a) {
            Some((-a) as i32)
        } else {
            None
        },
{
}

/// A quotient divides the first argument by the second and rounds toward
/// zero: the remainder is smaller than the divisor and has the sign of the
/// dividend. There is none for a zero divisor.
pub proof fn law_compute_divide(a: i32, b: i32)
    ensures
        b == 0 ==> compute_spec(ComputeOp::Divide, seq![a, b]) is None,
        compute_spec(ComputeOp::Divide, seq![a, b]) matches Some(q) ==> {
            let r = a - q * b;
            &&& b != 0
            &&& (if r >= 0 { r } else { -r }) < (if b >= 0 { b as int } else { -b })
            &&& (r == 0 || (r > 0) == (a > 0))
        },
{
    let args = seq![a, b];
    assert(args[0] == a && args[1] == b);
    if b != 0 {
        let x = a as int;
        let d = b as int;
        if x > 0 && d > 0 {
            let q = x / d;
            if let Some(qq) = compute_spec(ComputeOp::Divide, args) {
                assert(qq as int == q);
            }
            assert(0 <= x - q * d < d) by (nonlinear_arith)
                requires
                    x > 0,
                    d > 0,
                    q == x / d,
            ;
        } else if x < 0 && d < 0 {
            let q = (x * -1) / (d * -1);
            if let Some(qq) = compute_spec(ComputeOp::Divide, args) {
                assert(qq as int == q);
            }
            assert(-(d * -1) < x - q * d <= 0) by (nonlinear_arith)
                requires
                    x < 0,
                    d < 0,
                    q == (x * -1) / (d * -1),
            ;
        } else if x < 0 && d > 0 {
            let q = ((x * -1) / d) * -1;
            if let Some(qq) = compute_spec(ComputeOp::Divide, args) {
                assert(qq as int == q);
            }
            assert(-d < x - q * d <= 0) by (nonlinear_arith)
                requires
                    x < 0,
                    d > 0,
                    q == ((x * -1) / d) * -1,
            ;
        } else if x > 0 && d < 0 {
            let q = (x / (d * -1)) * -1;
            if let Some(qq) = compute_spec(ComputeOp::Divide, args) {
                assert(qq as int == q);
            }
            assert(0 <= x - q * d < d * -1) by (nonlinear_arith)
                requires
                    x > 0,
                    d < 0,
                    q == (x / (d * -1)) * -1,
            ;
        }
    }
}

/// A power, when it is computed, is the first argument, the base, raised to
/// the second, the exponent; a negative exponent gives none.
pub proof fn law_compute_power(b: i32, e: i32)
    ensures
        e < 0 ==> compute_spec(ComputeOp::Power, seq![b, e]) is None,
        compute_spec(ComputeOp::Power, seq![b, e]) matches Some(v) ==> e >= 0 && v == pow(b as int, e as nat),
{
    if e >= 0 {
        lemma_checked_pow(b, e as nat);
    }
}

proof fn lemma_checked_pow(b: i32, e: nat)
    ensures
        crate::rules::checked_pow(b, e) matches Some(v) ==> v == pow(b as int, e),
    decreases e,
{
    reveal(pow);
    if e > 0 {
        lemma_checked_pow(b, (e - 1) as nat);
        let p = pow(b as int, (e - 1) as nat);
        assert(p * b == b * p) by (nonlinear_arith);
    }
}

/// A character that writes a binary operator.
pub open spec fn binary_char(c: char) -> bool {
    c == '+' || c == '-' || c == '*' || c == '/' || c == '^'
}

/// The operator written with `c` calls a function that the display writes
/// back with `c` between its two operands, and performs a computation that
/// the display writes back the same way in brackets.
pub proof fn law_operator_round_trip(pool: &Pool, fun: FunctionId, c: char, a: Seq<char>, b: Seq<char>)
    requires
        binary_char(c),
        function_at(pool, fun) == Some(binary_function(op_of(c))),
    ensures
        call_text(pool, fun, 2, seq![a, b]) == infix_text(a, c, b),
        compute_text(compute_op(op_of(c)), 2, seq![a, b]) == seq!['['] + a + seq![' ', c, ' '] + b + seq![']'],
{
    let args = seq![a, b];
    assert(args[0] == a && args[1] == b);
}

/// A prefix operator written with `c` calls a function that the display
/// writes back as `c` before its operand.
pub proof fn law_prefix_round_trip(pool: &Pool, fun: FunctionId, c: char, a: Seq<char>)
    requires
        c == '+' || c == '-',
        function_at(pool, fun) == Some(unary_function(op_of(c))),
    ensures
        call_text(pool, fun, 1, seq![a]) == prefix_text(c, a),
{
    let args = seq![a];
    assert(args[0] == a);
}

/// Different operator characters call different functions and perform
/// different computations.
pub proof fn law_operators_distinct(c1: char, c2: char)
    requires
        binary_char(c1),
        binary_char(c2),
        c1 != c2,
    ensures
        binary_function(op_of(c1)) != binary_function(op_of(c2)),
        compute_op(op_of(c1)) != compute_op(op_of(c2)),
{
}

/// The binding a wildcard named `c` ends with stands for the expression at
/// `e`: it is that expression or one structurally equal to it.
pub open spec fn bound_to(nodes: Seq<ExprNode>, caps: Seq<(NameId, CapturedValue)>, c: NameId, e: int) -> bool {
    lookup(caps, c) matches Some(CapturedValue::Expression(r)) && (r.0 == e || spec_expr_eq(nodes, r.0 as int, e))
}

proof fn lemma_lookup_push(caps: Seq<(NameId, CapturedValue)>, c: NameId, x: CapturedValue, k: NameId)
    ensures
        lookup(caps.push((c, x)), k) == if k == c {
            Some(x)
        } else {
            lookup(caps, k)
        },
{
    assert(caps.push((c, x)).drop_last() =~= caps);
}

/// What a match has bound stays bound to the same value.
pub open spec fn keeps(before: Seq<(NameId, CapturedValue)>, after: Seq<(NameId, CapturedValue)>) -> bool {
    forall|k: NameId| #[trigger] lookup(before, k) is Some ==> lookup(after, k) == lookup(before, k)
}

/// A successful match never changes or drops a binding it started with.
pub proof fn law_match_keeps_bindings(pool: &Pool, p: int, e: int, caps: Seq<(NameId, CapturedValue)>)
    ensures
        match_node(pool, p, e, caps).0 ==> keeps(caps, match_node(pool, p, e, caps).1),
    decreases p, 1int,
{
    if 0 <= p < pool.patterns@.len() && 0 <= e < pool.exprs@.len() {
        match (pool.patterns@[p], pool.exprs@[e]) {
            (Pattern::AnyNumber(c), ExprNode::Number(_)) => {
                lemma_bind_keeps(pool, c, e, caps);
            },
            (Pattern::Wildcard(c), _) => {
                lemma_bind_keeps(pool, c, e, caps);
            },
            (Pattern::Call { .. }, ExprNode::Call { .. }) => {
                lemma_kids_keep(pool, p, e, 0, caps);
            },
            (Pattern::Struct { .. }, ExprNode::Struct { .. }) => {
                lemma_kids_keep(pool, p, e, 0, caps);
            },
            (Pattern::VarCallName { var, .. }, ExprNode::Call { fun: nf, .. }) => {
                let c1 = caps.push((var, CapturedValue::Function(nf)));
                lemma_kids_keep(pool, p, e, 0, caps);
                lemma_kids_keep(pool, p, e, 0, c1);
                if lookup(caps, var) is None {
                    assert forall|k: NameId| #[trigger] lookup(caps, k) is Some implies lookup(c1, k) == lookup(caps, k) by {
                        lemma_lookup_push(caps, var, CapturedValue::Function(nf), k);
                    }
                }
            },
            (Pattern::VarStructName { var, .. }, ExprNode::Struct { name: nn, .. }) => {
                let c1 = caps.push((var, CapturedValue::StructName(nn)));
                lemma_kids_keep(pool, p, e, 0, caps);
                lemma_kids_keep(pool, p, e, 0, c1);
                if lookup(caps, var) is None {
                    assert forall|k: NameId| #[trigger] lookup(caps, k) is Some implies lookup(c1, k) == lookup(caps, k) by {
                        lemma_lookup_push(caps, var, CapturedValue::StructName(nn), k);
                    }
                }
            },
            _ => {},
        }
    }
}

proof fn lemma_bind_keeps(pool: &Pool, c: NameId, e: int, caps: Seq<(NameId, CapturedValue)>)
    requires
        0 <= e < pool.exprs@.len(),
    ensures
        keeps(caps, bind_expr(pool, c, e, caps).1),
        bind_expr(pool, c, e, caps).0 ==> bound_to(pool.exprs@, bind_expr(pool, c, e, caps).1, c, e),
{
    assert(pool.exprs@.len() == pool.exprs.len());
    if lookup(caps, c) is None {
        let x = CapturedValue::Expression(crate::idx::ExprId(e as usize));
        lemma_lookup_push(caps, c, x, c);
        assert forall|k: NameId| #[trigger] lookup(caps, k) is Some implies lookup(caps.push((c, x)), k) == lookup(
            caps,
            k,
        ) by {
            lemma_lookup_push(caps, c, x, k);
        }
    }
}

proof fn lemma_kids_keep(pool: &Pool, p: int, e: int, k: int, caps: Seq<(NameId, CapturedValue)>)
    ensures
        match_kids(pool, p, e, k, caps).0 ==> keeps(caps, match_kids(pool, p, e, k, caps).1),
    decreases p, 0int, spec_children(pool.patterns@, p).len() - k,
{
    let pk = spec_children(pool.patterns@, p);
    let ek = spec_children(pool.exprs@, e);
    if 0 <= k < pk.len() && k < ek.len() && 0 <= pk[k] < p {
        let r = match_node(pool, pk[k], ek[k], caps);
        law_match_keeps_bindings(pool, pk[k], ek[k], caps);
        if r.0 {
            lemma_kids_keep(pool, p, e, k + 1, r.1);
            let f = match_kids(pool, p, e, k + 1, r.1);
            if f.0 {
                assert forall|n: NameId| #[trigger] lookup(caps, n) is Some implies lookup(f.1, n) == lookup(caps, n) by {
                    assert(lookup(r.1, n) == lookup(caps, n));
                    assert(lookup(r.1, n) is Some);
                }
            }
        }
    }
}

/// When a pattern matches an expression, the expression has the shape the
/// pattern's root asks for, and the bindings the match ends with agree with
/// it: a number or variable is that number or variable; a call or struct has
/// the pattern's function or name and arity; a wildcard, or a number
/// wildcard on a number, is bound to the expression or one equal to it; a
/// function variable is bound to the function of the call it matched, and a
/// struct-name variable to the name of the struct.
pub proof fn law_match_root(pool: &Pool, p: int, e: int, caps: Seq<(NameId, CapturedValue)>)
    requires
        0 <= p < pool.patterns@.len(),
    ensures
        match_node(pool, p, e, caps).0 ==> 0 <= e < pool.exprs@.len() && {
            let c2 = match_node(pool, p, e, caps).1;
            match pool.patterns@[p] {
                Pattern::Number(n) => pool.exprs@[e] == ExprNode::Number(n),
                Pattern::Variable(v) => pool.exprs@[e] == ExprNode::Variable(v),
                Pattern::AnyNumber(c) => pool.exprs@[e] is Number && bound_to(pool.exprs@, c2, c, e),
                Pattern::Wildcard(c) => bound_to(pool.exprs@, c2, c, e),
                Pattern::Call { fun, arity, .. } => pool.exprs@[e] matches ExprNode::Call { fun: f2, arity: a2, .. }
                    && f2 == fun && a2 == arity,
                Pattern::Struct { name, arity, .. } => pool.exprs@[e] matches ExprNode::Struct {
                    name: n2,
                    arity: a2,
                    ..
                } && n2 == name && a2 == arity,
                Pattern::VarCallName { var, arity, .. } => pool.exprs@[e] matches ExprNode::Call {
                    fun: f2,
                    arity: a2,
                    ..
                } && a2 == arity && lookup(c2, var) == Some(CapturedValue::Function(f2)),
                Pattern::VarStructName { var, arity, .. } => pool.exprs@[e] matches ExprNode::Struct {
                    name: n2,
                    arity: a2,
                    ..
                } && a2 == arity && lookup(c2, var) == Some(CapturedValue::StructName(n2)),
            }
        },
{
    if 0 <= e < pool.exprs@.len() {
        match (pool.patterns@[p], pool.exprs@[e]) {
            (Pattern::AnyNumber(c), ExprNode::Number(_)) => {
                lemma_bind_keeps(pool, c, e, caps);
            },
            (Pattern::Wildcard(c), _) => {
                lemma_bind_keeps(pool, c, e, caps);
            },
            (Pattern::VarCallName { var, .. }, ExprNode::Call { fun: nf, .. }) => {
                let c1 = caps.push((var, CapturedValue::Function(nf)));
                lemma_lookup_push(caps, var, CapturedValue::Function(nf), var);
                lemma_kids_keep(pool, p, e, 0, caps);
                lemma_kids_keep(pool, p, e, 0, c1);
            },
            (Pattern::VarStructName { var, .. }, ExprNode::Struct { name: nn, .. }) => {
                let c1 = caps.push((var, CapturedValue::StructName(nn)));
                lemma_lookup_push(caps, var, CapturedValue::StructName(nn), var);
                lemma_kids_keep(pool, p, e, 0, caps);
                lemma_kids_keep(pool, p, e, 0, c1);
            },
            _ => {},
        }
    }
}

proof fn lemma_kids_eq_pointwise(nodes: Seq<ExprNode>, a: int, b: int, k: int)
    requires
        0 <= k,
        kids_eq(nodes, a, b, k),
    ensures
        forall|j: int|
            k <= j < spec_children(nodes, a).len() && j < spec_children(nodes, b).len() ==> 0 <= #[trigger] spec_children(
                nodes,
                a,
            )[j] < a && spec_expr_eq(nodes, spec_children(nodes, a)[j], spec_children(nodes, b)[j]),
    decreases spec_children(nodes, a).len() - k,
{
    let ka = spec_children(nodes, a);
    let kb = spec_children(nodes, b);
    if k < ka.len() && k < kb.len() {
        lemma_kids_eq_pointwise(nodes, a, b, k + 1);
    }
}

/// Structurally equal expressions read the same: in an arena whose nodes
/// have all their children, two expressions that `expr_eq` calls equal have
/// the same text.
pub proof fn law_equal_exprs_read_alike(pool: &Pool, a: int, b: int)
    requires
        nodes_ok(pool.exprs@),
        children_complete(pool.exprs@),
        spec_expr_eq(pool.exprs@, a, b),
    ensures
        expr_text(pool, a) == expr_text(pool, b),
    decreases a,
{
    let nodes = pool.exprs@;
    match (nodes[a], nodes[b]) {
        (ExprNode::Call { .. }, ExprNode::Call { .. }) => {
            let ka = spec_children(nodes, a);
            let kb = spec_children(nodes, b);
            assert(ka.len() == nodes[a].spec_arity());
            assert(kb.len() == nodes[b].spec_arity());
            lemma_children_before(nodes, a);
            lemma_children_before(nodes, b);
            lemma_kids_eq_pointwise(nodes, a, b, 0);
            assert forall|m: int| 0 <= m < ka.len() implies expr_text(pool, #[trigger] ka[m]) == expr_text(pool, kb[m]) by {
                law_equal_exprs_read_alike(pool, ka[m], kb[m]);
            }
            let xa = expr_args(pool, a);
            let xb = expr_args(pool, b);
            assert forall|m: int| 0 <= m < xa.len() implies xa[m] == xb[m] by {
                let j = ka.len() - 1 - m;
                assert(0 <= ka[j] < a);
                assert(0 <= kb[j] < b);
                assert(expr_text(pool, ka[j]) == expr_text(pool, kb[j]));
            }
            assert(xa =~= xb);
        },
        _ => {},
    }
}

/// A number wildcard reads as `#` and its name, a wildcard as `?` and its
/// name, so the two never read alike.
pub proof fn law_wildcard_texts(pool: &Pool, i: int, j: int)
    requires
        0 <= i < pool.patterns@.len(),
        0 <= j < pool.patterns@.len(),
    ensures
        pool.patterns@[i] matches Pattern::AnyNumber(v) ==> pattern_text(pool, i) == seq!['#'] + name_text(pool, v),
        pool.patterns@[i] matches Pattern::Wildcard(v) ==> pattern_text(pool, i) == seq!['?'] + name_text(pool, v),
        pool.patterns@[i] is AnyNumber && pool.patterns@[j] is Wildcard ==> pattern_text(pool, i) != pattern_text(
            pool,
            j,
        ),
{
    if pool.patterns@[i] is AnyNumber && pool.patterns@[j] is Wildcard {
        assert(pattern_text(pool, i)[0] == '#');
        assert(pattern_text(pool, j)[0] == '?');
    }
}

/// The pattern rooted at `p` describes the expression rooted at `e` under
/// the bindings `caps`: the two have the same shape node by node (the same
/// numbers, variables, functions, struct names and arities, children paired
/// from the last argument on while both lists last); every wildcard, and
/// every number wildcard (on a number), stands for an expression bound to it
/// or equal to one bound to it; every function or struct-name variable is
/// bound to the function or name it stands on.
pub open spec fn describes(pool: &Pool, p: int, e: int, caps: Seq<(NameId, CapturedValue)>) -> bool
    decreases p, 1int,
{
    if 0 <= p < pool.patterns@.len() && 0 <= e < pool.exprs@.len() {
        let kids = kids_describe(pool, p, e, caps, spec_children(pool.patterns@, p).len() as int);
        match (pool.patterns@[p], pool.exprs@[e]) {
            (Pattern::Number(a), ExprNode::Number(b)) => a == b,
            (Pattern::Variable(a), ExprNode::Variable(b)) => a == b,
            (Pattern::AnyNumber(c), ExprNode::Number(_)) => bound_to(pool.exprs@, caps, c, e),
            (Pattern::Wildcard(c), _) => bound_to(pool.exprs@, caps, c, e),
            (
                Pattern::Call { fun: pf, arity: pa, .. },
                ExprNode::Call { fun: nf, arity: na, .. },
            ) => pf == nf && pa == na && kids,
            (
                Pattern::Struct { name: pn, arity: pa, .. },
                ExprNode::Struct { name: nn, arity: na, .. },
            ) => pn == nn && pa == na && kids,
            (
                Pattern::VarCallName { var, arity: pa, .. },
                ExprNode::Call { fun: nf, arity: na, .. },
            ) => pa == na && lookup(caps, var) == Some(CapturedValue::Function(nf)) && kids,
            (
                Pattern::VarStructName { var, arity: pa, .. },
                ExprNode::Struct { name: nn, arity: na, .. },
            ) => pa == na && lookup(caps, var) == Some(CapturedValue::StructName(nn)) && kids,
            _ => false,
        }
    } else {
        false
    }
}

/// The first `m` children of pattern `p` describe the children of `e` at the
/// same positions, while both child lists last.
pub open spec fn kids_describe(pool: &Pool, p: int, e: int, caps: Seq<(NameId, CapturedValue)>, m: int) -> bool
    decreases p, 0int, m,
{
    if m <= 0 {
        true
    } else {
        let pk = spec_children(pool.patterns@, p);
        let ek = spec_children(pool.exprs@, e);
        let k = m - 1;
        &&& kids_describe(pool, p, e, caps, m - 1)
        &&& (k < pk.len() && k < ek.len()) ==> (0 <= pk[k] < p && describes(pool, pk[k], ek[k], caps))
    }
}

proof fn lemma_describes_grow(pool: &Pool, p: int, e: int, c: Seq<(NameId, CapturedValue)>, d: Seq<(NameId, CapturedValue)>)
    requires
        describes(pool, p, e, c),
        keeps(c, d),
    ensures
        describes(pool, p, e, d),
    decreases p, 1int,
{
    let m = spec_children(pool.patterns@, p).len() as int;
    match (pool.patterns@[p], pool.exprs@[e]) {
        (Pattern::AnyNumber(x), ExprNode::Number(_)) => {
            assert(lookup(c, x) is Some);
        },
        (Pattern::Wildcard(x), _) => {
            assert(lookup(c, x) is Some);
        },
        (Pattern::Call { .. }, ExprNode::Call { .. }) => {
            lemma_kids_describe_grow(pool, p, e, c, d, m);
        },
        (Pattern::Struct { .. }, ExprNode::Struct { .. }) => {
            lemma_kids_describe_grow(pool, p, e, c, d, m);
        },
        (Pattern::VarCallName { var, .. }, ExprNode::Call { .. }) => {
            assert(lookup(c, var) is Some);
            lemma_kids_describe_grow(pool, p, e, c, d, m);
        },
        (Pattern::VarStructName { var, .. }, ExprNode::Struct { .. }) => {
            assert(lookup(c, var) is Some);
            lemma_kids_describe_grow(pool, p, e, c, d, m);
        },
        _ => {},
    }
}

proof fn lemma_kids_describe_grow(
    pool: &Pool,
    p: int,
    e: int,
    c: Seq<(NameId, CapturedValue)>,
    d: Seq<(NameId, CapturedValue)>,
    m: int,
)
    requires
        kids_describe(pool, p, e, c, m),
        keeps(c, d),
    ensures
        kids_describe(pool, p, e, d, m),
    decreases p, 0int, m,
{
    if m > 0 {
        lemma_kids_describe_grow(pool, p, e, c, d, m - 1);
        let pk = spec_children(pool.patterns@, p);
        let ek = spec_children(pool.exprs@, e);
        let k = m - 1;
        if k < pk.len() && k < ek.len() {
            lemma_describes_grow(pool, pk[k], ek[k], c, d);
        }
    }
}

proof fn lemma_kids_sound(pool: &Pool, p: int, e: int, k: int, caps: Seq<(NameId, CapturedValue)>)
    requires
        0 <= k,
    ensures
        match_kids(pool, p, e, k, caps).0 ==> forall|j: int|
            k <= j < spec_children(pool.patterns@, p).len() && j < spec_children(pool.exprs@, e).len() ==> 0
                <= #[trigger] spec_children(pool.patterns@, p)[j] < p && describes(
                pool,
                spec_children(pool.patterns@, p)[j],
                spec_children(pool.exprs@, e)[j],
                match_kids(pool, p, e, k, caps).1,
            ),
    decreases p, 0int, spec_children(pool.patterns@, p).len() - k,
{
    let pk = spec_children(pool.patterns@, p);
    let ek = spec_children(pool.exprs@, e);
    if k < pk.len() && k < ek.len() && 0 <= pk[k] < p {
        let r = match_node(pool, pk[k], ek[k], caps);
        law_match_sound(pool, pk[k], ek[k], caps);
        if r.0 {
            lemma_kids_sound(pool, p, e, k + 1, r.1);
            lemma_kids_keep(pool, p, e, k + 1, r.1);
            let f = match_kids(pool, p, e, k + 1, r.1);
            if f.0 {
                lemma_describes_grow(pool, pk[k], ek[k], r.1, f.1);
            }
        }
    }
}

proof fn lemma_kids_describe_from(pool: &Pool, p: int, e: int, c: Seq<(NameId, CapturedValue)>, m: int)
    requires
        forall|j: int|
            0 <= j < spec_children(pool.patterns@, p).len() && j < spec_children(pool.exprs@, e).len() ==> 0
                <= #[trigger] spec_children(pool.patterns@, p)[j] < p && describes(
                pool,
                spec_children(pool.patterns@, p)[j],
                spec_children(pool.exprs@, e)[j],
                c,
            ),
    ensures
        kids_describe(pool, p, e, c, m),
    decreases m,
{
    if m > 0 {
        lemma_kids_describe_from(pool, p, e, c, m - 1);
        let pk = spec_children(pool.patterns@, p);
        let k = m - 1;
        if k < pk.len() {
            assert(0 <= pk[k] < p || k >= spec_children(pool.exprs@, e).len());
        }
    }
}

/// A successful match is sound: the pattern describes the expression under
/// the bindings the match ends with.
pub proof fn law_match_sound(pool: &Pool, p: int, e: int, caps: Seq<(NameId, CapturedValue)>)
    ensures
        match_node(pool, p, e, caps).0 ==> describes(pool, p, e, match_node(pool, p, e, caps).1),
    decreases p, 1int,
{
    if 0 <= p < pool.patterns@.len() && 0 <= e < pool.exprs@.len() {
        law_match_root(pool, p, e, caps);
        let m = spec_children(pool.patterns@, p).len() as int;
        match (pool.patterns@[p], pool.exprs@[e]) {
            (Pattern::Call { .. }, ExprNode::Call { .. }) => {
                lemma_kids_sound(pool, p, e, 0, caps);
                let r = match_kids(pool, p, e, 0, caps);
                if r.0 {
                    lemma_kids_describe_from(pool, p, e, r.1, m);
                }
            },
            (Pattern::Struct { .. }, ExprNode::Struct { .. }) => {
                lemma_kids_sound(pool, p, e, 0, caps);
                let r = match_kids(pool, p, e, 0, caps);
                if r.0 {
                    lemma_kids_describe_from(pool, p, e, r.1, m);
                }
            },
            (Pattern::VarCallName { var, .. }, ExprNode::Call { fun: nf, .. }) => {
                let c1 = caps.push((var, CapturedValue::Function(nf)));
                lemma_kids_sound(pool, p, e, 0, caps);
                lemma_kids_sound(pool, p, e, 0, c1);
                let r0 = match_kids(pool, p, e, 0, caps);
                let r1 = match_kids(pool, p, e, 0, c1);
                if r0.0 {
                    lemma_kids_describe_from(pool, p, e, r0.1, m);
                }
                if r1.0 {
                    lemma_kids_describe_from(pool, p, e, r1.1, m);
                }
            },
            (Pattern::VarStructName { var, .. }, ExprNode::Struct { name: nn, .. }) => {
                let c1 = caps.push((var, CapturedValue::StructName(nn)));
                lemma_kids_sound(pool, p, e, 0, caps);
                lemma_kids_sound(pool, p, e, 0, c1);
                let r0 = match_kids(pool, p, e, 0, caps);
                let r1 = match_kids(pool, p, e, 0, c1);
                if r0.0 {
                    lemma_kids_describe_from(pool, p, e, r0.1, m);
                }
                if r1.0 {
                    lemma_kids_describe_from(pool, p, e, r1.1, m);
                }
            },
            _ => {},
        }
    }
}

/// The expression rooted at `i` holds no struct node.
pub open spec fn struct_free(nodes: Seq<ExprNode>, i: int) -> bool
    decreases i, 1int,
{
    0 <= i < nodes.len() && !(nodes[i] is Struct) && kids_struct_free(nodes, i, 0)
}

/// The children of `i` from position `k` of its child list on lie before it
/// and hold no struct node.
pub open spec fn kids_struct_free(nodes: Seq<ExprNode>, i: int, k: int) -> bool
    decreases i, 0int, spec_children(nodes, i).len() - k,
{
    let kids = spec_children(nodes, i);
    if k < 0 || k >= kids.len() {
        true
    } else {
        0 <= kids[k] < i && struct_free(nodes, kids[k]) && kids_struct_free(nodes, i, k + 1)
    }
}

/// An expression without struct nodes is structurally equal to itself.
pub proof fn law_expr_eq_reflexive(nodes: Seq<ExprNode>, i: int)
    requires
        struct_free(nodes, i),
    ensures
        spec_expr_eq(nodes, i, i),
    decreases i, 1int,
{
    if nodes[i] is Call {
        lemma_kids_eq_refl(nodes, i, 0);
    }
}

proof fn lemma_kids_eq_refl(nodes: Seq<ExprNode>, i: int, k: int)
    requires
        0 <= i < nodes.len(),
        kids_struct_free(nodes, i, k),
    ensures
        kids_eq(nodes, i, i, k),
    decreases i, 0int, spec_children(nodes, i).len() - k,
{
    let kids = spec_children(nodes, i);
    if 0 <= k < kids.len() {
        law_expr_eq_reflexive(nodes, kids[k]);
        lemma_kids_eq_refl(nodes, i, k + 1);
    }
}

proof fn lemma_pow_fits_below(b: int, k: nat, e: nat)
    requires
        k <= e,
        fits(pow(b, e)),
    ensures
        fits(pow(b, k)),
    decreases e - k,
{
    reveal(pow);
    if k < e {
        lemma_pow_fits_below(b, k + 1, e);
        let x = pow(b, k);
        assert(pow(b, (k + 1) as nat) == b * x);
        if b == 0 {
            if k == 0 {
                assert(x == 1);
            } else {
                assert(pow(b, k) == b * pow(b, (k - 1) as nat));
                assert(x == 0);
            }
        } else if b == 1 || b == -1 {
            lemma_pow_unit(b, k);
        } else {
            let y = b * x;
            let ax = if x >= 0 { x } else { -x };
            let ay = if y >= 0 { y } else { -y };
            assert(2 * ax <= ay) by (nonlinear_arith)
                requires
                    b >= 2 || b <= -2,
                    y == b * x,
                    ax == (if x >= 0 { x } else { -x }),
                    ay == (if y >= 0 { y } else { -y }),
            ;
        }
    }
}

proof fn lemma_pow_unit(b: int, k: nat)
    requires
        b == 1 || b == -1,
    ensures
        pow(b, k) == 1 || pow(b, k) == -1,
    decreases k,
{
    reveal(pow);
    if k > 0 {
        lemma_pow_unit(b, (k - 1) as nat);
    }
}

proof fn lemma_checked_pow_fits(b: i32, e: nat)
    requires
        fits(pow(b as int, e)),
    ensures
        crate::rules::checked_pow(b, e) == Some(pow(b as int, e) as i32),
    decreases e,
{
    reveal(pow);
    if e > 0 {
        lemma_pow_fits_below(b as int, (e - 1) as nat, e);
        lemma_checked_pow_fits(b, (e - 1) as nat);
        let p = pow(b as int, (e - 1) as nat);
        assert(p * b == b * p) by (nonlinear_arith);
    }
}

/// A power whose value fits is always computed.
pub proof fn law_compute_power_fits(b: i32, e: i32)
    requires
        e >= 0,
        fits(pow(b as int, e as nat)),
    ensures
        compute_spec(ComputeOp::Power, seq![b, e]) == Some(pow(b as int, e as nat) as i32),
{
    lemma_checked_pow_fits(b, e as nat);
}

/// A quotient is computed for every non-zero divisor, but for the one
/// quotient that does not fit: the least `i32` divided by -1.
pub proof fn law_compute_divide_defined(a: i32, b: i32)
    requires
        b != 0,
        !(a == i32::MIN && b == -1),
    ensures
        compute_spec(ComputeOp::Divide, seq![a, b]) is Some,
{
    let args = seq![a, b];
    assert(args[0] == a && args[1] == b);
    let x = a as int;
    let d = b as int;
    if x > 0 && d > 0 {
        assert(0 <= x / d <= x) by (nonlinear_arith)
            requires
                x > 0,
                d > 0,
        ;
    } else if x < 0 && d < 0 {
        assert(0 <= (x * -1) / (d * -1) <= x * -1) by (nonlinear_arith)
            requires
                x < 0,
                d < 0,
        ;
        if d == -1 {
            assert(d * -1 == 1);
            assert((x * -1) / 1 == x * -1);
        } else {
            assert((x * -1) / (d * -1) <= (x * -1) / 2) by (nonlinear_arith)
                requires
                    x < 0,
                    d <= -2,
            ;
        }
    } else if x < 0 && d > 0 {
        assert(0 <= (x * -1) / d <= x * -1) by (nonlinear_arith)
            requires
                x < 0,
                d > 0,
        ;
    } else if x > 0 && d < 0 {
        assert(0 <= x / (d * -1) <= x) by (nonlinear_arith)
            requires
                x > 0,
                d < 0,
        ;
    }
}

proof fn lemma_checked_sum_fits(args: Seq<i32>)
    requires
        forall|k: int| 0 <= k <= args.len() ==> fits(#[trigger] sum_of(args.take(k))),
    ensures
        crate::rules::checked_sum(args) == Some(sum_of(args) as i32),
    decreases args.len(),
{
    assert(args.take(args.len() as int) =~= args);
    if args.len() > 0 {
        let d = args.drop_last();
        assert forall|k: int| 0 <= k <= d.len() implies fits(#[trigger] sum_of(d.take(k))) by {
            assert(d.take(k) =~= args.take(k));
        }
        lemma_checked_sum_fits(d);
    }
}

proof fn lemma_checked_product_fits(args: Seq<i32>)
    requires
        forall|k: int| 0 <= k <= args.len() ==> fits(#[trigger] product_of(args.take(k))),
    ensures
        crate::rules::checked_product(args) == Some(product_of(args) as i32),
    decreases args.len(),
{
    assert(args.take(args.len() as int) =~= args);
    if args.len() > 0 {
        let d = args.drop_last();
        assert forall|k: int| 0 <= k <= d.len() implies fits(#[trigger] product_of(d.take(k))) by {
            assert(d.take(k) =~= args.take(k));
        }
        lemma_checked_product_fits(d);
    }
}

/// A sum whose partial sums, added left to right, all fit is computed.
pub proof fn law_compute_add_fits(args: Seq<i32>)
    requires
        forall|k: int| 0 <= k <= args.len() ==> fits(#[trigger] sum_of(args.take(k))),
    ensures
        compute_spec(ComputeOp::Add, args) == Some(sum_of(args) as i32),
{
    lemma_checked_sum_fits(args);
}

/// A product whose partial products, taken left to right, all fit is
/// computed.
pub proof fn law_compute_multiply_fits(args: Seq<i32>)
    requires
        forall|k: int| 0 <= k <= args.len() ==> fits(#[trigger] product_of(args.take(k))),
    ensures
        compute_spec(ComputeOp::Multiply, args) == Some(product_of(args) as i32),
{
    lemma_checked_product_fits(args);
}

/// Reading back the decimal text the display writes for a number gives the
/// number: the parser's digits and the display's digits agree.
pub proof fn law_number_text_round_trip(n: nat)
    ensures
        digits_value(nat_text(n)) == n,
    decreases n,
{
    let d = (n % 10) as int;
    assert(digit_of(digit_char(d)) == d);
    let t = nat_text(n);
    if n < 10 {
        assert(d == n);
        assert(t.drop_last() =~= Seq::<char>::empty());
        assert(digits_value(Seq::<char>::empty()) == 0);
        assert(t.last() == digit_char(d));
        assert(digits_value(t) == 10 * digits_value(t.drop_last()) + digit_of(t.last()));
    } else {
        law_number_text_round_trip(n / 10);
        assert(t.drop_last() =~= nat_text(n / 10));
        assert(t.last() == digit_char(d));
        assert(digits_value(t) == 10 * digits_value(t.drop_last()) + digit_of(t.last()));
        assert(10 * (n / 10) + n % 10 == n);
    }
}

/// What building an action puts at the root of what it appends: the number
/// for a number; for a variable bound to an expression, that expression's
/// root node (the whole expression is copied), otherwise the variable
/// itself; for a call or struct, a call of the same function or a struct of
/// the same name, with the same arity; for a function or struct-name
/// variable, a call of the function or a struct of the name it is bound to;
/// for a computation, the number its operator gives on the values of its
/// operands in argument order.
pub proof fn law_build_root(pool: &Pool, a: int, caps: Seq<(NameId, CapturedValue)>, out: Seq<(ExprNode, crate::pool::Provenance)>)
    requires
        0 <= a < pool.actions@.len(),
    ensures
        ({
            let r = build(pool, a, caps, out);
            let kids = spec_children(pool.actions@, a);
            match pool.actions@[a] {
                Action::Number(n) => r.len() == out.len() + 1 && r.last().0 == ExprNode::Number(n),
                Action::Variable(v) => match lookup(caps, v) {
                    Some(CapturedValue::Expression(x)) => 0 <= x.0 < pool.exprs@.len() && spec_length(pool.exprs@, x.0 as int)
                        <= x.0 + 1 ==> r.len() > out.len() && r.last().0 == pool.exprs@[x.0 as int],
                    _ => r.len() == out.len() + 1 && r.last().0 == ExprNode::Variable(v),
                },
                Action::Call { fun, arity, .. } => (r.last().0 matches ExprNode::Call { fun: f2, arity: a2, .. } && f2
                    == fun && a2 == arity) && r.len() > 0,
                Action::Struct { name, arity, .. } => (r.last().0 matches ExprNode::Struct { name: n2, arity: a2, .. }
                    && n2 == name && a2 == arity) && r.len() > 0,
                Action::VarCallName { var, arity, .. } => match lookup(caps, var) {
                    Some(CapturedValue::Function(f)) => (r.last().0 matches ExprNode::Call { fun: f2, arity: a2, .. }
                        && f2 == f && a2 == arity) && r.len() > 0,
                    _ => r == out,
                },
                Action::VarStructName { var, arity, .. } => match lookup(caps, var) {
                    Some(CapturedValue::StructName(n)) => (r.last().0 matches ExprNode::Struct {
                        name: n2,
                        arity: a2,
                        ..
                    } && n2 == n && a2 == arity) && r.len() > 0,
                    _ => r == out,
                },
                Action::Compute { op, .. } => r == out || ((r.last().0 matches ExprNode::Number(v) && compute_args(
                    pool,
                    caps,
                    kids,
                    kids.len() as int,
                ) is Some && compute_spec(op, compute_args(pool, caps, kids, kids.len() as int).unwrap()) == Some(v))
                    && r.len() == out.len() + 1),
            }
        }),
{
    match pool.actions@[a] {
        Action::Variable(v) => {
            if let Some(CapturedValue::Expression(x)) = lookup(caps, v) {
                let e = x.0 as int;
                if 0 <= e < pool.exprs@.len() && spec_length(pool.exprs@, e) <= e + 1 {
                    let c = crate::rules::copied(pool, e);
                    assert(c.len() == spec_length(pool.exprs@, e));
                    assert(spec_length(pool.exprs@, e) >= 1);
                    assert(c.last().0 == pool.exprs@[e]);
                    assert((out + c).last() == c.last());
                }
            }
        },
        _ => {},
    }
}

proof fn lemma_compute_args_order(pool: &Pool, caps: Seq<(NameId, CapturedValue)>, kids: Seq<int>, m: int)
    requires
        0 <= m <= kids.len(),
    ensures
        compute_args(pool, caps, kids, m) matches Some(vals) ==> vals.len() == m && forall|j: int|
            0 <= j < m ==> arg_value(pool, caps, #[trigger] kids[kids.len() - 1 - j]) == Some(vals[j]),
    decreases m,
{
    if m > 0 {
        lemma_compute_args_order(pool, caps, kids, m - 1);
    }
}

/// A computation works on its operands in the order its text shows them:
/// the `j`-th value it uses is the value of the operand written `j`-th.
pub proof fn law_compute_operand_order(pool: &Pool, caps: Seq<(NameId, CapturedValue)>, a: int)
    requires
        0 <= a < pool.actions@.len(),
    ensures
        ({
            let kids = spec_children(pool.actions@, a);
            compute_args(pool, caps, kids, kids.len() as int) matches Some(vals) ==> vals.len() == kids.len()
                && action_args(pool, a).len() == kids.len() && forall|j: int|
                0 <= j < kids.len() ==> arg_value(pool, caps, kids[kids.len() - 1 - j]) == Some(vals[j]) && (0
                    <= kids[kids.len() - 1 - j] < a ==> #[trigger] action_args(pool, a)[j] == action_text(
                    pool,
                    kids[kids.len() - 1 - j],
                ))
        }),
{
    let kids = spec_children(pool.actions@, a);
    lemma_compute_args_order(pool, caps, kids, kids.len() as int);
}

/// The mark a name of each kind is written with: none for a variable, `?`
/// for a wildcard, `#` for a number wildcard.
pub open spec fn kind_mark(k: NameKind) -> Seq<char> {
    match k {
        NameKind::Variable => Seq::empty(),
        NameKind::Wildcard => seq!['?'],
        NameKind::AnyNumber => seq!['#'],
    }
}

/// A name read into a pattern adds one node, and that node reads back as
/// the mark of the name's kind followed by the name.
pub proof fn law_pattern_name_reads_back(pool: &Pool, s: Seq<char>, r: Replay, kind: NameKind, a: usize, b: usize)
    requires
        r.err is None,
        !r.compute,
        a <= b <= s.len(),
    ensures
        ({
            let r2 = step(Dialect::Pattern, s, r, Event::Name(kind, a, b));
            let id = NameId(interned_at(r.b.names, s.subrange(a as int, b as int)) as usize);
            &&& r2.b.patterns.len() == r.b.patterns.len() + 1
            &&& pattern_node_text(pool, r2.b.patterns.last(), Seq::empty()) == kind_mark(kind) + name_text(pool, id)
        }),
{
    let id = NameId(interned_at(r.b.names, s.subrange(a as int, b as int)) as usize);
    assert(Seq::<char>::empty() + name_text(pool, id) =~= name_text(pool, id));
}

} // verus!
