use vstd::prelude::*;

use crate::ast::{Action, ComputeOp, ExprNode, Function, Pattern};
use crate::children::{lemma_children_before, nodes_ok, spec_children, Children};
use crate::idx::{ActionId, ExprId, FunctionId, NameId, PatternId, RuleId};
use crate::checks::arena_walkable;
use crate::pool::Pool;
use crate::text::{int_text, join_comma, nat_text, push_char, push_int, push_joined, push_nat, push_string};

verus! {

/// Text of the nodes of an arena, addressed by `Id`.
pub trait DisplayNode<Id> {
    /// `display_with_children` can render `id`.
    spec fn display_ok(&self, id: Id) -> bool;

    /// What `display_with_children` renders for `id`.
    spec fn display_text(&self, id: Id) -> Seq<char>;

    fn display_with_children(&self, node_id: Id) -> (r: String)
        requires
            self.display_ok(node_id),
        ensures
            r@ == self.display_text(node_id),
    ;
}

/// The interned name `n`, or `name_<n>` for an id that names nothing.
pub open spec fn name_text(pool: &Pool, n: NameId) -> Seq<char> {
    if n.0 < pool.names@.len() {
        pool.names@[n.0 as int]@
    } else {
        seq!['n', 'a', 'm', 'e', '_'] + nat_text(n.0 as nat)
    }
}

/// The function an id names, if any.
pub open spec fn function_at(pool: &Pool, f: FunctionId) -> Option<Function> {
    if f.0 < pool.functions@.len() {
        Some(pool.functions@[f.0 as int])
    } else {
        None
    }
}

/// The symbol of a function: its operator, `neg`, or its name; `func_<f>`
/// for an id that names nothing.
pub open spec fn function_text(pool: &Pool, f: FunctionId) -> Seq<char> {
    match function_at(pool, f) {
        Some(Function::Add) => seq!['+'],
        Some(Function::Subtract) => seq!['-'],
        Some(Function::Multiply) => seq!['*'],
        Some(Function::Divide) => seq!['/'],
        Some(Function::Power) => seq!['^'],
        Some(Function::Negate) => seq!['n', 'e', 'g'],
        Some(Function::Plus) => seq!['+'],
        Some(Function::Custom(n)) => name_text(pool, n),
        None => seq!['f', 'u', 'n', 'c', '_'] + nat_text(f.0 as nat),
    }
}

/// The name an id refers to exists.
pub open spec fn name_ok(pool: &Pool, n: NameId) -> bool {
    n.0 < pool.names@.len()
}

/// The function an id refers to exists, and so does the name of a custom one.
pub open spec fn function_ok(pool: &Pool, f: FunctionId) -> bool {
    &&& f.0 < pool.functions@.len()
    &&& pool.functions@[f.0 as int] matches Function::Custom(n) ==> name_ok(pool, n)
}

/// The names and functions an expression node refers to exist.
pub open spec fn expr_node_syms_ok(pool: &Pool, node: ExprNode) -> bool {
    match node {
        ExprNode::Number(_) => true,
        ExprNode::Variable(v) => name_ok(pool, v),
        ExprNode::Call { fun, .. } => function_ok(pool, fun),
        ExprNode::Struct { name, .. } => name_ok(pool, name),
    }
}

/// The names and functions the expression rooted at `i` refers to exist.
pub open spec fn expr_syms_ok(pool: &Pool, i: int) -> bool
    decreases i, 1int,
{
    0 <= i < pool.exprs@.len() ==> {
        &&& expr_node_syms_ok(pool, pool.exprs@[i])
        &&& expr_kids_syms_ok(pool, i, spec_children(pool.exprs@, i).len() as int)
    }
}

/// The names and functions the expressions of the last `m` arguments of the
/// node at `i` refer to exist.
pub open spec fn expr_kids_syms_ok(pool: &Pool, i: int, m: int) -> bool
    decreases i, 0int, m,
{
    let kids = spec_children(pool.exprs@, i);
    if m <= 0 || m > kids.len() {
        true
    } else {
        let c = kids[kids.len() - m];
        &&& (0 <= c < i ==> expr_syms_ok(pool, c))
        &&& expr_kids_syms_ok(pool, i, m - 1)
    }
}

/// The names and functions a pattern node refers to exist.
pub open spec fn pattern_node_syms_ok(pool: &Pool, node: Pattern) -> bool {
    match node {
        Pattern::Number(_) => true,
        Pattern::Variable(v) => name_ok(pool, v),
        Pattern::AnyNumber(v) => name_ok(pool, v),
        Pattern::Wildcard(v) => name_ok(pool, v),
        Pattern::Call { fun, .. } => function_ok(pool, fun),
        Pattern::Struct { name, .. } => name_ok(pool, name),
        Pattern::VarCallName { var, .. } => name_ok(pool, var),
        Pattern::VarStructName { var, .. } => name_ok(pool, var),
    }
}

/// The names and functions the pattern rooted at `i` refers to exist.
pub open spec fn pattern_syms_ok(pool: &Pool, i: int) -> bool
    decreases i,
{
    0 <= i < pool.patterns@.len() ==> {
        &&& pattern_node_syms_ok(pool, pool.patterns@[i])
        &&& forall|k: int|
            0 <= k < spec_children(pool.patterns@, i).len() && 0 <= spec_children(pool.patterns@, i)[k] < i
                ==> pattern_syms_ok(pool, #[trigger] spec_children(pool.patterns@, i)[k])
    }
}

/// The names and functions an action node refers to exist.
pub open spec fn action_node_syms_ok(pool: &Pool, node: Action) -> bool {
    match node {
        Action::Number(_) => true,
        Action::Variable(v) => name_ok(pool, v),
        Action::Call { fun, .. } => function_ok(pool, fun),
        Action::Struct { name, .. } => name_ok(pool, name),
        Action::VarCallName { var, .. } => name_ok(pool, var),
        Action::VarStructName { var, .. } => name_ok(pool, var),
        Action::Compute { .. } => true,
    }
}

/// The names and functions the action rooted at `i` refers to exist.
pub open spec fn action_syms_ok(pool: &Pool, i: int) -> bool
    decreases i,
{
    0 <= i < pool.actions@.len() ==> {
        &&& action_node_syms_ok(pool, pool.actions@[i])
        &&& forall|k: int|
            0 <= k < spec_children(pool.actions@, i).len() && 0 <= spec_children(pool.actions@, i)[k] < i
                ==> action_syms_ok(pool, #[trigger] spec_children(pool.actions@, i)[k])
    }
}

/// `(a op b)`.
pub open spec fn infix_text(a: Seq<char>, op: char, b: Seq<char>) -> Seq<char> {
    seq!['('] + a + seq![' ', op, ' '] + b + seq![')']
}

/// `(op a)`.
pub open spec fn prefix_text(op: char, a: Seq<char>) -> Seq<char> {
    seq!['(', op] + a + seq![')']
}

/// A call: infix for the binary operators with two arguments, prefix for
/// negation and plus with one, else `f(a, b, ...)`.
pub open spec fn call_text(pool: &Pool, fun: FunctionId, arity: usize, args: Seq<Seq<char>>) -> Seq<char> {
    let f = function_at(pool, fun);
    if arity == 2 && args.len() == 2 && f == Some(Function::Add) {
        infix_text(args[0], '+', args[1])
    } else if arity == 2 && args.len() == 2 && f == Some(Function::Subtract) {
        infix_text(args[0], '-', args[1])
    } else if arity == 2 && args.len() == 2 && f == Some(Function::Multiply) {
        infix_text(args[0], '*', args[1])
    } else if arity == 2 && args.len() == 2 && f == Some(Function::Divide) {
        infix_text(args[0], '/', args[1])
    } else if arity == 2 && args.len() == 2 && f == Some(Function::Power) {
        infix_text(args[0], '^', args[1])
    } else if arity == 1 && args.len() == 1 && f == Some(Function::Negate) {
        prefix_text('-', args[0])
    } else if arity == 1 && args.len() == 1 && f == Some(Function::Plus) {
        prefix_text('+', args[0])
    } else {
        function_text(pool, fun) + seq!['('] + join_comma(args) + seq![')']
    }
}

/// `name{ a, b }`, or `name{ }` without fields.
pub open spec fn struct_text(name: Seq<char>, args: Seq<Seq<char>>) -> Seq<char> {
    if args.len() == 0 {
        name + seq!['{', ' ', '}']
    } else {
        name + seq!['{', ' '] + join_comma(args) + seq![' ', '}']
    }
}

/// The operator of a computation.
pub open spec fn op_text(op: ComputeOp) -> Seq<char> {
    match op {
        ComputeOp::Add => seq!['+'],
        ComputeOp::Subtract => seq!['-'],
        ComputeOp::Multiply => seq!['*'],
        ComputeOp::Divide => seq!['/'],
        ComputeOp::Power => seq!['^'],
        ComputeOp::Negate => seq!['n', 'e', 'g'],
    }
}

/// A computation in brackets: `[a + b]`, `[-a]`, or `[op(a, b, ...)]`.
pub open spec fn compute_text(op: ComputeOp, arity: usize, args: Seq<Seq<char>>) -> Seq<char> {
    let bin = arity == 2 && args.len() == 2;
    if bin && op == ComputeOp::Add {
        seq!['['] + args[0] + seq![' ', '+', ' '] + args[1] + seq![']']
    } else if bin && op == ComputeOp::Subtract {
        seq!['['] + args[0] + seq![' ', '-', ' '] + args[1] + seq![']']
    } else if bin && op == ComputeOp::Multiply {
        seq!['['] + args[0] + seq![' ', '*', ' '] + args[1] + seq![']']
    } else if bin && op == ComputeOp::Divide {
        seq!['['] + args[0] + seq![' ', '/', ' '] + args[1] + seq![']']
    } else if bin && op == ComputeOp::Power {
        seq!['['] + args[0] + seq![' ', '^', ' '] + args[1] + seq![']']
    } else if arity == 1 && args.len() == 1 && op == ComputeOp::Negate {
        seq!['[', '-'] + args[0] + seq![']']
    } else {
        seq!['['] + op_text(op) + seq!['('] + join_comma(args) + seq![')', ']']
    }
}

/// The text of one node, given the texts of its arguments in order.
pub open spec fn expr_node_text(pool: &Pool, node: ExprNode, args: Seq<Seq<char>>) -> Seq<char> {
    match node {
        ExprNode::Number(n) => int_text(n as int),
        ExprNode::Variable(v) => name_text(pool, v),
        ExprNode::Call { fun, arity, .. } => call_text(pool, fun, arity, args),
        ExprNode::Struct { name, .. } => struct_text(name_text(pool, name), args),
    }
}

/// The texts of the arguments of the expression node at `i`, in order.
pub open spec fn expr_args(pool: &Pool, i: int) -> Seq<Seq<char>>
    decreases i, 0int,
{
    let kids = spec_children(pool.exprs@, i);
    Seq::new(
        kids.len(),
        |k: int|
            {
                let c = kids[kids.len() - 1 - k];
                if 0 <= c < i {
                    expr_text(pool, c)
                } else {
                    Seq::empty()
                }
            },
    )
}

/// The text of the expression rooted at position `i`.
pub open spec fn expr_text(pool: &Pool, i: int) -> Seq<char>
    decreases i, 1int,
{
    if 0 <= i < pool.exprs@.len() {
        expr_node_text(pool, pool.exprs@[i], expr_args(pool, i))
    } else {
        Seq::empty()
    }
}

/// The text of one node, given the texts of its arguments in order.
pub open spec fn pattern_node_text(pool: &Pool, node: Pattern, args: Seq<Seq<char>>) -> Seq<char> {
    match node {
        Pattern::Number(n) => int_text(n as int),
        Pattern::Variable(v) => name_text(pool, v),
        Pattern::AnyNumber(v) => seq!['#'] + name_text(pool, v),
        Pattern::Wildcard(v) => seq!['?'] + name_text(pool, v),
        Pattern::Call { fun, arity, .. } => call_text(pool, fun, arity, args),
        Pattern::Struct { name, .. } => struct_text(name_text(pool, name), args),
        Pattern::VarCallName { var, .. } => seq!['?'] + name_text(pool, var) + seq!['('] + join_comma(args)
            + seq![')'],
        Pattern::VarStructName { var, .. } => struct_text(seq!['?'] + name_text(pool, var), args),
    }
}

/// The texts of the arguments of the pattern node at `i`, in order.
pub open spec fn pattern_args(pool: &Pool, i: int) -> Seq<Seq<char>>
    decreases i, 0int,
{
    let kids = spec_children(pool.patterns@, i);
    Seq::new(
        kids.len(),
        |k: int|
            {
                let c = kids[kids.len() - 1 - k];
                if 0 <= c < i {
                    pattern_text(pool, c)
                } else {
                    Seq::empty()
                }
            },
    )
}

/// The text of the pattern rooted at position `i`.
pub open spec fn pattern_text(pool: &Pool, i: int) -> Seq<char>
    decreases i, 1int,
{
    if 0 <= i < pool.patterns@.len() {
        pattern_node_text(pool, pool.patterns@[i], pattern_args(pool, i))
    } else {
        Seq::empty()
    }
}

/// The text of one node, given the texts of its arguments in order.
pub open spec fn action_node_text(pool: &Pool, node: Action, args: Seq<Seq<char>>) -> Seq<char> {
    match node {
        Action::Number(n) => int_text(n as int),
        Action::Variable(v) => name_text(pool, v),
        Action::Call { fun, arity, .. } => call_text(pool, fun, arity, args),
        Action::Struct { name, .. } => struct_text(name_text(pool, name), args),
        Action::VarCallName { var, .. } => seq!['?'] + name_text(pool, var) + seq!['('] + join_comma(args)
            + seq![')'],
        Action::VarStructName { var, .. } => struct_text(seq!['?'] + name_text(pool, var), args),
        Action::Compute { op, arity, .. } => compute_text(op, arity, args),
    }
}

/// The texts of the arguments of the action node at `i`, in order.
pub open spec fn action_args(pool: &Pool, i: int) -> Seq<Seq<char>>
    decreases i, 0int,
{
    let kids = spec_children(pool.actions@, i);
    Seq::new(
        kids.len(),
        |k: int|
            {
                let c = kids[kids.len() - 1 - k];
                if 0 <= c < i {
                    action_text(pool, c)
                } else {
                    Seq::empty()
                }
            },
    )
}

/// The text of the action rooted at position `i`.
pub open spec fn action_text(pool: &Pool, i: int) -> Seq<char>
    decreases i, 1int,
{
    if 0 <= i < pool.actions@.len() {
        action_node_text(pool, pool.actions@[i], action_args(pool, i))
    } else {
        Seq::empty()
    }
}

/// The text of a rule: `name: pattern => action`.
pub open spec fn rule_text(pool: &Pool, r: RuleId) -> Seq<char> {
    let rule = pool.rules@[r.0 as int];
    name_text(pool, rule.name) + seq![':', ' '] + pattern_text(pool, rule.pattern.0 as int) + seq![
        ' ',
        '=',
        '>',
        ' ',
    ] + action_text(pool, rule.action.0 as int)
}

fn push_infix(s: &mut String, a: &String, op: char, b: &String)
    ensures
        final(s)@ == old(s)@ + infix_text(a@, op, b@),
{
    push_char(s, '(');
    push_string(s, a);
    push_char(s, ' ');
    push_char(s, op);
    push_char(s, ' ');
    push_string(s, b);
    push_char(s, ')');
    assert(s@ =~= old(s)@ + infix_text(a@, op, b@));
}

fn push_prefix(s: &mut String, op: char, a: &String)
    ensures
        final(s)@ == old(s)@ + prefix_text(op, a@),
{
    push_char(s, '(');
    push_char(s, op);
    push_string(s, a);
    push_char(s, ')');
    assert(s@ =~= old(s)@ + prefix_text(op, a@));
}

fn push_struct(s: &mut String, args: &Vec<String>)
    ensures
        final(s)@ == old(s)@ + struct_text(Seq::empty(), args@.map_values(|p: String| p@)),
{
    let ghost start = s@;
    if args.len() == 0 {
        push_char(s, '{');
        push_char(s, ' ');
        push_char(s, '}');
        assert(s@ =~= start + struct_text(Seq::empty(), args@.map_values(|p: String| p@)));
    } else {
        push_char(s, '{');
        push_char(s, ' ');
        push_joined(s, args);
        push_char(s, ' ');
        push_char(s, '}');
        assert(s@ =~= start + struct_text(Seq::empty(), args@.map_values(|p: String| p@)));
    }
}

fn push_paren_args(s: &mut String, args: &Vec<String>)
    ensures
        final(s)@ == old(s)@ + seq!['('] + join_comma(args@.map_values(|p: String| p@)) + seq![')'],
{
    push_char(s, '(');
    push_joined(s, args);
    push_char(s, ')');
}

fn push_name_prefix(s: &mut String)
    ensures
        final(s)@ == old(s)@ + seq!['n', 'a', 'm', 'e', '_'],
{
    push_char(s, 'n');
    push_char(s, 'a');
    push_char(s, 'm');
    push_char(s, 'e');
    push_char(s, '_');
    assert(s@ =~= old(s)@ + seq!['n', 'a', 'm', 'e', '_']);
}

fn push_op(s: &mut String, op: ComputeOp)
    ensures
        final(s)@ == old(s)@ + op_text(op),
{
    match op {
        ComputeOp::Add => push_char(s, '+'),
        ComputeOp::Subtract => push_char(s, '-'),
        ComputeOp::Multiply => push_char(s, '*'),
        ComputeOp::Divide => push_char(s, '/'),
        ComputeOp::Power => push_char(s, '^'),
        ComputeOp::Negate => {
            push_char(s, 'n');
            push_char(s, 'e');
            push_char(s, 'g');
        },
    }
    assert(s@ =~= old(s)@ + op_text(op));
}

fn push_compute(s: &mut String, op: ComputeOp, arity: usize, args: &Vec<String>)
    ensures
        final(s)@ == old(s)@ + compute_text(op, arity, args@.map_values(|p: String| p@)),
{
    let ghost a = args@.map_values(|p: String| p@);
    let bin = arity == 2 && args.len() == 2;
    push_char(s, '[');
    if bin && op != ComputeOp::Negate {
        push_string(s, &args[0]);
        push_char(s, ' ');
        push_op(s, op);
        push_char(s, ' ');
        push_string(s, &args[1]);
    } else if arity == 1 && args.len() == 1 && op == ComputeOp::Negate {
        push_char(s, '-');
        push_string(s, &args[0]);
    } else {
        push_op(s, op);
        push_paren_args(s, args);
    }
    push_char(s, ']');
    assert(s@ =~= old(s)@ + compute_text(op, arity, a));
}

fn push_var_call(s: &mut String, var_name: &String, args: &Vec<String>)
    ensures
        final(s)@ == old(s)@ + seq!['?'] + var_name@ + seq!['('] + join_comma(
            args@.map_values(|p: String| p@),
        ) + seq![')'],
{
    push_char(s, '?');
    push_string(s, var_name);
    push_paren_args(s, args);
    assert(s@ =~= old(s)@ + seq!['?'] + var_name@ + seq!['('] + join_comma(
        args@.map_values(|p: String| p@),
    ) + seq![')']);
}

impl Pool {
    /// The interned name `name_id` refers to.
    pub fn display_name(&self, name_id: NameId) -> (r: String)
        requires
            name_ok(self, name_id),
        ensures
            r@ == self.names@[name_id.0 as int]@,
    {
        self.name_string(name_id)
    }

    /// The symbol of the function `fun_id` refers to: its operator, `neg`,
    /// or the name of a custom one.
    pub fn display_function(&self, fun_id: FunctionId) -> (r: String)
        requires
            function_ok(self, fun_id),
        ensures
            r@ == function_text(self, fun_id),
    {
        self.function_string(fun_id)
    }

    /// Whether `display_with_children` can render the expression at `id`:
    /// the arena can be walked, `id` is a node, and every name and function
    /// the expression refers to exists.
    pub fn can_display_expr(&self, id: ExprId) -> (r: bool)
        ensures
            r == (nodes_ok(self.exprs@) && id.0 < self.exprs@.len() && expr_syms_ok(self, id.0 as int)),
    {
        if !arena_walkable(&self.exprs) || id.0 >= self.exprs.len() {
            return false;
        }
        self.expr_syms_at(id.0)
    }

    fn name_in_range(&self, n: NameId) -> (r: bool)
        ensures
            r == name_ok(self, n),
    {
        n.0 < self.names.len()
    }

    fn function_in_range(&self, f: FunctionId) -> (r: bool)
        ensures
            r == function_ok(self, f),
    {
        if f.0 >= self.functions.len() {
            return false;
        }
        match &self.functions[f.0] {
            Function::Custom(n) => self.name_in_range(*n),
            _ => true,
        }
    }

    fn expr_syms_at(&self, i: usize) -> (r: bool)
        requires
            nodes_ok(self.exprs@),
            i < self.exprs@.len(),
        ensures
            r == expr_syms_ok(self, i as int),
        decreases i,
    {
        let node_fine = match self.exprs[i] {
            ExprNode::Number(_) => true,
            ExprNode::Variable(v) => self.name_in_range(v),
            ExprNode::Call { fun, .. } => self.function_in_range(fun),
            ExprNode::Struct { name, .. } => self.name_in_range(name),
        };
        if !node_fine {
            return false;
        }
        let kids = self.children(ExprId(i));
        proof {
            lemma_children_before(self.exprs@, i as int);
        }
        let ghost sk = spec_children(self.exprs@, i as int);
        let mut m = kids.len();
        while m > 0
            invariant
                nodes_ok(self.exprs@),
                i < self.exprs@.len(),
                sk == spec_children(self.exprs@, i as int),
                kids@.len() == sk.len(),
                forall|j: int| 0 <= j < kids@.len() ==> (#[trigger] kids@[j]).0 as int == sk[j],
                forall|j: int| 0 <= j < sk.len() ==> 0 <= #[trigger] sk[j] < i,
                m <= kids@.len(),
                expr_kids_syms_ok(self, i as int, sk.len() as int) == expr_kids_syms_ok(self, i as int, m as int),
            decreases m,
        {
            let c = kids[kids.len() - m];
            if !self.expr_syms_at(c.0) {
                return false;
            }
            m = m - 1;
        }
        true
    }

    /// The interned name, or `name_<id>` for an id that names nothing.
    fn name_string(&self, name_id: NameId) -> (r: String)
        ensures
            r@ == name_text(self, name_id),
    {
        if name_id.0 < self.names.len() {
            self.names[name_id.0].clone()
        } else {
            let mut s = String::new();
            push_name_prefix(&mut s);
            push_nat(&mut s, name_id.0 as u64);
            assert(s@ =~= name_text(self, name_id));
            s
        }
    }

    /// The symbol of a function: its operator, `neg`, or its name; `func_<id>`
    /// for an id that names nothing.
    fn function_string(&self, fun_id: FunctionId) -> (r: String)
        ensures
            r@ == function_text(self, fun_id),
    {
        let mut s = String::new();
        if fun_id.0 >= self.functions.len() {
            push_char(&mut s, 'f');
            push_char(&mut s, 'u');
            push_char(&mut s, 'n');
            push_char(&mut s, 'c');
            push_char(&mut s, '_');
            push_nat(&mut s, fun_id.0 as u64);
            assert(s@ =~= function_text(self, fun_id));
            return s;
        }
        match &self.functions[fun_id.0] {
            Function::Add => push_char(&mut s, '+'),
            Function::Subtract => push_char(&mut s, '-'),
            Function::Multiply => push_char(&mut s, '*'),
            Function::Divide => push_char(&mut s, '/'),
            Function::Power => push_char(&mut s, '^'),
            Function::Negate => {
                push_char(&mut s, 'n');
                push_char(&mut s, 'e');
                push_char(&mut s, 'g');
            },
            Function::Plus => push_char(&mut s, '+'),
            Function::Custom(name_id) => {
                return self.name_string(*name_id);
            },
        }
        assert(s@ =~= function_text(self, fun_id));
        s
    }

    fn push_call(&self, s: &mut String, fun: FunctionId, arity: usize, args: &Vec<String>)
        ensures
            final(s)@ == old(s)@ + call_text(self, fun, arity, args@.map_values(|p: String| p@)),
    {
        let ghost a = args@.map_values(|p: String| p@);
        let f = if fun.0 < self.functions.len() {
            Some(self.functions[fun.0])
        } else {
            None
        };
        if arity == 2 && args.len() == 2 && f == Some(Function::Add) {
            push_infix(s, &args[0], '+', &args[1]);
        } else if arity == 2 && args.len() == 2 && f == Some(Function::Subtract) {
            push_infix(s, &args[0], '-', &args[1]);
        } else if arity == 2 && args.len() == 2 && f == Some(Function::Multiply) {
            push_infix(s, &args[0], '*', &args[1]);
        } else if arity == 2 && args.len() == 2 && f == Some(Function::Divide) {
            push_infix(s, &args[0], '/', &args[1]);
        } else if arity == 2 && args.len() == 2 && f == Some(Function::Power) {
            push_infix(s, &args[0], '^', &args[1]);
        } else if arity == 1 && args.len() == 1 && f == Some(Function::Negate) {
            push_prefix(s, '-', &args[0]);
        } else if arity == 1 && args.len() == 1 && f == Some(Function::Plus) {
            push_prefix(s, '+', &args[0]);
        } else {
            let name = self.function_string(fun);
            push_string(s, &name);
            push_paren_args(s, args);
            assert(s@ =~= old(s)@ + call_text(self, fun, arity, a));
        }
    }

    fn expr_at(&self, i: usize) -> (r: String)
        requires
            nodes_ok(self.exprs@),
            i < self.exprs@.len(),
        ensures
            r@ == expr_text(self, i as int),
        decreases i,
    {
        let kids = self.children(ExprId(i));
        proof {
            lemma_children_before(self.exprs@, i as int);
        }
        let ghost sk = spec_children(self.exprs@, i as int);
        let mut args: Vec<String> = Vec::new();
        let mut k = kids.len();
        while k > 0
            invariant
                nodes_ok(self.exprs@),
                i < self.exprs@.len(),
                sk == spec_children(self.exprs@, i as int),
                kids@.len() == sk.len(),
                forall|m: int| 0 <= m < kids@.len() ==> (#[trigger] kids@[m]).0 as int == sk[m],
                forall|m: int| 0 <= m < sk.len() ==> 0 <= #[trigger] sk[m] < i,
                k <= kids@.len(),
                args@.len() == kids@.len() - k,
                forall|m: int|
                    0 <= m < args@.len() ==> (#[trigger] args@[m])@ == expr_text(self, sk[sk.len() - 1 - m]),
            decreases k,
        {
            k = k - 1;
            let c = kids[k];
            let t = self.expr_at(c.0);
            args.push(t);
        }
        let ghost a = args@.map_values(|p: String| p@);
        assert(a =~= expr_args(self, i as int));
        let node = self.exprs[i];
        let mut s = String::new();
        match node {
            ExprNode::Number(n) => {
                push_int(&mut s, n);
            },
            ExprNode::Variable(v) => {
                s = self.name_string(v);
            },
            ExprNode::Call { fun, arity, .. } => {
                self.push_call(&mut s, fun, arity, &args);
            },
            ExprNode::Struct { name, .. } => {
                s = self.name_string(name);
                push_struct(&mut s, &args);
                assert(s@ =~= struct_text(name_text(self, name), a));
            },
        }
        assert(s@ == expr_node_text(self, node, a));
        s
    }

    fn pattern_at(&self, i: usize) -> (r: String)
        requires
            nodes_ok(self.patterns@),
            i < self.patterns@.len(),
        ensures
            r@ == pattern_text(self, i as int),
        decreases i,
    {
        let kids = self.children(PatternId(i));
        proof {
            lemma_children_before(self.patterns@, i as int);
        }
        let ghost sk = spec_children(self.patterns@, i as int);
        let mut args: Vec<String> = Vec::new();
        let mut k = kids.len();
        while k > 0
            invariant
                nodes_ok(self.patterns@),
                i < self.patterns@.len(),
                sk == spec_children(self.patterns@, i as int),
                kids@.len() == sk.len(),
                forall|m: int| 0 <= m < kids@.len() ==> (#[trigger] kids@[m]).0 as int == sk[m],
                forall|m: int| 0 <= m < sk.len() ==> 0 <= #[trigger] sk[m] < i,
                k <= kids@.len(),
                args@.len() == kids@.len() - k,
                forall|m: int|
                    0 <= m < args@.len() ==> (#[trigger] args@[m])@ == pattern_text(
                        self,
                        sk[sk.len() - 1 - m],
                    ),
            decreases k,
        {
            k = k - 1;
            let c = kids[k];
            let t = self.pattern_at(c.0);
            args.push(t);
        }
        let ghost a = args@.map_values(|p: String| p@);
        assert(a =~= pattern_args(self, i as int));
        let node = self.patterns[i];
        let mut s = String::new();
        match node {
            Pattern::Number(n) => {
                push_int(&mut s, n);
            },
            Pattern::Variable(v) => {
                s = self.name_string(v);
            },
            Pattern::AnyNumber(v) => {
                push_char(&mut s, '#');
                let t = self.name_string(v);
                push_string(&mut s, &t);
            },
            Pattern::Wildcard(v) => {
                push_char(&mut s, '?');
                let t = self.name_string(v);
                push_string(&mut s, &t);
            },
            Pattern::Call { fun, arity, .. } => {
                self.push_call(&mut s, fun, arity, &args);
            },
            Pattern::Struct { name, .. } => {
                s = self.name_string(name);
                push_struct(&mut s, &args);
                assert(s@ =~= struct_text(name_text(self, name), a));
            },
            Pattern::VarCallName { var, .. } => {
                let t = self.name_string(var);
                push_var_call(&mut s, &t, &args);
            },
            Pattern::VarStructName { var, .. } => {
                push_char(&mut s, '?');
                let t = self.name_string(var);
                push_string(&mut s, &t);
                push_struct(&mut s, &args);
                assert(s@ =~= struct_text(seq!['?'] + name_text(self, var), a));
            },
        }
        assert(s@ == pattern_node_text(self, node, a));
        s
    }

    fn action_at(&self, i: usize) -> (r: String)
        requires
            nodes_ok(self.actions@),
            i < self.actions@.len(),
        ensures
            r@ == action_text(self, i as int),
        decreases i,
    {
        let kids = self.children(ActionId(i));
        proof {
            lemma_children_before(self.actions@, i as int);
        }
        let ghost sk = spec_children(self.actions@, i as int);
        let mut args: Vec<String> = Vec::new();
        let mut k = kids.len();
        while k > 0
            invariant
                nodes_ok(self.actions@),
                i < self.actions@.len(),
                sk == spec_children(self.actions@, i as int),
                kids@.len() == sk.len(),
                forall|m: int| 0 <= m < kids@.len() ==> (#[trigger] kids@[m]).0 as int == sk[m],
                forall|m: int| 0 <= m < sk.len() ==> 0 <= #[trigger] sk[m] < i,
                k <= kids@.len(),
                args@.len() == kids@.len() - k,
                forall|m: int|
                    0 <= m < args@.len() ==> (#[trigger] args@[m])@ == action_text(
                        self,
                        sk[sk.len() - 1 - m],
                    ),
            decreases k,
        {
            k = k - 1;
            let c = kids[k];
            let t = self.action_at(c.0);
            args.push(t);
        }
        let ghost a = args@.map_values(|p: String| p@);
        assert(a =~= action_args(self, i as int));
        let node = self.actions[i];
        let mut s = String::new();
        match node {
            Action::Number(n) => {
                push_int(&mut s, n);
            },
            Action::Variable(v) => {
                s = self.name_string(v);
            },
            Action::Call { fun, arity, .. } => {
                self.push_call(&mut s, fun, arity, &args);
            },
            Action::Struct { name, .. } => {
                s = self.name_string(name);
                push_struct(&mut s, &args);
                assert(s@ =~= struct_text(name_text(self, name), a));
            },
            Action::VarCallName { var, .. } => {
                let t = self.name_string(var);
                push_var_call(&mut s, &t, &args);
            },
            Action::VarStructName { var, .. } => {
                push_char(&mut s, '?');
                let t = self.name_string(var);
                push_string(&mut s, &t);
                push_struct(&mut s, &args);
                assert(s@ =~= struct_text(seq!['?'] + name_text(self, var), a));
            },
            Action::Compute { op, arity, .. } => {
                push_compute(&mut s, op, arity, &args);
            },
        }
        assert(s@ == action_node_text(self, node, a));
        s
    }
}

impl DisplayNode<ExprId> for Pool {
    open spec fn display_ok(&self, id: ExprId) -> bool {
        nodes_ok(self.exprs@) && id.0 < self.exprs@.len() && expr_syms_ok(self, id.0 as int)
    }

    open spec fn display_text(&self, id: ExprId) -> Seq<char> {
        expr_text(self, id.0 as int)
    }

    fn display_with_children(&self, node_id: ExprId) -> (r: String) {
        self.expr_at(node_id.0)
    }
}

impl DisplayNode<PatternId> for Pool {
    open spec fn display_ok(&self, id: PatternId) -> bool {
        nodes_ok(self.patterns@) && id.0 < self.patterns@.len() && pattern_syms_ok(self, id.0 as int)
    }

    open spec fn display_text(&self, id: PatternId) -> Seq<char> {
        pattern_text(self, id.0 as int)
    }

    fn display_with_children(&self, node_id: PatternId) -> (r: String) {
        self.pattern_at(node_id.0)
    }
}

impl DisplayNode<ActionId> for Pool {
    open spec fn display_ok(&self, id: ActionId) -> bool {
        nodes_ok(self.actions@) && id.0 < self.actions@.len() && action_syms_ok(self, id.0 as int)
    }

    open spec fn display_text(&self, id: ActionId) -> Seq<char> {
        action_text(self, id.0 as int)
    }

    fn display_with_children(&self, node_id: ActionId) -> (r: String) {
        self.action_at(node_id.0)
    }
}

impl DisplayNode<RuleId> for Pool {
    open spec fn display_ok(&self, id: RuleId) -> bool {
        &&& id.0 < self.rules@.len()
        &&& nodes_ok(self.patterns@)
        &&& nodes_ok(self.actions@)
        &&& self.rules@[id.0 as int].pattern.0 < self.patterns@.len()
        &&& self.rules@[id.0 as int].action.0 < self.actions@.len()
        &&& name_ok(self, self.rules@[id.0 as int].name)
        &&& pattern_syms_ok(self, self.rules@[id.0 as int].pattern.0 as int)
        &&& action_syms_ok(self, self.rules@[id.0 as int].action.0 as int)
    }

    open spec fn display_text(&self, id: RuleId) -> Seq<char> {
        rule_text(self, id)
    }

    fn display_with_children(&self, rule_id: RuleId) -> (r: String) {
        let rule = self.rules[rule_id.0];
        let mut s = self.name_string(rule.name);
        push_char(&mut s, ':');
        push_char(&mut s, ' ');
        let p = self.pattern_at(rule.pattern.0);
        push_string(&mut s, &p);
        push_char(&mut s, ' ');
        push_char(&mut s, '=');
        push_char(&mut s, '>');
        push_char(&mut s, ' ');
        let a = self.action_at(rule.action.0);
        push_string(&mut s, &a);
        assert(s@ =~= rule_text(self, rule_id));
        s
    }
}

impl DisplayNode<NameId> for Pool {
    open spec fn display_ok(&self, id: NameId) -> bool {
        name_ok(self, id)
    }

    open spec fn display_text(&self, id: NameId) -> Seq<char> {
        name_text(self, id)
    }

    fn display_with_children(&self, name_id: NameId) -> (r: String) {
        self.name_string(name_id)
    }
}

impl DisplayNode<FunctionId> for Pool {
    open spec fn display_ok(&self, id: FunctionId) -> bool {
        function_ok(self, id)
    }

    open spec fn display_text(&self, id: FunctionId) -> Seq<char> {
        function_text(self, id)
    }

    fn display_with_children(&self, fun_id: FunctionId) -> (r: String) {
        self.function_string(fun_id)
    }
}

} // verus!
