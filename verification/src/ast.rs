use vstd::prelude::*;

use crate::idx::{ActionId, FunctionId, NameId, PatternId};
use crate::text::{nat_text, push_char, push_string, usize_to_string};

verus! {

/// A node of an expression tree, stored in postfix order in the pool.
/// A compound node's children precede it; `last` is the distance back to
/// the start of its children and `arity` their number.
#[derive(Debug, Copy, Clone, PartialEq, Eq, Hash, Structural)]
pub enum ExprNode {
    Number(i32),
    Variable(NameId),
    Call { fun: FunctionId, last: usize, arity: usize },
    Struct { name: NameId, last: usize, arity: usize },
}

/// A function symbol.
#[derive(Debug, Clone, Copy, PartialEq, Eq, Hash, Structural)]
pub enum Function {
    Add,
    Subtract,
    Multiply,
    Divide,
    Power,
    Negate,
    Plus,
    Custom(NameId),
}

/// The symbol of a function: its operator, `neg`, or `custom_<name id>`.
pub open spec fn symbol_text(f: Function) -> Seq<char> {
    match f {
        Function::Add => seq!['+'],
        Function::Subtract => seq!['-'],
        Function::Multiply => seq!['*'],
        Function::Divide => seq!['/'],
        Function::Power => seq!['^'],
        Function::Negate => seq!['n', 'e', 'g'],
        Function::Plus => seq!['+'],
        Function::Custom(n) => seq!['c', 'u', 's', 't', 'o', 'm', '_'] + nat_text(n.0 as nat),
    }
}

impl Function {
    /// The symbol of the function, as `symbol_text` gives it.
    pub fn to_text(&self) -> (r: String)
        ensures
            r@ == symbol_text(*self),
    {
        let mut s = String::new();
        match self {
            Function::Add | Function::Plus => push_char(&mut s, '+'),
            Function::Subtract => push_char(&mut s, '-'),
            Function::Multiply => push_char(&mut s, '*'),
            Function::Divide => push_char(&mut s, '/'),
            Function::Power => push_char(&mut s, '^'),
            Function::Negate => {
                push_char(&mut s, 'n');
                push_char(&mut s, 'e');
                push_char(&mut s, 'g');
            },
            Function::Custom(n) => {
                push_char(&mut s, 'c');
                push_char(&mut s, 'u');
                push_char(&mut s, 's');
                push_char(&mut s, 't');
                push_char(&mut s, 'o');
                push_char(&mut s, 'm');
                push_char(&mut s, '_');
                let t = usize_to_string(n.0);
                push_string(&mut s, &t);
            },
        }
        assert(s@ =~= symbol_text(*self));
        s
    }
}

/// A node of a rule's left-hand side.
#[derive(Debug, Clone, Copy, PartialEq, Eq, Hash, Structural)]
pub enum Pattern {
    Number(i32),
    Variable(NameId),
    AnyNumber(NameId),
    Wildcard(NameId),
    Call { fun: FunctionId, last: usize, arity: usize },
    Struct { name: NameId, last: usize, arity: usize },
    VarCallName { var: NameId, last: usize, arity: usize },
    VarStructName { var: NameId, last: usize, arity: usize },
}

/// A node of a rule's right-hand side.
#[derive(Debug, Clone, Copy, PartialEq, Eq, Hash, Structural)]
pub enum Action {
    Number(i32),
    Variable(NameId),
    Call { fun: FunctionId, last: usize, arity: usize },
    Struct { name: NameId, last: usize, arity: usize },
    VarCallName { var: NameId, last: usize, arity: usize },
    VarStructName { var: NameId, last: usize, arity: usize },
    Compute { op: ComputeOp, last: usize, arity: usize },
}

/// An arithmetic operation evaluated while a rule is applied.
#[derive(Debug, Clone, Copy, PartialEq, Eq, Hash, Structural)]
pub enum ComputeOp {
    Add,
    Subtract,
    Multiply,
    Divide,
    Power,
    Negate,
}

/// A named rewrite rule: a pattern and the action that replaces what it matches.
#[derive(Debug, Clone, Copy, PartialEq, Eq, Hash, Structural)]
pub struct Rule {
    pub name: NameId,
    pub pattern: PatternId,
    pub action: ActionId,
}

/// A named, contiguous range of rules.
#[derive(Debug, Clone, Copy, PartialEq, Eq, Hash, Structural)]
pub struct Ruleset {
    pub name: NameId,
    pub rules_start: usize,
    pub rules_end: usize,
}

} // verus!
