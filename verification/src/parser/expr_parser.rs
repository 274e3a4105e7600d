use vstd::prelude::*;

use crate::parser::grammar::{recognize, whole_events};
use crate::parser::replay::parse_error_text;
use crate::parser::syntax::{Dialect, Event};
use crate::parser::text_input::chars_of;

verus! {

/// The grammar of expressions: sums of products of powers of signed atoms;
/// an atom is a number, a call `f(a, ..)`, a struct `s{a, ..}`, a variable,
/// or a parenthesized sum.
pub struct ExprParser;

impl ExprParser {
    /// The events of a whole expression, or the syntax error.
    pub fn parse(input: &str) -> (r: Result<Vec<Event>, String>)
        ensures
            match r {
                Ok(v) => whole_events(Dialect::Expr, input@) == Some(v@),
                Err(m) => whole_events(Dialect::Expr, input@) is None && m@ == parse_error_text(),
            },
    {
        let s = chars_of(input);
        recognize(Dialect::Expr, &s)
    }
}

} // verus!
