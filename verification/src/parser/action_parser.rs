use vstd::prelude::*;

use crate::parser::grammar::{recognize, whole_events};
use crate::parser::replay::parse_error_text;
use crate::parser::syntax::{Dialect, Event};
use crate::parser::text_input::chars_of;

verus! {

/// The grammar of actions: like expressions, with `?f(a, ..)` and `?s{a, ..}` naming a bound function or struct, and a bracketed computation `[a + b]` as an atom.
pub struct ActionParser;

impl ActionParser {
    /// The events of the input, or the syntax error.
    pub fn parse(input: &str) -> (r: Result<Vec<Event>, String>)
        ensures
            match r {
                Ok(v) => whole_events(Dialect::Action, input@) == Some(v@),
                Err(m) => whole_events(Dialect::Action, input@) is None && m@ == parse_error_text(),
            },
    {
        let s = chars_of(input);
        recognize(Dialect::Action, &s)
    }
}

} // verus!
