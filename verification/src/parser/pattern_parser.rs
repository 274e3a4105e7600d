use vstd::prelude::*;

use crate::parser::grammar::{recognize, whole_events};
use crate::parser::replay::parse_error_text;
use crate::parser::syntax::{Dialect, Event};
use crate::parser::text_input::chars_of;

verus! {

/// The grammar of patterns: like expressions, with `?x` matching anything, `#x` matching numbers, `?f(a, ..)` and `?s{a, ..}` matching any call or struct; every call and struct has an argument.
pub struct PatternParser;

impl PatternParser {
    /// The events of the input, or the syntax error.
    pub fn parse(input: &str) -> (r: Result<Vec<Event>, String>)
        ensures
            match r {
                Ok(v) => whole_events(Dialect::Pattern, input@) == Some(v@),
                Err(m) => whole_events(Dialect::Pattern, input@) is None && m@ == parse_error_text(),
            },
    {
        let s = chars_of(input);
        recognize(Dialect::Pattern, &s)
    }
}

} // verus!
