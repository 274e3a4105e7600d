use vstd::prelude::*;

use crate::parser::grammar::{recognize, whole_events};
use crate::parser::replay::parse_error_text;
use crate::parser::syntax::{Dialect, Event};
use crate::parser::text_input::chars_of;

verus! {

/// The grammar of computations: sums of products of powers of signed numbers, variables and parenthesized sums; a leading part of the input that is one is enough.
pub struct ComputeParser;

impl ComputeParser {
    /// The events of the input, or the syntax error.
    pub fn parse(input: &str) -> (r: Result<Vec<Event>, String>)
        ensures
            match r {
                Ok(v) => whole_events(Dialect::Compute, input@) == Some(v@),
                Err(m) => whole_events(Dialect::Compute, input@) is None && m@ == parse_error_text(),
            },
    {
        let s = chars_of(input);
        recognize(Dialect::Compute, &s)
    }
}

} // verus!
