use vstd::prelude::*;

use crate::children::nodes_ok;
use crate::idx::PatternId;
use crate::parser::grammar::{parse_into, parse_outcome};
use crate::parser::replay::{build_of, same_outside_build};
use crate::parser::syntax::Dialect;
use crate::pool::Pool;

verus! {

/// Parses a rule's pattern into the pool.
pub fn parse_pattern(input: &str, pool: &mut Pool) -> (r: Result<PatternId, String>)
    ensures
        build_of(final(pool)) == parse_outcome(Dialect::Pattern, input@, build_of(old(pool))).0,
        match r {
            Ok(id) => parse_outcome(Dialect::Pattern, input@, build_of(old(pool))).1 == Ok::<usize, Seq<char>>(id.0)
                && id.0 < final(pool).patterns@.len(),
            Err(m) => parse_outcome(Dialect::Pattern, input@, build_of(old(pool))).1 == Err::<usize, Seq<char>>(m@),
        },
        same_outside_build(old(pool), final(pool)),
        nodes_ok(old(pool).patterns@) ==> nodes_ok(final(pool).patterns@),
{
    match parse_into(Dialect::Pattern, input, pool) {
        Ok(id) => Ok(PatternId(id)),
        Err(m) => Err(m),
    }
}

} // verus!
