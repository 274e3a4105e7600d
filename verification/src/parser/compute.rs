use vstd::prelude::*;

use crate::children::nodes_ok;
use crate::idx::ActionId;
use crate::parser::grammar::{parse_into, parse_outcome};
use crate::parser::replay::{build_of, same_outside_build};
use crate::parser::syntax::Dialect;
use crate::pool::Pool;

verus! {

/// Parses the computation at the start of the input into the pool's actions.
pub fn parse_compute_expr(input: &str, pool: &mut Pool) -> (r: Result<ActionId, String>)
    ensures
        build_of(final(pool)) == parse_outcome(Dialect::Compute, input@, build_of(old(pool))).0,
        match r {
            Ok(id) => parse_outcome(Dialect::Compute, input@, build_of(old(pool))).1 == Ok::<usize, Seq<char>>(id.0)
                && id.0 < final(pool).actions@.len(),
            Err(m) => parse_outcome(Dialect::Compute, input@, build_of(old(pool))).1 == Err::<usize, Seq<char>>(m@),
        },
        same_outside_build(old(pool), final(pool)),
        nodes_ok(old(pool).actions@) ==> nodes_ok(final(pool).actions@),
{
    match parse_into(Dialect::Compute, input, pool) {
        Ok(id) => Ok(ActionId(id)),
        Err(m) => Err(m),
    }
}

} // verus!
