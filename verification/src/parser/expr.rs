use vstd::prelude::*;

use crate::children::nodes_ok;
use crate::idx::ExprId;
use crate::parser::grammar::{parse_into, parse_outcome};
use crate::parser::replay::{build_of, same_outside_build};
use crate::parser::syntax::Dialect;
use crate::pool::Pool;

verus! {

/// Parses an expression into the pool and records it as a whole expression.
pub fn parse_expression(input: &str, pool: &mut Pool) -> (r: Result<ExprId, String>)
    ensures
        build_of(final(pool)) == parse_outcome(Dialect::Expr, input@, build_of(old(pool))).0,
        match r {
            Ok(id) => {
                &&& parse_outcome(Dialect::Expr, input@, build_of(old(pool))).1 == Ok::<usize, Seq<char>>(id.0)
                &&& id.0 < final(pool).exprs@.len()
                &&& final(pool).expr_ends@ == old(pool).expr_ends@.insert(id.0)
            },
            Err(m) => {
                &&& parse_outcome(Dialect::Expr, input@, build_of(old(pool))).1 == Err::<usize, Seq<char>>(m@)
                &&& final(pool).expr_ends@ == old(pool).expr_ends@
            },
        },
        final(pool).rules@ == old(pool).rules@,
        final(pool).rulesets@ == old(pool).rulesets@,
        final(pool).rule_locations@ == old(pool).rule_locations@,
        crate::pool::same_graph(old(pool), final(pool)),
        nodes_ok(old(pool).exprs@) ==> nodes_ok(final(pool).exprs@),
{
    match parse_into(Dialect::Expr, input, pool) {
        Ok(id) => {
            let expr_id = ExprId(id);
            pool.mark_expr_end(expr_id);
            Ok(expr_id)
        },
        Err(m) => Err(m),
    }
}

} // verus!
