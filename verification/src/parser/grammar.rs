use vstd::prelude::*;

use crate::parser::replay::{
    arena_len, arena_nodes_ok, build_events, build_of, built_error, built_root, parse_error_message, parse_error_text,
    replay, same_outside_build, start_from, Build,
};
use crate::pool::Pool;
use crate::parser::syntax::{chain_exec, peg_chain, peg_whole, whole_exec, Dialect, Event};
use crate::parser::text_input::chars_of;

verus! {

/// The events of a whole input in a language, or the syntax error.
pub open spec fn whole_events(d: Dialect, s: Seq<char>) -> Option<Seq<Event>> {
    if d == Dialect::Compute {
        match peg_chain(Dialect::Compute, 3, s, 0) {
            Some(r) => Some(r.1),
            None => None,
        }
    } else {
        peg_whole(d, s)
    }
}

/// Recognizes an input of the language `d` (a computation needs only a
/// leading part of the input to be one) and gives its events.
pub fn recognize(d: Dialect, s: &Vec<char>) -> (r: Result<Vec<Event>, String>)
    ensures
        match r {
            Ok(v) => whole_events(d, s@) == Some(v@),
            Err(m) => whole_events(d, s@) is None && m@ == parse_error_text(),
        },
{
    let found = if d == Dialect::Compute {
        match chain_exec(Dialect::Compute, 3, s, 0) {
            Some(x) => Some(x.1),
            None => None,
        }
    } else {
        whole_exec(d, s)
    };
    match found {
        Some(v) => Ok(v),
        None => Err(parse_error_message()),
    }
}

} // verus!

verus! {

/// What parsing an input of the language `d` makes of the pool: the pool
/// afterwards, and the id of the root or the error. A syntax error changes
/// nothing; an error while building (a number too large) keeps what was built
/// before it.
pub open spec fn parse_outcome(d: Dialect, s: Seq<char>, b: Build) -> (Build, Result<usize, Seq<char>>) {
    match whole_events(d, s) {
        None => (b, Err(parse_error_text())),
        Some(evs) => {
            let fin = replay(d, s, start_from(b), evs);
            (
                fin.b,
                match built_root(fin) {
                    Some(id) => Ok(id),
                    None => Err(built_error(fin)),
                },
            )
        },
    }
}

/// Parses an input of the language `d` into the pool.
pub fn parse_into(d: Dialect, input: &str, pool: &mut Pool) -> (r: Result<usize, String>)
    ensures
        build_of(final(pool)) == parse_outcome(d, input@, build_of(old(pool))).0,
        match r {
            Ok(id) => parse_outcome(d, input@, build_of(old(pool))).1 == Ok::<usize, Seq<char>>(id)
                && (id as int) < arena_len(d, build_of(final(pool))),
            Err(m) => parse_outcome(d, input@, build_of(old(pool))).1 == Err::<usize, Seq<char>>(m@),
        },
        same_outside_build(old(pool), final(pool)),
        arena_nodes_ok(d, old(pool)) ==> arena_nodes_ok(d, final(pool)),
{
    let s = chars_of(input);
    match recognize(d, &s) {
        Err(m) => Err(m),
        Ok(evs) => build_events(d, &s, &evs, pool),
    }
}

} // verus!
