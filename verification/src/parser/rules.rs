use vstd::prelude::*;

use crate::ast::{Rule, Ruleset};
use crate::idx::{ActionId, NameId, PatternId, RuleId, RulesetId};
use crate::parser::actions::parse_action;
use crate::parser::grammar::parse_outcome;
use crate::parser::patterns::parse_pattern;
use crate::parser::replay::{build_of, parse_error_text, text_of, Build};
use crate::parser::ruleset_parser::{peg_ruleset, rule_in, RuleSyntax, RulesetParser};
use crate::parser::syntax::Dialect;
use crate::parser::text_input::chars_of;
use crate::pool::{interned, interned_at, names_view, Location, Pool};

verus! {

/// The state of adding a ruleset's rules: the pool's parsed parts, its rules
/// and their locations, and the error that stopped the adding, if any.
pub struct RulesetBuild {
    pub b: Build,
    pub rules: Seq<Rule>,
    pub rule_locs: Seq<Location>,
    pub err: Option<Seq<char>>,
}

/// One rule added: its pattern parsed, then its action, then its name
/// interned and the rule recorded with the span from its name to the end of
/// its action; the first error stops the adding.
#[verifier::opaque]
pub open spec fn rule_step(s: Seq<char>, st: RulesetBuild, r: RuleSyntax) -> RulesetBuild {
    if st.err is Some {
        st
    } else {
        let po = parse_outcome(
            Dialect::Pattern,
            s.subrange(r.pattern_start as int, r.pattern_end as int),
            st.b,
        );
        match po.1 {
            Err(m) => RulesetBuild { b: po.0, err: Some(m), ..st },
            Ok(pid) => {
                let ao = parse_outcome(
                    Dialect::Action,
                    s.subrange(r.action_start as int, r.action_end as int),
                    po.0,
                );
                match ao.1 {
                    Err(m) => RulesetBuild { b: ao.0, err: Some(m), ..st },
                    Ok(aid) => {
                        let t = s.subrange(r.name_start as int, r.name_end as int);
                        let rule = Rule {
                            name: NameId(interned_at(ao.0.names, t) as usize),
                            pattern: PatternId(pid),
                            action: ActionId(aid),
                        };
                        RulesetBuild {
                            b: Build { names: interned(ao.0.names, t), ..ao.0 },
                            rules: st.rules.push(rule),
                            rule_locs: st.rule_locs.push(Location { start: r.name_start, end: r.action_end }),
                            err: None,
                        }
                    },
                }
            },
        }
    }
}

/// The rules added in order.
pub open spec fn rules_fold(s: Seq<char>, st: RulesetBuild, rs: Seq<RuleSyntax>) -> RulesetBuild
    decreases rs.len(),
{
    if rs.len() == 0 {
        st
    } else {
        rule_step(s, rules_fold(s, st, rs.drop_last()), rs.last())
    }
}

pub open spec fn ruleset_state(pool: &Pool) -> RulesetBuild {
    RulesetBuild { b: build_of(pool), rules: pool.rules@, rule_locs: pool.rule_locations@, err: None }
}

/// Adds one rule written at the spans of `rule` in the text `s`.
pub fn parse_rule_pair(s: &Vec<char>, rule: &RuleSyntax, pool: &mut Pool) -> (r: Result<RuleId, String>)
    requires
        rule.pattern_start <= rule.pattern_end <= s@.len(),
        rule.action_start <= rule.action_end <= s@.len(),
        rule.name_start <= rule.name_end <= s@.len(),
    ensures
        ({
            let fin = rule_step(s@, ruleset_state(old(pool)), *rule);
            &&& build_of(final(pool)) == fin.b
            &&& final(pool).rules@ == fin.rules
            &&& final(pool).rule_locations@ == fin.rule_locs
            &&& match r {
                Ok(id) => fin.err is None && id.0 == old(pool).rules@.len(),
                Err(m) => fin.err == Some(m@),
            }
        }),
        final(pool).expr_ends@ == old(pool).expr_ends@,
        final(pool).rulesets@ == old(pool).rulesets@,
        crate::pool::same_graph(old(pool), final(pool)),
{
    reveal(rule_step);
    let pattern_text = text_of(s, rule.pattern_start, rule.pattern_end);
    let pattern_id = match parse_pattern(pattern_text.as_str(), pool) {
        Ok(id) => id,
        Err(m) => {
            return Err(m);
        },
    };
    let action_text = text_of(s, rule.action_start, rule.action_end);
    let action_id = match parse_action(action_text.as_str(), pool) {
        Ok(id) => id,
        Err(m) => {
            return Err(m);
        },
    };
    let rule_name = text_of(s, rule.name_start, rule.name_end);
    let name_id = pool.intern_string(rule_name);
    let new_rule = Rule { name: name_id, pattern: pattern_id, action: action_id };
    Ok(pool.add_rule_with_location(new_rule, Location::new(rule.name_start, rule.action_end)))
}

/// Parses a ruleset: interns its name, adds its rules in order, and records
/// the ruleset as the range of rules it added. The first error in a rule
/// stops the parsing and leaves what was added before it.
pub fn parse_ruleset(input: &str, pool: &mut Pool) -> (r: Result<RulesetId, String>)
    ensures
        match peg_ruleset(input@) {
            None => (r matches Err(m) && m@ == parse_error_text()) && *final(pool) == *old(pool),
            Some(syn) => {
                let t = input@.subrange(syn.0, syn.1);
                let st0 = RulesetBuild {
                    b: Build { names: interned(names_view(old(pool)), t), ..build_of(old(pool)) },
                    ..ruleset_state(old(pool))
                };
                let fin = rules_fold(input@, st0, syn.2);
                &&& build_of(final(pool)) == fin.b
                &&& final(pool).rules@ == fin.rules
                &&& final(pool).rule_locations@ == fin.rule_locs
                &&& fin.err is Some ==> (r matches Err(m) && fin.err == Some(m@))
                &&& fin.err is Some ==> final(pool).rulesets@ == old(pool).rulesets@
                &&& fin.err is None ==> r == Ok::<RulesetId, String>(RulesetId(old(pool).rulesets@.len() as usize))
                &&& fin.err is None ==> final(pool).rulesets@ == old(pool).rulesets@.push(
                    Ruleset {
                        name: NameId(interned_at(names_view(old(pool)), t) as usize),
                        rules_start: old(pool).rules@.len() as usize,
                        rules_end: fin.rules.len() as usize,
                    },
                )
            },
        },
        final(pool).expr_ends@ == old(pool).expr_ends@,
        crate::pool::same_graph(old(pool), final(pool)),
{
    let s = chars_of(input);
    let syn = match RulesetParser::parse_chars(&s) {
        Ok(x) => x,
        Err(m) => {
            return Err(m);
        },
    };
    let name = text_of(&s, syn.name_start, syn.name_end);
    let name_id = pool.intern_string(name);
    let rules_start = pool.get_rules_len();
    let ghost st0 = ruleset_state(pool);
    proof {
        let t = input@.subrange(syn.name_start as int, syn.name_end as int);
        assert(build_of(pool) == Build { names: interned(names_view(old(pool)), t), ..build_of(old(pool)) });
        assert(st0 == RulesetBuild {
            b: Build { names: interned(names_view(old(pool)), t), ..build_of(old(pool)) },
            ..ruleset_state(old(pool))
        });
    }
    for i in 0..syn.rules.len()
        invariant
            forall|k: int| 0 <= k < syn.rules@.len() ==> rule_in(s@, #[trigger] syn.rules@[k]),
            s@ == input@,
            peg_ruleset(input@) == Some((syn.name_start as int, syn.name_end as int, syn.rules@)),
            st0 == (RulesetBuild {
                b: Build {
                    names: interned(names_view(old(pool)), input@.subrange(syn.name_start as int, syn.name_end as int)),
                    ..build_of(old(pool))
                },
                ..ruleset_state(old(pool))
            }),
            rules_fold(s@, st0, syn.rules@.take(i as int)) == ruleset_state(pool),
            pool.expr_ends@ == old(pool).expr_ends@,
            pool.rulesets@ == old(pool).rulesets@,
            crate::pool::same_graph(old(pool), pool),
    {
        proof {
            assert(syn.rules@.take(i + 1).drop_last() =~= syn.rules@.take(i as int));
            assert(syn.rules@.take(i + 1).last() == syn.rules@[i as int]);
        }
        let ghost before = ruleset_state(pool);
        match parse_rule_pair(&s, &syn.rules[i], pool) {
            Ok(_) => {},
            Err(m) => {
                proof {
                    let fin = rule_step(s@, before, syn.rules@[i as int]);
                    assert(rules_fold(s@, st0, syn.rules@.take(i + 1)) == fin);
                    assert(fin.err is Some);
                    lemma_fold_stuck(s@, st0, syn.rules@, i + 1);
                }
                return Err(m);
            },
        }
    }
    assert(syn.rules@.take(syn.rules@.len() as int) =~= syn.rules@);
    let rules_end = pool.get_rules_len();
    let ruleset = Ruleset { name: name_id, rules_start, rules_end };
    Ok(pool.add_ruleset(ruleset))
}

/// Once a rule fails, the rules after it add nothing.
pub proof fn lemma_fold_stuck(s: Seq<char>, st: RulesetBuild, rs: Seq<RuleSyntax>, k: int)
    requires
        0 <= k <= rs.len(),
        rules_fold(s, st, rs.take(k)).err is Some,
    ensures
        rules_fold(s, st, rs) == rules_fold(s, st, rs.take(k)),
    decreases rs.len() - k,
{
    reveal(rule_step);
    if k < rs.len() {
        assert(rs.take(k + 1).last() == rs[k]);
        assert(rs.take(k + 1).drop_last() =~= rs.take(k));
        lemma_fold_stuck(s, st, rs, k + 1);
    } else {
        assert(rs.take(k) =~= rs);
    }
}

} // verus!
