use vstd::prelude::*;

use crate::parser::replay::{parse_error_message, parse_error_text};
use crate::parser::syntax::{at, ident_end, ident_end_exec, lemma_skip_ws, skip_ws, skip_ws_exec};
use crate::parser::text_input::chars_of;

verus! {

/// Where the parts of one rule stand in the text: `name : pattern => action`.
#[derive(Debug, Clone, Copy, PartialEq, Eq, Structural)]
pub struct RuleSyntax {
    pub name_start: usize,
    pub name_end: usize,
    pub pattern_start: usize,
    pub pattern_end: usize,
    pub action_start: usize,
    pub action_end: usize,
}

/// Where the parts of a ruleset stand: its name, and its rules.
pub struct RulesetSyntax {
    pub name_start: usize,
    pub name_end: usize,
    pub rules: Vec<RuleSyntax>,
}

/// The spans of a rule lie within the text.
pub open spec fn rule_in(s: Seq<char>, r: RuleSyntax) -> bool {
    &&& r.pattern_start <= r.pattern_end <= s.len()
    &&& r.action_start <= r.action_end <= s.len()
    &&& r.name_start <= r.name_end <= s.len()
}

/// The first position from `k` on where `=>` begins, or -1.
pub open spec fn find_arrow(s: Seq<char>, k: int) -> int
    decreases s.len() - k,
{
    if k < 0 || k + 1 >= s.len() {
        -1
    } else if s[k] == '=' && s[k + 1] == '>' {
        k
    } else {
        find_arrow(s, k + 1)
    }
}

/// The first position from `k` on that ends a line, or the end.
pub open spec fn line_end(s: Seq<char>, k: int) -> int
    decreases s.len() - k,
{
    if 0 <= k < s.len() && s[k] != '\n' && s[k] != '\r' {
        line_end(s, k + 1)
    } else {
        k
    }
}

/// A rule at `i`: a name, `:`, the text up to the first `=>` (at least a
/// character), `=>`, and the rest of the line (at least a character).
pub open spec fn peg_rule(s: Seq<char>, i: int) -> Option<(int, RuleSyntax)> {
    let e = ident_end(s, i);
    let c = skip_ws(s, e);
    let p = skip_ws(s, c + 1);
    let q = find_arrow(s, p);
    let a = skip_ws(s, q + 2);
    let b = line_end(s, a);
    if 0 <= i < e && at(s, c, ':') && p < q && a < b {
        Some(
            (
                b,
                RuleSyntax {
                    name_start: i as usize,
                    name_end: e as usize,
                    pattern_start: p as usize,
                    pattern_end: q as usize,
                    action_start: a as usize,
                    action_end: b as usize,
                },
            ),
        )
    } else {
        None
    }
}

/// The rules from `j` on, each after optional whitespace, as many as there are.
pub open spec fn peg_rules(s: Seq<char>, j: int) -> (int, Seq<RuleSyntax>)
    decreases s.len() - j,
{
    let k = skip_ws(s, j);
    match peg_rule(s, k) {
        Some(r) => if j < r.0 <= s.len() {
            let rest = peg_rules(s, r.0);
            (rest.0, seq![r.1] + rest.1)
        } else {
            (j, Seq::empty())
        },
        None => (j, Seq::empty()),
    }
}

/// A whole ruleset: `name { rule* }` with whitespace around its parts; where
/// its name stands and its rules.
pub open spec fn peg_ruleset(s: Seq<char>) -> Option<(int, int, Seq<RuleSyntax>)> {
    let k = skip_ws(s, 0);
    let e = ident_end(s, k);
    let j = skip_ws(s, e);
    let rules = peg_rules(s, j + 1);
    let m = skip_ws(s, rules.0);
    if k < e && at(s, j, '{') && at(s, m, '}') && skip_ws(s, m + 1) == s.len() {
        Some((k, e, rules.1))
    } else {
        None
    }
}

fn find_arrow_exec(s: &Vec<char>, k: usize) -> (r: Option<usize>)
    requires
        k <= s@.len(),
    ensures
        match r {
            Some(q) => q as int == find_arrow(s@, k as int) && k <= q && q + 1 < s@.len(),
            None => find_arrow(s@, k as int) == -1,
        },
{
    let mut i = k;
    while i < s.len() && i + 1 < s.len()
        invariant
            k <= i <= s@.len(),
            find_arrow(s@, k as int) == find_arrow(s@, i as int),
        decreases s@.len() - i,
    {
        if s[i] == '=' && s[i + 1] == '>' {
            return Some(i);
        }
        i = i + 1;
    }
    None
}

fn line_end_exec(s: &Vec<char>, k: usize) -> (r: usize)
    requires
        k <= s@.len(),
    ensures
        r as int == line_end(s@, k as int),
        k <= r <= s@.len(),
{
    let mut i = k;
    while i < s.len() && s[i] != '\n' && s[i] != '\r'
        invariant
            k <= i <= s@.len(),
            line_end(s@, k as int) == line_end(s@, i as int),
        decreases s@.len() - i,
    {
        i = i + 1;
    }
    i
}

fn rule_exec(s: &Vec<char>, i: usize) -> (r: Option<(usize, RuleSyntax)>)
    requires
        i <= s@.len(),
    ensures
        match r {
            Some(x) => peg_rule(s@, i as int) == Some((x.0 as int, x.1)) && i < x.0 <= s@.len() && rule_in(s@, x.1),
            None => peg_rule(s@, i as int) is None,
        },
{
    let e = match ident_end_exec(s, i) {
        Some(e) => e,
        None => {
            return None;
        },
    };
    let c = skip_ws_exec(s, e);
    if !(c < s.len() && s[c] == ':') {
        return None;
    }
    let p = skip_ws_exec(s, c + 1);
    let q = match find_arrow_exec(s, p) {
        Some(q) => q,
        None => {
            proof {
                lemma_skip_ws(s@, -1);
            }
            return None;
        },
    };
    if !(p < q) {
        return None;
    }
    let a = skip_ws_exec(s, q + 2);
    let b = line_end_exec(s, a);
    if !(a < b) {
        return None;
    }
    Some(
        (
            b,
            RuleSyntax {
                name_start: i,
                name_end: e,
                pattern_start: p,
                pattern_end: q,
                action_start: a,
                action_end: b,
            },
        ),
    )
}

fn rules_exec(s: &Vec<char>, j: usize) -> (r: (usize, Vec<RuleSyntax>))
    requires
        j <= s@.len(),
    ensures
        r.0 as int == peg_rules(s@, j as int).0,
        r.1@ == peg_rules(s@, j as int).1,
        j <= r.0 <= s@.len(),
        forall|k: int| 0 <= k < r.1@.len() ==> rule_in(s@, #[trigger] r.1@[k]),
    decreases s@.len() - j,
{
    let k = skip_ws_exec(s, j);
    match rule_exec(s, k) {
        Some(x) => {
            let (e, rule) = x;
            if j < e {
                let (end, rest) = rules_exec(s, e);
                let mut out: Vec<RuleSyntax> = Vec::new();
                out.push(rule);
                let mut rest = rest;
                out.append(&mut rest);
                (end, out)
            } else {
                (j, Vec::new())
            }
        },
        None => (j, Vec::new()),
    }
}

/// The grammar of rulesets: a name, then rules between braces, one per line:
/// `name : pattern => action`.
pub struct RulesetParser;

impl RulesetParser {
    /// Where the parts of a whole ruleset stand, or the syntax error.
    pub fn parse(input: &str) -> (r: Result<RulesetSyntax, String>)
        ensures
            match r {
                Ok(x) => peg_ruleset(input@) == Some((x.name_start as int, x.name_end as int, x.rules@)),
                Err(m) => peg_ruleset(input@) is None && m@ == parse_error_text(),
            },
    {
        let s = chars_of(input);
        Self::parse_chars(&s)
    }

    /// Where the parts of a whole ruleset written as characters stand.
    pub fn parse_chars(s: &Vec<char>) -> (r: Result<RulesetSyntax, String>)
        ensures
            match r {
                Ok(x) => peg_ruleset(s@) == Some((x.name_start as int, x.name_end as int, x.rules@))
                    && x.name_start <= x.name_end <= s@.len() && forall|k: int|
                    0 <= k < x.rules@.len() ==> rule_in(s@, #[trigger] x.rules@[k]),
                Err(m) => peg_ruleset(s@) is None && m@ == parse_error_text(),
            },
    {
        let k = skip_ws_exec(s, 0);
        let e = match ident_end_exec(s, k) {
            Some(e) => e,
            None => {
                return Err(parse_error_message());
            },
        };
        let j = skip_ws_exec(s, e);
        if !(j < s.len() && s[j] == '{') {
            return Err(parse_error_message());
        }
        let (rend, rules) = rules_exec(s, j + 1);
        let m = skip_ws_exec(s, rend);
        if !(m < s.len() && s[m] == '}') {
            return Err(parse_error_message());
        }
        if skip_ws_exec(s, m + 1) != s.len() {
            return Err(parse_error_message());
        }
        Ok(RulesetSyntax { name_start: k, name_end: e, rules })
    }
}

} // verus!

