use vstd::prelude::*;

verus! {

/// The four arithmetic languages: expressions, patterns (with `?x`, `#x`,
/// `?f(..)`, `?s{..}`), actions (with `[..]` computations and bound names), and
/// the computations inside brackets.
#[derive(Debug, Clone, Copy, PartialEq, Eq, Structural)]
pub enum Dialect {
    Expr,
    Pattern,
    Action,
    Compute,
}

/// What a variable-like token stands for.
#[derive(Debug, Clone, Copy, PartialEq, Eq, Structural)]
pub enum NameKind {
    Variable,
    Wildcard,
    AnyNumber,
}

/// The kind of a node with a head and arguments.
#[derive(Debug, Clone, Copy, PartialEq, Eq, Structural)]
pub enum Head {
    Call,
    Struct,
    VarCall,
    VarStruct,
}

/// An arithmetic operator.
#[derive(Debug, Clone, Copy, PartialEq, Eq, Structural)]
pub enum Op {
    Add,
    Sub,
    Mul,
    Div,
    Pow,
}

/// The operator a character writes.
pub open spec fn op_of(c: char) -> Op {
    if c == '+' {
        Op::Add
    } else if c == '-' {
        Op::Sub
    } else if c == '*' {
        Op::Mul
    } else if c == '/' {
        Op::Div
    } else {
        Op::Pow
    }
}

/// One step of building what was parsed, in the order the nodes are made.
/// Spans are character positions in the input: `[start, end)`.
#[derive(Debug, Clone, Copy, PartialEq, Eq, Structural)]
pub enum Event {
    /// A number, its digits at the span.
    Number(usize, usize),
    /// A variable, wildcard or number wildcard, its name at the span.
    Name(NameKind, usize, usize),
    /// The head of a call or struct, its name at the span; the arguments follow.
    Open(Head, usize, usize),
    /// The end of a call or struct with this many arguments, spanning the span.
    Close(Head, usize, usize, usize),
    /// A binary operator joining the two nodes before it, in a chain spanning the span.
    Binary(Op, usize, usize),
    /// A prefix operator applied to the node before it, in a value spanning the span.
    Unary(Op, usize, usize),
    /// A bracketed computation begins; its spans are located from this position.
    ComputeOpen(usize),
    /// The bracketed computation ends.
    ComputeClose,
}

pub open spec fn is_ws(c: char) -> bool {
    c == ' ' || c == '\t' || c == '\n' || c == '\r'
}

pub open spec fn is_digit(c: char) -> bool {
    '0' <= c <= '9'
}

pub open spec fn is_alpha(c: char) -> bool {
    ('a' <= c <= 'z') || ('A' <= c <= 'Z')
}

pub open spec fn is_ident_start(c: char) -> bool {
    is_alpha(c) || c == '_'
}

pub open spec fn is_ident_char(c: char) -> bool {
    is_alpha(c) || is_digit(c) || c == '_'
}

/// The first position from `i` on that holds no whitespace.
pub open spec fn skip_ws(s: Seq<char>, i: int) -> int
    decreases s.len() - i,
{
    if 0 <= i < s.len() && is_ws(s[i]) {
        skip_ws(s, i + 1)
    } else {
        i
    }
}

pub proof fn lemma_skip_ws(s: Seq<char>, i: int)
    ensures
        skip_ws(s, i) >= i,
        i <= s.len() ==> skip_ws(s, i) <= s.len(),
        0 <= i ==> (skip_ws(s, i) == s.len() || (0 <= skip_ws(s, i) < s.len() && !is_ws(s[skip_ws(s, i)]))
            || skip_ws(s, i) > s.len()),
    decreases s.len() - i,
{
    if 0 <= i < s.len() && is_ws(s[i]) {
        lemma_skip_ws(s, i + 1);
    }
}

/// The end of the run of characters satisfying `digits ? is_digit : is_ident_char` from `i`.
pub open spec fn scan(s: Seq<char>, i: int, digits: bool) -> int
    decreases s.len() - i,
{
    if 0 <= i < s.len() && (if digits {
        is_digit(s[i])
    } else {
        is_ident_char(s[i])
    }) {
        scan(s, i + 1, digits)
    } else {
        i
    }
}

/// The end of an identifier starting at `i`, or -1.
pub open spec fn ident_end(s: Seq<char>, i: int) -> int {
    if 0 <= i < s.len() && is_ident_start(s[i]) {
        scan(s, i + 1, false)
    } else {
        -1
    }
}

/// The end of a number starting at `i`, or -1.
pub open spec fn number_end(s: Seq<char>, i: int) -> int {
    if 0 <= i < s.len() && is_digit(s[i]) {
        scan(s, i + 1, true)
    } else {
        -1
    }
}

/// The character at `i`, if there is one, is `c`.
pub open spec fn at(s: Seq<char>, i: int, c: char) -> bool {
    0 <= i < s.len() && s[i] == c
}

/// The operators of a chain level: 3 sums, 2 products, 1 powers.
pub open spec fn is_chain_op(lvl: nat, c: char) -> bool {
    if lvl == 3 {
        c == '+' || c == '-'
    } else if lvl == 2 {
        c == '*' || c == '/'
    } else {
        c == '^'
    }
}

/// The events of a chain after its first operand: each operand followed by
/// its operator, all spanning the whole chain.
pub open spec fn assemble(pairs: Seq<(Op, Seq<Event>)>, start: int, end: int) -> Seq<Event>
    decreases pairs.len(),
{
    if pairs.len() == 0 {
        Seq::empty()
    } else {
        assemble(pairs.drop_last(), start, end) + pairs.last().1 + seq![
            Event::Binary(pairs.last().0, start as usize, end as usize),
        ]
    }
}

/// The events of prefix operators, innermost (last written) first.
pub open spec fn unary_events(ops: Seq<char>, start: int, end: int) -> Seq<Event> {
    Seq::new(ops.len(), |k: int| Event::Unary(op_of(ops[ops.len() - 1 - k]), start as usize, end as usize))
}

/// The prefix operators from `i` on, with whitespace between, and where the
/// operand starts.
pub open spec fn value_ops(s: Seq<char>, i: int) -> (int, Seq<char>)
    decreases s.len() - i,
{
    if 0 <= i < s.len() && (s[i] == '+' || s[i] == '-') {
        proof {
            lemma_skip_ws(s, i + 1);
        }
        let r = value_ops(s, skip_ws(s, i + 1));
        (r.0, seq![s[i]] + r.1)
    } else {
        (i, Seq::empty())
    }
}

/// A chain of operands of level `lvl` (3 sums, 2 products, 1 powers) joined
/// left to right by its operators, starting at `i`: where it ends and its events.
pub open spec fn peg_chain(d: Dialect, lvl: nat, s: Seq<char>, i: int) -> Option<(int, Seq<Event>)>
    decreases s.len() - i, lvl, 2int,
{
    if i < 0 || i > s.len() || lvl == 0 {
        None
    } else {
        match peg_operand(d, lvl, s, i) {
            None => None,
            Some(first) => if i <= first.0 <= s.len() {
                let tail = chain_tail(d, lvl, s, first.0);
                Some((tail.0, first.1 + assemble(tail.1, i, tail.0)))
            } else {
                None
            },
        }
    }
}

/// The operators and operands that follow a chain's operand ending at `j`.
pub open spec fn chain_tail(d: Dialect, lvl: nat, s: Seq<char>, j: int) -> (int, Seq<(Op, Seq<Event>)>)
    decreases s.len() - j, lvl, 1int,
{
    let k = skip_ws(s, j);
    if 0 <= j <= k < s.len() && is_chain_op(lvl, s[k]) && lvl > 0 {
        let m = skip_ws(s, k + 1);
        proof {
            lemma_skip_ws(s, k + 1);
        }
        match peg_operand(d, lvl, s, m) {
            Some(next) => if j < next.0 <= s.len() && k < m <= s.len() {
                let rest = chain_tail(d, lvl, s, next.0);
                (rest.0, seq![(op_of(s[k]), next.1)] + rest.1)
            } else {
                (j, Seq::empty())
            },
            None => (j, Seq::empty()),
        }
    } else {
        (j, Seq::empty())
    }
}

/// An operand of a chain of level `lvl`: a chain one level down, or a value.
pub open spec fn peg_operand(d: Dialect, lvl: nat, s: Seq<char>, i: int) -> Option<(int, Seq<Event>)>
    decreases s.len() - i, lvl, 0int,
{
    if i < 0 || i > s.len() || lvl == 0 {
        None
    } else if lvl == 1 {
        peg_value(d, s, i)
    } else {
        peg_chain(d, (lvl - 1) as nat, s, i)
    }
}

/// Prefix operators and an atom.
pub open spec fn peg_value(d: Dialect, s: Seq<char>, i: int) -> Option<(int, Seq<Event>)>
    decreases s.len() - i, 0nat, 3int,
{
    if i < 0 || i > s.len() {
        None
    } else {
        let ops = value_ops(s, i);
        let k = skip_ws(s, ops.0);
        if i <= k <= s.len() {
            match peg_atom(d, s, k) {
                Some(a) => Some((a.0, a.1 + unary_events(ops.1, i, a.0))),
                None => None,
            }
        } else {
            None
        }
    }
}

/// Arguments between the delimiters, the opening one just before `j`:
/// sums separated by commas, at least one unless `allow_empty`; where the
/// closing delimiter ends, the events, and how many there were.
pub open spec fn peg_args(d: Dialect, s: Seq<char>, j: int, close: char, allow_empty: bool) -> Option<
    (int, Seq<Event>, nat),
>
    decreases s.len() - j, 4nat, 1int,
{
    let k = skip_ws(s, j);
    if j < 0 || j > s.len() || k < j || k > s.len() {
        None
    } else if allow_empty && at(s, k, close) {
        Some((k + 1, Seq::empty(), 0))
    } else {
        proof {
            lemma_skip_ws(s, j);
        }
        match peg_chain(d, 3, s, k) {
            Some(first) => if j < first.0 <= s.len() {
                peg_more_args(d, s, first.0, close, first.1, 1)
            } else {
                None
            },
            None => None,
        }
    }
}

/// After an argument ending at `j`: more comma-separated arguments, then the
/// closing delimiter.
pub open spec fn peg_more_args(
    d: Dialect,
    s: Seq<char>,
    j: int,
    close: char,
    acc: Seq<Event>,
    n: nat,
) -> Option<(int, Seq<Event>, nat)>
    decreases s.len() - j, 4nat, 0int,
{
    let m = skip_ws(s, j);
    if j < 0 || j > s.len() || m < j {
        None
    } else if at(s, m, ',') {
        let k = skip_ws(s, m + 1);
        proof {
            lemma_skip_ws(s, m + 1);
        }
        match peg_chain(d, 3, s, k) {
            Some(next) => if j < next.0 <= s.len() && m < k <= s.len() {
                peg_more_args(d, s, next.0, close, acc + next.1, n + 1)
            } else {
                None
            },
            None => None,
        }
    } else if at(s, m, close) {
        Some((m + 1, acc, n))
    } else {
        None
    }
}

/// A head `name` spanning `[ns, ne)`, then its arguments in delimiters; the
/// whole spans from `start`.
pub open spec fn peg_headed(
    d: Dialect,
    s: Seq<char>,
    start: int,
    ns: int,
    ne: int,
    head: Head,
    open: char,
    close: char,
    allow_empty: bool,
) -> Option<(int, Seq<Event>)>
    decreases s.len() - start, 0nat, 1int,
{
    let j = skip_ws(s, ne);
    if 0 <= start <= ns < ne <= j < s.len() && s[j] == open {
        match peg_args(d, s, j + 1, close, allow_empty) {
            Some(args) => Some(
                (
                    args.0,
                    seq![Event::Open(head, ns as usize, ne as usize)] + args.1 + seq![
                        Event::Close(head, args.2 as usize, start as usize, args.0 as usize),
                    ],
                ),
            ),
            None => None,
        }
    } else {
        None
    }
}

/// A parenthesized sum.
pub open spec fn peg_paren(d: Dialect, s: Seq<char>, i: int) -> Option<(int, Seq<Event>)>
    decreases s.len() - i, 0nat, 1int,
{
    if at(s, i, '(') && skip_ws(s, i + 1) <= s.len() {
        proof {
            lemma_skip_ws(s, i + 1);
        }
        match peg_chain(d, 3, s, skip_ws(s, i + 1)) {
            Some(inner) => {
                let m = skip_ws(s, inner.0);
                if i < inner.0 <= m && at(s, m, ')') {
                    Some((m + 1, inner.1))
                } else {
                    None
                }
            },
            None => None,
        }
    } else {
        None
    }
}

/// A bracketed computation.
pub open spec fn peg_compute(s: Seq<char>, i: int) -> Option<(int, Seq<Event>)>
    decreases s.len() - i, 0nat, 1int,
{
    if at(s, i, '[') && skip_ws(s, i + 1) <= s.len() {
        let k = skip_ws(s, i + 1);
        proof {
            lemma_skip_ws(s, i + 1);
        }
        match peg_chain(Dialect::Compute, 3, s, k) {
            Some(inner) => {
                let m = skip_ws(s, inner.0);
                if i < k <= inner.0 <= m && at(s, m, ']') {
                    Some((m + 1, seq![Event::ComputeOpen(k as usize)] + inner.1 + seq![Event::ComputeClose]))
                } else {
                    None
                }
            },
            None => None,
        }
    } else {
        None
    }
}

/// A number token.
pub open spec fn peg_number(s: Seq<char>, i: int) -> Option<(int, Seq<Event>)> {
    let e = number_end(s, i);
    if e > i {
        Some((e, seq![Event::Number(i as usize, e as usize)]))
    } else {
        None
    }
}

/// A name marked by `mark` (`?` or `#`) at `i`, its identifier right after.
pub open spec fn marked_end(s: Seq<char>, i: int, mark: char) -> int {
    if at(s, i, mark) {
        ident_end(s, i + 1)
    } else {
        -1
    }
}

/// An atom, the alternatives tried in order: for expressions a number, a
/// call, a struct, a variable or a parenthesized sum; patterns add `#x` before
/// the calls, and `?f(..)`, `?s{..}` and `?x` before them, and need an argument
/// in every call; actions begin with a bracketed computation and add `?f(..)`
/// and `?s{..}`; computations have numbers, variables and parentheses.
pub open spec fn peg_atom(d: Dialect, s: Seq<char>, i: int) -> Option<(int, Seq<Event>)>
    decreases s.len() - i, 0nat, 2int,
{
    if i < 0 || i > s.len() {
        None
    } else {
        let e = ident_end(s, i);
        let q = marked_end(s, i, '?');
        let h = marked_end(s, i, '#');
        let args_needed = d == Dialect::Pattern;
        let call = if e > i {
            peg_headed(d, s, i, i, e, Head::Call, '(', ')', !args_needed)
        } else {
            None
        };
        let strct = if e > i {
            peg_headed(d, s, i, i, e, Head::Struct, '{', '}', !args_needed)
        } else {
            None
        };
        let var_call = if q > i + 1 {
            peg_headed(d, s, i, i + 1, q, Head::VarCall, '(', ')', !args_needed)
        } else {
            None
        };
        let var_struct = if q > i + 1 {
            peg_headed(d, s, i, i + 1, q, Head::VarStruct, '{', '}', !args_needed)
        } else {
            None
        };
        let variable = if e > i {
            Some((e, seq![Event::Name(NameKind::Variable, i as usize, e as usize)]))
        } else {
            None
        };
        let wildcard = if q > i + 1 {
            Some((q, seq![Event::Name(NameKind::Wildcard, (i + 1) as usize, q as usize)]))
        } else {
            None
        };
        let any_number = if h > i + 1 {
            Some((h, seq![Event::Name(NameKind::AnyNumber, (i + 1) as usize, h as usize)]))
        } else {
            None
        };
        let number = peg_number(s, i);
        let paren = peg_paren(d, s, i);
        match d {
            Dialect::Expr => if number is Some {
                number
            } else if call is Some {
                call
            } else if strct is Some {
                strct
            } else if variable is Some {
                variable
            } else {
                paren
            },
            Dialect::Pattern => if number is Some {
                number
            } else if any_number is Some {
                any_number
            } else if var_call is Some {
                var_call
            } else if var_struct is Some {
                var_struct
            } else if wildcard is Some {
                wildcard
            } else if call is Some {
                call
            } else if strct is Some {
                strct
            } else if variable is Some {
                variable
            } else {
                paren
            },
            Dialect::Action => {
                let compute = peg_compute(s, i);
                if compute is Some {
                    compute
                } else if number is Some {
                    number
                } else if var_call is Some {
                    var_call
                } else if var_struct is Some {
                    var_struct
                } else if call is Some {
                    call
                } else if strct is Some {
                    strct
                } else if variable is Some {
                    variable
                } else {
                    paren
                }
            },
            Dialect::Compute => if number is Some {
                number
            } else if variable is Some {
                variable
            } else {
                paren
            },
        }
    }
}

/// A whole input in a language: optional whitespace, a sum, optional
/// whitespace, and nothing more.
pub open spec fn peg_whole(d: Dialect, s: Seq<char>) -> Option<Seq<Event>> {
    match peg_chain(d, 3, s, skip_ws(s, 0)) {
        Some(r) => if skip_ws(s, r.0) == s.len() {
            Some(r.1)
        } else {
            None
        },
        None => None,
    }
}

} // verus!

verus! {

/// A parse result as positions and event lists.
pub open spec fn res_view(r: Option<(usize, Vec<Event>)>) -> Option<(int, Seq<Event>)> {
    match r {
        Some(x) => Some((x.0 as int, x.1@)),
        None => None,
    }
}

fn is_ws_exec(c: char) -> (r: bool)
    ensures
        r == is_ws(c),
{
    c == ' ' || c == '\t' || c == '\n' || c == '\r'
}

fn is_digit_exec(c: char) -> (r: bool)
    ensures
        r == is_digit(c),
{
    '0' <= c && c <= '9'
}

fn is_ident_start_exec(c: char) -> (r: bool)
    ensures
        r == is_ident_start(c),
{
    ('a' <= c && c <= 'z') || ('A' <= c && c <= 'Z') || c == '_'
}

fn is_ident_char_exec(c: char) -> (r: bool)
    ensures
        r == is_ident_char(c),
{
    ('a' <= c && c <= 'z') || ('A' <= c && c <= 'Z') || ('0' <= c && c <= '9') || c == '_'
}

/// The first position from `i` on that holds no whitespace.
pub fn skip_ws_exec(s: &Vec<char>, i: usize) -> (r: usize)
    requires
        i <= s@.len(),
    ensures
        r as int == skip_ws(s@, i as int),
        i <= r <= s@.len(),
{
    proof {
        lemma_skip_ws(s@, i as int);
    }
    let mut j = i;
    while j < s.len() && is_ws_exec(s[j])
        invariant
            i <= j <= s@.len(),
            skip_ws(s@, i as int) == skip_ws(s@, j as int),
        decreases s@.len() - j,
    {
        j = j + 1;
    }
    j
}

fn run_char(c: char, digits: bool) -> (r: bool)
    ensures
        r == (if digits {
            is_digit(c)
        } else {
            is_ident_char(c)
        }),
{
    if digits {
        is_digit_exec(c)
    } else {
        is_ident_char_exec(c)
    }
}

fn scan_exec(s: &Vec<char>, i: usize, digits: bool) -> (r: usize)
    requires
        i <= s@.len(),
    ensures
        r as int == scan(s@, i as int, digits),
        i <= r <= s@.len(),
{
    let mut j = i;
    while j < s.len() && run_char(s[j], digits)
        invariant
            i <= j <= s@.len(),
            scan(s@, i as int, digits) == scan(s@, j as int, digits),
        decreases s@.len() - j,
    {
        j = j + 1;
    }
    j
}

/// The end of an identifier starting at `i`.
pub fn ident_end_exec(s: &Vec<char>, i: usize) -> (r: Option<usize>)
    requires
        i <= s@.len(),
    ensures
        match r {
            Some(e) => e as int == ident_end(s@, i as int) && i < e <= s@.len(),
            None => ident_end(s@, i as int) == -1,
        },
{
    if i < s.len() && is_ident_start_exec(s[i]) {
        Some(scan_exec(s, i + 1, false))
    } else {
        None
    }
}

fn marked_end_exec(s: &Vec<char>, i: usize, mark: char) -> (r: Option<usize>)
    requires
        i <= s@.len(),
    ensures
        match r {
            Some(e) => e as int == marked_end(s@, i as int, mark) && i + 1 < e <= s@.len(),
            None => marked_end(s@, i as int, mark) == -1,
        },
{
    if i < s.len() && s[i] == mark {
        ident_end_exec(s, i + 1)
    } else {
        None
    }
}

fn at_exec(s: &Vec<char>, i: usize, c: char) -> (r: bool)
    ensures
        r == at(s@, i as int, c),
        r ==> (i as int) < s@.len(),
        s@.len() <= usize::MAX,
{
    i < s.len() && s[i] == c
}

fn is_chain_op_exec(lvl: u8, c: char) -> (r: bool)
    ensures
        r == is_chain_op(lvl as nat, c),
{
    if lvl == 3 {
        c == '+' || c == '-'
    } else if lvl == 2 {
        c == '*' || c == '/'
    } else {
        c == '^'
    }
}

fn value_ops_exec(s: &Vec<char>, i: usize) -> (r: (usize, Vec<char>))
    requires
        i <= s@.len(),
    ensures
        (r.0 as int, r.1@) == value_ops(s@, i as int),
        i <= r.0 <= s@.len(),
{
    let mut ops: Vec<char> = Vec::new();
    let mut j = i;
    while j < s.len() && (s[j] == '+' || s[j] == '-')
        invariant
            i <= j <= s@.len(),
            value_ops(s@, i as int) == (value_ops(s@, j as int).0, ops@ + value_ops(s@, j as int).1),
        decreases s@.len() - j,
    {
        ops.push(s[j]);
        let k = skip_ws_exec(s, j + 1);
        proof {
            let r = value_ops(s@, k as int);
            assert(value_ops(s@, j as int) == (r.0, seq![s@[j as int]] + r.1));
            assert(ops@ + r.1 =~= ops@.drop_last() + (seq![s@[j as int]] + r.1));
        }
        j = k;
    }
    proof {
        assert(ops@ + Seq::<char>::empty() =~= ops@);
    }
    (j, ops)
}

fn op_exec(c: char) -> (r: Op)
    ensures
        r == op_of(c),
{
    if c == '+' {
        Op::Add
    } else if c == '-' {
        Op::Sub
    } else if c == '*' {
        Op::Mul
    } else if c == '/' {
        Op::Div
    } else {
        Op::Pow
    }
}

fn unary_events_exec(ops: &Vec<char>, start: usize, end: usize, out: &mut Vec<Event>)
    ensures
        final(out)@ == old(out)@ + unary_events(ops@, start as int, end as int),
{
    let ghost base = out@;
    let ghost all = unary_events(ops@, start as int, end as int);
    let n = ops.len();
    let mut k: usize = 0;
    while k < n
        invariant
            n == ops@.len(),
            k <= n,
            all == unary_events(ops@, start as int, end as int),
            out@ == base + all.take(k as int),
        decreases n - k,
    {
        out.push(Event::Unary(op_exec(ops[n - 1 - k]), start, end));
        assert(all.take(k + 1) =~= all.take(k as int).push(all[k as int]));
        k = k + 1;
    }
    assert(all.take(n as int) =~= all);
}

fn append_events(out: &mut Vec<Event>, more: &Vec<Event>)
    ensures
        final(out)@ == old(out)@ + more@,
{
    for i in 0..more.len()
        invariant
            out@ == old(out)@ + more@.take(i as int),
    {
        out.push(more[i]);
        assert(more@.take(i + 1) =~= more@.take(i as int).push(more@[i as int]));
        assert(out@ =~= old(out)@ + more@.take(i + 1));
    }
    assert(more@.take(more@.len() as int) =~= more@);
}

} // verus!

verus! {

fn join_events(a: Vec<Event>, b: &Vec<Event>) -> (r: Vec<Event>)
    ensures
        r@ == a@ + b@,
{
    let mut a = a;
    append_events(&mut a, b);
    a
}

/// A chain of operands of level `lvl` from `i`.
pub fn chain_exec(d: Dialect, lvl: u8, s: &Vec<char>, i: usize) -> (r: Option<(usize, Vec<Event>)>)
    requires
        i <= s@.len(),
        1 <= lvl <= 3,
    ensures
        res_view(r) == peg_chain(d, lvl as nat, s@, i as int),
        r matches Some(x) ==> i <= x.0 <= s@.len(),
    decreases s@.len() - i, lvl as nat, 2int,
{
    match operand_exec(d, lvl, s, i) {
        None => None,
        Some(first) => {
            let (e1, ev1) = first;
            let (end, ops, operands) = tail_exec(d, lvl, s, e1);
            let ghost pairs = chain_tail(d, lvl as nat, s@, e1 as int).1;
            let mut events = ev1;
            let n = ops.len();
            let ghost base = events@;
            for k in 0..n
                invariant
                    n == ops@.len(),
                    n == operands@.len(),
                    n == pairs.len(),
                    forall|m: int| 0 <= m < n ==> (#[trigger] pairs[m]).0 == ops@[m] && pairs[m].1 == operands@[m]@,
                    events@ == base + assemble(pairs.take(k as int), i as int, end as int),
            {
                let ghost before = events@;
                append_events(&mut events, &operands[k]);
                events.push(Event::Binary(ops[k], i, end));
                proof {
                    let t = pairs.take(k + 1);
                    assert(t.drop_last() =~= pairs.take(k as int));
                    assert(t.last() == pairs[k as int]);
                    assert(events@ =~= base + assemble(t, i as int, end as int));
                }
            }
            proof {
                assert(pairs.take(n as int) =~= pairs);
            }
            Some((end, events))
        },
    }
}

/// The operators and operands that follow a chain's operand ending at `j`:
/// where the chain ends, its operators, and their operands' events.
fn tail_exec(d: Dialect, lvl: u8, s: &Vec<char>, j: usize) -> (r: (usize, Vec<Op>, Vec<Vec<Event>>))
    requires
        j <= s@.len(),
        1 <= lvl <= 3,
    ensures
        r.0 as int == chain_tail(d, lvl as nat, s@, j as int).0,
        j <= r.0 <= s@.len(),
        r.1@.len() == chain_tail(d, lvl as nat, s@, j as int).1.len(),
        r.2@.len() == r.1@.len(),
        forall|m: int|
            0 <= m < r.1@.len() ==> (#[trigger] chain_tail(d, lvl as nat, s@, j as int).1[m]).0 == r.1@[m]
                && chain_tail(d, lvl as nat, s@, j as int).1[m].1 == r.2@[m]@,
    decreases s@.len() - j, lvl as nat, 1int,
{
    let k = skip_ws_exec(s, j);
    if k < s.len() && is_chain_op_exec(lvl, s[k]) {
        let m = skip_ws_exec(s, k + 1);
        match operand_exec(d, lvl, s, m) {
            Some(next) => {
                let (e2, ev2) = next;
                if j < e2 && e2 <= s.len() && k < m && m <= s.len() {
                    let (end, rest_ops, rest_evs) = tail_exec(d, lvl, s, e2);
                    let mut ops: Vec<Op> = Vec::new();
                    ops.push(op_exec(s[k]));
                    let mut evs: Vec<Vec<Event>> = Vec::new();
                    evs.push(ev2);
                    let ghost rest = chain_tail(d, lvl as nat, s@, e2 as int).1;
                    let ghost whole = chain_tail(d, lvl as nat, s@, j as int).1;
                    assert(whole == seq![(op_of(s@[k as int]), ev2@)] + rest);
                    for t in 0..rest_ops.len()
                        invariant
                            rest_ops@.len() == rest.len(),
                            rest_evs@.len() == rest.len(),
                            forall|q: int|
                                0 <= q < rest_ops@.len() ==> (#[trigger] rest[q]).0 == rest_ops@[q] && rest[q].1
                                    == rest_evs@[q]@,
                            ops@.len() == t + 1,
                            evs@.len() == t + 1,
                            whole == seq![(op_of(s@[k as int]), ev2@)] + rest,
                            forall|q: int| 0 <= q < t + 1 ==> (#[trigger] whole[q]).0 == ops@[q] && whole[q].1 == evs@[q]@,
                    {
                        ops.push(rest_ops[t]);
                        evs.push(rest_evs[t].clone());
                        assert(whole[t + 1] == rest[t as int]);
                    }
                    return (end, ops, evs);
                }
                (j, Vec::new(), Vec::new())
            },
            None => (j, Vec::new(), Vec::new()),
        }
    } else {
        (j, Vec::new(), Vec::new())
    }
}

/// An operand of a chain of level `lvl`.
fn operand_exec(d: Dialect, lvl: u8, s: &Vec<char>, i: usize) -> (r: Option<(usize, Vec<Event>)>)
    requires
        i <= s@.len(),
        1 <= lvl <= 3,
    ensures
        res_view(r) == peg_operand(d, lvl as nat, s@, i as int),
        r matches Some(x) ==> i <= x.0 <= s@.len(),
    decreases s@.len() - i, lvl as nat, 0int,
{
    if lvl == 1 {
        value_exec(d, s, i)
    } else {
        chain_exec(d, lvl - 1, s, i)
    }
}

/// Prefix operators and an atom.
fn value_exec(d: Dialect, s: &Vec<char>, i: usize) -> (r: Option<(usize, Vec<Event>)>)
    requires
        i <= s@.len(),
    ensures
        res_view(r) == peg_value(d, s@, i as int),
        r matches Some(x) ==> i <= x.0 <= s@.len(),
    decreases s@.len() - i, 0nat, 3int,
{
    let (k0, ops) = value_ops_exec(s, i);
    let k = skip_ws_exec(s, k0);
    match atom_exec(d, s, k) {
        Some(a) => {
            let (end, evs) = a;
            let mut evs = evs;
            unary_events_exec(&ops, i, end, &mut evs);
            Some((end, evs))
        },
        None => None,
    }
}

} // verus!

verus! {

/// A parse result with a count, as positions, event lists and counts.
pub open spec fn args_view(r: Option<(usize, Vec<Event>, usize)>) -> Option<(int, Seq<Event>, nat)> {
    match r {
        Some(x) => Some((x.0 as int, x.1@, x.2 as nat)),
        None => None,
    }
}

fn args_exec(d: Dialect, s: &Vec<char>, j: usize, close: char, allow_empty: bool) -> (r: Option<
    (usize, Vec<Event>, usize),
>)
    requires
        j <= s@.len(),
    ensures
        args_view(r) == peg_args(d, s@, j as int, close, allow_empty),
        r matches Some(x) ==> j <= x.0 <= s@.len() && x.2 <= s@.len(),
    decreases s@.len() - j, 4nat, 1int,
{
    let k = skip_ws_exec(s, j);
    if allow_empty && at_exec(s, k, close) {
        return Some((k + 1, Vec::new(), 0));
    }
    match chain_exec(d, 3, s, k) {
        Some(first) => {
            let (e1, ev1) = first;
            if j < e1 && e1 <= s.len() {
                more_args_exec(d, s, e1, close, ev1, 1)
            } else {
                None
            }
        },
        None => None,
    }
}

fn more_args_exec(d: Dialect, s: &Vec<char>, j: usize, close: char, acc: Vec<Event>, n: usize) -> (r: Option<
    (usize, Vec<Event>, usize),
>)
    requires
        1 <= j <= s@.len(),
        n <= j,
    ensures
        args_view(r) == peg_more_args(d, s@, j as int, close, acc@, n as nat),
        r matches Some(x) ==> j <= x.0 <= s@.len() && x.2 <= s@.len(),
    decreases s@.len() - j, 4nat, 0int,
{
    let m = skip_ws_exec(s, j);
    if at_exec(s, m, ',') {
        let k = skip_ws_exec(s, m + 1);
        match chain_exec(d, 3, s, k) {
            Some(next) => {
                let (e2, ev2) = next;
                if j < e2 && e2 <= s.len() && m < k && k <= s.len() {
                    let acc2 = join_events(acc, &ev2);
                    more_args_exec(d, s, e2, close, acc2, n + 1)
                } else {
                    None
                }
            },
            None => None,
        }
    } else if at_exec(s, m, close) {
        Some((m + 1, acc, n))
    } else {
        None
    }
}

fn headed_exec(
    d: Dialect,
    s: &Vec<char>,
    start: usize,
    ns: usize,
    ne: usize,
    head: Head,
    open: char,
    close: char,
    allow_empty: bool,
) -> (r: Option<(usize, Vec<Event>)>)
    requires
        start <= ns < ne <= s@.len(),
    ensures
        res_view(r) == peg_headed(d, s@, start as int, ns as int, ne as int, head, open, close, allow_empty),
        r matches Some(x) ==> start <= x.0 <= s@.len(),
    decreases s@.len() - start, 0nat, 1int,
{
    let j = skip_ws_exec(s, ne);
    if j < s.len() && s[j] == open {
        match args_exec(d, s, j + 1, close, allow_empty) {
            Some(args) => {
                let (end, evs, n) = args;
                let mut out: Vec<Event> = Vec::new();
                out.push(Event::Open(head, ns, ne));
                append_events(&mut out, &evs);
                out.push(Event::Close(head, n, start, end));
                Some((end, out))
            },
            None => None,
        }
    } else {
        None
    }
}

fn paren_exec(d: Dialect, s: &Vec<char>, i: usize) -> (r: Option<(usize, Vec<Event>)>)
    requires
        i <= s@.len(),
    ensures
        res_view(r) == peg_paren(d, s@, i as int),
        r matches Some(x) ==> i <= x.0 <= s@.len(),
    decreases s@.len() - i, 0nat, 1int,
{
    if at_exec(s, i, '(') {
        let k = skip_ws_exec(s, i + 1);
        match chain_exec(d, 3, s, k) {
            Some(inner) => {
                let (e, evs) = inner;
                let m = skip_ws_exec(s, e);
                if i < e && at_exec(s, m, ')') {
                    Some((m + 1, evs))
                } else {
                    None
                }
            },
            None => None,
        }
    } else {
        None
    }
}

fn compute_exec(s: &Vec<char>, i: usize) -> (r: Option<(usize, Vec<Event>)>)
    requires
        i <= s@.len(),
    ensures
        res_view(r) == peg_compute(s@, i as int),
        r matches Some(x) ==> i <= x.0 <= s@.len(),
    decreases s@.len() - i, 0nat, 1int,
{
    if at_exec(s, i, '[') {
        let k = skip_ws_exec(s, i + 1);
        match chain_exec(Dialect::Compute, 3, s, k) {
            Some(inner) => {
                let (e, evs) = inner;
                let m = skip_ws_exec(s, e);
                if at_exec(s, m, ']') {
                    let mut out: Vec<Event> = Vec::new();
                    out.push(Event::ComputeOpen(k));
                    append_events(&mut out, &evs);
                    out.push(Event::ComputeClose);
                    Some((m + 1, out))
                } else {
                    None
                }
            },
            None => None,
        }
    } else {
        None
    }
}

fn number_exec(s: &Vec<char>, i: usize) -> (r: Option<(usize, Vec<Event>)>)
    requires
        i <= s@.len(),
    ensures
        res_view(r) == peg_number(s@, i as int),
        r matches Some(x) ==> i <= x.0 <= s@.len(),
{
    if i < s.len() && is_digit_exec(s[i]) {
        let e = scan_exec(s, i + 1, true);
        let mut out: Vec<Event> = Vec::new();
        out.push(Event::Number(i, e));
        Some((e, out))
    } else {
        None
    }
}

fn name_event(kind: NameKind, ns: usize, ne: usize, end: usize) -> (r: Option<(usize, Vec<Event>)>)
    ensures
        res_view(r) == Some((end as int, seq![Event::Name(kind, ns, ne)])),
{
    let mut out: Vec<Event> = Vec::new();
    out.push(Event::Name(kind, ns, ne));
    Some((end, out))
}

/// An atom of the language `d` at `i`, its alternatives tried in order.
fn atom_exec(d: Dialect, s: &Vec<char>, i: usize) -> (r: Option<(usize, Vec<Event>)>)
    requires
        i <= s@.len(),
    ensures
        res_view(r) == peg_atom(d, s@, i as int),
        r matches Some(x) ==> i <= x.0 <= s@.len(),
    decreases s@.len() - i, 0nat, 2int,
{
    let args_needed = d == Dialect::Pattern;
    let e = ident_end_exec(s, i);
    let q = marked_end_exec(s, i, '?');
    let h = marked_end_exec(s, i, '#');
    if d == Dialect::Action {
        let c = compute_exec(s, i);
        if c.is_some() {
            return c;
        }
    }
    let number = number_exec(s, i);
    if number.is_some() {
        return number;
    }
    if d == Dialect::Pattern {
        if let Some(he) = h {
            return name_event(NameKind::AnyNumber, i + 1, he, he);
        }
    }
    if d == Dialect::Pattern || d == Dialect::Action {
        if let Some(qe) = q {
            let vc = headed_exec(d, s, i, i + 1, qe, Head::VarCall, '(', ')', !args_needed);
            if vc.is_some() {
                return vc;
            }
            let vs = headed_exec(d, s, i, i + 1, qe, Head::VarStruct, '{', '}', !args_needed);
            if vs.is_some() {
                return vs;
            }
            if d == Dialect::Pattern {
                return name_event(NameKind::Wildcard, i + 1, qe, qe);
            }
        }
    }
    if let Some(ee) = e {
        if d != Dialect::Compute {
            let call = headed_exec(d, s, i, i, ee, Head::Call, '(', ')', !args_needed);
            if call.is_some() {
                return call;
            }
            let strct = headed_exec(d, s, i, i, ee, Head::Struct, '{', '}', !args_needed);
            if strct.is_some() {
                return strct;
            }
        }
        return name_event(NameKind::Variable, i, ee, ee);
    }
    paren_exec(d, s, i)
}

/// A whole input in the language `d`, or `None` when it is not one.
pub fn whole_exec(d: Dialect, s: &Vec<char>) -> (r: Option<Vec<Event>>)
    ensures
        match r {
            Some(v) => peg_whole(d, s@) == Some(v@),
            None => peg_whole(d, s@) is None,
        },
{
    let k = skip_ws_exec(s, 0);
    match chain_exec(d, 3, s, k) {
        Some(res) => {
            let (e, evs) = res;
            if skip_ws_exec(s, e) == s.len() {
                Some(evs)
            } else {
                None
            }
        },
        None => None,
    }
}

} // verus!
