use vstd::prelude::*;

verus! {

/// Appends one character.
///
/// Trusted: calls `String::push`, which per the standard library's
/// documentation appends the given char to the end of the string.
#[verifier::external_body]
pub(crate) fn push_char(s: &mut String, c: char)
    ensures
        final(s)@ == old(s)@.push(c),
{
    s.push(c)
}

/// Appends the characters of another string.
pub fn push_string(s: &mut String, t: &String)
    ensures
        final(s)@ == old(s)@ + t@,
{
    s.append(t.as_str());
}

/// The decimal digit `d`.
pub open spec fn digit_char(d: int) -> char {
    if d == 0 {
        '0'
    } else if d == 1 {
        '1'
    } else if d == 2 {
        '2'
    } else if d == 3 {
        '3'
    } else if d == 4 {
        '4'
    } else if d == 5 {
        '5'
    } else if d == 6 {
        '6'
    } else if d == 7 {
        '7'
    } else if d == 8 {
        '8'
    } else {
        '9'
    }
}

/// The decimal text of a natural number, without leading zeros.
pub open spec fn nat_text(n: nat) -> Seq<char>
    decreases n,
{
    if n < 10 {
        seq![digit_char(n as int)]
    } else {
        nat_text(n / 10).push(digit_char((n % 10) as int))
    }
}

/// The decimal text of an integer, with a leading `-` when negative.
pub open spec fn int_text(n: int) -> Seq<char> {
    if n < 0 {
        seq!['-'] + nat_text((-n) as nat)
    } else {
        nat_text(n as nat)
    }
}

fn digit(d: u64) -> (c: char)
    requires
        d < 10,
    ensures
        c == digit_char(d as int),
{
    match d {
        0 => '0',
        1 => '1',
        2 => '2',
        3 => '3',
        4 => '4',
        5 => '5',
        6 => '6',
        7 => '7',
        8 => '8',
        _ => '9',
    }
}

/// Appends the decimal text of `n`.
pub fn push_nat(s: &mut String, n: u64)
    ensures
        final(s)@ == old(s)@ + nat_text(n as nat),
    decreases n,
{
    if n >= 10 {
        push_nat(s, n / 10);
    }
    push_char(s, digit(n % 10));
    assert(n >= 10 ==> nat_text(n as nat) == nat_text((n / 10) as nat).push(digit_char((n % 10) as int)));
}

/// Appends the decimal text of `n`, signed.
pub fn push_int(s: &mut String, n: i32)
    ensures
        final(s)@ == old(s)@ + int_text(n as int),
{
    if n < 0 {
        push_char(s, '-');
        let m: i64 = n as i64;
        let a: u64 = (-m) as u64;
        push_nat(s, a);
    } else {
        push_nat(s, n as u64);
    }
}

/// The decimal text of an unsigned number, as a new string.
pub fn usize_to_string(n: usize) -> (r: String)
    ensures
        r@ == nat_text(n as nat),
{
    let mut s = String::new();
    push_nat(&mut s, n as u64);
    s
}

/// The texts joined with `", "` between neighbours.
pub open spec fn join_comma(parts: Seq<Seq<char>>) -> Seq<char>
    decreases parts.len(),
{
    if parts.len() == 0 {
        Seq::empty()
    } else if parts.len() == 1 {
        parts[0]
    } else {
        join_comma(parts.drop_last()) + seq![',', ' '] + parts.last()
    }
}

/// Appends the texts joined with `", "` between neighbours.
pub fn push_joined(s: &mut String, parts: &Vec<String>)
    ensures
        final(s)@ == old(s)@ + join_comma(parts@.map_values(|p: String| p@)),
{
    let ghost start = s@;
    let ghost all = parts@.map_values(|p: String| p@);
    for i in 0..parts.len()
        invariant
            all == parts@.map_values(|p: String| p@),
            s@ == start + join_comma(all.take(i as int)),
    {
        if i > 0 {
            push_char(s, ',');
            push_char(s, ' ');
        }
        push_string(s, &parts[i]);
        proof {
            assert(all.take(i + 1).drop_last() =~= all.take(i as int));
            assert(all.take(i + 1).last() == parts@[i as int]@);
            if i == 0 {
                assert(all.take(1) =~= seq![parts@[0]@]);
                assert(join_comma(all.take(0)) =~= Seq::<char>::empty());
            }
        }
        assert(s@ =~= start + join_comma(all.take(i + 1)));
    }
    assert(all.take(parts@.len() as int) =~= all);
}

} // verus!
