use vstd::prelude::*;

verus! {

broadcast use vstd::string::group_string_axioms;

/// The characters of a text.
pub fn chars_of(input: &str) -> (r: Vec<char>)
    ensures
        r@ == input@,
{
    let mut v: Vec<char> = Vec::new();
    for c in it: input.chars()
        invariant
            it.seq() == input@,
            v@ == it.seq().take(it.index() as int),
            it.index() == it.seq().len() ==> v@ == input@,
    {
        v.push(c);
        assert(it.seq().take(it.index() + 1) =~= it.seq().take(it.index() as int).push(c));
        assert(it.index() + 1 == it.seq().len() ==> it.seq().take(it.index() + 1) =~= it.seq());
    }
    v
}

} // verus!
