use vstd::prelude::*;

use crate::parser::text_input::chars_of;

verus! {

/// The edit distance between the first `i` characters of `a` and the first
/// `j` characters of `b`: the fewest insertions, deletions and
/// substitutions of one character that turn one into the other.
pub open spec fn lev(a: Seq<char>, b: Seq<char>, i: nat, j: nat) -> nat
    decreases i + j,
{
    if i == 0 {
        j
    } else if j == 0 {
        i
    } else {
        let cost: nat = if a[i - 1] == b[j - 1] { 0 } else { 1 };
        let ins = lev(a, b, i, (j - 1) as nat) + 1;
        let del = lev(a, b, (i - 1) as nat, j) + 1;
        let sub = lev(a, b, (i - 1) as nat, (j - 1) as nat) + cost;
        if ins <= del && ins <= sub {
            ins
        } else if del <= sub {
            del
        } else {
            sub
        }
    }
}

proof fn lemma_lev_bound(a: Seq<char>, b: Seq<char>, i: nat, j: nat)
    ensures
        lev(a, b, i, j) <= if i >= j { i } else { j },
    decreases i + j,
{
    if i > 0 && j > 0 {
        lemma_lev_bound(a, b, (i - 1) as nat, (j - 1) as nat);
    }
}

fn min3(x: usize, y: usize, z: usize) -> (r: usize)
    ensures
        r == if x <= y && x <= z { x } else if y <= z { y } else { z },
{
    if x <= y && x <= z {
        x
    } else if y <= z {
        y
    } else {
        z
    }
}

/// The edit distance between two texts, by characters.
pub fn levenshtein_distance(s1: &str, s2: &str) -> (r: usize)
    requires
        s1@.len() < usize::MAX,
        s2@.len() < usize::MAX,
    ensures
        r == lev(s1@, s2@, s1@.len(), s2@.len()),
{
    let v1 = chars_of(s1);
    let v2 = chars_of(s2);
    let n = v1.len();
    let m = v2.len();
    let mut prev_row: Vec<usize> = Vec::new();
    for j in 0..m + 1
        invariant
            m == v2@.len(),
            m < usize::MAX,
            prev_row@.len() == j,
            forall|k: int| 0 <= k < j ==> prev_row@[k] == lev(v1@, v2@, 0, k as nat),
    {
        prev_row.push(j);
    }
    for i in 0..n
        invariant
            n == v1@.len(),
            m == v2@.len(),
            n < usize::MAX,
            m < usize::MAX,
            prev_row@.len() == m + 1,
            forall|k: int| 0 <= k <= m ==> prev_row@[k] == lev(v1@, v2@, i as nat, k as nat),
    {
        let mut curr_row: Vec<usize> = Vec::new();
        curr_row.push(i + 1);
        for j in 0..m
            invariant
                n == v1@.len(),
                m == v2@.len(),
                i < n,
                n < usize::MAX,
                m < usize::MAX,
                prev_row@.len() == m + 1,
                forall|k: int| 0 <= k <= m ==> prev_row@[k] == lev(v1@, v2@, i as nat, k as nat),
                curr_row@.len() == j + 1,
                forall|k: int| 0 <= k <= j ==> curr_row@[k] == lev(v1@, v2@, (i + 1) as nat, k as nat),
        {
            proof {
                lemma_lev_bound(v1@, v2@, (i + 1) as nat, j as nat);
                lemma_lev_bound(v1@, v2@, i as nat, (j + 1) as nat);
                lemma_lev_bound(v1@, v2@, i as nat, j as nat);
            }
            let cost: usize = if v1[i] == v2[j] { 0 } else { 1 };
            let v = min3(curr_row[j] + 1, prev_row[j + 1] + 1, prev_row[j] + cost);
            curr_row.push(v);
            proof {
                assert(v == lev(v1@, v2@, (i + 1) as nat, (j + 1) as nat));
            }
        }
        prev_row = curr_row;
    }
    prev_row[m]
}

} // verus!
