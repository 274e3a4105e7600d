use vstd::prelude::*;

use crate::idx::{ExprId, FunctionId, NameId};

verus! {

/// What a pattern variable was bound to while matching.
#[derive(Debug, Clone, Copy, PartialEq, Eq, Structural)]
pub enum CapturedValue {
    Expression(ExprId),
    Function(FunctionId),
    StructName(NameId),
}

/// The binding of `k` in a list of bindings, the latest one winning.
pub open spec fn lookup(s: Seq<(NameId, CapturedValue)>, k: NameId) -> Option<CapturedValue>
    decreases s.len(),
{
    if s.len() == 0 {
        None
    } else if s.last().0 == k {
        Some(s.last().1)
    } else {
        lookup(s.drop_last(), k)
    }
}

/// No name is bound twice.
pub open spec fn keys_distinct(s: Seq<(NameId, CapturedValue)>) -> bool {
    forall|i: int, j: int| 0 <= i < j < s.len() ==> s[i].0 != s[j].0
}

/// A name is bound exactly when some binding names it, to that binding's value.
pub proof fn lemma_lookup(s: Seq<(NameId, CapturedValue)>, k: NameId)
    requires
        keys_distinct(s),
    ensures
        lookup(s, k) is None <==> forall|i: int| 0 <= i < s.len() ==> s[i].0 != k,
        forall|i: int| 0 <= i < s.len() && s[i].0 == k ==> lookup(s, k) == Some(s[i].1),
    decreases s.len(),
{
    if s.len() > 0 {
        lemma_lookup(s.drop_last(), k);
        assert forall|i: int| 0 <= i < s.len() && s[i].0 == k implies lookup(s, k) == Some(s[i].1) by {
            if i < s.len() - 1 {
                assert(s.drop_last()[i] == s[i]);
            }
        }
        if s.last().0 != k {
            assert forall|i: int| 0 <= i < s.drop_last().len() implies s.drop_last()[i].0 != k
                <==> s[i].0 != k by {}
        }
    }
}

/// The bindings a match has made so far, in the order they were made.
#[derive(Debug, Clone)]
pub struct Captures {
    entries: Vec<(NameId, CapturedValue)>,
}

impl View for Captures {
    type V = Seq<(NameId, CapturedValue)>;

    closed spec fn view(&self) -> Seq<(NameId, CapturedValue)> {
        self.entries@
    }
}

/// The last position where `k` is bound, if any.
pub open spec fn last_pos(s: Seq<(NameId, CapturedValue)>, k: NameId) -> int
    decreases s.len(),
{
    if s.len() == 0 {
        -1
    } else if s.last().0 == k {
        s.len() - 1
    } else {
        last_pos(s.drop_last(), k)
    }
}

pub proof fn lemma_last_pos(s: Seq<(NameId, CapturedValue)>, k: NameId)
    ensures
        -1 <= last_pos(s, k) < s.len(),
        last_pos(s, k) == -1 <==> lookup(s, k) is None,
        last_pos(s, k) >= 0 ==> s[last_pos(s, k)].0 == k && lookup(s, k) == Some(s[last_pos(s, k)].1),
        forall|j: int| last_pos(s, k) < j < s.len() ==> s[j].0 != k,
    decreases s.len(),
{
    if s.len() > 0 {
        lemma_last_pos(s.drop_last(), k);
        assert forall|j: int| last_pos(s, k) < j < s.len() implies s[j].0 != k by {
            if j < s.len() - 1 {
                assert(s.drop_last()[j] == s[j]);
            }
        }
    }
}

pub proof fn lemma_lookup_update(s: Seq<(NameId, CapturedValue)>, i: int, k: NameId, v: CapturedValue, j: NameId)
    requires
        0 <= i < s.len(),
        s[i].0 == k,
        forall|m: int| i < m < s.len() ==> s[m].0 != k,
    ensures
        lookup(s.update(i, (k, v)), j) == if j == k {
            Some(v)
        } else {
            lookup(s, j)
        },
    decreases s.len(),
{
    let t = s.update(i, (k, v));
    if i == s.len() - 1 {
        assert(t.drop_last() =~= s.drop_last());
    } else {
        assert(t.drop_last() =~= s.drop_last().update(i, (k, v)));
        lemma_lookup_update(s.drop_last(), i, k, v, j);
    }
}

impl Captures {
    pub fn new() -> (r: Self)
        ensures
            r@ == Seq::<(NameId, CapturedValue)>::empty(),
            keys_distinct(r@),
    {
        Self { entries: Vec::new() }
    }

    /// The number of bindings.
    pub fn len(&self) -> (r: usize)
        ensures
            r == self@.len(),
    {
        self.entries.len()
    }

    pub fn is_empty(&self) -> (r: bool)
        ensures
            r == (self@.len() == 0),
    {
        self.entries.len() == 0
    }

    fn position(&self, name: &NameId) -> (r: Option<usize>)
        ensures
            match r {
                Some(i) => i as int == last_pos(self@, *name),
                None => last_pos(self@, *name) == -1,
            },
    {
        proof {
            lemma_last_pos(self@, *name);
        }
        let mut i = self.entries.len();
        while i > 0
            invariant
                i <= self@.len(),
                -1 <= last_pos(self@, *name) < self@.len(),
                forall|j: int| last_pos(self@, *name) < j < self@.len() ==> self@[j].0 != *name,
                last_pos(self@, *name) >= 0 ==> self@[last_pos(self@, *name)].0 == *name,
                last_pos(self@, *name) < i,
            decreases i,
        {
            i = i - 1;
            if self.entries[i].0 == *name {
                return Some(i);
            }
        }
        None
    }

    /// What `name` is bound to.
    pub fn get(&self, name: &NameId) -> (r: Option<&CapturedValue>)
        ensures
            match r {
                Some(v) => lookup(self@, *name) == Some(*v),
                None => lookup(self@, *name) is None,
            },
    {
        proof {
            lemma_last_pos(self@, *name);
        }
        match self.position(name) {
            Some(i) => Some(&self.entries[i].1),
            None => None,
        }
    }

    /// Whether `name` is bound.
    pub fn contains_key(&self, name: &NameId) -> (r: bool)
        ensures
            r == (lookup(self@, *name) is Some),
    {
        proof {
            lemma_last_pos(self@, *name);
        }
        self.position(name).is_some()
    }

    /// Binds `name` to `value`: a new binding goes last, an existing one is
    /// replaced where it stands.
    pub fn insert(&mut self, name: NameId, value: CapturedValue)
        ensures
            lookup(old(self)@, name) is None ==> final(self)@ == old(self)@.push((name, value)),
            lookup(old(self)@, name) is Some ==> final(self)@ == old(self)@.update(
                last_pos(old(self)@, name),
                (name, value),
            ),
            lookup(final(self)@, name) == Some(value),
            forall|k: NameId| k != name ==> lookup(final(self)@, k) == lookup(old(self)@, k),
            keys_distinct(old(self)@) ==> keys_distinct(final(self)@),
    {
        proof {
            lemma_last_pos(self@, name);
        }
        let ghost before = self@;
        match self.position(&name) {
            Some(i) => {
                proof {
                    assert forall|k: NameId| #![auto] lookup(before.update(i as int, (name, value)), k) == if k
                        == name {
                        Some(value)
                    } else {
                        lookup(before, k)
                    } by {
                        lemma_lookup_update(before, i as int, name, value, k);
                    }
                }
                self.entries.set(i, (name, value));
            },
            None => {
                self.entries.push((name, value));
                proof {
                    assert(self@.drop_last() =~= before);
                }
            },
        }
    }

    /// The bound values, in the order they were bound.
    pub fn values(&self) -> (r: Vec<CapturedValue>)
        ensures
            r@ == self@.map_values(|e: (NameId, CapturedValue)| e.1),
    {
        let mut r: Vec<CapturedValue> = Vec::new();
        for i in 0..self.entries.len()
            invariant
                r@ == self@.take(i as int).map_values(|e: (NameId, CapturedValue)| e.1),
        {
            r.push(self.entries[i].1);
            assert(self@.take(i + 1) =~= self@.take(i as int).push(self@[i as int]));
        }
        assert(self@.take(self@.len() as int) =~= self@);
        r
    }

    /// The bound names, in the order they were bound.
    pub fn keys(&self) -> (r: Vec<NameId>)
        ensures
            r@ == self@.map_values(|e: (NameId, CapturedValue)| e.0),
    {
        let mut r: Vec<NameId> = Vec::new();
        for i in 0..self.entries.len()
            invariant
                r@ == self@.take(i as int).map_values(|e: (NameId, CapturedValue)| e.0),
        {
            r.push(self.entries[i].0);
            assert(self@.take(i + 1) =~= self@.take(i as int).push(self@[i as int]));
        }
        assert(self@.take(self@.len() as int) =~= self@);
        r
    }

    /// The bindings, in the order they were made.
    pub fn iter(&self) -> (r: Vec<(NameId, CapturedValue)>)
        ensures
            r@ == self@,
    {
        let mut r: Vec<(NameId, CapturedValue)> = Vec::new();
        for i in 0..self.entries.len()
            invariant
                r@ == self@.take(i as int),
        {
            r.push(self.entries[i]);
            assert(self@.take(i + 1) =~= self@.take(i as int).push(self@[i as int]));
        }
        assert(self@.take(self@.len() as int) =~= self@);
        r
    }
}

} // verus!
