//! Small maps keyed by entity identifiers, which remember the order in which
//! their keys came.

use vstd::prelude::*;

use crate::bytes::{id_eq, EntityId};

verus! {

/// A map from identifiers to values.
pub struct IdMap<V> {
    items: Vec<(EntityId, V)>,
}

/// Where an identifier stands; past the end where it is not there.
pub open spec fn first_pos<V>(s: Seq<(Seq<u8>, V)>, id: Seq<u8>) -> int
    decreases s.len(),
{
    if s.len() == 0 || s[0].0 == id {
        0
    } else {
        1 + first_pos(s.drop_first(), id)
    }
}

/// The value of an identifier.
pub open spec fn value_of<V>(s: Seq<(Seq<u8>, V)>, id: Seq<u8>) -> Option<V> {
    if first_pos(s, id) < s.len() {
        Some(s[first_pos(s, id)].1)
    } else {
        None
    }
}

/// The map with the value of an identifier set.
pub open spec fn with_value<V>(s: Seq<(Seq<u8>, V)>, id: Seq<u8>, v: V) -> Seq<(Seq<u8>, V)> {
    if first_pos(s, id) < s.len() {
        s.update(first_pos(s, id), (id, v))
    } else {
        s.push((id, v))
    }
}

/// The position found is that of the first entry with the identifier.
pub proof fn lemma_first_pos<V>(s: Seq<(Seq<u8>, V)>, id: Seq<u8>, n: int)
    requires
        0 <= n <= s.len(),
        forall|j: int| 0 <= j < n ==> (#[trigger] s[j]).0 != id,
        n == s.len() || s[n].0 == id,
    ensures
        first_pos(s, id) == n,
    decreases s.len(),
{
    if n > 0 {
        let rest = s.drop_first();
        assert forall|j: int| 0 <= j < n - 1 implies (#[trigger] rest[j]).0 != id by {
            assert(rest[j] == s[j + 1]);
        }
        assert(s[0].0 != id);
        lemma_first_pos(rest, id, n - 1);
    }
}

/// Before the position found no entry has the identifier; there one has.
pub proof fn lemma_first_pos_is<V>(s: Seq<(Seq<u8>, V)>, id: Seq<u8>)
    ensures
        0 <= first_pos(s, id) <= s.len(),
        forall|j: int| 0 <= j < first_pos(s, id) ==> (#[trigger] s[j]).0 != id,
        first_pos(s, id) < s.len() ==> s[first_pos(s, id)].0 == id,
    decreases s.len(),
{
    if s.len() > 0 && s[0].0 != id {
        let rest = s.drop_first();
        lemma_first_pos_is(rest, id);
        assert forall|j: int| 0 <= j < first_pos(s, id) implies (#[trigger] s[j]).0 != id by {
            if j > 0 {
                assert(rest[j - 1] == s[j]);
            }
        }
    }
}

/// Setting a value is seen by reading it, and by nothing else.
pub proof fn law_value_set<V>(s: Seq<(Seq<u8>, V)>, id: Seq<u8>, v: V, other: Seq<u8>)
    ensures
        value_of(with_value(s, id, v), id) == Some(v),
        other != id ==> value_of(with_value(s, id, v), other) == value_of(s, other),
{
    lemma_first_pos_is(s, id);
    lemma_first_pos_is(s, other);
    let t = with_value(s, id, v);
    let n = first_pos(s, id);
    lemma_first_pos(t, id, n);
    if other != id {
        let m = first_pos(s, other);
        if m < s.len() {
            lemma_first_pos(t, other, m);
        } else {
            lemma_first_pos(t, other, t.len() as int);
        }
    }
}

impl<V: DeepView> IdMap<V> {
    /// The entries, in the order in which their keys came.
    pub closed spec fn entries(&self) -> Seq<(Seq<u8>, V::V)> {
        self.items@.map_values(|e: (EntityId, V)| (e.0@, e.1.deep_view()))
    }

    /// A map that holds nothing.
    pub fn new() -> (m: IdMap<V>)
        ensures
            m.entries() == Seq::<(Seq<u8>, V::V)>::empty(),
    {
        let m = IdMap { items: Vec::new() };
        assert(m.entries() =~= Seq::<(Seq<u8>, V::V)>::empty());
        m
    }

    fn position(&self, id: &EntityId) -> (n: usize)
        ensures
            n == first_pos(self.entries(), id@),
            n <= self.items@.len(),
    {
        let ghost s = self.entries();
        let mut i: usize = 0;
        while i < self.items.len()
            invariant
                i <= self.items@.len(),
                s == self.entries(),
                forall|j: int| 0 <= j < i ==> (#[trigger] s[j]).0 != id@,
            decreases self.items@.len() - i,
        {
            assert(s[i as int].0 == self.items@[i as int].0@);
            if id_eq(&self.items[i].0, id) {
                proof {
                    lemma_first_pos(s, id@, i as int);
                }
                return i;
            }
            i = i + 1;
        }
        proof {
            lemma_first_pos(s, id@, i as int);
        }
        i
    }

    /// The value of an identifier.
    pub fn get(&self, id: &EntityId) -> (r: Option<&V>)
        ensures
            r.deep_view() == value_of(self.entries(), id@),
    {
        let n: usize = self.position(id);
        if n < self.items.len() {
            Some(&self.items[n].1)
        } else {
            None
        }
    }

    /// Sets the value of an identifier.
    pub fn insert(&mut self, id: EntityId, v: V)
        ensures
            final(self).entries() == with_value(old(self).entries(), id@, v.deep_view()),
    {
        let ghost s = self.entries();
        let n: usize = self.position(&id);
        if n < self.items.len() {
            self.items[n] = (id, v);
        } else {
            self.items.push((id, v));
        }
        assert(self.entries() =~= with_value(s, id@, v.deep_view()));
    }

    /// The number of entries.
    pub fn len(&self) -> (n: usize)
        ensures
            n == self.entries().len(),
    {
        self.items.len()
    }

    /// The entry at a position.
    pub fn at(&self, i: usize) -> (r: (EntityId, &V))
        requires
            i < self.entries().len(),
        ensures
            (r.0@, r.1.deep_view()) == self.entries()[i as int],
    {
        (self.items[i].0, &self.items[i].1)
    }
}

} // verus!
