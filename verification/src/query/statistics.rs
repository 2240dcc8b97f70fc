//! How many entities there are of each type, and what queries have done.

use vstd::prelude::*;

use crate::text::str_eq;

verus! {

/// How many entities there are of each type.
#[derive(Debug)]
pub struct TableStatistics {
    counts: Vec<(String, u64)>,
}

/// Where a type stands; past the end where it is not there.
pub open spec fn type_pos(s: Seq<(Seq<char>, u64)>, entity: Seq<char>) -> int
    decreases s.len(),
{
    if s.len() == 0 || s[0].0 == entity {
        0
    } else {
        1 + type_pos(s.drop_first(), entity)
    }
}

/// The number of entities of a type, where it is known.
pub open spec fn count_of(s: Seq<(Seq<char>, u64)>, entity: Seq<char>) -> Option<u64> {
    if type_pos(s, entity) < s.len() {
        Some(s[type_pos(s, entity)].1)
    } else {
        None
    }
}

/// The statistics with the number of entities of a type set.
pub open spec fn with_count(s: Seq<(Seq<char>, u64)>, entity: Seq<char>, n: u64) -> Seq<
    (Seq<char>, u64),
> {
    if type_pos(s, entity) < s.len() {
        s.update(type_pos(s, entity), (entity, n))
    } else {
        s.push((entity, n))
    }
}

/// One more, unless that is too many to count.
pub open spec fn one_more(n: Option<u64>) -> u64 {
    match n {
        Some(n) => if n < u64::MAX {
            (n + 1) as u64
        } else {
            n
        },
        None => 1,
    }
}

/// One less, unless there is none.
pub open spec fn one_less(n: Option<u64>) -> u64 {
    match n {
        Some(n) => if n > 0 {
            (n - 1) as u64
        } else {
            0
        },
        None => 0,
    }
}

proof fn lemma_type_pos(s: Seq<(Seq<char>, u64)>, entity: Seq<char>, n: int)
    requires
        0 <= n <= s.len(),
        forall|j: int| 0 <= j < n ==> (#[trigger] s[j]).0 != entity,
        n == s.len() || s[n].0 == entity,
    ensures
        type_pos(s, entity) == n,
    decreases s.len(),
{
    if n > 0 {
        let rest = s.drop_first();
        assert forall|j: int| 0 <= j < n - 1 implies (#[trigger] rest[j]).0 != entity by {
            assert(rest[j] == s[j + 1]);
        }
        assert(s[0].0 != entity);
        lemma_type_pos(rest, entity, n - 1);
    }
}

impl View for TableStatistics {
    type V = Seq<(Seq<char>, u64)>;

    closed spec fn view(&self) -> Seq<(Seq<char>, u64)> {
        self.counts@.map_values(|c: (String, u64)| (c.0@, c.1))
    }
}

impl TableStatistics {
    /// Statistics that know nothing.
    pub fn new() -> (s: TableStatistics)
        ensures
            s@ == Seq::<(Seq<char>, u64)>::empty(),
    {
        let s = TableStatistics { counts: Vec::new() };
        assert(s@ =~= Seq::<(Seq<char>, u64)>::empty());
        s
    }

    /// The number of entities of each type.
    pub fn snapshot(&self) -> (out: Vec<(String, u64)>)
        ensures
            out@.map_values(|c: (String, u64)| (c.0@, c.1)) == self@,
    {
        let mut out: Vec<(String, u64)> = Vec::new();
        let mut i: usize = 0;
        while i < self.counts.len()
            invariant
                i <= self.counts@.len(),
                out@.len() == i,
                forall|k: int|
                    0 <= k < i ==> (#[trigger] out@[k]).0@ == self.counts@[k].0@ && out@[k].1
                        == self.counts@[k].1,
            decreases self.counts@.len() - i,
        {
            out.push((self.counts[i].0.clone(), self.counts[i].1));
            i = i + 1;
        }
        assert(out@.map_values(|c: (String, u64)| (c.0@, c.1)) =~= self@);
        out
    }

    fn position(&self, entity: &str) -> (n: usize)
        ensures
            n == type_pos(self@, entity@),
            n <= self.counts@.len(),
    {
        let ghost s = self@;
        let mut i: usize = 0;
        while i < self.counts.len()
            invariant
                i <= self.counts@.len(),
                s == self@,
                forall|j: int| 0 <= j < i ==> (#[trigger] s[j]).0 != entity@,
            decreases self.counts@.len() - i,
        {
            assert(s[i as int].0 == self.counts@[i as int].0@);
            if str_eq(self.counts[i].0.as_str(), entity) {
                proof {
                    lemma_type_pos(s, entity@, i as int);
                }
                return i;
            }
            i = i + 1;
        }
        proof {
            lemma_type_pos(s, entity@, i as int);
        }
        i
    }

    /// The number of entities of a type, where it is known.
    pub fn count(&self, entity: &str) -> (n: Option<u64>)
        ensures
            n == count_of(self@, entity@),
    {
        let i: usize = self.position(entity);
        if i < self.counts.len() {
            Some(self.counts[i].1)
        } else {
            None
        }
    }

    /// Notes the number of entities of a type.
    pub fn set(&mut self, entity: &str, n: u64)
        ensures
            final(self)@ == with_count(old(self)@, entity@, n),
    {
        let ghost s = self@;
        let i: usize = self.position(entity);
        if i < self.counts.len() {
            self.counts[i] = (entity.to_owned(), n);
        } else {
            self.counts.push((entity.to_owned(), n));
        }
        assert(self@ =~= with_count(s, entity@, n));
    }

    /// Counts an entity of a type.
    pub fn increment(&mut self, entity: &str)
        ensures
            final(self)@ == with_count(
                old(self)@,
                entity@,
                one_more(count_of(old(self)@, entity@)),
            ),
    {
        let n: u64 = match self.count(entity) {
            Some(n) => if n < u64::MAX {
                n + 1
            } else {
                n
            },
            None => 1,
        };
        self.set(entity, n);
    }

    /// Counts an entity of a type no longer.
    pub fn decrement(&mut self, entity: &str)
        ensures
            final(self)@ == with_count(
                old(self)@,
                entity@,
                one_less(count_of(old(self)@, entity@)),
            ),
    {
        let n: u64 = match self.count(entity) {
            Some(n) => if n > 0 {
                n - 1
            } else {
                0
            },
            None => 0,
        };
        self.set(entity, n);
    }
}

} // verus!
