//! The ordered index: the entities of a column in the order of their values.

use vstd::prelude::*;

use crate::bytes::{bytes_eq, id_eq, EntityId};
use crate::codec::{encode_value, value_bytes};
use crate::storage::hash_index::ids_view;
use crate::text::{chars_of, str_eq};
use crate::value::{
    comparable, compare_values, value_order, values_compare, Order, Value, ValueView,
};

verus! {

/// A value that an entity has in a column.
pub struct IndexEntry {
    /// The entity's type.
    pub entity_type: String,
    /// The column.
    pub column: String,
    /// The value.
    pub value: Value,
    /// The entity.
    pub id: EntityId,
}

/// An entry in mathematical terms.
pub ghost struct IndexEntryView {
    /// The entity's type.
    pub entity_type: Seq<char>,
    /// The column.
    pub column: Seq<char>,
    /// The value.
    pub value: ValueView,
    /// The entity.
    pub id: Seq<u8>,
}

impl View for IndexEntry {
    type V = IndexEntryView;

    open spec fn view(&self) -> IndexEntryView {
        IndexEntryView {
            entity_type: self.entity_type@,
            column: self.column@,
            value: self.value@,
            id: self.id@,
        }
    }
}

/// Whether an entry belongs to a column.
pub open spec fn in_column(e: IndexEntryView, entity_type: Seq<char>, column: Seq<char>) -> bool {
    e.entity_type == entity_type && e.column == column
}

/// Whether two entries say the same.
pub open spec fn same_entry(e: IndexEntryView, f: IndexEntryView) -> bool {
    in_column(e, f.entity_type, f.column) && e.id == f.id && value_bytes(e.value) == value_bytes(
        f.value,
    )
}

/// Whether an entry has to come after a new one.
pub open spec fn goes_after(e: IndexEntryView, new: IndexEntryView) -> bool {
    in_column(e, new.entity_type, new.column) && value_order(e.value, new.value) == Order::Greater
}

/// Where a new entry goes: before the first that has to come after it.
pub open spec fn insert_pos(s: Seq<IndexEntryView>, new: IndexEntryView) -> int
    decreases s.len(),
{
    if s.len() == 0 || goes_after(s[0], new) {
        0
    } else {
        1 + insert_pos(s.drop_first(), new)
    }
}

/// Whether the index holds an entry.
pub open spec fn holds_entry(s: Seq<IndexEntryView>, e: IndexEntryView) -> bool {
    exists|i: int| 0 <= i < s.len() && same_entry(#[trigger] s[i], e)
}

/// The index with an entry more.
pub open spec fn with_entry(s: Seq<IndexEntryView>, e: IndexEntryView) -> Seq<IndexEntryView> {
    if holds_entry(s, e) {
        s
    } else {
        s.insert(insert_pos(s, e), e)
    }
}

/// The index without an entry.
pub open spec fn without_entry(s: Seq<IndexEntryView>, e: IndexEntryView) -> Seq<IndexEntryView> {
    s.filter(|f: IndexEntryView| !same_entry(f, e))
}

/// The index without a column.
pub open spec fn without_column(
    s: Seq<IndexEntryView>,
    entity_type: Seq<char>,
    column: Seq<char>,
) -> Seq<IndexEntryView> {
    s.filter(|f: IndexEntryView| !in_column(f, entity_type, column))
}

/// What is asked of the values of a column.
pub enum Bound {
    /// Any value.
    All,
    /// The same value in the order of values.
    Equal(Value),
    /// A greater value.
    Greater(Value),
    /// A greater value or the same.
    GreaterEqual(Value),
    /// A smaller value.
    Less(Value),
    /// A smaller value or the same.
    LessEqual(Value),
    /// Text that begins with a text.
    Prefix(String),
}

/// A bound in mathematical terms.
pub ghost enum BoundView {
    /// See [`Bound::All`].
    All,
    /// See [`Bound::Equal`].
    Equal(ValueView),
    /// See [`Bound::Greater`].
    Greater(ValueView),
    /// See [`Bound::GreaterEqual`].
    GreaterEqual(ValueView),
    /// See [`Bound::Less`].
    Less(ValueView),
    /// See [`Bound::LessEqual`].
    LessEqual(ValueView),
    /// See [`Bound::Prefix`].
    Prefix(Seq<char>),
}

impl View for Bound {
    type V = BoundView;

    open spec fn view(&self) -> BoundView {
        match *self {
            Bound::All => BoundView::All,
            Bound::Equal(v) => BoundView::Equal(v@),
            Bound::Greater(v) => BoundView::Greater(v@),
            Bound::GreaterEqual(v) => BoundView::GreaterEqual(v@),
            Bound::Less(v) => BoundView::Less(v@),
            Bound::LessEqual(v) => BoundView::LessEqual(v@),
            Bound::Prefix(p) => BoundView::Prefix(p@),
        }
    }
}

/// Whether a text begins with another.
pub open spec fn text_has_prefix(s: Seq<char>, p: Seq<char>) -> bool {
    p.len() <= s.len() && s.take(p.len() as int) == p
}

/// Whether a value meets a bound.
pub open spec fn meets(v: ValueView, bound: BoundView) -> bool {
    match bound {
        BoundView::All => true,
        BoundView::Equal(b) => comparable(v, b) && value_order(v, b) == Order::Equal,
        BoundView::Greater(b) => comparable(v, b) && value_order(v, b) == Order::Greater,
        BoundView::GreaterEqual(b) => comparable(v, b) && value_order(v, b) != Order::Less,
        BoundView::Less(b) => comparable(v, b) && value_order(v, b) == Order::Less,
        BoundView::LessEqual(b) => comparable(v, b) && value_order(v, b) != Order::Greater,
        BoundView::Prefix(p) => v matches ValueView::String(s) && text_has_prefix(s, p),
    }
}

/// The entities of a column whose values meet a bound, in index order.
pub open spec fn scan_ids(
    s: Seq<IndexEntryView>,
    entity_type: Seq<char>,
    column: Seq<char>,
    bound: BoundView,
) -> Seq<Seq<u8>>
    decreases s.len(),
{
    if s.len() == 0 {
        Seq::empty()
    } else {
        let init = scan_ids(s.drop_last(), entity_type, column, bound);
        if in_column(s.last(), entity_type, column) && meets(s.last().value, bound) {
            init.push(s.last().id)
        } else {
            init
        }
    }
}

/// Whether a text begins with another.
pub fn starts_with(s: &str, p: &str) -> (r: bool)
    ensures
        r == text_has_prefix(s@, p@),
{
    let a: Vec<char> = chars_of(s);
    let b: Vec<char> = chars_of(p);
    if a.len() < b.len() {
        return false;
    }
    let mut i: usize = 0;
    while i < b.len()
        invariant
            i <= b@.len() <= a@.len(),
            a@ == s@,
            b@ == p@,
            forall|j: int| 0 <= j < i ==> a@[j] == b@[j],
        decreases b@.len() - i,
    {
        if a[i] != b[i] {
            assert(a@.take(b@.len() as int)[i as int] != b@[i as int]);
            return false;
        }
        i = i + 1;
    }
    assert(a@.take(b@.len() as int) =~= b@);
    true
}

fn value_meets(v: &Value, bound: &Bound) -> (r: bool)
    ensures
        r == meets(v@, bound@),
{
    match bound {
        Bound::All => true,
        Bound::Equal(b) => values_compare(v, b) && compare_values(v, b) == Order::Equal,
        Bound::Greater(b) => values_compare(v, b) && compare_values(v, b) == Order::Greater,
        Bound::GreaterEqual(b) => values_compare(v, b) && compare_values(v, b) != Order::Less,
        Bound::Less(b) => values_compare(v, b) && compare_values(v, b) == Order::Less,
        Bound::LessEqual(b) => values_compare(v, b) && compare_values(v, b) != Order::Greater,
        Bound::Prefix(p) => match v {
            Value::String(s) => starts_with(s.as_str(), p.as_str()),
            _ => false,
        },
    }
}

/// The index of all columns that have been indexed.
pub struct BTreeIndex {
    items: Vec<IndexEntry>,
}

proof fn lemma_insert_pos(s: Seq<IndexEntryView>, e: IndexEntryView, n: int)
    requires
        0 <= n <= s.len(),
        forall|j: int| 0 <= j < n ==> !goes_after(#[trigger] s[j], e),
        n == s.len() || goes_after(s[n], e),
    ensures
        insert_pos(s, e) == n,
    decreases s.len(),
{
    if n > 0 {
        assert(!goes_after(s[0], e));
        let rest = s.drop_first();
        assert forall|j: int| 0 <= j < n - 1 implies !goes_after(#[trigger] rest[j], e) by {
            assert(rest[j] == s[j + 1]);
        }
        lemma_insert_pos(rest, e, n - 1);
    }
}

impl BTreeIndex {
    /// The entries, in index order.
    pub closed spec fn entries(&self) -> Seq<IndexEntryView> {
        self.items@.map_values(|e: IndexEntry| e@)
    }

    /// An index that holds nothing.
    pub fn new() -> (s: BTreeIndex)
        ensures
            s.entries() == Seq::<IndexEntryView>::empty(),
    {
        let s = BTreeIndex { items: Vec::new() };
        assert(s.entries() =~= Seq::<IndexEntryView>::empty());
        s
    }

    /// Records that an entity has a value in a column.
    pub fn insert(&mut self, entity_type: &str, column: &str, value: &Value, id: EntityId)
        ensures
            final(self).entries() == with_entry(
                old(self).entries(),
                (IndexEntryView { entity_type: entity_type@, column: column@, value: value@, id: id@ }),
            ),
    {
        let e = IndexEntry {
            entity_type: entity_type.to_owned(),
            column: column.to_owned(),
            value: value.copy(),
            id,
        };
        let wanted: Vec<u8> = encode_value(value);
        let ghost s = self.entries();
        let mut at: usize = self.items.len();
        let mut i: usize = 0;
        while i < self.items.len()
            invariant
                i <= self.items@.len(),
                s == self.entries(),
                *self == *old(self),
                e@.entity_type == entity_type@,
                e@.column == column@,
                e@.value == value@,
                e@.id == id@,
                wanted@ == value_bytes(value@),
                forall|j: int| 0 <= j < i ==> !same_entry(#[trigger] s[j], e@),
                at <= self.items@.len(),
                at < i || at == self.items@.len(),
                forall|j: int| 0 <= j < i && j < at ==> !goes_after(#[trigger] s[j], e@),
                at < self.items@.len() ==> goes_after(s[at as int], e@),
            decreases self.items@.len() - i,
        {
            let item: &IndexEntry = &self.items[i];
            assert(s[i as int] == item@);
            if str_eq(item.entity_type.as_str(), entity_type) && str_eq(item.column.as_str(), column) {
                if id_eq(&item.id, &id) {
                    let bytes: Vec<u8> = encode_value(&item.value);
                    if bytes_eq(bytes.as_slice(), wanted.as_slice()) {
                        assert(same_entry(s[i as int], e@));
                        return;
                    }
                }
                if at == self.items.len() && compare_values(&item.value, value) == Order::Greater {
                    at = i;
                }
            }
            i = i + 1;
        }
        proof {
            lemma_insert_pos(s, e@, at as int);
        }
        let ghost new = e@;
        self.items.insert(at, e);
        assert(self.entries() =~= s.insert(at as int, new));
    }

    /// Records that an entity no longer has a value in a column.
    pub fn remove(&mut self, entity_type: &str, column: &str, value: &Value, id: EntityId)
        ensures
            final(self).entries() == without_entry(
                old(self).entries(),
                (IndexEntryView { entity_type: entity_type@, column: column@, value: value@, id: id@ }),
            ),
    {
        let ghost e = IndexEntryView { entity_type: entity_type@, column: column@, value: value@, id: id@ };
        let wanted: Vec<u8> = encode_value(value);
        let ghost s = self.entries();
        let ghost keep = |f: IndexEntryView| !same_entry(f, e);
        let mut i: usize = 0;
        proof {
            reveal(Seq::filter);
            assert(s.skip(0) =~= s);
            assert(s.take(0) =~= Seq::<IndexEntryView>::empty());
            assert(self.entries() =~= s.take(0).filter(keep) + s.skip(0));
        }
        let ghost mut done: int = 0;
        while i < self.items.len()
            invariant
                i <= self.items@.len(),
                0 <= done <= s.len(),
                e == (IndexEntryView { entity_type: entity_type@, column: column@, value: value@, id: id@ }),
                keep == (|f: IndexEntryView| !same_entry(f, e)),
                wanted@ == value_bytes(value@),
                s.take(done).filter(keep).len() == i,
                self.entries() == s.take(done).filter(keep) + s.skip(done),
            decreases s.len() - done,
        {
            let ghost before = self.entries();
            let ghost head = s.take(done).filter(keep);
            proof {
                assert(before.len() == self.items@.len());
                assert(done < s.len());
                assert(before[i as int] == s.skip(done)[0]);
                assert(before[i as int] == self.items@[i as int]@);
                reveal(Seq::filter);
                assert(s.take(done + 1).drop_last() =~= s.take(done));
                assert(s.take(done + 1).last() == s[done]);
            }
            let item: &IndexEntry = &self.items[i];
            let bytes: Vec<u8> = encode_value(&item.value);
            let drop: bool = str_eq(item.entity_type.as_str(), entity_type) && str_eq(item.column.as_str(), column)
                && id_eq(&item.id, &id) && bytes_eq(bytes.as_slice(), wanted.as_slice());
            assert(drop == same_entry(s[done], e));
            if drop {
                let _ = self.items.remove(i);
                assert(self.entries() =~= before.remove(i as int));
                assert(self.entries() =~= head + s.skip(done + 1));
            } else {
                i = i + 1;
                assert(self.entries() =~= head.push(s[done]) + s.skip(done + 1));
            }
            proof {
                done = done + 1;
            }
        }
        proof {
            assert(self.entries().len() == self.items@.len());
            assert(s.take(done) =~= s);
            assert(self.entries() =~= s.filter(keep));
        }
    }

    /// Takes a column out of the index.
    pub fn drop_column_index(&mut self, entity_type: &str, column: &str)
        ensures
            final(self).entries() == without_column(old(self).entries(), entity_type@, column@),
    {
        let ghost s = self.entries();
        let ghost keep = |f: IndexEntryView| !in_column(f, entity_type@, column@);
        let mut i: usize = 0;
        proof {
            reveal(Seq::filter);
            assert(s.skip(0) =~= s);
            assert(s.take(0) =~= Seq::<IndexEntryView>::empty());
            assert(self.entries() =~= s.take(0).filter(keep) + s.skip(0));
        }
        let ghost mut done: int = 0;
        while i < self.items.len()
            invariant
                i <= self.items@.len(),
                0 <= done <= s.len(),
                keep == (|f: IndexEntryView| !in_column(f, entity_type@, column@)),
                s.take(done).filter(keep).len() == i,
                self.entries() == s.take(done).filter(keep) + s.skip(done),
            decreases s.len() - done,
        {
            let ghost before = self.entries();
            let ghost head = s.take(done).filter(keep);
            proof {
                assert(before.len() == self.items@.len());
                assert(done < s.len());
                assert(before[i as int] == s.skip(done)[0]);
                assert(before[i as int] == self.items@[i as int]@);
                reveal(Seq::filter);
                assert(s.take(done + 1).drop_last() =~= s.take(done));
                assert(s.take(done + 1).last() == s[done]);
            }
            let item: &IndexEntry = &self.items[i];
            if str_eq(item.entity_type.as_str(), entity_type) && str_eq(item.column.as_str(), column) {
                let _ = self.items.remove(i);
                assert(self.entries() =~= before.remove(i as int));
                assert(self.entries() =~= head + s.skip(done + 1));
            } else {
                i = i + 1;
                assert(self.entries() =~= head.push(s[done]) + s.skip(done + 1));
            }
            proof {
                done = done + 1;
            }
        }
        proof {
            assert(self.entries().len() == self.items@.len());
            assert(s.take(done) =~= s);
            assert(self.entries() =~= s.filter(keep));
        }
    }

    /// The entities of a column whose values meet a bound, in index order.
    pub fn scan(&self, entity_type: &str, column: &str, bound: &Bound) -> (ids: Vec<EntityId>)
        ensures
            ids_view(ids@) == scan_ids(self.entries(), entity_type@, column@, bound@),
    {
        let ghost s = self.entries();
        let mut ids: Vec<EntityId> = Vec::new();
        let mut i: usize = 0;
        assert(ids_view(ids@) =~= Seq::<Seq<u8>>::empty());
        assert(s.take(0) =~= Seq::<IndexEntryView>::empty());
        while i < self.items.len()
            invariant
                i <= self.items@.len(),
                s == self.entries(),
                ids_view(ids@) == scan_ids(s.take(i as int), entity_type@, column@, bound@),
            decreases self.items@.len() - i,
        {
            let ghost before = ids_view(ids@);
            let item: &IndexEntry = &self.items[i];
            proof {
                assert(s[i as int] == item@);
                assert(s.take(i + 1).drop_last() =~= s.take(i as int));
                assert(s.take(i + 1).last() == s[i as int]);
            }
            if str_eq(item.entity_type.as_str(), entity_type) && str_eq(item.column.as_str(), column)
                && value_meets(&item.value, bound) {
                ids.push(item.id);
                assert(ids_view(ids@) =~= before.push(item.id@));
            }
            i = i + 1;
        }
        assert(s.take(s.len() as int) =~= s);
        ids
    }

    /// The entities that have a value in a column.
    pub fn scan_equal(&self, entity_type: &str, column: &str, value: &Value) -> (ids: Vec<EntityId>)
        ensures
            ids_view(ids@) == scan_ids(
                self.entries(),
                entity_type@,
                column@,
                BoundView::Equal(value@),
            ),
    {
        self.scan(entity_type, column, &Bound::Equal(value.copy()))
    }
}

} // verus!
