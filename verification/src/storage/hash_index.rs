//! The equality index: which entities have a value in a column.

use vstd::prelude::*;
use vstd::utf8::encode_utf8;

use crate::bytes::{push_be, push_bytes, read_id, EntityId};
use crate::codec::{chunk_bytes, encode_value, number, value_bytes};
use crate::error::{DbError, ErrorView};
use crate::storage::kv;
use crate::storage::kv::{between, entries_view, prefix_listing, tree_entries, tree_place};
use crate::storage::model::TreePlace;
use crate::value::{Value, ValueView};

verus! {

/// The index: one key for each value that an entity has in a column.
pub struct HashIndex {
    tree: sled::Tree,
}

/// What the keys of a column begin with.
pub open spec fn column_prefix(entity_type: Seq<char>, column: Seq<char>) -> Seq<u8> {
    chunk_bytes(seq![encode_utf8(entity_type), encode_utf8(column)])
}

/// What the keys of a value in a column begin with.
pub open spec fn value_prefix(entity_type: Seq<char>, column: Seq<char>, v: ValueView) -> Seq<u8> {
    chunk_bytes(seq![encode_utf8(entity_type), encode_utf8(column), value_bytes(v)])
}

/// The key that says that an entity has a value in a column.
pub open spec fn index_key(
    entity_type: Seq<char>,
    column: Seq<char>,
    v: ValueView,
    id: Seq<u8>,
) -> Seq<u8> {
    value_prefix(entity_type, column, v) + id
}

/// The identifiers at the end of keys, where every key has one.
pub open spec fn listed_ids(s: Seq<(Seq<u8>, Seq<u8>)>, prefix_len: nat) -> Result<
    Seq<Seq<u8>>,
    ErrorView,
>
    decreases s.len(),
{
    if s.len() == 0 {
        Ok(Seq::empty())
    } else {
        match listed_ids(s.drop_last(), prefix_len) {
            Ok(ids) => if s.last().0.len() == prefix_len + 16 {
                Ok(ids.push(s.last().0.skip(prefix_len as int)))
            } else {
                Err(ErrorView::InvalidKey)
            },
            Err(e) => Err(e),
        }
    }
}

/// The entities that have a value in a column, in the order of their identifiers.
pub open spec fn lookup_outcome(
    m: Map<Seq<u8>, Seq<u8>>,
    entity_type: Seq<char>,
    column: Seq<char>,
    v: ValueView,
) -> Result<Seq<Seq<u8>>, ErrorView> {
    let prefix = value_prefix(entity_type, column, v);
    listed_ids(prefix_listing(m, prefix), prefix.len())
}

/// Whether the index holds anything for a column.
pub open spec fn column_indexed(
    m: Map<Seq<u8>, Seq<u8>>,
    entity_type: Seq<char>,
    column: Seq<char>,
) -> bool {
    prefix_listing(m, column_prefix(entity_type, column)).len() > 0
}

/// Identifiers in mathematical terms.
pub open spec fn ids_view(ids: Seq<EntityId>) -> Seq<Seq<u8>> {
    ids.map_values(|id: EntityId| id@)
}

proof fn lemma_listed_ids_fails(s: Seq<(Seq<u8>, Seq<u8>)>, n: int, prefix_len: nat)
    requires
        0 <= n <= s.len(),
        listed_ids(s.take(n), prefix_len) is Err,
    ensures
        listed_ids(s, prefix_len) == listed_ids(s.take(n), prefix_len),
    decreases s.len() - n,
{
    if n == s.len() {
        assert(s.take(n) =~= s);
    } else {
        assert(s.take(n + 1).drop_last() =~= s.take(n));
        lemma_listed_ids_fails(s, n + 1, prefix_len);
    }
}

fn push_chunk(out: &mut Vec<u8>, chunk: &[u8])
    ensures
        final(out)@ == old(out)@ + (number(chunk@.len()) + chunk@),
{
    push_be(out, chunk.len() as u64, 8);
    push_bytes(out, chunk);
    assert(out@ =~= old(out)@ + (number(chunk@.len()) + chunk@));
}

fn column_prefix_of(entity_type: &str, column: &str) -> (out: Vec<u8>)
    ensures
        out@ == column_prefix(entity_type@, column@),
{
    let mut out: Vec<u8> = Vec::new();
    push_chunk(&mut out, entity_type.as_bytes());
    push_chunk(&mut out, column.as_bytes());
    proof {
        reveal_with_fuel(chunk_bytes, 3);
        let a = encode_utf8(entity_type@);
        let b = encode_utf8(column@);
        assert(seq![a, b].drop_first() =~= seq![b]);
        assert(seq![b].drop_first() =~= Seq::<Seq<u8>>::empty());
        assert(out@ =~= column_prefix(entity_type@, column@));
    }
    out
}

fn value_prefix_of(entity_type: &str, column: &str, v: &Value) -> (out: Vec<u8>)
    ensures
        out@ == value_prefix(entity_type@, column@, v@),
{
    let value: Vec<u8> = encode_value(v);
    let mut out: Vec<u8> = Vec::new();
    push_chunk(&mut out, entity_type.as_bytes());
    push_chunk(&mut out, column.as_bytes());
    push_chunk(&mut out, value.as_slice());
    proof {
        reveal_with_fuel(chunk_bytes, 4);
        let a = encode_utf8(entity_type@);
        let b = encode_utf8(column@);
        let c = value@;
        assert(seq![a, b, c].drop_first() =~= seq![b, c]);
        assert(seq![b, c].drop_first() =~= seq![c]);
        assert(seq![c].drop_first() =~= Seq::<Seq<u8>>::empty());
        assert(out@ =~= value_prefix(entity_type@, column@, v@));
    }
    out
}

impl HashIndex {
    /// What the index's tree holds.
    pub closed spec fn entries(&self) -> Map<Seq<u8>, Seq<u8>> {
        tree_entries(self.tree)
    }

    /// Where the tree is.
    pub closed spec fn place(&self) -> TreePlace {
        tree_place(self.tree)
    }

    /// The index that a tree holds.
    pub(crate) fn new(tree: sled::Tree) -> (s: HashIndex)
        ensures
            s.entries() == tree_entries(tree),
            s.place() == tree_place(tree),
    {
        HashIndex { tree }
    }

    /// Records that an entity has a value in a column.
    pub fn insert(&mut self, entity_type: &str, column: &str, value: &Value, id: EntityId) -> (r:
        Result<(), DbError>)
        ensures
            final(self).place() == old(self).place(),
            match r {
                Ok(_) => final(self).entries() == old(self).entries().insert(
                    index_key(entity_type@, column@, value@, id@),
                    Seq::empty(),
                ),
                Err(e) => e@ is Storage && between(
                    old(self).entries(),
                    old(self).entries().insert(
                        index_key(entity_type@, column@, value@, id@),
                        Seq::empty(),
                    ),
                    final(self).entries(),
                ),
            },
    {
        let mut key: Vec<u8> = value_prefix_of(entity_type, column, value);
        push_bytes(&mut key, id.as_slice());
        let nothing: Vec<u8> = Vec::new();
        assert(nothing@ =~= Seq::<u8>::empty());
        match kv::insert(&mut self.tree, key.as_slice(), nothing.as_slice()) {
            Ok(_) => Ok(()),
            Err(e) => Err(DbError::Storage(e)),
        }
    }

    /// Records that an entity no longer has a value in a column.
    pub fn remove(&mut self, entity_type: &str, column: &str, value: &Value, id: EntityId) -> (r:
        Result<(), DbError>)
        ensures
            final(self).place() == old(self).place(),
            match r {
                Ok(_) => final(self).entries() == old(self).entries().remove(
                    index_key(entity_type@, column@, value@, id@),
                ),
                Err(e) => e@ is Storage && between(
                    old(self).entries(),
                    old(self).entries().remove(index_key(entity_type@, column@, value@, id@)),
                    final(self).entries(),
                ),
            },
    {
        let mut key: Vec<u8> = value_prefix_of(entity_type, column, value);
        push_bytes(&mut key, id.as_slice());
        match kv::remove(&mut self.tree, key.as_slice()) {
            Ok(_) => Ok(()),
            Err(e) => Err(DbError::Storage(e)),
        }
    }

    /// Whether the index holds anything for a column.
    pub fn has_index(&self, entity_type: &str, column: &str) -> (r: Result<bool, DbError>)
        ensures
            match r {
                Ok(found) => found == column_indexed(self.entries(), entity_type@, column@),
                Err(e) => e@ is Storage,
            },
    {
        let prefix: Vec<u8> = column_prefix_of(entity_type, column);
        match kv::scan_prefix(&self.tree, prefix.as_slice()) {
            Ok(entries) => {
                assert(entries_view(entries@).len() == entries@.len());
                Ok(entries.len() > 0)
            },
            Err(e) => Err(DbError::Storage(e)),
        }
    }

    /// The entities that have a value in a column.
    pub fn lookup(&self, entity_type: &str, column: &str, value: &Value) -> (r: Result<
        Vec<EntityId>,
        DbError,
    >)
        ensures
            match r {
                Ok(ids) => lookup_outcome(self.entries(), entity_type@, column@, value@) == Ok::<
                    Seq<Seq<u8>>,
                    ErrorView,
                >(ids_view(ids@)),
                Err(e) => e@ is Storage || lookup_outcome(
                    self.entries(),
                    entity_type@,
                    column@,
                    value@,
                ) == Err::<Seq<Seq<u8>>, ErrorView>(e@),
            },
    {
        let prefix: Vec<u8> = value_prefix_of(entity_type, column, value);
        let entries: Vec<kv::Entry> = match kv::scan_prefix(&self.tree, prefix.as_slice()) {
            Ok(entries) => entries,
            Err(e) => {
                return Err(DbError::Storage(e));
            },
        };
        let ghost listing = entries_view(entries@);
        let mut ids: Vec<EntityId> = Vec::new();
        let mut i: usize = 0;
        assert(ids_view(ids@) =~= Seq::<Seq<u8>>::empty());
        assert(listing.take(0) =~= Seq::<(Seq<u8>, Seq<u8>)>::empty());
        while i < entries.len()
            invariant
                i <= entries@.len(),
                listing == entries_view(entries@),
                listing == prefix_listing(self.entries(), prefix@),
                prefix@ == value_prefix(entity_type@, column@, value@),
                forall|j: int|
                    0 <= j < listing.len() ==> kv::has_prefix(#[trigger] listing[j].0, prefix@),
                listed_ids(listing.take(i as int), prefix@.len()) == Ok::<Seq<Seq<u8>>, ErrorView>(
                    ids_view(ids@),
                ),
            decreases entries@.len() - i,
        {
            let ghost before = ids_view(ids@);
            let key: &Vec<u8> = &entries[i].0;
            proof {
                assert(listing[i as int].0 == key@);
                assert(listing.take(i + 1).drop_last() =~= listing.take(i as int));
                assert(listing.take(i + 1).last() == listing[i as int]);
            }
            if key.len() - prefix.len() != 16 {
                proof {
                    lemma_listed_ids_fails(listing, i + 1, prefix@.len());
                }
                return Err(DbError::InvalidKey);
            }
            let id: EntityId = read_id(key.as_slice(), prefix.len());
            assert(id@ =~= key@.skip(prefix@.len() as int));
            ids.push(id);
            i = i + 1;
            assert(ids_view(ids@) =~= before.push(id@));
        }
        assert(listing.take(listing.len() as int) =~= listing);
        Ok(ids)
    }
}

} // verus!
