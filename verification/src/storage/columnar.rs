//! The row projection that filtered queries read: for each entity of a type
//! the fields that it has now.

use vstd::prelude::*;

use crate::bytes::{read_id, EntityId};
use crate::codec::{
    decode_entity, encode_entity, entity_bytes, entity_outcome, fields_view, Field, FieldView,
};
use crate::error::{agrees, DbError, ErrorView};
use crate::storage::kv;
use crate::storage::kv::{between, entries_view, prefix_listing, tree_entries, tree_place};
use crate::storage::layout::{type_index_key, type_index_prefix, type_key, type_prefix};
use crate::storage::model::TreePlace;
use crate::text::str_eq;
use crate::value::{Value, ValueView};

verus! {

/// The projection's rows, under the keys of their entities.
pub struct ColumnarStore {
    tree: sled::Tree,
}

/// What a row scan yields: an entity and its fields, or why they cannot be read.
pub type RowItem = Result<(EntityId, Vec<Field>), DbError>;

/// A row item in mathematical terms.
pub type RowItemView = Result<(Seq<u8>, Seq<FieldView>), ErrorView>;

/// A row item in mathematical terms.
pub open spec fn row_item_view(item: RowItem) -> RowItemView {
    match item {
        Ok((id, fields)) => Ok((id@, fields_view(fields@))),
        Err(e) => Err(e@),
    }
}

/// What a stored row stands for.
pub open spec fn row_item(entry: (Seq<u8>, Seq<u8>), prefix_len: nat) -> RowItemView {
    if entry.0.len() != prefix_len + 16 {
        Err(ErrorView::InvalidKey)
    } else {
        match entity_outcome(entry.1) {
            Ok(fs) => Ok((entry.0.skip(prefix_len as int), fs)),
            Err(e) => Err(e),
        }
    }
}

/// The rows of a type, in the order of their identifiers.
pub open spec fn row_items(m: Map<Seq<u8>, Seq<u8>>, entity_type: Seq<char>) -> Seq<RowItemView> {
    let prefix = type_prefix(entity_type);
    prefix_listing(m, prefix).map_values(|e: (Seq<u8>, Seq<u8>)| row_item(e, prefix.len()))
}

/// The value that a name has among fields: the last one, where there are several.
pub open spec fn last_value(fs: Seq<FieldView>, name: Seq<char>) -> Option<ValueView>
    decreases fs.len(),
{
    if fs.len() == 0 {
        None
    } else if fs.last().0 == name {
        Some(fs.last().1)
    } else {
        last_value(fs.drop_last(), name)
    }
}

/// The value that a name has among fields: the last one, where there are several.
pub fn find_last<'a>(fields: &'a [Field], name: &str) -> (r: Option<&'a Value>)
    ensures
        r.deep_view() == last_value(fields_view(fields@), name@),
{
    let ghost fs = fields_view(fields@);
    let mut i: usize = fields.len();
    assert(fs.take(fs.len() as int) =~= fs);
    while i > 0
        invariant
            i <= fields@.len(),
            fs == fields_view(fields@),
            last_value(fs, name@) == last_value(fs.take(i as int), name@),
        decreases i,
    {
        proof {
            assert(fs.take(i as int).last() == fs[i - 1]);
            assert(fs.take(i as int).drop_last() =~= fs.take(i - 1));
        }
        i = i - 1;
        if str_eq(fields[i].0.as_str(), name) {
            return Some(&fields[i].1);
        }
    }
    None
}

/// What reading a column of an entity gives.
pub open spec fn column_outcome(
    m: Map<Seq<u8>, Seq<u8>>,
    entity_type: Seq<char>,
    id: Seq<u8>,
    column: Seq<char>,
) -> Result<Option<ValueView>, ErrorView> {
    let key = type_key(entity_type, id);
    if m.contains_key(key) {
        match entity_outcome(m[key]) {
            Ok(fs) => Ok(last_value(fs, column)),
            Err(e) => Err(e),
        }
    } else {
        Ok(None)
    }
}

impl ColumnarStore {
    /// What the projection's tree holds.
    pub closed spec fn entries(&self) -> Map<Seq<u8>, Seq<u8>> {
        tree_entries(self.tree)
    }

    /// Where the tree is.
    pub closed spec fn place(&self) -> TreePlace {
        tree_place(self.tree)
    }

    /// The projection that a tree holds.
    pub(crate) fn new(tree: sled::Tree) -> (s: ColumnarStore)
        ensures
            s.entries() == tree_entries(tree),
            s.place() == tree_place(tree),
    {
        ColumnarStore { tree }
    }

    /// Sets the fields of an entity.
    pub fn update_row(&mut self, entity_type: &str, id: &EntityId, fields: &[Field]) -> (r: Result<
        (),
        DbError,
    >)
        ensures
            final(self).place() == old(self).place(),
            match r {
                Ok(_) => final(self).entries() == old(self).entries().insert(
                    type_key(entity_type@, id@),
                    entity_bytes(fields_view(fields@)),
                ),
                Err(e) => e@ is Storage && between(
                    old(self).entries(),
                    old(self).entries().insert(
                        type_key(entity_type@, id@),
                        entity_bytes(fields_view(fields@)),
                    ),
                    final(self).entries(),
                ),
            },
    {
        let key: Vec<u8> = type_index_key(entity_type, id);
        let value: Vec<u8> = encode_entity(fields)?;
        match kv::insert(&mut self.tree, key.as_slice(), value.as_slice()) {
            Ok(_) => Ok(()),
            Err(e) => Err(DbError::Storage(e)),
        }
    }

    /// Takes the fields of an entity out.
    pub fn delete_row(&mut self, entity_type: &str, id: &EntityId) -> (r: Result<(), DbError>)
        ensures
            final(self).place() == old(self).place(),
            match r {
                Ok(_) => final(self).entries() == old(self).entries().remove(
                    type_key(entity_type@, id@),
                ),
                Err(e) => e@ is Storage && between(
                    old(self).entries(),
                    old(self).entries().remove(type_key(entity_type@, id@)),
                    final(self).entries(),
                ),
            },
    {
        let key: Vec<u8> = type_index_key(entity_type, id);
        match kv::remove(&mut self.tree, key.as_slice()) {
            Ok(_) => Ok(()),
            Err(e) => Err(DbError::Storage(e)),
        }
    }

    /// The value that an entity has in a column.
    pub fn get_column(&self, entity_type: &str, id: &EntityId, column: &str) -> (r: Result<
        Option<Value>,
        DbError,
    >)
        ensures
            agrees(r, column_outcome(self.entries(), entity_type@, id@, column@)),
    {
        let key: Vec<u8> = type_index_key(entity_type, id);
        let stored: Option<Vec<u8>> = match kv::get(&self.tree, key.as_slice()) {
            Ok(stored) => stored,
            Err(e) => {
                return Err(DbError::Storage(e));
            },
        };
        match stored {
            Some(bytes) => {
                let fields: Vec<Field> = decode_entity(bytes.as_slice())?;
                match find_last(fields.as_slice(), column) {
                    Some(v) => Ok(Some(v.copy())),
                    None => Ok(None),
                }
            },
            None => Ok(None),
        }
    }

    /// The rows of a type, in the order of their identifiers.
    pub fn scan_rows(&self, entity_type: &str) -> (r: Result<Vec<RowItem>, DbError>)
        ensures
            match r {
                Ok(items) => items@.map_values(|i: RowItem| row_item_view(i)) == row_items(
                    self.entries(),
                    entity_type@,
                ),
                Err(e) => e@ is Storage,
            },
    {
        let prefix: Vec<u8> = type_index_prefix(entity_type);
        let entries: Vec<kv::Entry> = match kv::scan_prefix(&self.tree, prefix.as_slice()) {
            Ok(entries) => entries,
            Err(e) => {
                return Err(DbError::Storage(e));
            },
        };
        let ghost listing = entries_view(entries@);
        let mut items: Vec<RowItem> = Vec::new();
        let mut i: usize = 0;
        while i < entries.len()
            invariant
                i <= entries@.len(),
                listing == entries_view(entries@),
                prefix@ == type_prefix(entity_type@),
                forall|j: int|
                    0 <= j < listing.len() ==> has_row_prefix(#[trigger] listing[j], prefix@),
                items@.len() == i,
                forall|j: int|
                    0 <= j < i ==> row_item_view(#[trigger] items@[j]) == row_item(
                        listing[j],
                        prefix@.len(),
                    ),
            decreases entries@.len() - i,
        {
            let entry: &kv::Entry = &entries[i];
            assert(listing[i as int] == (entry.0@, entry.1@));
            assert(has_row_prefix(listing[i as int], prefix@));
            let item: RowItem = if entry.0.len() - prefix.len() != 16 {
                Err(DbError::InvalidKey)
            } else {
                let id: EntityId = read_id(entry.0.as_slice(), prefix.len());
                assert(id@ =~= entry.0@.skip(prefix@.len() as int));
                match decode_entity(entry.1.as_slice()) {
                    Ok(fields) => Ok((id, fields)),
                    Err(e) => Err(e),
                }
            };
            items.push(item);
            i = i + 1;
        }
        assert(items@.map_values(|i: RowItem| row_item_view(i)) =~= row_items(
            self.entries(),
            entity_type@,
        ));
        Ok(items)
    }
}

/// Whether an entry's key begins with a prefix.
pub open spec fn has_row_prefix(entry: (Seq<u8>, Seq<u8>), prefix: Seq<u8>) -> bool {
    kv::has_prefix(entry.0, prefix)
}

} // verus!
