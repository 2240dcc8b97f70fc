//! The trees that hold the versions of all entities, the pointers to the latest ones,
//! and the entities of each type.

use vstd::prelude::*;

use crate::storage::kv;
use crate::storage::kv::{
    batch_entries, between, db_path, entries_view, lists, prefix_keys, prefix_listing, range_keys,
    range_listing, tree_entries, tree_place,
};
use crate::storage::model::{Bytes, TreePlace};

verus! {

/// The three trees. No two of them are one.
pub(crate) struct VersionTrees {
    data: sled::Tree,
    meta: sled::Tree,
    types: sled::Tree,
}

impl VersionTrees {
    #[verifier::type_invariant]
    spec fn apart(self) -> bool {
        &&& tree_place(self.data) != tree_place(self.meta)
        &&& tree_place(self.data) != tree_place(self.types)
        &&& tree_place(self.meta) != tree_place(self.types)
    }

    /// The versions.
    pub closed spec fn data(&self) -> Bytes {
        tree_entries(self.data)
    }

    /// The pointers.
    pub closed spec fn meta(&self) -> Bytes {
        tree_entries(self.meta)
    }

    /// The entities of each type.
    pub closed spec fn types(&self) -> Bytes {
        tree_entries(self.types)
    }

    /// Where the three trees are.
    pub closed spec fn places(&self) -> Seq<TreePlace> {
        seq![tree_place(self.data), tree_place(self.meta), tree_place(self.types)]
    }

    /// Opens the trees.
    pub fn open(db: &sled::Db) -> (r: Result<VersionTrees, sled::Error>)
        ensures
            r matches Ok(trees) ==> trees.places() == seq![
                (db_path(*db), "data"@),
                (db_path(*db), "meta"@),
                (db_path(*db), "index:entity_type"@),
            ],
    {
        let data: sled::Tree = kv::open_tree(db, "data")?;
        let meta: sled::Tree = kv::open_tree(db, "meta")?;
        let types: sled::Tree = kv::open_tree(db, "index:entity_type")?;
        proof {
            reveal_strlit("data");
            reveal_strlit("meta");
            reveal_strlit("index:entity_type");
            assert("data"@[0] != "meta"@[0]);
            assert("data"@.len() != "index:entity_type"@.len());
            assert("meta"@.len() != "index:entity_type"@.len());
        }
        Ok(VersionTrees { data, meta, types })
    }

    /// Sets a version.
    pub fn set_version(&mut self, key: &[u8], value: &[u8]) -> (r: Result<(), sled::Error>)
        ensures
            r is Ok ==> final(self).data() == old(self).data().insert(key@, value@),
            between(
                old(self).data(),
                old(self).data().insert(key@, value@),
                final(self).data(),
            ),
            final(self).meta() == old(self).meta(),
            final(self).types() == old(self).types(),
            final(self).places() == old(self).places(),
    {
        proof {
            use_type_invariant(&*self);
        }
        kv::insert(&mut self.data, key, value)
    }

    /// Sets a pointer.
    pub fn set_pointer(&mut self, key: &[u8], value: &[u8]) -> (r: Result<(), sled::Error>)
        ensures
            r is Ok ==> final(self).meta() == old(self).meta().insert(key@, value@),
            between(
                old(self).meta(),
                old(self).meta().insert(key@, value@),
                final(self).meta(),
            ),
            final(self).data() == old(self).data(),
            final(self).types() == old(self).types(),
            final(self).places() == old(self).places(),
    {
        proof {
            use_type_invariant(&*self);
        }
        kv::insert(&mut self.meta, key, value)
    }

    /// Notes an entity of a type.
    pub fn set_type(&mut self, key: &[u8], value: &[u8]) -> (r: Result<(), sled::Error>)
        ensures
            r is Ok ==> final(self).types() == old(self).types().insert(key@, value@),
            between(
                old(self).types(),
                old(self).types().insert(key@, value@),
                final(self).types(),
            ),
            final(self).data() == old(self).data(),
            final(self).meta() == old(self).meta(),
            final(self).places() == old(self).places(),
    {
        proof {
            use_type_invariant(&*self);
        }
        kv::insert(&mut self.types, key, value)
    }

    /// The version under a key.
    pub fn version(&self, key: &[u8]) -> (r: Result<Option<Vec<u8>>, sled::Error>)
        ensures
            r matches Ok(v) ==> match v {
                Some(value) => self.data().contains_key(key@) && self.data()[key@] == value@,
                None => !self.data().contains_key(key@),
            },
    {
        kv::get(&self.data, key)
    }

    /// The pointer under a key.
    pub fn pointer(&self, key: &[u8]) -> (r: Result<Option<Vec<u8>>, sled::Error>)
        ensures
            r matches Ok(v) ==> match v {
                Some(value) => self.meta().contains_key(key@) && self.meta()[key@] == value@,
                None => !self.meta().contains_key(key@),
            },
    {
        kv::get(&self.meta, key)
    }

    /// The versions between two keys, both included.
    pub fn version_range(&self, lo: &[u8], hi: &[u8]) -> (r: Result<Vec<kv::Entry>, sled::Error>)
        ensures
            r matches Ok(v) ==> {
                &&& entries_view(v@) == range_listing(self.data(), lo@, hi@)
                &&& lists(entries_view(v@), self.data(), range_keys(lo@, hi@))
            },
    {
        kv::range(&self.data, lo, hi)
    }

    /// The entities noted under a prefix.
    pub fn types_under(&self, prefix: &[u8]) -> (r: Result<Vec<kv::Entry>, sled::Error>)
        ensures
            r matches Ok(v) ==> {
                &&& entries_view(v@) == prefix_listing(self.types(), prefix@)
                &&& lists(entries_view(v@), self.types(), prefix_keys(prefix@))
            },
    {
        kv::scan_prefix(&self.types, prefix)
    }

    /// Makes the writes of three batches together.
    pub fn apply(&mut self, data: &sled::Batch, meta: &sled::Batch, types: &sled::Batch) -> (r:
        Result<(), sled::Error>)
        ensures
            r is Ok ==> final(self).data() == old(self).data().union_prefer_right(
                batch_entries(*data),
            ),
            r is Ok ==> final(self).meta() == old(self).meta().union_prefer_right(
                batch_entries(*meta),
            ),
            r is Ok ==> final(self).types() == old(self).types().union_prefer_right(
                batch_entries(*types),
            ),
            between(
                old(self).data(),
                old(self).data().union_prefer_right(batch_entries(*data)),
                final(self).data(),
            ),
            between(
                old(self).meta(),
                old(self).meta().union_prefer_right(batch_entries(*meta)),
                final(self).meta(),
            ),
            between(
                old(self).types(),
                old(self).types().union_prefer_right(batch_entries(*types)),
                final(self).types(),
            ),
            final(self).places() == old(self).places(),
    {
        proof {
            use_type_invariant(&*self);
        }
        kv::apply_batches(&mut self.data, &mut self.meta, &mut self.types, (data, meta, types))
    }
}

} // verus!
