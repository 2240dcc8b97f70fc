//! The storage engine: versions of entities, and the indexes over them.

use vstd::prelude::*;

use crate::bytes::{bytes_eq, id_eq, read_be, read_id, EntityId};
use crate::codec::{decode_entity, fields_view, parse_entity, Field, FieldView};
use crate::error::{agrees, collect, lemma_collect_fails, lemma_collect_step, DbError, ErrorView};
use crate::storage::btree_index::{BTreeIndex, IndexEntryView};
use crate::storage::columnar::{
    column_outcome, find_last, row_item_view, row_items, ColumnarStore, RowItem,
};
use crate::storage::hash_index::{column_indexed, ids_view, index_key, lookup_outcome, HashIndex};
use crate::storage::index_ops::{
    change_ops, distinct, distinct_texts, ops_view, plan_ops, touched, touched_names, IndexOp,
    IndexOpView,
};
use crate::storage::key::{current_timestamp, law_key_round_trip, ts_bytes, VersionedKey};
use crate::storage::kv;
use crate::storage::kv::{
    batch_entries, between, db_path, entries_view, prefix_keys, prefix_listing, tree_entries,
    tree_place, Entry,
};
use crate::storage::layout::{
    latest_key, latest_key_bytes, type_index_key, type_index_prefix, type_prefix,
};
use crate::storage::model::{
    agrees_until_failure, apply_btree, apply_hash, as_of_outcome, at_outcome, column_built,
    covered_columns, failed_at, get_outcome, id_of, indexed_ids, indexed_items, indexed_rows,
    latest_batch_outcome, latest_outcome, le_byte, listed_id, newest, newest_live, next_ts,
    nothing_reindexed, own_places, past_kept, pointed_outcome, pointer_outcome, pointers_outcome,
    present, put_outcome, put_typed_view, put_view, read_outcome, reindexed, reindexed_only,
    scan_batch_outcome, scan_item_view, scan_outcome, scan_view, schema_key, stored_outcome, taken,
    taken_error, version_outcome, versions_until, with_pending, with_row, without_row, EntryView,
    ScanItem, ScanItemView, StoreView, When,
};
use crate::storage::record::{tombstone, Record, RecordView};
use crate::storage::version_trees::VersionTrees;
use crate::text::{str_eq, texts};
use crate::value::Value;

verus! {

/// Where the store is kept.
#[derive(Debug)]
pub struct StorageConfig {
    path: Option<String>,
}

impl StorageConfig {
    /// The directory, where there is one.
    pub closed spec fn view(&self) -> Option<Seq<char>> {
        match self.path {
            Some(p) => Some(p@),
            None => None,
        }
    }

    /// A store in a directory.
    pub fn new(path: &str) -> (c: StorageConfig)
        ensures
            c.view() == Some(path@),
    {
        StorageConfig { path: Some(path.to_owned()) }
    }

    /// A store that is gone when it is closed.
    pub fn temporary() -> (c: StorageConfig)
        ensures
            c.view() is None,
    {
        StorageConfig { path: None }
    }

    /// The directory, where there is one.
    pub fn path(&self) -> (p: Option<&str>)
        ensures
            p.deep_view() == self.view(),
    {
        match &self.path {
            Some(p) => Some(p.as_str()),
            None => None,
        }
    }
}

/// The storage engine.
pub struct StorageEngine {
    db: sled::Db,
    trees: VersionTrees,
    columnar: ColumnarStore,
    hash_index: HashIndex,
    btree_index: Option<BTreeIndex>,
    btree_indexed_columns: Vec<(String, String)>,
    watermark: u64,
    projection_stale: bool,
    log_tree: sled::Tree,
    catalog_tree: sled::Tree,
}

/// What stored bytes say of a version.
pub fn live_record(stored: Option<Vec<u8>>) -> (r: Result<Option<Record>, DbError>)
    ensures
        match r {
            Ok(found) => stored_outcome(bytes_view(stored)) == Ok::<Option<RecordView>, ErrorView>(
                found.deep_view(),
            ),
            Err(e) => stored_outcome(bytes_view(stored)) == Err::<Option<RecordView>, ErrorView>(e@),
        },
{
    match stored {
        Some(bytes) => {
            let record: Record = Record::from_bytes(bytes.as_slice())?;
            if record.deleted {
                Ok(None)
            } else {
                Ok(Some(record))
            }
        },
        None => Ok(None),
    }
}

/// Bytes that may be missing, in mathematical terms.
pub open spec fn bytes_view(stored: Option<Vec<u8>>) -> Option<Seq<u8>> {
    match stored {
        Some(b) => Some(b@),
        None => None,
    }
}

/// What stored bytes say of the latest version.
pub fn version_pointer(stored: Option<Vec<u8>>) -> (r: Result<Option<u64>, DbError>)
    ensures
        match r {
            Ok(found) => pointer_outcome(bytes_view(stored)) == Ok::<Option<u64>, ErrorView>(found),
            Err(e) => pointer_outcome(bytes_view(stored)) == Err::<Option<u64>, ErrorView>(e@),
        },
{
    match stored {
        Some(bytes) => {
            if bytes.len() != 8 {
                return Err(DbError::InvalidData("malformed version pointer".to_owned()));
            }
            assert(bytes@.subrange(0, 8) =~= bytes@);
            Ok(Some(read_be(bytes.as_slice(), 0, 8)))
        },
        None => Ok(None),
    }
}

/// The newest live version among stored versions.
pub fn newest_live_version(entries: &Vec<Entry>, id: &EntityId) -> (r: Result<
    Option<(u64, Record)>,
    DbError,
>)
    ensures
        match r {
            Ok(found) => newest_live(entries_view(entries@), id@) == Ok::<
                Option<(u64, RecordView)>,
                ErrorView,
            >(found.deep_view()),
            Err(e) => newest_live(entries_view(entries@), id@) == Err::<
                Option<(u64, RecordView)>,
                ErrorView,
            >(e@),
        },
{
    let ghost l = entries_view(entries@);
    let mut i: usize = entries.len();
    assert(l.take(l.len() as int) =~= l);
    while i > 0
        invariant
            i <= entries@.len(),
            l == entries_view(entries@),
            newest_live(l, id@) == newest_live(l.take(i as int), id@),
        decreases i,
    {
        proof {
            assert(l.take(i as int).last() == l[i - 1]);
            assert(l.take(i as int).drop_last() =~= l.take(i - 1));
        }
        i = i - 1;
        let entry: &Entry = &entries[i];
        let key: VersionedKey = match VersionedKey::decode(entry.0.as_slice()) {
            Some(key) => key,
            None => {
                return Err(DbError::InvalidKey);
            },
        };
        if id_eq(&key.entity_id, id) {
            let record: Record = Record::from_bytes(entry.1.as_slice())?;
            if !record.deleted {
                return Ok(Some((key.version_ts, record)));
            }
        }
    }
    Ok(None)
}

/// The newest version among stored versions; none where it marks a deletion.
pub fn newest_version(entries: &Vec<Entry>, id: &EntityId) -> (r: Result<
    Option<(u64, Record)>,
    DbError,
>)
    ensures
        match r {
            Ok(found) => newest(entries_view(entries@), id@) == Ok::<
                Option<(u64, RecordView)>,
                ErrorView,
            >(found.deep_view()),
            Err(e) => newest(entries_view(entries@), id@) == Err::<
                Option<(u64, RecordView)>,
                ErrorView,
            >(e@),
        },
{
    let ghost l = entries_view(entries@);
    if entries.len() == 0 {
        return Ok(None);
    }
    let entry: &Entry = &entries[entries.len() - 1];
    assert(l.last() == (entry.0@, entry.1@));
    let key: VersionedKey = match VersionedKey::decode(entry.0.as_slice()) {
        Some(key) => key,
        None => {
            return Err(DbError::InvalidKey);
        },
    };
    if !id_eq(&key.entity_id, id) {
        return Ok(None);
    }
    let record: Record = Record::from_bytes(entry.1.as_slice())?;
    if record.deleted {
        return Ok(None);
    }
    Ok(Some((key.version_ts, record)))
}

/// Whether an identifier is among the first of a list.
pub fn id_among(ids: &[EntityId], count: usize, id: &EntityId) -> (found: bool)
    requires
        count <= ids@.len(),
    ensures
        found == ids_view(ids@).take(count as int).contains(id@),
{
    let ghost head = ids_view(ids@).take(count as int);
    let mut i: usize = 0;
    while i < count
        invariant
            i <= count <= ids@.len(),
            head == ids_view(ids@).take(count as int),
            forall|j: int| 0 <= j < i ==> head[j] != id@,
        decreases count - i,
    {
        assert(head[i as int] == ids@[i as int]@);
        if id_eq(&ids[i], id) {
            return true;
        }
        i = i + 1;
    }
    false
}

/// The identifiers and those that are pending and not yet among them.
pub fn merge_pending(ids: Vec<EntityId>, pending: &[EntityId]) -> (out: Vec<EntityId>)
    ensures
        ids_view(out@) == with_pending(ids_view(ids@), ids_view(pending@)),
{
    let ghost committed = ids_view(ids@);
    let ghost extra = ids_view(pending@);
    let ghost fresh = |id: Seq<u8>| !committed.contains(id);
    let count: usize = ids.len();
    let mut out: Vec<EntityId> = ids;
    let mut i: usize = 0;
    proof {
        reveal(Seq::filter);
        assert(extra.take(0) =~= Seq::<Seq<u8>>::empty());
        assert(ids_view(out@) =~= committed + extra.take(0).filter(fresh));
    }
    while i < pending.len()
        invariant
            i <= pending@.len(),
            count == committed.len(),
            extra == ids_view(pending@),
            fresh == (|id: Seq<u8>| !committed.contains(id)),
            ids_view(out@) == committed + extra.take(i as int).filter(fresh),
        decreases pending@.len() - i,
    {
        let id: EntityId = pending[i];
        let ghost before = ids_view(out@);
        proof {
            reveal(Seq::filter);
            assert(extra.take(i + 1).drop_last() =~= extra.take(i as int));
            assert(extra.take(i + 1).last() == id@);
        }
        assert(before.len() == out@.len());
        let known: bool = id_among(out.as_slice(), count, &id);
        assert(before.take(count as int) =~= committed);
        if !known {
            out.push(id);
            assert(ids_view(out@) =~= before.push(id@));
        }
        i = i + 1;
        assert(ids_view(out@) =~= committed + extra.take(i as int).filter(fresh));
    }
    assert(extra.take(extra.len() as int) =~= extra);
    out
}

fn le_byte_of(n: u64, i: usize) -> (b: u8)
    ensures
        b == le_byte(n, i as int),
    decreases i,
{
    if i == 0 {
        (n % 256) as u8
    } else {
        le_byte_of(n / 256, i - 1)
    }
}

impl View for StorageEngine {
    type V = StoreView;

    closed spec fn view(&self) -> StoreView {
        StoreView {
            data: self.trees.data(),
            meta: self.trees.meta(),
            types: self.trees.types(),
            columnar: self.columnar.entries(),
            hash: self.hash_index.entries(),
            btree: match self.btree_index {
                Some(b) => Some(b.entries()),
                None => None,
            },
            btree_columns: self.btree_indexed_columns@.map_values(
                |c: (String, String)| (c.0@, c.1@),
            ),
            watermark: self.watermark,
            projection_stale: self.projection_stale,
            log_state: tree_entries(self.log_tree),
            catalog: tree_entries(self.catalog_tree),
            path: db_path(self.db),
            places: self.trees.places() + seq![
                self.columnar.place(),
                self.hash_index.place(),
                tree_place(self.log_tree),
                tree_place(self.catalog_tree),
            ],
        }
    }
}

/// Whether nothing but the versions, their pointers and the type index differ.
pub open spec fn indexes_kept(a: StoreView, b: StoreView) -> bool {
    a == (StoreView { data: a.data, meta: a.meta, types: a.types, ..b })
}

/// Whether writes have been made in part: nothing but the versions, their pointers and
/// the type index differ, and each key of them is as before or as it was to be.
pub open spec fn partly_written(before: StoreView, done: StoreView, after: StoreView) -> bool {
    &&& indexes_kept(after, before)
    &&& between(before.data, done.data, after.data)
    &&& between(before.meta, done.meta, after.meta)
    &&& between(before.types, done.types, after.types)
}

/// Whether nothing but the indexes and the row projection differ.
pub open spec fn versions_kept(a: StoreView, b: StoreView) -> bool {
    a == (StoreView { hash: a.hash, btree: a.btree, columnar: a.columnar, ..b })
}

impl StorageEngine {
    /// Opens the store.
    pub fn open(config: StorageConfig) -> (r: Result<StorageEngine, DbError>)
        ensures
            match r {
                Ok(engine) => {
                    &&& engine@.path == config.view()
                    &&& engine@.places == own_places(config.view())
                    &&& engine@.watermark == 0
                    &&& !engine@.projection_stale
                    &&& engine@.btree_columns == Seq::<(Seq<char>, Seq<char>)>::empty()
                    &&& engine@.btree == if config.view() is Some {
                        Some(Seq::<IndexEntryView>::empty())
                    } else {
                        None
                    }
                },
                Err(e) => e@ is Storage,
            },
    {
        let temporary: bool = config.path().is_none();
        let db: sled::Db = match kv::open_database(config.path(), temporary) {
            Ok(db) => db,
            Err(e) => {
                return Err(DbError::Storage(e));
            },
        };
        let trees: VersionTrees = match VersionTrees::open(&db) {
            Ok(trees) => trees,
            Err(e) => {
                return Err(DbError::Storage(e));
            },
        };
        let columnar_tree: sled::Tree = match kv::open_tree(&db, "columnar") {
            Ok(tree) => tree,
            Err(e) => {
                return Err(DbError::Storage(e));
            },
        };
        let hash_tree: sled::Tree = match kv::open_tree(&db, "index:hash") {
            Ok(tree) => tree,
            Err(e) => {
                return Err(DbError::Storage(e));
            },
        };
        let log_tree: sled::Tree = match kv::open_tree(&db, "raft_sm_state") {
            Ok(tree) => tree,
            Err(e) => {
                return Err(DbError::Storage(e));
            },
        };
        let catalog_tree: sled::Tree = match kv::open_tree(&db, "catalog") {
            Ok(tree) => tree,
            Err(e) => {
                return Err(DbError::Storage(e));
            },
        };
        let btree_index: Option<BTreeIndex> = if temporary {
            None
        } else {
            Some(BTreeIndex::new())
        };
        let engine = StorageEngine {
            db,
            trees,
            columnar: ColumnarStore::new(columnar_tree),
            hash_index: HashIndex::new(hash_tree),
            btree_index,
            btree_indexed_columns: Vec::new(),
            watermark: 0,
            projection_stale: false,
            log_tree,
            catalog_tree,
        };
        assert(engine@.btree_columns =~= Seq::<(Seq<char>, Seq<char>)>::empty());
        assert(engine@.places =~= own_places(config.view()));
        Ok(engine)
    }

    /// The highest commit timestamp that is safe to read at.
    pub fn read_watermark(&self) -> (ts: u64)
        ensures
            ts == self@.watermark,
    {
        self.watermark
    }

    /// Advances the watermark at a given time: to that time, or just past the
    /// watermark where it is there already.
    pub fn tick_watermark_at(&mut self, now: u64) -> (ts: u64)
        requires
            old(self)@.watermark < u64::MAX,
        ensures
            ts == next_ts(old(self)@.watermark, now),
            final(self)@ == (StoreView { watermark: ts, ..old(self)@ }),
    {
        let ts: u64 = if now > self.watermark {
            now
        } else {
            self.watermark + 1
        };
        self.watermark = ts;
        ts
    }

    /// Advances the watermark to at least the current time.
    pub fn tick_watermark(&mut self) -> (ts: u64)
        requires
            old(self)@.watermark < u64::MAX,
        ensures
            ts > old(self)@.watermark,
            final(self)@ == (StoreView { watermark: ts, ..old(self)@ }),
    {
        self.tick_watermark_at(current_timestamp())
    }

    /// Advances the watermark to a timestamp, never backwards.
    pub fn advance_watermark_to(&mut self, ts: u64)
        ensures
            final(self)@ == (StoreView {
                watermark: if ts > old(self)@.watermark { ts } else { old(self)@.watermark },
                ..old(self)@
            }),
    {
        if ts > self.watermark {
            self.watermark = ts;
        }
    }

    /// Whether the database was there before it was opened.
    pub fn was_recovered(&self) -> (r: bool) {
        kv::was_recovered(&self.db)
    }

    /// What is kept of the replicated log under a key.
    pub(crate) fn log_entry(&self, key: &[u8]) -> (r: Result<Option<Vec<u8>>, sled::Error>)
        ensures
            r matches Ok(v) ==> match v {
                Some(value) => self@.log_state.contains_key(key@) && self@.log_state[key@]
                    == value@,
                None => !self@.log_state.contains_key(key@),
            },
    {
        kv::get(&self.log_tree, key)
    }

    /// Keeps something of the replicated log under a key.
    pub(crate) fn keep_log_entry(&mut self, key: &[u8], value: &[u8]) -> (r: Result<
        (),
        sled::Error,
    >)
        ensures
            final(self)@ == (StoreView { log_state: final(self)@.log_state, ..old(self)@ }),
            r is Ok ==> final(self)@.log_state == old(self)@.log_state.insert(key@, value@),
            between(
                old(self)@.log_state,
                old(self)@.log_state.insert(key@, value@),
                final(self)@.log_state,
            ),
    {
        kv::insert(&mut self.log_tree, key, value)
    }

    /// Writes to disk what is kept of the replicated log.
    pub(crate) fn flush_log(&self) -> (r: Result<usize, sled::Error>) {
        kv::flush_tree(&self.log_tree)
    }

    /// Writes the schema down, in bytes that stand for it.
    pub fn keep_schema(&mut self, schema: &[u8]) -> (r: Result<(), DbError>)
        ensures
            match r {
                Ok(_) => final(self)@ == (StoreView {
                    catalog: old(self)@.catalog.insert(schema_key(), schema@),
                    ..old(self)@
                }),
                Err(e) => e@ is Storage && final(self)@ == (StoreView {
                    catalog: final(self)@.catalog,
                    ..old(self)@
                }) && between(
                    old(self)@.catalog,
                    old(self)@.catalog.insert(schema_key(), schema@),
                    final(self)@.catalog,
                ),
            },
    {
        let key: [u8; 6] = [0x73, 0x63, 0x68, 0x65, 0x6d, 0x61];
        assert(key@ =~= schema_key());
        match kv::insert(&mut self.catalog_tree, &key, schema) {
            Ok(_) => Ok(()),
            Err(e) => Err(DbError::Storage(e)),
        }
    }

    /// The schema that was written down last, where one was.
    pub fn kept_schema(&self) -> (r: Result<Option<Vec<u8>>, DbError>)
        ensures
            match r {
                Ok(schema) => schema.deep_view() == self@.catalog.get(schema_key()),
                Err(e) => e@ is Storage,
            },
    {
        let key: [u8; 6] = [0x73, 0x63, 0x68, 0x65, 0x6d, 0x61];
        assert(key@ =~= schema_key());
        match kv::get(&self.catalog_tree, &key) {
            Ok(schema) => {
                assert(schema.deep_view() =~= self@.catalog.get(schema_key()));
                Ok(schema)
            },
            Err(e) => Err(DbError::Storage(e)),
        }
    }

    /// Writes to disk what is still in memory.
    pub fn flush(&self) -> (r: Result<(), DbError>)
        ensures
            r matches Err(e) ==> e@ is Storage,
    {
        match kv::flush(&self.db) {
            Ok(_) => Ok(()),
            Err(e) => Err(DbError::Storage(e)),
        }
    }

    /// The size of the database on disk, in bytes.
    pub fn size_on_disk(&self) -> (r: Result<u64, DbError>)
        ensures
            r matches Err(e) ==> e@ is Storage,
    {
        match kv::size_on_disk(&self.db) {
            Ok(size) => Ok(size),
            Err(e) => Err(DbError::Storage(e)),
        }
    }

    /// The identifier that a time and a counter give.
    pub fn generate_id(now: u64, counter: u64) -> (id: EntityId)
        ensures
            id@ == id_of(now, counter),
    {
        let mut id: EntityId = [0u8; 16];
        let mut i: usize = 0;
        while i < 8
            invariant
                i <= 8,
                forall|j: int| 0 <= j < i ==> #[trigger] id@[j] == le_byte(now, j),
            decreases 8 - i,
        {
            id[i] = le_byte_of(now, i);
            i = i + 1;
        }
        while i < 16
            invariant
                8 <= i <= 16,
                forall|j: int| 0 <= j < 8 ==> #[trigger] id@[j] == le_byte(now, j),
                forall|j: int| 8 <= j < i ==> #[trigger] id@[j] == le_byte(counter, j - 8),
            decreases 16 - i,
        {
            id[i] = le_byte_of(counter, i - 8);
            i = i + 1;
        }
        let a: u8 = id[6];
        let b: u8 = id[8];
        let c: u8 = id[7];
        id[6] = (a & 0x0f) | 0x40;
        id[7] = (c & 0x3f) | (b & 0xc0);
        id[8] = (b & 0x3f) | 0x80;
        assert((a & 0x0f) | 0x40 == (a % 16 + 64) as u8) by (bit_vector);
        assert((b & 0x3f) | 0x80 == (b % 64 + 128) as u8) by (bit_vector);
        assert((c & 0x3f) | (b & 0xc0) == (c % 64 + 64 * (b / 64)) as u8) by (bit_vector);
        assert(id@ =~= id_of(now, counter));
        id
    }

    /// Writes a version, over the one that is there under its key if there is one.
    pub(crate) fn write_version(&mut self, key: VersionedKey, record: Record) -> (r: Result<(), DbError>)
        ensures
            match r {
                Ok(_) => final(self)@ == put_view(
                    old(self)@,
                    key.entity_id@,
                    key.version_ts,
                    record@,
                ),
                Err(e) => e@ is Storage && partly_written(
                    old(self)@,
                    put_view(old(self)@, key.entity_id@, key.version_ts, record@),
                    final(self)@,
                ),
            },
            past_kept(final(self)@.data, old(self)@.data, key.version_ts),
    {
        proof {
            law_key_round_trip(key.entity_id@, key.version_ts);
        }
        let key_bytes: Vec<u8> = key.encode();
        let value_bytes: Vec<u8> = record.to_bytes();
        match self.trees.set_version(key_bytes.as_slice(), value_bytes.as_slice()) {
            Ok(_) => {},
            Err(e) => {
                return Err(DbError::Storage(e));
            },
        }
        self.update_latest(&key.entity_id, key.version_ts)
    }

    /// Refuses a version that is there already and holds something else.
    fn refuse_taken(&self, key: &VersionedKey, record: &Record) -> (r: Result<(), DbError>)
        ensures
            match r {
                Ok(_) => !taken(self@, key.entity_id@, key.version_ts, record@),
                Err(e) => e@ is Storage || (taken(
                    self@,
                    key.entity_id@,
                    key.version_ts,
                    record@,
                ) && e@ == taken_error()),
            },
    {
        let key_bytes: Vec<u8> = key.encode();
        match self.trees.version(key_bytes.as_slice()) {
            Err(e) => Err(DbError::Storage(e)),
            Ok(None) => Ok(()),
            Ok(Some(stored)) => {
                let value_bytes: Vec<u8> = record.to_bytes();
                if bytes_eq(stored.as_slice(), value_bytes.as_slice()) {
                    Ok(())
                } else {
                    Err(DbError::InvalidData("version already exists".to_owned()))
                }
            },
        }
    }

    /// Puts a new version of an entity. A version that is there already is never
    /// overwritten: a put that would give it something else to hold is refused.
    pub fn put(&mut self, key: VersionedKey, record: Record) -> (r: Result<(), DbError>)
        ensures
            match put_outcome(old(self)@, key.entity_id@, key.version_ts, record@) {
                Ok(after) => match r {
                    Ok(_) => final(self)@ == after,
                    Err(e) => e@ is Storage && partly_written(old(self)@, after, final(self)@),
                },
                Err(x) => r matches Err(e) && (e@ is Storage || e@ == x) && final(self)@ == old(
                    self,
                )@,
            },
    {
        self.refuse_taken(&key, &record)?;
        self.write_version(key, record)
    }

    fn update_latest(&mut self, entity_id: &EntityId, version_ts: u64) -> (r: Result<(), DbError>)
        ensures
            match r {
                Ok(_) => final(self)@ == (StoreView {
                    meta: old(self)@.meta.insert(
                        latest_key_bytes(entity_id@),
                        ts_bytes(version_ts),
                    ),
                    ..old(self)@
                }),
                Err(e) => e@ is Storage && final(self)@ == (StoreView {
                    meta: final(self)@.meta,
                    ..old(self)@
                }) && between(
                    old(self)@.meta,
                    old(self)@.meta.insert(latest_key_bytes(entity_id@), ts_bytes(version_ts)),
                    final(self)@.meta,
                ),
            },
    {
        let latest: Vec<u8> = latest_key(entity_id);
        let mut ts: Vec<u8> = Vec::new();
        crate::bytes::push_be(&mut ts, version_ts, 8);
        assert(ts@ =~= ts_bytes(version_ts));
        match self.trees.set_pointer(latest.as_slice(), ts.as_slice()) {
            Ok(_) => Ok(()),
            Err(e) => Err(DbError::Storage(e)),
        }
    }

    /// The version of an entity at a timestamp; none where there is none or it
    /// marks a deletion.
    pub fn get(&self, entity_id: &EntityId, version_ts: u64) -> (r: Result<Option<Record>, DbError>)
        ensures
            agrees(r, get_outcome(self@.data, entity_id@, version_ts)),
    {
        let key: Vec<u8> = VersionedKey::new(*entity_id, version_ts).encode();
        match self.trees.version(key.as_slice()) {
            Ok(stored) => live_record(stored),
            Err(e) => Err(DbError::Storage(e)),
        }
    }

    fn latest_version(&self, entity_id: &EntityId) -> (r: Result<Option<u64>, DbError>)
        ensures
            agrees(r, pointer_outcome(self@.meta.get(latest_key_bytes(entity_id@)))),
    {
        let key: Vec<u8> = latest_key(entity_id);
        match self.trees.pointer(key.as_slice()) {
            Ok(stored) => version_pointer(stored),
            Err(e) => Err(DbError::Storage(e)),
        }
    }

    fn get_pointed(&self, entity_id: &EntityId, pointer: Option<u64>) -> (r: Result<
        Option<(u64, Record)>,
        DbError,
    >)
        ensures
            agrees(r, pointed_outcome(self@.data, entity_id@, pointer)),
    {
        match pointer {
            Some(ts) => match self.get(entity_id, ts) {
                Ok(Some(record)) => Ok(Some((ts, record))),
                Ok(None) => Ok(None),
                Err(e) => Err(e),
            },
            None => Ok(None),
        }
    }

    /// The latest version of an entity.
    pub fn get_latest(&self, entity_id: &EntityId) -> (r: Result<Option<(u64, Record)>, DbError>)
        ensures
            agrees(r, latest_outcome(self@, entity_id@)),
    {
        match self.latest_version(entity_id) {
            Ok(pointer) => self.get_pointed(entity_id, pointer),
            Err(e) => Err(e),
        }
    }

    /// The latest versions of several entities, in the order asked for.
    pub fn get_latest_batch(&self, entity_ids: &[EntityId]) -> (r: Result<
        Vec<Option<(u64, Record)>>,
        DbError,
    >)
        ensures
            agrees(r, latest_batch_outcome(self@, ids_view(entity_ids@))),
            entity_ids@.len() == 0 ==> r is Ok,
    {
        let ghost ids = ids_view(entity_ids@);
        let ghost wanted = ids.map_values(
            |id: Seq<u8>| pointer_outcome(self@.meta.get(latest_key_bytes(id))),
        );
        let mut pointers: Vec<Option<u64>> = Vec::new();
        let mut i: usize = 0;
        assert(wanted.take(0) =~= Seq::<Result<Option<u64>, ErrorView>>::empty());
        assert(pointers@ =~= Seq::<Option<u64>>::empty());
        while i < entity_ids.len()
            invariant
                i <= entity_ids@.len(),
                ids == ids_view(entity_ids@),
                wanted == ids.map_values(
                    |id: Seq<u8>| pointer_outcome(self@.meta.get(latest_key_bytes(id))),
                ),
                collect(wanted.take(i as int)) == Ok::<Seq<Option<u64>>, ErrorView>(pointers@),
            decreases entity_ids@.len() - i,
        {
            proof {
                lemma_collect_step(wanted, i as int);
                assert(wanted[i as int] == pointer_outcome(
                    self@.meta.get(latest_key_bytes(entity_ids@[i as int]@)),
                ));
            }
            match self.latest_version(&entity_ids[i]) {
                Ok(pointer) => {
                    pointers.push(pointer);
                },
                Err(e) => {
                    proof {
                        if !(e@ is Storage) {
                            lemma_collect_fails(wanted, i + 1);
                        }
                    }
                    return Err(e);
                },
            }
            i = i + 1;
        }
        assert(wanted.take(wanted.len() as int) =~= wanted);
        proof {
            crate::error::lemma_collect_ok(wanted);
        }
        let ghost second = Seq::new(
            ids.len(),
            |j: int| pointed_outcome(self@.data, ids[j], pointers@[j]),
        );
        let mut out: Vec<Option<(u64, Record)>> = Vec::new();
        let mut i: usize = 0;
        assert(second.take(0) =~= Seq::<Result<Option<(u64, RecordView)>, ErrorView>>::empty());
        assert(out.deep_view() =~= Seq::<Option<(u64, RecordView)>>::empty());
        while i < entity_ids.len()
            invariant
                i <= entity_ids@.len() == pointers@.len(),
                ids == ids_view(entity_ids@),
                latest_batch_outcome(self@, ids) == collect(second),
                second == Seq::new(
                    ids.len(),
                    |j: int| pointed_outcome(self@.data, ids[j], pointers@[j]),
                ),
                collect(second.take(i as int)) == Ok::<Seq<Option<(u64, RecordView)>>, ErrorView>(
                    out.deep_view(),
                ),
            decreases entity_ids@.len() - i,
        {
            let ghost before = out.deep_view();
            proof {
                lemma_collect_step(second, i as int);
                assert(second[i as int] == pointed_outcome(
                    self@.data,
                    entity_ids@[i as int]@,
                    pointers@[i as int],
                ));
            }
            match self.get_pointed(&entity_ids[i], pointers[i]) {
                Ok(found) => {
                    out.push(found);
                    assert(out.deep_view() =~= before.push(found.deep_view()));
                },
                Err(e) => {
                    proof {
                        if !(e@ is Storage) {
                            lemma_collect_fails(second, i + 1);
                        }
                    }
                    return Err(e);
                },
            }
            i = i + 1;
        }
        assert(second.take(second.len() as int) =~= second);
        Ok(out)
    }

    fn versions_up_to(&self, entity_id: &EntityId, ts: u64) -> (r: Result<Vec<Entry>, DbError>)
        ensures
            match r {
                Ok(entries) => entries_view(entries@) == versions_until(
                    self@.data,
                    entity_id@,
                    ts,
                ),
                Err(e) => e@ is Storage,
            },
    {
        let lo: Vec<u8> = VersionedKey::min_for_entity(*entity_id).encode();
        let hi: Vec<u8> = VersionedKey::new(*entity_id, ts).encode();
        match self.trees.version_range(lo.as_slice(), hi.as_slice()) {
            Ok(entries) => Ok(entries),
            Err(e) => Err(DbError::Storage(e)),
        }
    }

    /// The newest live version of an entity at or before a timestamp.
    pub fn get_at(&self, entity_id: &EntityId, at_ts: u64) -> (r: Result<
        Option<(u64, Record)>,
        DbError,
    >)
        ensures
            agrees(r, at_outcome(self@.data, entity_id@, at_ts)),
    {
        match self.versions_up_to(entity_id, at_ts) {
            Ok(entries) => newest_live_version(&entries, entity_id),
            Err(e) => Err(e),
        }
    }

    /// The state of an entity as of a timestamp: its newest version at or before
    /// it, and none where that version marks a deletion.
    pub fn get_as_of(&self, entity_id: &EntityId, read_ts: u64) -> (r: Result<
        Option<(u64, Record)>,
        DbError,
    >)
        ensures
            agrees(r, as_of_outcome(self@.data, entity_id@, read_ts)),
    {
        match self.versions_up_to(entity_id, read_ts) {
            Ok(entries) => newest_version(&entries, entity_id),
            Err(e) => Err(e),
        }
    }

    /// The states of several entities as of a timestamp, in the order asked for.
    pub fn get_as_of_batch(&self, entity_ids: &[EntityId], read_ts: u64) -> (r: Result<
        Vec<Option<(u64, Record)>>,
        DbError,
    >)
        ensures
            agrees(
                r,
                collect(
                    ids_view(entity_ids@).map_values(
                        |id: Seq<u8>| as_of_outcome(self@.data, id, read_ts),
                    ),
                ),
            ),
            entity_ids@.len() == 0 ==> r is Ok,
    {
        let ghost wanted = ids_view(entity_ids@).map_values(
            |id: Seq<u8>| as_of_outcome(self@.data, id, read_ts),
        );
        let mut out: Vec<Option<(u64, Record)>> = Vec::new();
        let mut i: usize = 0;
        assert(wanted.take(0) =~= Seq::<Result<Option<(u64, RecordView)>, ErrorView>>::empty());
        assert(out.deep_view() =~= Seq::<Option<(u64, RecordView)>>::empty());
        while i < entity_ids.len()
            invariant
                i <= entity_ids@.len(),
                wanted == ids_view(entity_ids@).map_values(
                    |id: Seq<u8>| as_of_outcome(self@.data, id, read_ts),
                ),
                collect(wanted.take(i as int)) == Ok::<Seq<Option<(u64, RecordView)>>, ErrorView>(
                    out.deep_view(),
                ),
            decreases entity_ids@.len() - i,
        {
            let ghost before = out.deep_view();
            proof {
                lemma_collect_step(wanted, i as int);
                assert(wanted[i as int] == as_of_outcome(
                    self@.data,
                    entity_ids@[i as int]@,
                    read_ts,
                ));
            }
            match self.get_as_of(&entity_ids[i], read_ts) {
                Ok(found) => {
                    out.push(found);
                    assert(out.deep_view() =~= before.push(found.deep_view()));
                },
                Err(e) => {
                    proof {
                        if !(e@ is Storage) {
                            lemma_collect_fails(wanted, i + 1);
                        }
                    }
                    return Err(e);
                },
            }
            i = i + 1;
        }
        assert(wanted.take(wanted.len() as int) =~= wanted);
        Ok(out)
    }

    fn read_at(&self, entity_id: &EntityId, when: When) -> (r: Result<
        Option<(u64, Record)>,
        DbError,
    >)
        ensures
            agrees(r, read_outcome(self@, entity_id@, when)),
    {
        match when {
            When::Latest => self.get_latest(entity_id),
            When::AsOf(ts) => self.get_as_of(entity_id, ts),
        }
    }

    fn index_entries(&self, entity_type: &str) -> (r: Result<Vec<Entry>, DbError>)
        ensures
            match r {
                Ok(entries) => {
                    &&& entries_view(entries@) == prefix_listing(
                        self@.types,
                        type_prefix(entity_type@),
                    )
                    &&& forall|i: int|
                        0 <= i < entries@.len() ==> (#[trigger] entries@[i]).0@.len()
                            >= type_prefix(entity_type@).len()
                },
                Err(e) => e@ is Storage,
            },
    {
        let prefix: Vec<u8> = type_index_prefix(entity_type);
        match self.trees.types_under(prefix.as_slice()) {
            Ok(entries) => {
                proof {
                    let l = entries_view(entries@);
                    assert forall|i: int| 0 <= i < entries@.len() implies (#[trigger] entries@[i]).0@.len()
                        >= prefix@.len() by {
                        assert(l[i].0 == entries@[i].0@);
                        assert(prefix_keys(prefix@).contains(l[i].0));
                    }
                }
                Ok(entries)
            },
            Err(e) => Err(DbError::Storage(e)),
        }
    }

    fn scan(&self, entity_type: &str, when: When) -> (items: Vec<ScanItem>)
        ensures
            agrees_until_failure(scan_view(items@), scan_outcome(self@, entity_type@, when)),
    {
        let entries: Vec<Entry> = match self.index_entries(entity_type) {
            Ok(entries) => entries,
            Err(e) => {
                let mut items: Vec<ScanItem> = Vec::new();
                items.push(Err(e));
                proof {
                    let got = scan_view(items@);
                    assert(failed_at(got, 0));
                    assert(got.take(0) =~= scan_outcome(self@, entity_type@, when).take(0));
                }
                return items;
            },
        };
        let prefix_len: usize = type_index_prefix(entity_type).len();
        let ghost l = entries_view(entries@);
        let ghost n = type_prefix(entity_type@).len();
        let mut items: Vec<ScanItem> = Vec::new();
        let mut i: usize = 0;
        let ghost mut failed: Option<int> = None;
        proof {
            assert(l.take(0) =~= Seq::<EntryView>::empty());
            assert(scan_view(items@) =~= Seq::<ScanItemView>::empty());
        }
        while i < entries.len()
            invariant
                i <= entries@.len(),
                l == entries_view(entries@),
                n == prefix_len,
                forall|i: int| 0 <= i < entries@.len() ==> (#[trigger] entries@[i]).0@.len() >= n,
                match failed {
                    None => scan_view(items@) == indexed_items(self@, l.take(i as int), n, when),
                    Some(f) => {
                        let got = scan_view(items@);
                        let expected = indexed_items(self@, l.take(i as int), n, when);
                        0 <= f < got.len() && f <= expected.len() && failed_at(got, f)
                            && got.take(f) == expected.take(f)
                    },
                },
            decreases entries@.len() - i,
        {
            let ghost before = scan_view(items@);
            let ghost expected = indexed_items(self@, l.take(i as int), n, when);
            let key: &Vec<u8> = &entries[i].0;
            proof {
                assert(l.take(i + 1).drop_last() =~= l.take(i as int));
                assert(l.take(i + 1).last() == l[i as int]);
                assert(l[i as int].0 == key@);
            }
            let item: Option<ScanItem> = if key.len() - prefix_len != 16 {
                Some(Err(DbError::InvalidKey))
            } else {
                let id: EntityId = read_id(key.as_slice(), prefix_len);
                assert(id@ =~= key@.skip(n as int));
                match self.read_at(&id, when) {
                    Ok(Some((ts, record))) => Some(Ok((id, ts, record))),
                    Ok(None) => None,
                    Err(e) => Some(Err(e)),
                }
            };
            let ghost next = indexed_items(self@, l.take(i + 1), n, when);
            match item {
                Some(item) => {
                    items.push(item);
                    proof {
                        let got = scan_view(items@);
                        assert(got =~= before.push(scan_item_view(item)));
                        if failed is Some {
                            assert(got.take(failed->0) =~= before.take(failed->0));
                            assert(next.take(failed->0) =~= expected.take(failed->0));
                        } else if got != next {
                            failed = Some(before.len() as int);
                            assert(got.take(before.len() as int) =~= before);
                            assert(next.take(before.len() as int) =~= before);
                        }
                    }
                },
                None => {
                    proof {
                        if failed is Some {
                            assert(next.take(failed->0) =~= expected.take(failed->0));
                        }
                    }
                },
            }
            i = i + 1;
        }
        proof {
            assert(l.take(l.len() as int) =~= l);
            if failed is Some {
                assert(failed_at(scan_view(items@), failed->0));
            }
        }
        items
    }

    /// The live entities of a type, in the order of their identifiers.
    pub fn scan_entity_type(&self, entity_type: &str) -> (items: Vec<ScanItem>)
        ensures
            agrees_until_failure(
                scan_view(items@),
                scan_outcome(self@, entity_type@, When::Latest),
            ),
    {
        self.scan(entity_type, When::Latest)
    }

    /// The entities of a type that are live as of a timestamp.
    pub fn scan_entity_type_as_of(&self, entity_type: &str, read_ts: u64) -> (items: Vec<ScanItem>)
        ensures
            agrees_until_failure(
                scan_view(items@),
                scan_outcome(self@, entity_type@, When::AsOf(read_ts)),
            ),
    {
        self.scan(entity_type, When::AsOf(read_ts))
    }

    /// The live entities of a type, read in one go.
    pub fn scan_entity_type_batch(&self, entity_type: &str) -> (r: Result<
        Vec<(EntityId, u64, Record)>,
        DbError,
    >)
        ensures
            match r {
                Ok(found) => scan_batch_outcome(self@, entity_type@) == Ok::<
                    Seq<(Seq<u8>, u64, RecordView)>,
                    ErrorView,
                >(found_view(found@)),
                Err(e) => e@ is Storage || scan_batch_outcome(self@, entity_type@) == Err::<
                    Seq<(Seq<u8>, u64, RecordView)>,
                    ErrorView,
                >(e@),
            },
    {
        let entries: Vec<Entry> = self.index_entries(entity_type)?;
        let prefix_len: usize = type_index_prefix(entity_type).len();
        let ghost l = entries_view(entries@);
        let ghost n = type_prefix(entity_type@).len();
        let mut ids: Vec<EntityId> = Vec::new();
        let mut i: usize = 0;
        proof {
            assert(l.take(0) =~= Seq::<EntryView>::empty());
            assert(ids_view(ids@) =~= Seq::<Seq<u8>>::empty());
        }
        while i < entries.len()
            invariant
                i <= entries@.len(),
                l == entries_view(entries@),
                n == prefix_len,
                forall|i: int| 0 <= i < entries@.len() ==> (#[trigger] entries@[i]).0@.len() >= n,
                ids_view(ids@) == indexed_ids(l.take(i as int), n),
            decreases entries@.len() - i,
        {
            let ghost before = ids_view(ids@);
            let key: &Vec<u8> = &entries[i].0;
            proof {
                assert(l.take(i + 1).drop_last() =~= l.take(i as int));
                assert(l.take(i + 1).last() == l[i as int]);
                assert(l[i as int].0 == key@);
            }
            if key.len() - prefix_len == 16 {
                let id: EntityId = read_id(key.as_slice(), prefix_len);
                assert(id@ =~= key@.skip(n as int));
                ids.push(id);
                assert(ids_view(ids@) =~= before.push(id@));
            }
            i = i + 1;
        }
        assert(l.take(l.len() as int) =~= l);
        let ghost all = ids_view(ids@);
        let mut found: Vec<Option<(u64, Record)>> = self.get_latest_batch(ids.as_slice())?;
        proof {
            lemma_batch_len(self@, all);
        }
        let ghost results = found.deep_view();
        let mut out: Vec<(EntityId, u64, Record)> = Vec::new();
        let mut i: usize = 0;
        proof {
            assert(all.take(0) =~= Seq::<Seq<u8>>::empty());
            assert(found_view(out@) =~= Seq::<(Seq<u8>, u64, RecordView)>::empty());
        }
        while i < ids.len()
            invariant
                i <= ids@.len() == found@.len(),
                all == ids_view(ids@),
                results.len() == all.len(),
                forall|j: int| i <= j < found@.len() ==> (#[trigger] found@[j]).deep_view() == results[j],
                found_view(out@) == present(all.take(i as int), results.take(i as int)),
            decreases ids@.len() - i,
        {
            let ghost before = found_view(out@);
            proof {
                assert(all.take(i + 1).drop_last() =~= all.take(i as int));
                assert(results.take(i + 1).drop_last() =~= results.take(i as int));
                assert(all.take(i + 1).last() == ids@[i as int]@);
                assert(results.take(i + 1).last() == results[i as int]);
                assert(found@[i as int].deep_view() == results[i as int]);
            }
            match &found[i] {
                Some(v) => {
                    let record: Record = v.1.copy();
                    out.push((ids[i], v.0, record));
                    assert(found_view(out@) =~= before.push((ids@[i as int]@, v.0, record@)));
                },
                None => {},
            }
            i = i + 1;
        }
        assert(all.take(all.len() as int) =~= all);
        assert(results.take(results.len() as int) =~= results);
        Ok(out)
    }

    /// The identifiers of all entities of a type, deleted ones included.
    pub fn list_entity_ids(&self, entity_type: &str) -> (items: Vec<Result<EntityId, DbError>>)
        ensures
            agrees_until_failure(
                id_items_view(items@),
                prefix_listing(self@.types, type_prefix(entity_type@)).map_values(
                    |e: EntryView| listed_id(e, type_prefix(entity_type@).len()),
                ),
            ),
    {
        let ghost n = type_prefix(entity_type@).len();
        let ghost expected = prefix_listing(self@.types, type_prefix(entity_type@)).map_values(
            |e: EntryView| listed_id(e, n),
        );
        let mut items: Vec<Result<EntityId, DbError>> = Vec::new();
        let entries: Vec<Entry> = match self.index_entries(entity_type) {
            Ok(entries) => entries,
            Err(e) => {
                items.push(Err(e));
                proof {
                    let got = id_items_view(items@);
                    assert(failed_at(got, 0));
                    assert(got.take(0) =~= expected.take(0));
                }
                return items;
            },
        };
        let prefix_len: usize = type_index_prefix(entity_type).len();
        let ghost l = entries_view(entries@);
        let mut i: usize = 0;
        while i < entries.len()
            invariant
                i <= entries@.len(),
                l == entries_view(entries@),
                expected == l.map_values(|e: EntryView| listed_id(e, n)),
                n == prefix_len,
                forall|i: int| 0 <= i < entries@.len() ==> (#[trigger] entries@[i]).0@.len() >= n,
                id_items_view(items@) =~= expected.take(i as int),
            decreases entries@.len() - i,
        {
            let ghost before = id_items_view(items@);
            let key: &Vec<u8> = &entries[i].0;
            assert(expected[i as int] == listed_id(l[i as int], n));
            assert(l[i as int].0 == key@);
            let item: Result<EntityId, DbError> = if key.len() - prefix_len != 16 {
                Err(DbError::InvalidKey)
            } else {
                let id: EntityId = read_id(key.as_slice(), prefix_len);
                assert(id@ =~= key@.skip(n as int));
                Ok(id)
            };
            items.push(item);
            assert(id_items_view(items@) =~= before.push(expected[i as int]));
            i = i + 1;
        }
        assert(expected.take(l.len() as int) =~= expected);
        items
    }

    /// The versions of an entity, oldest first.
    pub fn scan_versions(&self, entity_id: &EntityId) -> (items: Vec<Result<(u64, Record), DbError>>)
        ensures
            agrees_until_failure(
                version_items_view(items@),
                versions_until(self@.data, entity_id@, u64::MAX).map_values(
                    |e: EntryView| version_outcome(e, entity_id@),
                ),
            ),
    {
        let ghost expected = versions_until(self@.data, entity_id@, u64::MAX).map_values(
            |e: EntryView| version_outcome(e, entity_id@),
        );
        let mut items: Vec<Result<(u64, Record), DbError>> = Vec::new();
        let entries: Vec<Entry> = match self.versions_up_to(entity_id, u64::MAX) {
            Ok(entries) => entries,
            Err(e) => {
                items.push(Err(e));
                proof {
                    let got = version_items_view(items@);
                    assert(failed_at(got, 0));
                    assert(got.take(0) =~= expected.take(0));
                }
                return items;
            },
        };
        let ghost l = entries_view(entries@);
        let mut i: usize = 0;
        while i < entries.len()
            invariant
                i <= entries@.len(),
                l == entries_view(entries@),
                expected == l.map_values(|e: EntryView| version_outcome(e, entity_id@)),
                version_items_view(items@) =~= expected.take(i as int),
            decreases entries@.len() - i,
        {
            let ghost before = version_items_view(items@);
            let entry: &Entry = &entries[i];
            assert(expected[i as int] == version_outcome(l[i as int], entity_id@));
            assert(l[i as int] == (entry.0@, entry.1@));
            let item: Result<(u64, Record), DbError> = match VersionedKey::decode(entry.0.as_slice()) {
                Some(key) => if id_eq(&key.entity_id, entity_id) {
                    match Record::from_bytes(entry.1.as_slice()) {
                        Ok(record) => Ok((key.version_ts, record)),
                        Err(e) => Err(e),
                    }
                } else {
                    Err(DbError::InvalidKey)
                },
                None => Err(DbError::InvalidKey),
            };
            items.push(item);
            assert(version_items_view(items@) =~= before.push(expected[i as int]));
            i = i + 1;
        }
        assert(expected.take(l.len() as int) =~= expected);
        items
    }

    /// Deletes an entity at a given time: writes a version that marks the deletion.
    pub fn delete_at(&mut self, entity_id: &EntityId, now: u64) -> (r: Result<u64, DbError>)
        ensures
            match put_outcome(old(self)@, entity_id@, now, tombstone()) {
                Ok(after) => match r {
                    Ok(ts) => ts == now && final(self)@ == after,
                    Err(e) => e@ is Storage && partly_written(old(self)@, after, final(self)@),
                },
                Err(x) => r matches Err(e) && (e@ is Storage || e@ == x) && final(self)@ == old(
                    self,
                )@,
            },
    {
        self.put(VersionedKey::new(*entity_id, now), Record::tombstone())?;
        Ok(now)
    }

    /// Deletes an entity now.
    pub fn delete(&mut self, entity_id: &EntityId) -> (r: Result<u64, DbError>)
        ensures
            match r {
                Ok(ts) => put_outcome(old(self)@, entity_id@, ts, tombstone()) == Ok::<
                    StoreView,
                    ErrorView,
                >(final(self)@),
                Err(e) => delete_failed(e@, old(self)@, final(self)@, entity_id@),
            },
    {
        self.delete_at(entity_id, current_timestamp())
    }

    /// Deletes an entity of a type now. It stays in the type index, so that its
    /// history can still be scanned.
    pub fn delete_typed(&mut self, entity_type: &str, entity_id: &EntityId) -> (r: Result<
        u64,
        DbError,
    >)
        ensures
            match r {
                Ok(ts) => put_outcome(old(self)@, entity_id@, ts, tombstone()) == Ok::<
                    StoreView,
                    ErrorView,
                >(final(self)@),
                Err(e) => delete_failed(e@, old(self)@, final(self)@, entity_id@),
            },
    {
        let _ = entity_type;
        self.delete(entity_id)
    }

    /// Writes a version of an entity of a type, over the one that is there under its
    /// key if there is one.
    pub(crate) fn write_typed(&mut self, entity_type: &str, key: VersionedKey, record: Record) -> (r: Result<
        (),
        DbError,
    >)
        ensures
            match r {
                Ok(_) => {
                    let written = put_typed_view(
                        old(self)@,
                        entity_type@,
                        key.entity_id@,
                        key.version_ts,
                        record@,
                    );
                    match parse_entity(record@.data) {
                        Some(fs) => {
                            &&& final(self)@ == (StoreView {
                                columnar: final(self)@.columnar,
                                projection_stale: final(self)@.projection_stale,
                                ..written
                            })
                            &&& !final(self)@.projection_stale ==> !old(self)@.projection_stale
                                && final(self)@.columnar == with_row(
                                old(self)@.columnar,
                                entity_type@,
                                key.entity_id@,
                                fs,
                            )
                        },
                        None => final(self)@ == written,
                    }
                },
                Err(e) => e@ is Storage && partly_written(
                    old(self)@,
                    put_typed_view(
                        old(self)@,
                        entity_type@,
                        key.entity_id@,
                        key.version_ts,
                        record@,
                    ),
                    final(self)@,
                ),
            },
            past_kept(final(self)@.data, old(self)@.data, key.version_ts),
    {
        let fields: Result<Vec<Field>, DbError> = decode_entity(record.data.as_slice());
        self.write_version(key, record)?;
        let index_key: Vec<u8> = type_index_key(entity_type, &key.entity_id);
        let nothing: Vec<u8> = Vec::new();
        assert(nothing@ =~= Seq::<u8>::empty());
        match self.trees.set_type(index_key.as_slice(), nothing.as_slice()) {
            Ok(_) => {},
            Err(e) => {
                return Err(DbError::Storage(e));
            },
        }
        if let Ok(fields) = fields {
            match self.columnar.update_row(entity_type, &key.entity_id, fields.as_slice()) {
                Ok(_) => {},
                Err(_) => {
                    self.projection_stale = true;
                },
            }
        }
        Ok(())
    }

    /// Writes a version of an entity of a type. Where the record holds an
    /// entity's fields, the row projection follows; where that fails, the
    /// projection is marked as stale.
    pub fn put_typed(&mut self, entity_type: &str, key: VersionedKey, record: Record) -> (r: Result<
        (),
        DbError,
    >)
        ensures
            match put_outcome(old(self)@, key.entity_id@, key.version_ts, record@) {
                Ok(_) => match r {
                    Ok(_) => {
                        let written = put_typed_view(
                            old(self)@,
                            entity_type@,
                            key.entity_id@,
                            key.version_ts,
                            record@,
                        );
                        match parse_entity(record@.data) {
                            Some(fs) => {
                                &&& final(self)@ == (StoreView {
                                    columnar: final(self)@.columnar,
                                    projection_stale: final(self)@.projection_stale,
                                    ..written
                                })
                                &&& !final(self)@.projection_stale ==> !old(self)@.projection_stale
                                    && final(self)@.columnar == with_row(
                                    old(self)@.columnar,
                                    entity_type@,
                                    key.entity_id@,
                                    fs,
                                )
                            },
                            None => final(self)@ == written,
                        }
                    },
                    Err(e) => e@ is Storage && partly_written(
                        old(self)@,
                        put_typed_view(
                            old(self)@,
                            entity_type@,
                            key.entity_id@,
                            key.version_ts,
                            record@,
                        ),
                        final(self)@,
                    ),
                },
                Err(x) => r matches Err(e) && (e@ is Storage || e@ == x) && final(self)@ == old(
                    self,
                )@,
            },
    {
        self.refuse_taken(&key, &record)?;
        self.write_typed(entity_type, key, record)
    }

    /// The value that the row projection has for an entity in a column.
    pub fn get_column(&self, entity_type: &str, id: &EntityId, column: &str) -> (r: Result<
        Option<Value>,
        DbError,
    >)
        ensures
            agrees(r, column_outcome(self@.columnar, entity_type@, id@, column@)),
    {
        self.columnar.get_column(entity_type, id, column)
    }

    /// The rows of a type in the row projection.
    pub fn scan_rows(&self, entity_type: &str) -> (r: Result<Vec<RowItem>, DbError>)
        ensures
            match r {
                Ok(items) => items@.map_values(|i: RowItem| row_item_view(i)) == row_items(
                    self@.columnar,
                    entity_type@,
                ),
                Err(e) => e@ is Storage,
            },
    {
        self.columnar.scan_rows(entity_type)
    }

    /// Whether the equality index holds anything for a column.
    pub fn has_hash_index(&self, entity_type: &str, column: &str) -> (r: Result<bool, DbError>)
        ensures
            match r {
                Ok(found) => found == column_indexed(self@.hash, entity_type@, column@),
                Err(e) => e@ is Storage,
            },
    {
        self.hash_index.has_index(entity_type, column)
    }

    /// The entities that the equality index has for a value in a column.
    pub fn hash_lookup(&self, entity_type: &str, column: &str, value: &Value) -> (r: Result<
        Vec<EntityId>,
        DbError,
    >)
        ensures
            ids_agree(r, lookup_outcome(self@.hash, entity_type@, column@, value@)),
    {
        self.hash_index.lookup(entity_type, column, value)
    }

    /// Records in the equality index that an entity has a value in a column.
    pub fn hash_insert(&mut self, entity_type: &str, column: &str, value: &Value, id: EntityId) -> (r:
        Result<(), DbError>)
        ensures
            match r {
                Ok(_) => final(self)@ == (StoreView {
                    hash: old(self)@.hash.insert(
                        index_key(entity_type@, column@, value@, id@),
                        Seq::empty(),
                    ),
                    ..old(self)@
                }),
                Err(e) => e@ is Storage && final(self)@ == (StoreView {
                    hash: final(self)@.hash,
                    ..old(self)@
                }) && between(
                    old(self)@.hash,
                    old(self)@.hash.insert(
                        index_key(entity_type@, column@, value@, id@),
                        Seq::empty(),
                    ),
                    final(self)@.hash,
                ),
            },
    {
        self.hash_index.insert(entity_type, column, value, id)
    }

    /// The ordered index, where the store has one.
    pub fn btree_index(&self) -> (r: Option<&BTreeIndex>)
        ensures
            match r {
                Some(b) => self@.btree == Some(b.entries()),
                None => self@.btree is None,
            },
    {
        match &self.btree_index {
            Some(b) => Some(b),
            None => None,
        }
    }

    /// The entities that have a value in a column, those whose index entries are
    /// still pending included.
    pub fn lookup_with_changelog(
        &self,
        entity_type: &str,
        field: &str,
        value: &Value,
        pending: Option<&[EntityId]>,
    ) -> (r: Result<Vec<EntityId>, DbError>)
        ensures
            ids_agree(
                r,
                match lookup_outcome(self@.hash, entity_type@, field@, value@) {
                    Ok(ids) => Ok(
                        match pending {
                            Some(p) => with_pending(ids, ids_view(p@)),
                            None => ids,
                        },
                    ),
                    Err(e) => Err(e),
                },
            ),
    {
        let ids: Vec<EntityId> = self.hash_index.lookup(entity_type, field, value)?;
        match pending {
            Some(p) => Ok(merge_pending(ids, p)),
            None => Ok(ids),
        }
    }

    /// The columns of a type that the ordered index covers.
    pub fn btree_indexed_columns_for_entity(&self, entity_type: &str) -> (out: Vec<String>)
        ensures
            texts(out@) == covered_columns(self@.btree_columns, entity_type@),
    {
        let ghost all = self@.btree_columns;
        let mut out: Vec<String> = Vec::new();
        let mut i: usize = 0;
        assert(all.take(0) =~= Seq::<(Seq<char>, Seq<char>)>::empty());
        assert(texts(out@) =~= Seq::<Seq<char>>::empty());
        while i < self.btree_indexed_columns.len()
            invariant
                i <= self.btree_indexed_columns@.len(),
                all == self@.btree_columns,
                texts(out@) == covered_columns(all.take(i as int), entity_type@),
            decreases self.btree_indexed_columns@.len() - i,
        {
            let ghost before = texts(out@);
            let pair: &(String, String) = &self.btree_indexed_columns[i];
            proof {
                assert(all.take(i + 1).drop_last() =~= all.take(i as int));
                assert(all.take(i + 1).last() == (pair.0@, pair.1@));
            }
            if str_eq(pair.0.as_str(), entity_type) {
                out.push(pair.1.clone());
                assert(texts(out@) =~= before.push(pair.1@));
            }
            i = i + 1;
        }
        assert(all.take(all.len() as int) =~= all);
        out
    }

    fn covers(&self, entity_type: &str, column: &str) -> (r: bool)
        ensures
            r == self@.btree_columns.contains((entity_type@, column@)),
    {
        let ghost all = self@.btree_columns;
        let mut i: usize = 0;
        while i < self.btree_indexed_columns.len()
            invariant
                i <= self.btree_indexed_columns@.len(),
                all == self@.btree_columns,
                forall|j: int| 0 <= j < i ==> all[j] != (entity_type@, column@),
            decreases self.btree_indexed_columns@.len() - i,
        {
            let pair: &(String, String) = &self.btree_indexed_columns[i];
            assert(all[i as int] == (pair.0@, pair.1@));
            if str_eq(pair.0.as_str(), entity_type) && str_eq(pair.1.as_str(), column) {
                return true;
            }
            i = i + 1;
        }
        false
    }

    /// Sees to it that the ordered index covers a column. Tells whether it does:
    /// it does unless the store has no ordered index.
    pub fn ensure_btree_index(&mut self, entity_type: &str, column: &str) -> (r: Result<
        bool,
        DbError,
    >)
        ensures
            match ensured(old(self)@, entity_type@, column@) {
                Ok(after) => match r {
                    Ok(ready) => ready == (old(self)@.btree is Some) && final(self)@ == after,
                    Err(e) => e@ is Storage && only_btree_differs(final(self)@, old(self)@),
                },
                Err(expected) => r matches Err(e) && (e@ is Storage || e@ == expected)
                    && only_btree_differs(final(self)@, old(self)@),
            },
            old(self)@.btree is None || old(self)@.btree_columns.contains(
                (entity_type@, column@),
            ) ==> r is Ok && final(self)@ == old(self)@,
    {
        if self.btree_index.is_none() {
            return Ok(false);
        }
        if self.covers(entity_type, column) {
            return Ok(true);
        }
        let ghost s0 = self@.btree->0;
        let ghost m0 = self@.columnar;
        let ghost columns = self@.btree_columns;
        let mut btree: BTreeIndex = match self.btree_index.take() {
            Some(btree) => btree,
            None => BTreeIndex::new(),
        };
        btree.drop_column_index(entity_type, column);
        let ghost s1 = btree.entries();
        let rows: Vec<RowItem> = match self.columnar.scan_rows(entity_type) {
            Ok(rows) => rows,
            Err(e) => {
                self.btree_index = Some(btree);
                return Err(e);
            },
        };
        let ghost items = rows@.map_values(|i: RowItem| row_item_view(i));
        let ghost mut done: Seq<(Seq<u8>, Seq<FieldView>)> = Seq::empty();
        let mut i: usize = 0;
        assert(items.take(0) =~= Seq::<Result<(Seq<u8>, Seq<FieldView>), ErrorView>>::empty());
        while i < rows.len()
            invariant
                i <= rows@.len(),
                items == rows@.map_values(|i: RowItem| row_item_view(i)),
                items == row_items(m0, entity_type@),
                collect(items.take(i as int)) == Ok::<Seq<(Seq<u8>, Seq<FieldView>)>, ErrorView>(
                    done,
                ),
                btree.entries() == indexed_rows(s1, entity_type@, column@, done),
                self@ == (StoreView { btree: None, ..old(self)@ }),
                m0 == old(self)@.columnar,
                old(self)@.btree is Some,
                !old(self)@.btree_columns.contains((entity_type@, column@)),
            decreases rows@.len() - i,
        {
            proof {
                lemma_collect_step(items, i as int);
                assert(items[i as int] == row_item_view(rows@[i as int]));
            }
            match &rows[i] {
                Ok(row) => {
                    let ghost row_view = (row.0@, fields_view(row.1@));
                    proof {
                        assert(done.push(row_view).drop_last() =~= done);
                        assert(done.push(row_view).last() == row_view);
                    }
                    match find_last(row.1.as_slice(), column) {
                        Some(value) => {
                            if !value.is_null() {
                                btree.insert(entity_type, column, value, row.0);
                            }
                        },
                        None => {},
                    }
                    proof {
                        done = done.push(row_view);
                    }
                },
                Err(e) => {
                    proof {
                        lemma_collect_fails(items, i + 1);
                    }
                    let failure: DbError = e.duplicate();
                    self.btree_index = Some(btree);
                    return Err(failure);
                },
            }
            i = i + 1;
        }
        assert(items.take(items.len() as int) =~= items);
        self.btree_index = Some(btree);
        self.btree_indexed_columns.push((entity_type.to_owned(), column.to_owned()));
        assert(self@.btree_columns =~= columns.push((entity_type@, column@)));
        Ok(true)
    }

    fn update_hash_indexes_from_fields(
        &mut self,
        entity_type: &str,
        entity_id: EntityId,
        before: &[Field],
        after: &[Field],
    ) -> (r: Result<(), DbError>)
        ensures
            match r {
                Ok(_) => final(self)@ == (StoreView {
                    hash: apply_hash(
                        old(self)@.hash,
                        entity_type@,
                        entity_id@,
                        change_ops(
                            touched_names(fields_view(before@), fields_view(after@)),
                            fields_view(before@),
                            fields_view(after@),
                        ),
                    ),
                    ..old(self)@
                }),
                Err(e) => e@ is Storage && versions_kept(final(self)@, old(self)@),
            },
            nothing_reindexed(Some(fields_view(before@)), Some(fields_view(after@))) ==> r is Ok,
    {
        let names: Vec<String> = touched(before, after);
        let ops: Vec<IndexOp> = plan_ops(names.as_slice(), before, after);
        let ghost all = ops_view(ops@);
        let mut i: usize = 0;
        assert(all.take(0) =~= Seq::<IndexOpView>::empty());
        while i < ops.len()
            invariant
                i <= ops@.len(),
                all == ops_view(ops@),
                nothing_reindexed(Some(fields_view(before@)), Some(fields_view(after@)))
                    ==> all.len() == 0,
                self@ == (StoreView {
                    hash: apply_hash(
                        old(self)@.hash,
                        entity_type@,
                        entity_id@,
                        all.take(i as int),
                    ),
                    ..old(self)@
                }),
            decreases ops@.len() - i,
        {
            proof {
                assert(all.take(i + 1).drop_last() =~= all.take(i as int));
                assert(all.take(i + 1).last() == ops@[i as int]@);
            }
            match &ops[i] {
                IndexOp::Remove(column, value) => {
                    self.hash_index.remove(entity_type, column.as_str(), value, entity_id)?;
                },
                IndexOp::Insert(column, value) => {
                    self.hash_index.insert(entity_type, column.as_str(), value, entity_id)?;
                },
            }
            i = i + 1;
        }
        assert(all.take(all.len() as int) =~= all);
        Ok(())
    }

    fn update_btree_indexes_from_fields(
        &mut self,
        entity_type: &str,
        entity_id: EntityId,
        before: &[Field],
        after: &[Field],
        btree_columns: &[String],
    )
        ensures
            final(self)@ == (StoreView {
                btree: match old(self)@.btree {
                    Some(s) => Some(
                        apply_btree(
                            s,
                            entity_type@,
                            entity_id@,
                            change_ops(
                                distinct(texts(btree_columns@)),
                                fields_view(before@),
                                fields_view(after@),
                            ),
                        ),
                    ),
                    None => None,
                },
                ..old(self)@
            }),
    {
        let mut btree: BTreeIndex = match self.btree_index.take() {
            Some(btree) => btree,
            None => {
                return ;
            },
        };
        let ghost s0 = btree.entries();
        let names: Vec<String> = distinct_texts(btree_columns);
        let ops: Vec<IndexOp> = plan_ops(names.as_slice(), before, after);
        let ghost all = ops_view(ops@);
        let mut i: usize = 0;
        assert(all.take(0) =~= Seq::<IndexOpView>::empty());
        while i < ops.len()
            invariant
                i <= ops@.len(),
                all == ops_view(ops@),
                btree.entries() == apply_btree(s0, entity_type@, entity_id@, all.take(i as int)),
            decreases ops@.len() - i,
        {
            proof {
                assert(all.take(i + 1).drop_last() =~= all.take(i as int));
                assert(all.take(i + 1).last() == ops@[i as int]@);
            }
            match &ops[i] {
                IndexOp::Remove(column, value) => {
                    btree.remove(entity_type, column.as_str(), value, entity_id);
                },
                IndexOp::Insert(column, value) => {
                    btree.insert(entity_type, column.as_str(), value, entity_id);
                },
            }
            i = i + 1;
        }
        assert(all.take(all.len() as int) =~= all);
        self.btree_index = Some(btree);
    }

    /// Lets the two indexes follow a change of an entity's fields.
    pub fn update_indexes_only(
        &mut self,
        entity_type: &str,
        entity_id: EntityId,
        before_fields: Option<&[Field]>,
        after_fields: Option<&[Field]>,
        btree_columns: &[String],
    ) -> (r: Result<(), DbError>)
        ensures
            match r {
                Ok(_) => final(self)@ == reindexed_only(
                    old(self)@,
                    entity_type@,
                    entity_id@,
                    optional_fields_view(before_fields),
                    optional_fields_view(after_fields),
                    texts(btree_columns@),
                ),
                Err(e) => e@ is Storage && versions_kept(final(self)@, old(self)@),
            },
            nothing_reindexed(
                optional_fields_view(before_fields),
                optional_fields_view(after_fields),
            ) ==> r is Ok,
    {
        let none: Vec<Field> = Vec::new();
        assert(fields_view(none@) =~= Seq::<FieldView>::empty());
        let before: &[Field] = match before_fields {
            Some(fields) => fields,
            None => none.as_slice(),
        };
        let after: &[Field] = match after_fields {
            Some(fields) => fields,
            None => none.as_slice(),
        };
        self.update_hash_indexes_from_fields(entity_type, entity_id, before, after)?;
        self.update_btree_indexes_from_fields(entity_type, entity_id, before, after, btree_columns);
        Ok(())
    }

    /// Takes an entity's row out of the row projection.
    pub fn delete_columnar_row(&mut self, entity_type: &str, entity_id: EntityId) -> (r: Result<
        (),
        DbError,
    >)
        ensures
            match r {
                Ok(_) => final(self)@ == without_row(old(self)@, entity_type@, entity_id@),
                Err(e) => e@ is Storage && final(self)@ == (StoreView {
                    columnar: final(self)@.columnar,
                    ..old(self)@
                }) && between(
                    old(self)@.columnar,
                    without_row(old(self)@, entity_type@, entity_id@).columnar,
                    final(self)@.columnar,
                ),
            },
    {
        self.columnar.delete_row(entity_type, &entity_id)
    }

    /// Lets the indexes follow a change of an entity's fields. Where the entity is
    /// gone, its row leaves the row projection.
    pub fn update_secondary_indexes_from_fields(
        &mut self,
        entity_type: &str,
        entity_id: EntityId,
        before_fields: Option<&[Field]>,
        after_fields: Option<&[Field]>,
        btree_columns: &[String],
    ) -> (r: Result<(), DbError>)
        ensures
            match r {
                Ok(_) => final(self)@ == reindexed(
                    old(self)@,
                    entity_type@,
                    entity_id@,
                    optional_fields_view(before_fields),
                    optional_fields_view(after_fields),
                    texts(btree_columns@),
                ),
                Err(e) => e@ is Storage && versions_kept(final(self)@, old(self)@),
            },
            nothing_reindexed(
                optional_fields_view(before_fields),
                optional_fields_view(after_fields),
            ) && (before_fields is None || after_fields is Some) ==> r is Ok,
    {
        self.update_indexes_only(
            entity_type,
            entity_id,
            before_fields,
            after_fields,
            btree_columns,
        )?;
        if after_fields.is_none() && before_fields.is_some() {
            self.delete_columnar_row(entity_type, entity_id)?;
        }
        Ok(())
    }

    /// Lets the indexes follow a change of an entity's data. Data that holds no
    /// entity's fields changes nothing.
    pub fn update_secondary_indexes_from_encoded(
        &mut self,
        entity_type: &str,
        entity_id: EntityId,
        before: Option<&[u8]>,
        after: Option<&[u8]>,
        btree_columns: &[String],
    ) -> (r: Result<(), DbError>)
        ensures
            match r {
                Ok(_) => final(self)@ == reindexed_encoded(
                    old(self)@,
                    entity_type@,
                    entity_id@,
                    optional_bytes(before),
                    optional_bytes(after),
                    texts(btree_columns@),
                ),
                Err(e) => e@ is Storage && versions_kept(final(self)@, old(self)@),
            },
            !readable(optional_bytes(before)) || !readable(optional_bytes(after)) ==> r is Ok,
            nothing_reindexed(
                parsed(optional_bytes(before)),
                parsed(optional_bytes(after)),
            ) && (before is None || after is Some) ==> r is Ok,
    {
        let before_fields: Option<Vec<Field>> = match before {
            Some(data) => match decode_entity(data) {
                Ok(fields) => Some(fields),
                Err(_) => {
                    return Ok(());
                },
            },
            None => None,
        };
        let after_fields: Option<Vec<Field>> = match after {
            Some(data) => match decode_entity(data) {
                Ok(fields) => Some(fields),
                Err(_) => {
                    return Ok(());
                },
            },
            None => None,
        };
        self.update_secondary_indexes_from_fields(
            entity_type,
            entity_id,
            as_fields(&before_fields),
            as_fields(&after_fields),
            btree_columns,
        )
    }

    /// Sets an entity's row in the row projection.
    pub fn update_columnar_row_from_fields(
        &mut self,
        entity_type: &str,
        entity_id: EntityId,
        fields: &[Field],
    ) -> (r: Result<(), DbError>)
        ensures
            match r {
                Ok(_) => final(self)@ == (StoreView {
                    columnar: with_row(
                        old(self)@.columnar,
                        entity_type@,
                        entity_id@,
                        fields_view(fields@),
                    ),
                    ..old(self)@
                }),
                Err(e) => e@ is Storage && final(self)@ == (StoreView {
                    columnar: final(self)@.columnar,
                    ..old(self)@
                }) && between(
                    old(self)@.columnar,
                    with_row(
                        old(self)@.columnar,
                        entity_type@,
                        entity_id@,
                        fields_view(fields@),
                    ),
                    final(self)@.columnar,
                ),
            },
    {
        self.columnar.update_row(entity_type, &entity_id, fields)
    }

    /// Makes the writes of three batches together: to the versions, to the
    /// pointers and to the type index.
    pub(crate) fn apply_write_batches(
        &mut self,
        data: &sled::Batch,
        meta: &sled::Batch,
        types: &sled::Batch,
    ) -> (r: Result<(), DbError>)
        ensures
            ({
                let done = StoreView {
                    data: old(self)@.data.union_prefer_right(batch_entries(*data)),
                    meta: old(self)@.meta.union_prefer_right(batch_entries(*meta)),
                    types: old(self)@.types.union_prefer_right(batch_entries(*types)),
                    ..old(self)@
                };
                match r {
                    Ok(_) => final(self)@ == done,
                    Err(e) => e@ is Storage && partly_written(old(self)@, done, final(self)@),
                }
            }),
    {
        match self.trees.apply(data, meta, types) {
            Ok(_) => Ok(()),
            Err(e) => Err(DbError::Storage(e)),
        }
    }
}

/// Whether a deletion failed as it may: because the database did, or because there is
/// a version already at the time.
pub open spec fn delete_failed(e: ErrorView, before: StoreView, after: StoreView, id: Seq<u8>) -> bool {
    ||| e is Storage && exists|ts: u64|
        !taken(before, id, ts, tombstone()) && partly_written(
            before,
            #[trigger] put_view(before, id, ts, tombstone()),
            after,
        )
    ||| e is Storage && after == before
    ||| e == taken_error() && after == before && exists|ts: u64|
        #[trigger] taken(before, id, ts, tombstone())
}

/// Fields that may be missing, as a slice.
pub fn as_fields(fields: &Option<Vec<Field>>) -> (r: Option<&[Field]>)
    ensures
        optional_fields_view(r) == match *fields {
            Some(f) => Some(fields_view(f@)),
            None => None,
        },
{
    match fields {
        Some(f) => Some(f.as_slice()),
        None => None,
    }
}

/// Fields that may be missing, in mathematical terms.
pub open spec fn optional_fields_view(fields: Option<&[Field]>) -> Option<Seq<FieldView>> {
    match fields {
        Some(f) => Some(fields_view(f@)),
        None => None,
    }
}

/// Bytes that may be missing, in mathematical terms.
pub open spec fn optional_bytes(bytes: Option<&[u8]>) -> Option<Seq<u8>> {
    match bytes {
        Some(b) => Some(b@),
        None => None,
    }
}

/// Whether data may be missing but is an entity's where it is there.
pub open spec fn readable(data: Option<Seq<u8>>) -> bool {
    data is None || parse_entity(data->0) is Some
}

/// The fields of data that may be missing.
pub open spec fn parsed(data: Option<Seq<u8>>) -> Option<Seq<FieldView>> {
    match data {
        Some(b) => parse_entity(b),
        None => None,
    }
}

/// The store after the indexes have followed a change of an entity's data.
pub open spec fn reindexed_encoded(
    store: StoreView,
    entity_type: Seq<char>,
    id: Seq<u8>,
    before: Option<Seq<u8>>,
    after: Option<Seq<u8>>,
    columns: Seq<Seq<char>>,
) -> StoreView {
    if readable(before) && readable(after) {
        reindexed(store, entity_type, id, parsed(before), parsed(after), columns)
    } else {
        store
    }
}

/// The store after it has been seen to that the ordered index covers a column.
pub open spec fn ensured(store: StoreView, entity_type: Seq<char>, column: Seq<char>) -> Result<
    StoreView,
    ErrorView,
> {
    if store.btree is None || store.btree_columns.contains((entity_type, column)) {
        Ok(store)
    } else {
        match column_built(store, entity_type, column) {
            Ok(s) => Ok(
                StoreView {
                    btree: Some(s),
                    btree_columns: store.btree_columns.push((entity_type, column)),
                    ..store
                },
            ),
            Err(e) => Err(e),
        }
    }
}

/// Whether nothing but the content of the ordered index differs.
pub open spec fn only_btree_differs(a: StoreView, b: StoreView) -> bool {
    a == (StoreView { btree: a.btree, ..b }) && (a.btree is Some) == (b.btree is Some)
}

/// Whether a lookup gives what is expected, unless the database failed.
pub open spec fn ids_agree(r: Result<Vec<EntityId>, DbError>, expected: Result<Seq<Seq<u8>>, ErrorView>) -> bool {
    match r {
        Ok(ids) => expected == Ok::<Seq<Seq<u8>>, ErrorView>(ids_view(ids@)),
        Err(e) => e@ is Storage || expected == Err::<Seq<Seq<u8>>, ErrorView>(e@),
    }
}

/// Entities with their versions, in mathematical terms.
pub open spec fn found_view(found: Seq<(EntityId, u64, Record)>) -> Seq<(Seq<u8>, u64, RecordView)> {
    found.map_values(|f: (EntityId, u64, Record)| (f.0@, f.1, f.2@))
}

/// Listed identifiers in mathematical terms.
pub open spec fn id_items_view(items: Seq<Result<EntityId, DbError>>) -> Seq<
    Result<Seq<u8>, ErrorView>,
> {
    items.map_values(
        |i: Result<EntityId, DbError>|
            match i {
                Ok(id) => Ok(id@),
                Err(e) => Err(e@),
            },
    )
}

/// Versions in mathematical terms.
pub open spec fn version_items_view(items: Seq<Result<(u64, Record), DbError>>) -> Seq<
    Result<(u64, RecordView), ErrorView>,
> {
    items.map_values(
        |i: Result<(u64, Record), DbError>|
            match i {
                Ok(v) => Ok((v.0, v.1@)),
                Err(e) => Err(e@),
            },
    )
}

/// A batch has a result for each identifier.
pub proof fn lemma_batch_len(store: StoreView, ids: Seq<Seq<u8>>)
    ensures
        latest_batch_outcome(store, ids) matches Ok(found) ==> found.len() == ids.len(),
{
    match pointers_outcome(store, ids) {
        Ok(pointers) => {
            crate::error::lemma_collect_ok(
                Seq::new(ids.len(), |i: int| pointed_outcome(store.data, ids[i], pointers[i])),
            );
        },
        Err(_) => {},
    }
}

} // verus!
