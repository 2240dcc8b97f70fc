//! The store in mathematical terms: what it holds, and what reading it gives.

use vstd::prelude::*;

use crate::bytes::{be_value, EntityId};
use crate::codec::{entity_bytes, FieldView};
use crate::error::{collect, DbError, ErrorView};
use crate::storage::btree_index::{with_entry, without_column, without_entry, IndexEntryView};
use crate::storage::columnar::{last_value, row_items};
use crate::storage::hash_index::index_key;
use crate::storage::index_ops::{change_ops, distinct, indexable, touched_names, IndexOpView};
use crate::storage::key::{key_bytes, parse_key, ts_bytes};
use crate::storage::kv::{prefix_listing, range_listing};
use crate::storage::layout::{latest_key_bytes, type_key, type_prefix};
use crate::storage::record::{record_bytes, record_outcome, Record, RecordView};

verus! {

/// An ordered byte map.
pub type Bytes = Map<Seq<u8>, Seq<u8>>;

/// A key and its value.
pub type EntryView = (Seq<u8>, Seq<u8>);

/// What the store holds.
pub ghost struct StoreView {
    /// The versions of all entities.
    pub data: Bytes,
    /// The pointers to latest versions.
    pub meta: Bytes,
    /// The entities of each type.
    pub types: Bytes,
    /// The row projection.
    pub columnar: Bytes,
    /// The equality index.
    pub hash: Bytes,
    /// The ordered index, where the store has one.
    pub btree: Option<Seq<IndexEntryView>>,
    /// The columns that the ordered index covers, each with its entity type.
    pub btree_columns: Seq<(Seq<char>, Seq<char>)>,
    /// The last commit timestamp that was given out, which is the highest that is
    /// safe to read at.
    pub watermark: u64,
    /// Whether an update of the row projection has been lost.
    pub projection_stale: bool,
    /// The state of the replicated log.
    pub log_state: Bytes,
    /// The schema, as it was written down last.
    pub catalog: Bytes,
    /// The path of the database; none for a temporary one.
    pub path: Option<Seq<char>>,
    /// Where the trees are that hold the versions, the pointers, the type index, the
    /// row projection, the equality index, the state of the log and the schema.
    pub places: Seq<TreePlace>,
}

/// The trees of the database at a path, each under its own name.
pub open spec fn own_places(path: Option<Seq<char>>) -> Seq<TreePlace> {
    seq![
        (path, "data"@),
        (path, "meta"@),
        (path, "index:entity_type"@),
        (path, "columnar"@),
        (path, "index:hash"@),
        (path, "raft_sm_state"@),
        (path, "catalog"@),
    ]
}

/// Where a tree is: the path of its database, none for a temporary one, and its name.
pub type TreePlace = (Option<Seq<char>>, Seq<char>);

/// The key under which the schema is written down.
pub open spec fn schema_key() -> Seq<u8> {
    seq![0x73u8, 0x63u8, 0x68u8, 0x65u8, 0x6du8, 0x61u8]
}

/// The record, unless it marks a deletion.
pub open spec fn live(r: RecordView) -> Option<RecordView> {
    if r.deleted {
        None
    } else {
        Some(r)
    }
}

/// What stored bytes say of a version.
pub open spec fn stored_outcome(stored: Option<Seq<u8>>) -> Result<Option<RecordView>, ErrorView> {
    match stored {
        Some(b) => match record_outcome(b) {
            Ok(r) => Ok(live(r)),
            Err(e) => Err(e),
        },
        None => Ok(None),
    }
}

/// The version of an entity at a timestamp.
pub open spec fn get_outcome(data: Bytes, id: Seq<u8>, ts: u64) -> Result<
    Option<RecordView>,
    ErrorView,
> {
    stored_outcome(data.get(key_bytes(id, ts)))
}

/// What is said of a version pointer that is none.
pub open spec fn not_a_pointer() -> Seq<char> {
    "malformed version pointer"@
}

/// What stored bytes say of the latest version.
pub open spec fn pointer_outcome(stored: Option<Seq<u8>>) -> Result<Option<u64>, ErrorView> {
    match stored {
        Some(b) => if b.len() == 8 {
            Ok(Some(be_value(b) as u64))
        } else {
            Err(ErrorView::InvalidData(not_a_pointer()))
        },
        None => Ok(None),
    }
}

/// The version that a pointer points to.
pub open spec fn pointed_outcome(data: Bytes, id: Seq<u8>, pointer: Option<u64>) -> Result<
    Option<(u64, RecordView)>,
    ErrorView,
> {
    match pointer {
        Some(ts) => match get_outcome(data, id, ts) {
            Ok(Some(r)) => Ok(Some((ts, r))),
            Ok(None) => Ok(None),
            Err(e) => Err(e),
        },
        None => Ok(None),
    }
}

/// The latest version of an entity.
pub open spec fn latest_outcome(store: StoreView, id: Seq<u8>) -> Result<
    Option<(u64, RecordView)>,
    ErrorView,
> {
    match pointer_outcome(store.meta.get(latest_key_bytes(id))) {
        Ok(pointer) => pointed_outcome(store.data, id, pointer),
        Err(e) => Err(e),
    }
}

/// The pointers of several entities.
pub open spec fn pointers_outcome(store: StoreView, ids: Seq<Seq<u8>>) -> Result<
    Seq<Option<u64>>,
    ErrorView,
> {
    collect(ids.map_values(|id: Seq<u8>| pointer_outcome(store.meta.get(latest_key_bytes(id)))))
}

/// The latest versions of several entities: first all pointers are read, then
/// all records.
pub open spec fn latest_batch_outcome(store: StoreView, ids: Seq<Seq<u8>>) -> Result<
    Seq<Option<(u64, RecordView)>>,
    ErrorView,
> {
    match pointers_outcome(store, ids) {
        Ok(pointers) => collect(
            Seq::new(ids.len(), |i: int| pointed_outcome(store.data, ids[i], pointers[i])),
        ),
        Err(e) => Err(e),
    }
}

/// What one stored version says.
pub open spec fn version_outcome(entry: EntryView, id: Seq<u8>) -> Result<
    (u64, RecordView),
    ErrorView,
> {
    match parse_key(entry.0) {
        Some(k) => if k.0 == id {
            match record_outcome(entry.1) {
                Ok(r) => Ok((k.1, r)),
                Err(e) => Err(e),
            }
        } else {
            Err(ErrorView::InvalidKey)
        },
        None => Err(ErrorView::InvalidKey),
    }
}

/// The newest live version among stored versions, which are in ascending order.
/// What belongs to another entity is passed over.
pub open spec fn newest_live(l: Seq<EntryView>, id: Seq<u8>) -> Result<
    Option<(u64, RecordView)>,
    ErrorView,
>
    decreases l.len(),
{
    if l.len() == 0 {
        Ok(None)
    } else {
        match parse_key(l.last().0) {
            None => Err(ErrorView::InvalidKey),
            Some(k) => if k.0 != id {
                newest_live(l.drop_last(), id)
            } else {
                match record_outcome(l.last().1) {
                    Err(e) => Err(e),
                    Ok(r) => if r.deleted {
                        newest_live(l.drop_last(), id)
                    } else {
                        Ok(Some((k.1, r)))
                    },
                }
            },
        }
    }
}

/// The newest version among stored versions, which are in ascending order; none
/// where that version marks a deletion.
pub open spec fn newest(l: Seq<EntryView>, id: Seq<u8>) -> Result<
    Option<(u64, RecordView)>,
    ErrorView,
> {
    if l.len() == 0 {
        Ok(None)
    } else {
        match parse_key(l.last().0) {
            None => Err(ErrorView::InvalidKey),
            Some(k) => if k.0 != id {
                Ok(None)
            } else {
                match record_outcome(l.last().1) {
                    Err(e) => Err(e),
                    Ok(r) => if r.deleted {
                        Ok(None)
                    } else {
                        Ok(Some((k.1, r)))
                    },
                }
            },
        }
    }
}

/// The stored versions of an entity up to a timestamp.
pub open spec fn versions_until(data: Bytes, id: Seq<u8>, ts: u64) -> Seq<EntryView> {
    range_listing(data, key_bytes(id, 0), key_bytes(id, ts))
}

/// The newest live version of an entity at or before a timestamp.
pub open spec fn at_outcome(data: Bytes, id: Seq<u8>, ts: u64) -> Result<
    Option<(u64, RecordView)>,
    ErrorView,
> {
    newest_live(versions_until(data, id, ts), id)
}

/// The state of an entity as of a timestamp.
pub open spec fn as_of_outcome(data: Bytes, id: Seq<u8>, ts: u64) -> Result<
    Option<(u64, RecordView)>,
    ErrorView,
> {
    newest(versions_until(data, id, ts), id)
}

/// What a scan yields for one entity.
pub type ScanItem = Result<(EntityId, u64, Record), DbError>;

/// What a scan yields for one entity, in mathematical terms.
pub type ScanItemView = Result<(Seq<u8>, u64, RecordView), ErrorView>;

/// What a scan yields for one entity, in mathematical terms.
pub open spec fn scan_item_view(item: ScanItem) -> ScanItemView {
    match item {
        Ok((id, ts, record)) => Ok((id@, ts, record@)),
        Err(e) => Err(e@),
    }
}

/// Scan items in mathematical terms.
pub open spec fn scan_view(items: Seq<ScanItem>) -> Seq<ScanItemView> {
    items.map_values(|i: ScanItem| scan_item_view(i))
}

/// When entities are read.
#[derive(Debug, Clone, Copy)]
pub enum When {
    /// As they are now.
    Latest,
    /// As they were at a timestamp.
    AsOf(u64),
}

/// An entity at a time.
pub open spec fn read_outcome(store: StoreView, id: Seq<u8>, when: When) -> Result<
    Option<(u64, RecordView)>,
    ErrorView,
> {
    match when {
        When::Latest => latest_outcome(store, id),
        When::AsOf(ts) => as_of_outcome(store.data, id, ts),
    }
}

/// What an entry of the type index yields: nothing where the entity is absent.
pub open spec fn indexed_item(store: StoreView, key: Seq<u8>, prefix_len: nat, when: When) -> Option<
    ScanItemView,
> {
    if key.len() != prefix_len + 16 {
        Some(Err(ErrorView::InvalidKey))
    } else {
        let id = key.skip(prefix_len as int);
        match read_outcome(store, id, when) {
            Ok(Some(v)) => Some(Ok((id, v.0, v.1))),
            Ok(None) => None,
            Err(e) => Some(Err(e)),
        }
    }
}

/// What entries of the type index yield, in order.
pub open spec fn indexed_items(
    store: StoreView,
    l: Seq<EntryView>,
    prefix_len: nat,
    when: When,
) -> Seq<ScanItemView>
    decreases l.len(),
{
    if l.len() == 0 {
        Seq::empty()
    } else {
        let init = indexed_items(store, l.drop_last(), prefix_len, when);
        match indexed_item(store, l.last().0, prefix_len, when) {
            Some(item) => init.push(item),
            None => init,
        }
    }
}

/// What a scan of a type yields.
pub open spec fn scan_outcome(store: StoreView, entity_type: Seq<char>, when: When) -> Seq<
    ScanItemView,
> {
    let prefix = type_prefix(entity_type);
    indexed_items(store, prefix_listing(store.types, prefix), prefix.len(), when)
}

/// Two scans agree up to where the database failed, if it did.
pub open spec fn agrees_until_failure<T>(
    got: Seq<Result<T, ErrorView>>,
    expected: Seq<Result<T, ErrorView>>,
) -> bool {
    got == expected || exists|n: int|
        0 <= n < got.len() && n <= expected.len() && #[trigger] failed_at(got, n) && got.take(n)
            == expected.take(n)
}

/// Whether the database failed at a position.
pub open spec fn failed_at<T>(got: Seq<Result<T, ErrorView>>, n: int) -> bool {
    got[n] == Err::<T, ErrorView>(ErrorView::Storage)
}

/// The well-formed identifiers among the keys of a type index.
pub open spec fn indexed_ids(l: Seq<EntryView>, prefix_len: nat) -> Seq<Seq<u8>>
    decreases l.len(),
{
    if l.len() == 0 {
        Seq::empty()
    } else {
        let init = indexed_ids(l.drop_last(), prefix_len);
        if l.last().0.len() == prefix_len + 16 {
            init.push(l.last().0.skip(prefix_len as int))
        } else {
            init
        }
    }
}

/// The entities that are there, with their versions.
pub open spec fn present(ids: Seq<Seq<u8>>, found: Seq<Option<(u64, RecordView)>>) -> Seq<
    (Seq<u8>, u64, RecordView),
>
    decreases ids.len(),
{
    if ids.len() == 0 || found.len() == 0 {
        Seq::empty()
    } else {
        let init = present(ids.drop_last(), found.drop_last());
        match found.last() {
            Some(v) => init.push((ids.last(), v.0, v.1)),
            None => init,
        }
    }
}

/// What a batch scan of a type yields: keys that hold no identifier are passed
/// over.
pub open spec fn scan_batch_outcome(store: StoreView, entity_type: Seq<char>) -> Result<
    Seq<(Seq<u8>, u64, RecordView)>,
    ErrorView,
> {
    let prefix = type_prefix(entity_type);
    let ids = indexed_ids(prefix_listing(store.types, prefix), prefix.len());
    match latest_batch_outcome(store, ids) {
        Ok(found) => Ok(present(ids, found)),
        Err(e) => Err(e),
    }
}

/// What a key of the type index says.
pub open spec fn listed_id(entry: EntryView, prefix_len: nat) -> Result<Seq<u8>, ErrorView> {
    if entry.0.len() == prefix_len + 16 {
        Ok(entry.0.skip(prefix_len as int))
    } else {
        Err(ErrorView::InvalidKey)
    }
}

/// The store after a version has been written.
pub open spec fn put_view(store: StoreView, id: Seq<u8>, ts: u64, r: RecordView) -> StoreView {
    StoreView {
        data: store.data.insert(key_bytes(id, ts), record_bytes(r)),
        meta: store.meta.insert(latest_key_bytes(id), ts_bytes(ts)),
        ..store
    }
}

/// Whether a version is there already, and holds something else.
pub open spec fn taken(store: StoreView, id: Seq<u8>, ts: u64, r: RecordView) -> bool {
    let key = key_bytes(id, ts);
    store.data.contains_key(key) && store.data[key] != record_bytes(r)
}

/// What is said of a version that is there already.
pub open spec fn taken_error() -> ErrorView {
    ErrorView::InvalidData("version already exists"@)
}

/// What putting a version gives: the store afterwards, or the refusal to overwrite
/// a version.
pub open spec fn put_outcome(store: StoreView, id: Seq<u8>, ts: u64, r: RecordView) -> Result<
    StoreView,
    ErrorView,
> {
    if taken(store, id, ts, r) {
        Err(taken_error())
    } else {
        Ok(put_view(store, id, ts, r))
    }
}

/// Whether versions before a timestamp are as they were: what differs are versions at
/// it or later.
pub open spec fn past_kept(after: Bytes, before: Bytes, ts: u64) -> bool {
    forall|k: Seq<u8>|
        #[trigger] after.get(k) == before.get(k) || (parse_key(k) matches Some(version)
            && version.1 >= ts)
}

/// The store after a version of an entity of a type has been written, without
/// the row projection.
pub open spec fn put_typed_view(
    store: StoreView,
    entity_type: Seq<char>,
    id: Seq<u8>,
    ts: u64,
    r: RecordView,
) -> StoreView {
    StoreView {
        types: store.types.insert(type_key(entity_type, id), Seq::empty()),
        ..put_view(store, id, ts, r)
    }
}

/// The row projection after a row has been set.
pub open spec fn with_row(
    columnar: Bytes,
    entity_type: Seq<char>,
    id: Seq<u8>,
    fs: Seq<FieldView>,
) -> Bytes {
    columnar.insert(type_key(entity_type, id), entity_bytes(fs))
}

/// Changes of the equality index for an entity.
pub open spec fn apply_hash(
    m: Bytes,
    entity_type: Seq<char>,
    id: Seq<u8>,
    ops: Seq<IndexOpView>,
) -> Bytes
    decreases ops.len(),
{
    if ops.len() == 0 {
        m
    } else {
        let init = apply_hash(m, entity_type, id, ops.drop_last());
        match ops.last() {
            IndexOpView::Remove(c, v) => init.remove(index_key(entity_type, c, v, id)),
            IndexOpView::Insert(c, v) => init.insert(index_key(entity_type, c, v, id), Seq::empty()),
        }
    }
}

/// Changes of the ordered index for an entity.
pub open spec fn apply_btree(
    s: Seq<IndexEntryView>,
    entity_type: Seq<char>,
    id: Seq<u8>,
    ops: Seq<IndexOpView>,
) -> Seq<IndexEntryView>
    decreases ops.len(),
{
    if ops.len() == 0 {
        s
    } else {
        let init = apply_btree(s, entity_type, id, ops.drop_last());
        match ops.last() {
            IndexOpView::Remove(column, value) => without_entry(
                init,
                IndexEntryView { entity_type, column, value, id },
            ),
            IndexOpView::Insert(column, value) => with_entry(
                init,
                IndexEntryView { entity_type, column, value, id },
            ),
        }
    }
}

/// The fields, or none.
pub open spec fn or_none(fs: Option<Seq<FieldView>>) -> Seq<FieldView> {
    match fs {
        Some(fs) => fs,
        None => Seq::empty(),
    }
}

/// The store after the two indexes have followed a change of an entity's
/// fields; the row projection is left as it is.
pub open spec fn reindexed_only(
    store: StoreView,
    entity_type: Seq<char>,
    id: Seq<u8>,
    before: Option<Seq<FieldView>>,
    after: Option<Seq<FieldView>>,
    columns: Seq<Seq<char>>,
) -> StoreView {
    let b = or_none(before);
    let a = or_none(after);
    StoreView {
        hash: apply_hash(store.hash, entity_type, id, change_ops(touched_names(b, a), b, a)),
        btree: match store.btree {
            Some(s) => Some(
                apply_btree(s, entity_type, id, change_ops(distinct(columns), b, a)),
            ),
            None => None,
        },
        ..store
    }
}

/// Whether a change of an entity's fields changes nothing that the equality index
/// holds.
pub open spec fn nothing_reindexed(before: Option<Seq<FieldView>>, after: Option<Seq<FieldView>>) -> bool {
    let b = or_none(before);
    let a = or_none(after);
    change_ops(touched_names(b, a), b, a).len() == 0
}

/// The store after a row has left the row projection.
pub open spec fn without_row(store: StoreView, entity_type: Seq<char>, id: Seq<u8>) -> StoreView {
    StoreView { columnar: store.columnar.remove(type_key(entity_type, id)), ..store }
}

/// The store after the indexes have followed a change of an entity's fields.
/// Where the entity is gone, its row leaves the row projection.
pub open spec fn reindexed(
    store: StoreView,
    entity_type: Seq<char>,
    id: Seq<u8>,
    before: Option<Seq<FieldView>>,
    after: Option<Seq<FieldView>>,
    columns: Seq<Seq<char>>,
) -> StoreView {
    let indexed = reindexed_only(store, entity_type, id, before, after, columns);
    if after is None && before is Some {
        without_row(indexed, entity_type, id)
    } else {
        indexed
    }
}

/// The ordered index with the values that rows have in a column.
pub open spec fn indexed_rows(
    s: Seq<IndexEntryView>,
    entity_type: Seq<char>,
    column: Seq<char>,
    rows: Seq<(Seq<u8>, Seq<FieldView>)>,
) -> Seq<IndexEntryView>
    decreases rows.len(),
{
    if rows.len() == 0 {
        s
    } else {
        let init = indexed_rows(s, entity_type, column, rows.drop_last());
        let value = last_value(rows.last().1, column);
        if indexable(value) {
            with_entry(
                init,
                IndexEntryView { entity_type, column, value: value->0, id: rows.last().0 },
            )
        } else {
            init
        }
    }
}

/// The ordered index after a column has been built anew.
pub open spec fn column_built(store: StoreView, entity_type: Seq<char>, column: Seq<char>) -> Result<
    Seq<IndexEntryView>,
    ErrorView,
> {
    match collect(row_items(store.columnar, entity_type)) {
        Ok(rows) => Ok(
            indexed_rows(
                without_column(store.btree->0, entity_type, column),
                entity_type,
                column,
                rows,
            ),
        ),
        Err(e) => Err(e),
    }
}

/// The columns of a type that the ordered index covers.
pub open spec fn covered_columns(
    columns: Seq<(Seq<char>, Seq<char>)>,
    entity_type: Seq<char>,
) -> Seq<Seq<char>>
    decreases columns.len(),
{
    if columns.len() == 0 {
        Seq::empty()
    } else {
        let init = covered_columns(columns.drop_last(), entity_type);
        if columns.last().0 == entity_type {
            init.push(columns.last().1)
        } else {
            init
        }
    }
}

/// The identifiers and those that are pending and not yet among them.
pub open spec fn with_pending(ids: Seq<Seq<u8>>, pending: Seq<Seq<u8>>) -> Seq<Seq<u8>> {
    ids + pending.filter(|id: Seq<u8>| !ids.contains(id))
}

/// The commit timestamp that follows: later than the last, and not before now.
pub open spec fn next_ts(watermark: u64, now: u64) -> u64 {
    if now > watermark {
        now
    } else {
        (watermark + 1) as u64
    }
}

/// The least significant bytes of a number, least significant first.
pub open spec fn le_byte(n: u64, i: int) -> u8
    decreases i,
{
    if i <= 0 {
        (n % 256) as u8
    } else {
        le_byte(n / 256, i - 1)
    }
}

/// The identifier that a time and a counter give: their bytes, with the marks of
/// a random UUID. The two bits of the counter that a mark takes the place of stand
/// where the two highest bits of the time would be.
pub open spec fn id_of(now: u64, counter: u64) -> Seq<u8> {
    Seq::new(
        16,
        |i: int|
            if i == 6 {
                (le_byte(now, 6) % 16 + 64) as u8
            } else if i == 7 {
                (le_byte(now, 7) % 64 + 64 * (le_byte(counter, 0) / 64)) as u8
            } else if i < 8 {
                le_byte(now, i)
            } else if i == 8 {
                (le_byte(counter, 0) % 64 + 128) as u8
            } else {
                le_byte(counter, i - 8)
            },
    )
}

} // verus!
