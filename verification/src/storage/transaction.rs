//! Transactions: writes that are made together, and the versions they rest on.

use vstd::prelude::*;

use crate::bytes::{copy_slice, push_be, EntityId};
use crate::codec::{decode_entity, parse_entity, Field};
use crate::error::{agrees, DbError, ErrorView};
use crate::storage::engine::{
    as_fields, bytes_view, indexes_kept, parsed, partly_written, readable, versions_kept,
    StorageEngine,
};
use crate::storage::id_map::{value_of, with_value, IdMap};
use crate::storage::key::{current_timestamp, ts_bytes, VersionedKey};
use crate::storage::kv;
use crate::storage::kv::{batch_entries, between, no_entries};
use crate::storage::laws::lemma_work_keeps_versions;
use crate::storage::layout::{latest_key, type_index_key};
use crate::storage::model::{
    covered_columns, latest_outcome, next_ts, put_typed_view, put_view, reindexed, with_row,
    StoreView,
};
use crate::storage::record::{tombstone, Record, RecordView};

verus! {

/// A pending operation in a transaction.
#[derive(Debug)]
pub enum TransactionOp {
    /// Write a version.
    Put {
        /// The entity's type; empty where it has none.
        entity_type: String,
        /// The version.
        key: VersionedKey,
        /// What it holds.
        record: Record,
    },
    /// Mark an entity as deleted.
    Delete {
        /// The entity's type; empty where it has none.
        entity_type: String,
        /// The entity.
        entity_id: EntityId,
    },
    /// Write a new version of an entity.
    Update {
        /// The entity's type; empty where it has none.
        entity_type: String,
        /// The entity.
        entity_id: EntityId,
        /// What the version holds.
        record: Record,
    },
}

/// A pending operation in mathematical terms.
pub ghost enum OpView {
    /// See [`TransactionOp::Put`].
    Put(Seq<char>, Seq<u8>, u64, RecordView),
    /// See [`TransactionOp::Delete`].
    Delete(Seq<char>, Seq<u8>),
    /// See [`TransactionOp::Update`].
    Update(Seq<char>, Seq<u8>, RecordView),
}

impl View for TransactionOp {
    type V = OpView;

    open spec fn view(&self) -> OpView {
        match *self {
            TransactionOp::Put { entity_type, key, record } => OpView::Put(
                entity_type@,
                key.entity_id@,
                key.version_ts,
                record@,
            ),
            TransactionOp::Delete { entity_type, entity_id } => OpView::Delete(
                entity_type@,
                entity_id@,
            ),
            TransactionOp::Update { entity_type, entity_id, record } => OpView::Update(
                entity_type@,
                entity_id@,
                record@,
            ),
        }
    }
}

/// Pending operations in mathematical terms.
pub open spec fn op_list_view(ops: Seq<TransactionOp>) -> Seq<OpView> {
    ops.map_values(|op: TransactionOp| op@)
}

impl OpView {
    /// The entity's type.
    pub open spec fn entity_type(self) -> Seq<char> {
        match self {
            OpView::Put(t, _, _, _) => t,
            OpView::Delete(t, _) => t,
            OpView::Update(t, _, _) => t,
        }
    }

    /// The entity.
    pub open spec fn id(self) -> Seq<u8> {
        match self {
            OpView::Put(_, id, _, _) => id,
            OpView::Delete(_, id) => id,
            OpView::Update(_, id, _) => id,
        }
    }

    /// The data that the entity has afterwards.
    pub open spec fn after(self) -> Option<Seq<u8>> {
        match self {
            OpView::Put(_, _, _, r) => Some(r.data),
            OpView::Delete(_, _) => None,
            OpView::Update(_, _, r) => Some(r.data),
        }
    }

    /// The record that is written.
    pub open spec fn record(self) -> RecordView {
        match self {
            OpView::Put(_, _, _, r) => r,
            OpView::Delete(_, _) => tombstone(),
            OpView::Update(_, _, r) => r,
        }
    }
}

/// Which timestamps the writes of a transaction get.
#[derive(Debug, Clone, Copy)]
pub enum Stamp {
    /// A put keeps its own; the others get this one.
    Own(u64),
    /// All get this one.
    All(u64),
}

/// The timestamp that an operation's write gets.
pub open spec fn stamp_of(op: OpView, stamp: Stamp) -> u64 {
    match stamp {
        Stamp::All(ts) => ts,
        Stamp::Own(now) => match op {
            OpView::Put(_, _, ts, _) => ts,
            _ => now,
        },
    }
}

/// The store after one operation.
pub open spec fn op_applied(store: StoreView, op: OpView, stamp: Stamp) -> StoreView {
    let ts = stamp_of(op, stamp);
    if op is Delete || op.entity_type().len() == 0 {
        put_view(store, op.id(), ts, op.record())
    } else {
        put_typed_view(store, op.entity_type(), op.id(), ts, op.record())
    }
}

/// The store after operations in order.
pub open spec fn ops_applied(store: StoreView, ops: Seq<OpView>, stamp: Stamp) -> StoreView
    decreases ops.len(),
{
    if ops.len() == 0 {
        store
    } else {
        op_applied(ops_applied(store, ops.drop_last(), stamp), ops.last(), stamp)
    }
}

/// What the indexes have to follow for one entity.
pub struct IndexWork {
    /// The entity's type.
    pub entity_type: String,
    /// Its data before, where it was there.
    pub before: Option<Vec<u8>>,
    /// Its data after, where it is there.
    pub after: Option<Vec<u8>>,
}

/// What the indexes have to follow, in mathematical terms.
pub ghost struct WorkView {
    /// The entity's type.
    pub entity_type: Seq<char>,
    /// Its data before, where it was there.
    pub before: Option<Seq<u8>>,
    /// Its data after, where it is there.
    pub after: Option<Seq<u8>>,
}

impl DeepView for IndexWork {
    type V = WorkView;

    open spec fn deep_view(&self) -> WorkView {
        WorkView {
            entity_type: self.entity_type@,
            before: bytes_view(self.before),
            after: bytes_view(self.after),
        }
    }
}

/// What the indexes have to follow for all operations: for each entity its
/// data before the transaction, and its type and its data after it. Operations
/// without a type are passed over.
pub open spec fn work_outcome(store: StoreView, ops: Seq<OpView>) -> Result<
    Seq<(Seq<u8>, WorkView)>,
    ErrorView,
>
    decreases ops.len(),
{
    if ops.len() == 0 {
        Ok(Seq::empty())
    } else {
        let op = ops.last();
        match work_outcome(store, ops.drop_last()) {
            Err(e) => Err(e),
            Ok(work) => if op.entity_type().len() == 0 {
                Ok(work)
            } else {
                match value_of(work, op.id()) {
                    Some(w) => Ok(
                        with_value(
                            work,
                            op.id(),
                            WorkView {
                                entity_type: op.entity_type(),
                                before: w.before,
                                after: op.after(),
                            },
                        ),
                    ),
                    None => match latest_outcome(store, op.id()) {
                        Err(e) => Err(e),
                        Ok(latest) => Ok(
                            with_value(
                                work,
                                op.id(),
                                WorkView {
                                    entity_type: op.entity_type(),
                                    before: match latest {
                                        Some(v) => Some(v.1.data),
                                        None => None,
                                    },
                                    after: op.after(),
                                },
                            ),
                        ),
                    },
                }
            },
        }
    }
}

/// Whether the indexes follow a change: not where the new data cannot be read,
/// nor where the entity is gone and its old data cannot be read.
pub open spec fn followed(w: WorkView) -> bool {
    match w.after {
        Some(b) => parse_entity(b) is Some,
        None => readable(w.before),
    }
}

/// The store after the indexes have followed the change of one entity.
pub open spec fn work_applied(store: StoreView, id: Seq<u8>, w: WorkView) -> StoreView {
    if followed(w) {
        let indexed = reindexed(
            store,
            w.entity_type,
            id,
            parsed(w.before),
            parsed(w.after),
            covered_columns(store.btree_columns, w.entity_type),
        );
        match parsed(w.after) {
            Some(fs) => StoreView {
                columnar: with_row(indexed.columnar, w.entity_type, id, fs),
                ..indexed
            },
            None => indexed,
        }
    } else {
        store
    }
}

/// The store after the indexes have followed all changes.
pub open spec fn all_work_applied(store: StoreView, work: Seq<(Seq<u8>, WorkView)>) -> StoreView
    decreases work.len(),
{
    if work.len() == 0 {
        store
    } else {
        work_applied(all_work_applied(store, work.drop_last()), work.last().0, work.last().1)
    }
}

/// Whether a transaction has been made in part: nothing but the versions, their
/// pointers, the type index, the indexes and the row projection differ, and each key of
/// the first three is as before or as it was to be.
pub open spec fn partly_committed(before: StoreView, done: StoreView, after: StoreView) -> bool {
    &&& after == (StoreView {
        data: after.data,
        meta: after.meta,
        types: after.types,
        hash: after.hash,
        btree: after.btree,
        columnar: after.columnar,
        ..before
    })
    &&& between(before.data, done.data, after.data)
    &&& between(before.meta, done.meta, after.meta)
    &&& between(before.types, done.types, after.types)
}

/// The version that an entity has, for comparison with an expected one: 0 where
/// it is not there.
pub open spec fn version_or_zero(latest: Option<(u64, RecordView)>) -> u64 {
    match latest {
        Some(v) => v.0,
        None => 0,
    }
}

/// Whether all entities have the versions that a transaction relies on; where not,
/// the first that has another is named.
pub open spec fn conflict_outcome(store: StoreView, expected: Seq<(Seq<u8>, u64)>) -> Result<
    (),
    ErrorView,
>
    decreases expected.len(),
{
    if expected.len() == 0 {
        Ok(())
    } else {
        match conflict_outcome(store, expected.drop_last()) {
            Err(e) => Err(e),
            Ok(_) => match latest_outcome(store, expected.last().0) {
                Err(e) => Err(e),
                Ok(latest) => if version_or_zero(latest) != expected.last().1 {
                    Err(
                        ErrorView::TransactionConflict(
                            expected.last().0,
                            expected.last().1,
                            version_or_zero(latest),
                        ),
                    )
                } else {
                    Ok(())
                },
            },
        }
    }
}

/// The store after a transaction, or why it is refused.
pub open spec fn commit_outcome(
    store: StoreView,
    ops: Seq<OpView>,
    expected: Seq<(Seq<u8>, u64)>,
    stamp: Stamp,
) -> Result<StoreView, ErrorView> {
    match conflict_outcome(store, expected) {
        Err(e) => Err(e),
        Ok(_) => match work_outcome(store, ops) {
            Err(e) => Err(e),
            Ok(work) => Ok(all_work_applied(ops_applied(store, ops, stamp), work)),
        },
    }
}

/// A transaction: operations that are made together on commit.
pub struct Transaction {
    ops: Vec<TransactionOp>,
    read_set: IdMap<u64>,
    expected_versions: IdMap<u64>,
    write_cache: IdMap<Option<Record>>,
}

/// A transaction in mathematical terms.
pub ghost struct TxView {
    /// The pending operations.
    pub ops: Seq<OpView>,
    /// The versions that were read; 0 for what was not there.
    pub read_set: Seq<(Seq<u8>, u64)>,
    /// The versions that are expected.
    pub expected: Seq<(Seq<u8>, u64)>,
    /// What the transaction itself has written.
    pub cache: Seq<(Seq<u8>, Option<RecordView>)>,
}

impl TxView {
    /// The versions that the transaction relies on: those that are expected, and
    /// those that were read.
    pub open spec fn relied_on(self) -> Seq<(Seq<u8>, u64)> {
        self.expected + self.read_set
    }
}

/// The transaction with an operation more.
pub open spec fn queued(tx: TxView, op: OpView) -> TxView {
    TxView {
        ops: tx.ops.push(op),
        cache: with_value(
            tx.cache,
            op.id(),
            if op is Delete {
                None
            } else {
                Some(op.record())
            },
        ),
        ..tx
    }
}

/// What reading an entity in a transaction gives: what the transaction wrote,
/// else what the store has.
pub open spec fn tx_read_outcome(tx: TxView, store: StoreView, id: Seq<u8>) -> Result<
    Option<RecordView>,
    ErrorView,
> {
    match value_of(tx.cache, id) {
        Some(cached) => Ok(cached),
        None => match latest_outcome(store, id) {
            Ok(Some(v)) => Ok(Some(v.1)),
            Ok(None) => Ok(None),
            Err(e) => Err(e),
        },
    }
}

/// The transaction after an entity has been read: the version is remembered,
/// unless the transaction wrote the entity itself.
pub open spec fn tx_after_read(tx: TxView, store: StoreView, id: Seq<u8>) -> TxView {
    match value_of(tx.cache, id) {
        Some(_) => tx,
        None => match latest_outcome(store, id) {
            Ok(latest) => TxView {
                read_set: with_value(tx.read_set, id, version_or_zero(latest)),
                ..tx
            },
            Err(_) => tx,
        },
    }
}

/// An error in the first operations is the outcome.
proof fn lemma_work_fails(store: StoreView, ops: Seq<OpView>, n: int)
    requires
        0 <= n <= ops.len(),
        work_outcome(store, ops.take(n)) is Err,
    ensures
        work_outcome(store, ops) == work_outcome(store, ops.take(n)),
    decreases ops.len() - n,
{
    if n == ops.len() {
        assert(ops.take(n) =~= ops);
    } else {
        assert(ops.take(n + 1).drop_last() =~= ops.take(n));
        lemma_work_fails(store, ops, n + 1);
    }
}

/// A conflict among the first expected versions is the outcome.
proof fn lemma_conflict_fails(store: StoreView, expected: Seq<(Seq<u8>, u64)>, n: int)
    requires
        0 <= n <= expected.len(),
        conflict_outcome(store, expected.take(n)) is Err,
    ensures
        conflict_outcome(store, expected) == conflict_outcome(store, expected.take(n)),
    decreases expected.len() - n,
{
    if n == expected.len() {
        assert(expected.take(n) =~= expected);
    } else {
        assert(expected.take(n + 1).drop_last() =~= expected.take(n));
        lemma_conflict_fails(store, expected, n + 1);
    }
}

proof fn lemma_conflict_split(
    store: StoreView,
    first: Seq<(Seq<u8>, u64)>,
    second: Seq<(Seq<u8>, u64)>,
)
    ensures
        conflict_outcome(store, first + second) == match conflict_outcome(store, first) {
            Ok(_) => conflict_outcome(store, second),
            Err(e) => Err(e),
        },
    decreases second.len(),
{
    if second.len() == 0 {
        assert(first + second =~= first);
    } else {
        lemma_conflict_split(store, first, second.drop_last());
        assert((first + second).drop_last() =~= first + second.drop_last());
    }
}

/// Compares the versions that entities have with others.
fn check_versions(versions: &IdMap<u64>, engine: &StorageEngine) -> (r: Result<(), DbError>)
    ensures
        agrees(r, conflict_outcome(engine@, versions.entries())),
        versions.entries().len() == 0 ==> r is Ok,
{
    let ghost all = versions.entries();
    let mut i: usize = 0;
    assert(all.take(0) =~= Seq::<(Seq<u8>, u64)>::empty());
    while i < versions.len()
        invariant
            i <= all.len(),
            all == versions.entries(),
            conflict_outcome(engine@, all.take(i as int)) == Ok::<(), ErrorView>(()),
        decreases all.len() - i,
    {
        let (entity_id, expected) = versions.at(i);
        proof {
            assert(all.take(i + 1).drop_last() =~= all.take(i as int));
            assert(all.take(i + 1).last() == all[i as int]);
            if conflict_outcome(engine@, all.take(i + 1)) is Err {
                lemma_conflict_fails(engine@, all, i + 1);
            }
        }
        let actual: u64 = match engine.get_latest(&entity_id)? {
            Some((version, _)) => version,
            None => 0,
        };
        if actual != *expected {
            return Err(DbError::TransactionConflict { entity_id, expected: *expected, actual });
        }
        i = i + 1;
    }
    assert(all.take(all.len() as int) =~= all);
    Ok(())
}

fn data_of(found: Option<(u64, Record)>) -> (r: Option<Vec<u8>>)
    ensures
        bytes_view(r) == match found.deep_view() {
            Some(v) => Some(v.1.data),
            None => None,
        },
{
    match found {
        Some((_, record)) => Some(record.data),
        None => None,
    }
}

impl View for Transaction {
    type V = TxView;

    closed spec fn view(&self) -> TxView {
        TxView {
            ops: op_list_view(self.ops@),
            read_set: self.read_set.entries(),
            expected: self.expected_versions.entries(),
            cache: self.write_cache.entries(),
        }
    }
}

impl Transaction {
    /// A transaction without operations.
    pub fn new() -> (tx: Transaction)
        ensures
            tx@ == (TxView {
                ops: Seq::empty(),
                read_set: Seq::empty(),
                expected: Seq::empty(),
                cache: Seq::empty(),
            }),
    {
        let tx = Transaction {
            ops: Vec::new(),
            read_set: IdMap::new(),
            expected_versions: IdMap::new(),
            write_cache: IdMap::new(),
        };
        assert(tx@.ops =~= Seq::<OpView>::empty());
        tx
    }

    fn queue(&mut self, op: TransactionOp, id: EntityId, cached: Option<Record>)
        requires
            op@.id() == id@,
            cached.deep_view() == if op@ is Delete {
                None
            } else {
                Some(op@.record())
            },
        ensures
            final(self)@ == queued(old(self)@, op@),
    {
        let ghost before = self@.ops;
        self.write_cache.insert(id, cached);
        self.ops.push(op);
        assert(self@.ops =~= before.push(op@));
    }

    /// Queues a version without a type.
    pub fn put(&mut self, key: VersionedKey, record: Record)
        ensures
            final(self)@ == queued(
                old(self)@,
                OpView::Put(Seq::empty(), key.entity_id@, key.version_ts, record@),
            ),
    {
        let cached: Record = record.copy();
        self.queue(
            TransactionOp::Put { entity_type: String::new(), key, record },
            key.entity_id,
            Some(cached),
        );
    }

    /// Queues a version of an entity of a type.
    pub fn put_typed(&mut self, entity_type: &str, key: VersionedKey, record: Record)
        ensures
            final(self)@ == queued(
                old(self)@,
                OpView::Put(entity_type@, key.entity_id@, key.version_ts, record@),
            ),
    {
        let cached: Record = record.copy();
        self.queue(
            TransactionOp::Put { entity_type: entity_type.to_owned(), key, record },
            key.entity_id,
            Some(cached),
        );
    }

    /// Queues the first version of an entity, at the current time.
    pub fn insert(&mut self, entity_type: &str, entity_id: EntityId, record: Record)
        ensures
            exists|ts: u64|
                final(self)@ == #[trigger] queued(
                    old(self)@,
                    OpView::Put(entity_type@, entity_id@, ts, record@),
                ),
    {
        let key: VersionedKey = VersionedKey::now(entity_id);
        self.put_typed(entity_type, key, record);
    }

    /// Queues a new version of an entity.
    pub fn update(&mut self, entity_type: &str, entity_id: EntityId, record: Record)
        ensures
            final(self)@ == queued(
                old(self)@,
                OpView::Update(entity_type@, entity_id@, record@),
            ),
    {
        let cached: Record = record.copy();
        self.queue(
            TransactionOp::Update { entity_type: entity_type.to_owned(), entity_id, record },
            entity_id,
            Some(cached),
        );
    }

    /// Queues a deletion without a type.
    pub fn delete(&mut self, entity_id: EntityId)
        ensures
            final(self)@ == queued(old(self)@, OpView::Delete(Seq::empty(), entity_id@)),
    {
        self.queue(
            TransactionOp::Delete { entity_type: String::new(), entity_id },
            entity_id,
            None,
        );
    }

    /// Queues a deletion of an entity of a type.
    pub fn delete_typed(&mut self, entity_type: &str, entity_id: EntityId)
        ensures
            final(self)@ == queued(old(self)@, OpView::Delete(entity_type@, entity_id@)),
    {
        self.queue(
            TransactionOp::Delete { entity_type: entity_type.to_owned(), entity_id },
            entity_id,
            None,
        );
    }

    /// Reads an entity: what the transaction wrote, else what the store has.
    pub fn read(&mut self, engine: &StorageEngine, entity_id: &EntityId) -> (r: Result<
        Option<Record>,
        DbError,
    >)
        ensures
            agrees(r, tx_read_outcome(old(self)@, engine@, entity_id@)),
            value_of(old(self)@.cache, entity_id@) is Some ==> r is Ok,
            match r {
                Ok(_) => final(self)@ == tx_after_read(old(self)@, engine@, entity_id@),
                Err(_) => final(self)@ == old(self)@,
            },
    {
        if let Some(cached) = self.write_cache.get(entity_id) {
            return match cached {
                Some(record) => Ok(Some(record.copy())),
                None => Ok(None),
            };
        }
        match engine.get_latest(entity_id)? {
            Some((version, record)) => {
                self.read_set.insert(*entity_id, version);
                Ok(Some(record))
            },
            None => {
                self.read_set.insert(*entity_id, 0);
                Ok(None)
            },
        }
    }

    /// Whether an entity is there: as [`Transaction::read`] would find it.
    pub fn entity_exists(&mut self, engine: &StorageEngine, entity_id: &EntityId) -> (r: Result<
        bool,
        DbError,
    >)
        ensures
            match r {
                Ok(found) => {
                    &&& tx_read_outcome(old(self)@, engine@, entity_id@) matches Ok(record) && found
                        == (record is Some)
                    &&& final(self)@ == tx_after_read(old(self)@, engine@, entity_id@)
                },
                Err(e) => {
                    &&& e@ is Storage || tx_read_outcome(old(self)@, engine@, entity_id@) == Err::<
                        Option<RecordView>,
                        ErrorView,
                    >(e@)
                    &&& final(self)@ == old(self)@
                },
            },
            value_of(old(self)@.cache, entity_id@) is Some ==> r is Ok,
    {
        let record: Option<Record> = self.read(engine, entity_id)?;
        Ok(record.is_some())
    }

    /// Expects that an entity has a version at commit.
    pub fn expect_version(&mut self, entity_id: EntityId, version: u64)
        ensures
            final(self)@ == (TxView {
                expected: with_value(old(self)@.expected, entity_id@, version),
                ..old(self)@
            }),
    {
        self.expected_versions.insert(entity_id, version);
    }

    /// The version that an entity has in the store.
    pub fn get_version(&self, engine: &StorageEngine, entity_id: &EntityId) -> (r: Result<
        Option<u64>,
        DbError,
    >)
        ensures
            agrees(
                r,
                match latest_outcome(engine@, entity_id@) {
                    Ok(Some(v)) => Ok(Some(v.0)),
                    Ok(None) => Ok(None),
                    Err(e) => Err(e),
                },
            ),
    {
        match engine.get_latest(entity_id)? {
            Some((version, _)) => Ok(Some(version)),
            None => Ok(None),
        }
    }

    /// Whether the transaction writes an entity.
    pub fn is_writing(&self, entity_id: &EntityId) -> (r: bool)
        ensures
            r == (value_of(self@.cache, entity_id@) is Some),
    {
        self.write_cache.get(entity_id).is_some()
    }

    /// The version that was read of an entity.
    pub fn read_version(&self, entity_id: &EntityId) -> (r: Option<u64>)
        ensures
            r == value_of(self@.read_set, entity_id@),
    {
        match self.read_set.get(entity_id) {
            Some(version) => Some(*version),
            None => None,
        }
    }

    /// The pending operations.
    pub fn operations(&self) -> (ops: &Vec<TransactionOp>)
        ensures
            op_list_view(ops@) == self@.ops,
    {
        &self.ops
    }

    /// The number of pending operations.
    pub fn operation_count(&self) -> (n: usize)
        ensures
            n == self@.ops.len(),
    {
        self.ops.len()
    }

    /// Discards the pending operations.
    pub fn rollback(self) {
    }

    fn check_version_conflicts(&self, engine: &StorageEngine) -> (r: Result<(), DbError>)
        ensures
            agrees(r, conflict_outcome(engine@, self@.relied_on())),
            self@.relied_on().len() == 0 ==> r is Ok,
    {
        proof {
            lemma_conflict_split(engine@, self@.expected, self@.read_set);
        }
        check_versions(&self.expected_versions, engine)?;
        check_versions(&self.read_set, engine)
    }

    fn collect_index_work(&self, engine: &StorageEngine) -> (r: Result<IdMap<IndexWork>, DbError>)
        ensures
            match r {
                Ok(work) => work_outcome(engine@, self@.ops) == Ok::<
                    Seq<(Seq<u8>, WorkView)>,
                    ErrorView,
                >(work.entries()),
                Err(e) => e@ is Storage || work_outcome(engine@, self@.ops) == Err::<
                    Seq<(Seq<u8>, WorkView)>,
                    ErrorView,
                >(e@),
            },
    {
        let ghost all = self@.ops;
        let mut work: IdMap<IndexWork> = IdMap::new();
        let mut i: usize = 0;
        assert(all.take(0) =~= Seq::<OpView>::empty());
        while i < self.ops.len()
            invariant
                i <= self.ops@.len(),
                all == op_list_view(self.ops@),
                work_outcome(engine@, all.take(i as int)) == Ok::<
                    Seq<(Seq<u8>, WorkView)>,
                    ErrorView,
                >(work.entries()),
            decreases self.ops@.len() - i,
        {
            let op: &TransactionOp = &self.ops[i];
            proof {
                assert(all.take(i + 1).drop_last() =~= all.take(i as int));
                assert(all.take(i + 1).last() == op@);
                if work_outcome(engine@, all.take(i + 1)) is Err {
                    lemma_work_fails(engine@, all, i + 1);
                }
            }
            let (entity_type, entity_id, after): (&String, EntityId, Option<Vec<u8>>) = match op {
                TransactionOp::Put { entity_type, key, record } => (
                    entity_type,
                    key.entity_id,
                    Some(copy_slice(record.data.as_slice())),
                ),
                TransactionOp::Update { entity_type, entity_id, record } => (
                    entity_type,
                    *entity_id,
                    Some(copy_slice(record.data.as_slice())),
                ),
                TransactionOp::Delete { entity_type, entity_id } => (entity_type, *entity_id, None),
            };
            if !entity_type.as_str().is_empty() {
                let known: Option<Option<Vec<u8>>> = match work.get(&entity_id) {
                    Some(entry) => Some(
                        match &entry.before {
                            Some(data) => Some(copy_slice(data.as_slice())),
                            None => None,
                        },
                    ),
                    None => None,
                };
                let before: Option<Vec<u8>> = match known {
                    Some(before) => before,
                    None => data_of(engine.get_latest(&entity_id)?),
                };
                work.insert(
                    entity_id,
                    IndexWork { entity_type: entity_type.clone(), before, after },
                );
            }
            i = i + 1;
        }
        assert(all.take(all.len() as int) =~= all);
        Ok(work)
    }

    fn write_ops(&self, engine: &mut StorageEngine, stamp: Stamp) -> (r: Result<(), DbError>)
        ensures
            match r {
                Ok(_) => final(engine)@ == ops_applied(old(engine)@, self@.ops, stamp)
                    && indexes_kept(final(engine)@, old(engine)@),
                Err(e) => e@ is Storage && partly_written(
                    old(engine)@,
                    ops_applied(old(engine)@, self@.ops, stamp),
                    final(engine)@,
                ),
            },
    {
        let ghost all = self@.ops;
        let ghost store = engine@;
        let mut data: sled::Batch = kv::new_batch();
        let mut meta: sled::Batch = kv::new_batch();
        let mut types: sled::Batch = kv::new_batch();
        let mut i: usize = 0;
        proof {
            assert(all.take(0) =~= Seq::<OpView>::empty());
            assert(store.data.union_prefer_right(no_entries()) =~= store.data);
            assert(store.meta.union_prefer_right(no_entries()) =~= store.meta);
            assert(store.types.union_prefer_right(no_entries()) =~= store.types);
        }
        while i < self.ops.len()
            invariant
                i <= self.ops@.len(),
                all == op_list_view(self.ops@),
                ops_applied(store, all.take(i as int), stamp) == (StoreView {
                    data: store.data.union_prefer_right(batch_entries(data)),
                    meta: store.meta.union_prefer_right(batch_entries(meta)),
                    types: store.types.union_prefer_right(batch_entries(types)),
                    ..store
                }),
            decreases self.ops@.len() - i,
        {
            let op: &TransactionOp = &self.ops[i];
            let ghost done = ops_applied(store, all.take(i as int), stamp);
            let ghost d = batch_entries(data);
            let ghost m = batch_entries(meta);
            let ghost t = batch_entries(types);
            proof {
                assert(all.take(i + 1).drop_last() =~= all.take(i as int));
                assert(all.take(i + 1).last() == op@);
            }
            let ts: u64 = match stamp {
                Stamp::All(ts) => ts,
                Stamp::Own(now) => match op {
                    TransactionOp::Put { entity_type, key, record } => key.version_ts,
                    _ => now,
                },
            };
            let (entity_id, value): (EntityId, Vec<u8>) = match op {
                TransactionOp::Put { entity_type, key, record } => (
                    key.entity_id,
                    record.to_bytes(),
                ),
                TransactionOp::Update { entity_type, entity_id, record } => (
                    *entity_id,
                    record.to_bytes(),
                ),
                TransactionOp::Delete { entity_type, entity_id } => (
                    *entity_id,
                    Record::tombstone().to_bytes(),
                ),
            };
            let key: Vec<u8> = VersionedKey::new(entity_id, ts).encode();
            kv::batch_insert(&mut data, key.as_slice(), value.as_slice());
            let latest: Vec<u8> = latest_key(&entity_id);
            let mut pointer: Vec<u8> = Vec::new();
            push_be(&mut pointer, ts, 8);
            assert(pointer@ =~= ts_bytes(ts));
            kv::batch_insert(&mut meta, latest.as_slice(), pointer.as_slice());
            let indexed: Option<&String> = match op {
                TransactionOp::Put { entity_type, key, record } => Some(entity_type),
                TransactionOp::Update { entity_type, entity_id, record } => Some(entity_type),
                TransactionOp::Delete { entity_type, entity_id } => None,
            };
            if let Some(entity_type) = indexed {
                if !entity_type.as_str().is_empty() {
                    let index: Vec<u8> = type_index_key(entity_type.as_str(), &entity_id);
                    let nothing: Vec<u8> = Vec::new();
                    assert(nothing@ =~= Seq::<u8>::empty());
                    kv::batch_insert(&mut types, index.as_slice(), nothing.as_slice());
                    assert(store.types.union_prefer_right(t.insert(index@, nothing@))
                        =~= store.types.union_prefer_right(t).insert(index@, nothing@));
                }
            }
            proof {
                assert(store.data.union_prefer_right(d.insert(key@, value@))
                    =~= store.data.union_prefer_right(d).insert(key@, value@));
                assert(store.meta.union_prefer_right(m.insert(latest@, pointer@))
                    =~= store.meta.union_prefer_right(m).insert(latest@, pointer@));
            }
            i = i + 1;
        }
        assert(all.take(all.len() as int) =~= all);
        engine.apply_write_batches(&data, &meta, &types)
    }

    /// Commits at a given time. Where a version is not the one that is expected, or not
    /// the one that was read, nothing is made and the store stays as it is. Where the
    /// database fails, the operations may have been made in part, or the indexes may not
    /// have followed all of them; the watermark does not move.
    pub fn commit_at(self, engine: &mut StorageEngine, now: u64) -> (r: Result<(), DbError>)
        ensures
            self@.ops.len() == 0 && self@.relied_on().len() == 0 ==> r is Ok,
            match commit_outcome(old(engine)@, self@.ops, self@.relied_on(), Stamp::Own(now)) {
                Ok(after) => match r {
                    Ok(_) => final(engine)@ == after,
                    Err(e) => e@ is Storage && partly_committed(
                        old(engine)@,
                        after,
                        final(engine)@,
                    ),
                },
                Err(expected) => r matches Err(e) && (e@ is Storage || e@ == expected)
                    && final(engine)@ == old(engine)@,
            },
    {
        self.check_version_conflicts(engine)?;
        if self.ops.len() == 0 {
            return Ok(());
        }
        let work: IdMap<IndexWork> = self.collect_index_work(engine)?;
        proof {
            lemma_work_keeps_versions(ops_applied(engine@, self@.ops, Stamp::Own(now)), work.entries());
        }
        self.write_ops(engine, Stamp::Own(now))?;
        apply_index_updates(engine, &work)
    }

    /// Commits now.
    pub fn commit(self, engine: &mut StorageEngine) -> (r: Result<(), DbError>)
        ensures
            match commit_outcome(old(engine)@, self@.ops, self@.relied_on(), Stamp::Own(0)) {
                Ok(_) => match r {
                    Ok(_) => exists|now: u64|
                        #[trigger] commit_outcome(
                            old(engine)@,
                            self@.ops,
                            self@.relied_on(),
                            Stamp::Own(now),
                        ) == Ok::<StoreView, ErrorView>(final(engine)@),
                    Err(e) => e@ is Storage && exists|now: u64|
                        partly_committed(
                            old(engine)@,
                            #[trigger] commit_outcome(
                                old(engine)@,
                                self@.ops,
                                self@.relied_on(),
                                Stamp::Own(now),
                            )->Ok_0,
                            final(engine)@,
                        ),
                },
                Err(x) => r matches Err(e) && (e@ is Storage || e@ == x) && final(engine)@ == old(
                    engine,
                )@,
            },
            self@.ops.len() == 0 && self@.relied_on().len() == 0 ==> r is Ok,
    {
        let now: u64 = current_timestamp();
        self.commit_at(engine, now)
    }

    /// Commits at a given time with one timestamp for all writes, later than every
    /// one before, and advances the watermark to it.
    pub fn commit_versioned_at(self, engine: &mut StorageEngine, now: u64) -> (r: Result<u64, DbError>)
        requires
            old(engine)@.watermark < u64::MAX,
        ensures
            self@.ops.len() == 0 && self@.relied_on().len() == 0 ==> r is Ok,
            ({
                let ts = next_ts(old(engine)@.watermark, now);
                match commit_outcome(old(engine)@, self@.ops, self@.relied_on(), Stamp::All(ts)) {
                    Ok(after) => match r {
                        Ok(committed) => committed == ts && final(engine)@ == (StoreView {
                            watermark: ts,
                            ..after
                        }),
                        Err(e) => e@ is Storage && partly_committed(
                            old(engine)@,
                            after,
                            final(engine)@,
                        ),
                    },
                    Err(expected) => r matches Err(e) && (e@ is Storage || e@ == expected)
                        && final(engine)@ == old(engine)@,
                }
            }),
    {
        self.check_version_conflicts(engine)?;
        let watermark: u64 = engine.read_watermark();
        let ts: u64 = if now > watermark {
            now
        } else {
            watermark + 1
        };
        if self.ops.len() == 0 {
            engine.advance_watermark_to(ts);
            return Ok(ts);
        }
        let work: IdMap<IndexWork> = self.collect_index_work(engine)?;
        proof {
            lemma_work_keeps_versions(ops_applied(engine@, self@.ops, Stamp::All(ts)), work.entries());
        }
        self.write_ops(engine, Stamp::All(ts))?;
        apply_index_updates(engine, &work)?;
        engine.advance_watermark_to(ts);
        Ok(ts)
    }

    /// Commits now with one timestamp for all writes.
    pub fn commit_versioned(self, engine: &mut StorageEngine) -> (r: Result<u64, DbError>)
        requires
            old(engine)@.watermark < u64::MAX,
        ensures
            match commit_outcome(old(engine)@, self@.ops, self@.relied_on(), Stamp::All(0)) {
                Ok(_) => match r {
                    Ok(ts) => {
                        &&& ts > old(engine)@.watermark
                        &&& commit_outcome(
                            old(engine)@,
                            self@.ops,
                            self@.relied_on(),
                            Stamp::All(ts),
                        ) matches Ok(after)
                        &&& final(engine)@ == (StoreView { watermark: ts, ..after })
                    },
                    Err(e) => e@ is Storage && exists|ts: u64|
                        ts > old(engine)@.watermark && partly_committed(
                            old(engine)@,
                            #[trigger] commit_outcome(
                                old(engine)@,
                                self@.ops,
                                self@.relied_on(),
                                Stamp::All(ts),
                            )->Ok_0,
                            final(engine)@,
                        ),
                },
                Err(x) => r matches Err(e) && (e@ is Storage || e@ == x) && final(engine)@ == old(
                    engine,
                )@,
            },
            self@.ops.len() == 0 && self@.relied_on().len() == 0 ==> r is Ok,
    {
        let now: u64 = current_timestamp();
        self.commit_versioned_at(engine, now)
    }
}

/// Lets the indexes follow all changes of a transaction.
fn apply_index_updates(engine: &mut StorageEngine, work: &IdMap<IndexWork>) -> (r: Result<
    (),
    DbError,
>)
    ensures
        match r {
            Ok(_) => final(engine)@ == all_work_applied(old(engine)@, work.entries()),
            Err(e) => e@ is Storage && versions_kept(final(engine)@, old(engine)@),
        },
{
    let ghost all = work.entries();
    let mut i: usize = 0;
    assert(all.take(0) =~= Seq::<(Seq<u8>, WorkView)>::empty());
    while i < work.len()
        invariant
            i <= all.len(),
            all == work.entries(),
            engine@ == all_work_applied(old(engine)@, all.take(i as int)),
            versions_kept(engine@, old(engine)@),
        decreases all.len() - i,
    {
        let (entity_id, entry) = work.at(i);
        proof {
            assert(all.take(i + 1).drop_last() =~= all.take(i as int));
            assert(all.take(i + 1).last() == all[i as int]);
        }
        apply_entry(engine, entity_id, entry)?;
        i = i + 1;
    }
    assert(all.take(all.len() as int) =~= all);
    Ok(())
}

/// Lets the indexes follow the change of one entity.
fn apply_entry(engine: &mut StorageEngine, entity_id: EntityId, entry: &IndexWork) -> (r: Result<
    (),
    DbError,
>)
    ensures
        match r {
            Ok(_) => final(engine)@ == work_applied(
                old(engine)@,
                entity_id@,
                entry.deep_view(),
            ),
            Err(e) => e@ is Storage,
        },
        versions_kept(final(engine)@, old(engine)@),
{
    let mut before_fields: Option<Vec<Field>> = None;
    if let Some(data) = &entry.before {
        match decode_entity(data.as_slice()) {
            Ok(fields) => {
                before_fields = Some(fields);
            },
            Err(_) => {
                if entry.after.is_none() {
                    return Ok(());
                }
            },
        }
    }
    let mut after_fields: Option<Vec<Field>> = None;
    if let Some(data) = &entry.after {
        match decode_entity(data.as_slice()) {
            Ok(fields) => {
                after_fields = Some(fields);
            },
            Err(_) => {
                return Ok(());
            },
        }
    }
    let columns: Vec<String> = engine.btree_indexed_columns_for_entity(entry.entity_type.as_str());
    engine.update_secondary_indexes_from_fields(
        entry.entity_type.as_str(),
        entity_id,
        as_fields(&before_fields),
        as_fields(&after_fields),
        columns.as_slice(),
    )?;
    if let Some(fields) = &after_fields {
        engine.update_columnar_row_from_fields(
            entry.entity_type.as_str(),
            entity_id,
            fields.as_slice(),
        )?;
    }
    Ok(())
}

} // verus!
