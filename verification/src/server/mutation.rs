//! Mutations: what they do to the database.

use vstd::prelude::*;
use vstd::string::StringExecFns;

use crate::bytes::{copy_slice, EntityId};
use crate::catalog::{entity_named, referring_fields};
use crate::codec::{
    copy_fields, decode_entity, encode_entity, entity_bytes, entity_outcome, fields_view, Field,
    FieldView,
};
use crate::error::{DbError, ErrorView};
use crate::gateway::hex::{hex_of, uuid_to_hex};
use crate::query::ast::first_value;
use crate::query::executor::bumped;
use crate::query::fetch::push_texts;
use crate::query::statistics::{count_of, one_less, one_more, with_count};
use crate::server::batch::check_batch;
use crate::server::changelog::{logged, ChangeLogEntry, ChangeType, ChangeView};
use crate::server::database::{given_out, is_given_out, next_after, Database, DbView};
use crate::server::error::{
    database_failed, store_error_message, store_error_text, ServerError, ServerErrorView,
};
use crate::storage::columnar::last_value;
use crate::storage::engine::bytes_view;
use crate::storage::hash_index::ids_view;
use crate::storage::index_ops::{field_names, optional_equal};
use crate::storage::key::{current_timestamp, key_bytes, parse_key, VersionedKey};
use crate::storage::kv::between;
use crate::storage::laws::{law_as_of_sees_write, law_put_then_latest, nothing_pending, sound};
use crate::storage::model::{
    as_of_outcome, covered_columns, latest_outcome, next_ts, past_kept, put_typed_view, put_view,
    reindexed_only, with_row, without_row, Bytes, StoreView,
};
use crate::storage::record::{tombstone, Record, RecordView};
use crate::storage::truth::{lemma_last_is_there, named_once};
use crate::text::{join2, str_eq, texts};
use crate::value::{values_equal, Value, ValueView};

verus! {

/// A field and the value that it gets.
#[derive(Debug)]
pub struct FieldValue {
    /// The field.
    pub field: String,
    /// The value.
    pub value: Value,
}

impl View for FieldValue {
    type V = FieldView;

    open spec fn view(&self) -> FieldView {
        (self.field@, self.value@)
    }
}

impl FieldValue {
    /// A field with a value.
    pub fn new(field: &str, value: Value) -> (f: FieldValue)
        ensures
            f@ == (field@, value@),
    {
        FieldValue { field: field.to_owned(), value }
    }

    /// A copy.
    pub fn copy(&self) -> (f: FieldValue)
        ensures
            f@ == self@,
    {
        FieldValue { field: self.field.clone(), value: self.value.copy() }
    }
}

/// Fields with values, in mathematical terms.
pub open spec fn data_view(data: Seq<FieldValue>) -> Seq<FieldView> {
    data.map_values(|f: FieldValue| f@)
}

/// A change that is asked for.
#[derive(Debug)]
#[allow(inconsistent_fields)]
pub enum Mutation {
    /// Insert an entity.
    Insert {
        /// Its type.
        entity: String,
        /// Its fields.
        data: Vec<FieldValue>,
    },
    /// Update an entity.
    Update {
        /// Its type.
        entity: String,
        /// The entity.
        id: EntityId,
        /// The fields that change.
        data: Vec<FieldValue>,
    },
    /// Delete an entity.
    Delete {
        /// Its type.
        entity: String,
        /// The entity.
        id: EntityId,
    },
    /// Update an entity, or insert it where it is not there.
    Upsert {
        /// Its type.
        entity: String,
        /// The entity, where it is known.
        id: Option<EntityId>,
        /// The fields.
        data: Vec<FieldValue>,
    },
}

/// A change that is asked for, in mathematical terms.
pub ghost enum MutationView {
    /// See [`Mutation::Insert`].
    Insert(Seq<char>, Seq<FieldView>),
    /// See [`Mutation::Update`].
    Update(Seq<char>, Seq<u8>, Seq<FieldView>),
    /// See [`Mutation::Delete`].
    Delete(Seq<char>, Seq<u8>),
    /// See [`Mutation::Upsert`].
    Upsert(Seq<char>, Option<Seq<u8>>, Seq<FieldView>),
}

/// An identifier that may be missing, in mathematical terms.
pub open spec fn optional_id(id: Option<EntityId>) -> Option<Seq<u8>> {
    match id {
        Some(id) => Some(id@),
        None => None,
    }
}

impl View for Mutation {
    type V = MutationView;

    open spec fn view(&self) -> MutationView {
        match *self {
            Mutation::Insert { entity, data } => MutationView::Insert(entity@, data_view(data@)),
            Mutation::Update { entity, id, data } => MutationView::Update(
                entity@,
                id@,
                data_view(data@),
            ),
            Mutation::Delete { entity, id } => MutationView::Delete(entity@, id@),
            Mutation::Upsert { entity, id, data } => MutationView::Upsert(
                entity@,
                optional_id(id),
                data_view(data@),
            ),
        }
    }
}

impl MutationView {
    /// The type of the entity.
    pub open spec fn entity(self) -> Seq<char> {
        match self {
            MutationView::Insert(e, _) => e,
            MutationView::Update(e, _, _) => e,
            MutationView::Delete(e, _) => e,
            MutationView::Upsert(e, _, _) => e,
        }
    }
}

impl Mutation {
    /// The type of the entity.
    pub fn entity(&self) -> (s: &str)
        ensures
            s@ == self@.entity(),
    {
        match self {
            Mutation::Insert { entity, data } => entity.as_str(),
            Mutation::Update { entity, id, data } => entity.as_str(),
            Mutation::Delete { entity, id } => entity.as_str(),
            Mutation::Upsert { entity, id, data } => entity.as_str(),
        }
    }

    /// An insertion.
    pub fn insert(entity: &str, data: Vec<FieldValue>) -> (m: Mutation)
        ensures
            m@ == MutationView::Insert(entity@, data_view(data@)),
    {
        Mutation::Insert { entity: entity.to_owned(), data }
    }

    /// An update.
    pub fn update(entity: &str, id: EntityId, data: Vec<FieldValue>) -> (m: Mutation)
        ensures
            m@ == MutationView::Update(entity@, id@, data_view(data@)),
    {
        Mutation::Update { entity: entity.to_owned(), id, data }
    }

    /// A deletion.
    pub fn delete(entity: &str, id: EntityId) -> (m: Mutation)
        ensures
            m@ == MutationView::Delete(entity@, id@),
    {
        Mutation::Delete { entity: entity.to_owned(), id }
    }

    /// An update, or an insertion.
    pub fn upsert(entity: &str, id: Option<EntityId>, data: Vec<FieldValue>) -> (m: Mutation)
        ensures
            m@ == MutationView::Upsert(entity@, optional_id(id), data_view(data@)),
    {
        Mutation::Upsert { entity: entity.to_owned(), id, data }
    }
}

/// Changes that are asked for together.
#[derive(Debug)]
pub struct MutationBatch {
    /// The changes, in order.
    pub mutations: Vec<Mutation>,
}

/// Changes that are asked for, in mathematical terms.
pub open spec fn mutations_view(mutations: Seq<Mutation>) -> Seq<MutationView> {
    mutations.map_values(|m: Mutation| m@)
}

impl MutationBatch {
    /// These changes.
    pub fn from_mutations(mutations: Vec<Mutation>) -> (b: MutationBatch)
        ensures
            b.mutations == mutations,
    {
        MutationBatch { mutations }
    }
}

/// What a mutation did.
#[derive(Debug)]
pub struct MutationResult {
    /// How many entities it changed.
    pub affected: u64,
    /// The entities that it inserted.
    pub inserted_ids: Vec<EntityId>,
}

/// What a mutation did, in mathematical terms.
pub ghost struct MutationResultView {
    /// How many entities it changed.
    pub affected: u64,
    /// The entities that it inserted.
    pub inserted_ids: Seq<Seq<u8>>,
}

impl View for MutationResult {
    type V = MutationResultView;

    open spec fn view(&self) -> MutationResultView {
        MutationResultView { affected: self.affected, inserted_ids: ids_view(self.inserted_ids@) }
    }
}

/// So many entities were changed.
pub open spec fn affected_view(n: u64) -> MutationResultView {
    MutationResultView { affected: n, inserted_ids: Seq::empty() }
}

/// These entities were inserted.
pub open spec fn inserted_view(ids: Seq<Seq<u8>>) -> MutationResultView {
    MutationResultView { affected: ids.len() as u64, inserted_ids: ids }
}

impl MutationResult {
    /// So many entities were changed.
    pub fn affected(n: u64) -> (r: MutationResult)
        ensures
            r@ == affected_view(n),
    {
        let r = MutationResult { affected: n, inserted_ids: Vec::new() };
        assert(r@.inserted_ids =~= Seq::<Seq<u8>>::empty());
        r
    }

    /// One entity was inserted.
    pub fn inserted(id: EntityId) -> (r: MutationResult)
        ensures
            r@ == inserted_view(seq![id@]),
    {
        let mut ids: Vec<EntityId> = Vec::new();
        ids.push(id);
        let r = MutationResult { affected: 1, inserted_ids: ids };
        assert(r@.inserted_ids =~= seq![id@]);
        r
    }

    /// These entities were inserted.
    pub fn bulk_inserted(ids: Vec<EntityId>) -> (r: MutationResult)
        ensures
            r@ == inserted_view(ids_view(ids@)),
    {
        assert(ids_view(ids@).len() == ids@.len());
        MutationResult { affected: ids.len() as u64, inserted_ids: ids }
    }
}

/// The name of the field that identifies an entity.
pub open spec fn id_name() -> Seq<char> {
    "id"@
}

/// The identifier that the data of an insertion brings, where it does.
pub open spec fn given_id(data: Seq<FieldView>) -> Option<Seq<u8>>
    decreases data.len(),
{
    if data.len() == 0 {
        None
    } else if data[0].0 == id_name() && data[0].1 is Uuid {
        Some(data[0].1->Uuid_0)
    } else {
        given_id(data.drop_first())
    }
}

/// The fields of an entity that is inserted: its identifier, and the others.
pub open spec fn inserted_fields(id: Seq<u8>, data: Seq<FieldView>) -> Seq<FieldView> {
    seq![(id_name(), ValueView::Uuid(id))] + data.filter(|f: FieldView| f.0 != id_name())
}

/// Where a field stands; past the end where it is not there.
pub open spec fn field_pos(fs: Seq<FieldView>, name: Seq<char>) -> int
    decreases fs.len(),
{
    if fs.len() == 0 || fs[0].0 == name {
        0
    } else {
        1 + field_pos(fs.drop_first(), name)
    }
}

/// Fields with one of them set. The identifier is never set.
pub open spec fn field_set(fs: Seq<FieldView>, f: FieldView) -> Seq<FieldView> {
    if f.0 == id_name() {
        fs
    } else if field_pos(fs, f.0) < fs.len() {
        fs.update(field_pos(fs, f.0), (fs[field_pos(fs, f.0)].0, f.1))
    } else {
        fs.push(f)
    }
}

/// Fields with others set, in order.
pub open spec fn merged(fs: Seq<FieldView>, data: Seq<FieldView>) -> Seq<FieldView>
    decreases data.len(),
{
    if data.len() == 0 {
        fs
    } else {
        field_set(merged(fs, data.drop_last()), data.last())
    }
}

/// Whether setting a field changes anything.
pub open spec fn field_changes(fs: Seq<FieldView>, f: FieldView) -> bool {
    f.0 != id_name() && (field_pos(fs, f.0) >= fs.len() || !values_equal(
        fs[field_pos(fs, f.0)].1,
        f.1,
    ))
}

/// The fields that setting others changes, in order.
pub open spec fn changed_names(fs: Seq<FieldView>, data: Seq<FieldView>) -> Seq<Seq<char>>
    decreases data.len(),
{
    if data.len() == 0 {
        Seq::empty()
    } else {
        let init = changed_names(fs, data.drop_last());
        if field_changes(merged(fs, data.drop_last()), data.last()) {
            init.push(data.last().0)
        } else {
            init
        }
    }
}

/// The columns of the ordered index that follow a change of a type.
pub open spec fn followed_columns(db: DbView, entity: Seq<char>) -> Seq<Seq<char>> {
    covered_columns(db.store.btree_columns, entity) + referring_fields(db.schema.relations, entity)
}

/// A live record.
pub open spec fn live_data(data: Seq<u8>) -> RecordView {
    RecordView { data, deleted: false }
}

/// The store after an entity's fields have been written: the version, the type
/// index and the row projection.
pub open spec fn fields_written(
    store: StoreView,
    entity: Seq<char>,
    id: Seq<u8>,
    ts: u64,
    fs: Seq<FieldView>,
) -> StoreView {
    StoreView {
        columnar: with_row(store.columnar, entity, id, fs),
        ..put_typed_view(store, entity, id, ts, live_data(entity_bytes(fs)))
    }
}

/// The database after an entity has been inserted.
pub open spec fn inserted_db(
    db: DbView,
    entity: Seq<char>,
    id: Seq<u8>,
    ts: u64,
    data: Seq<FieldView>,
) -> DbView {
    let fs = inserted_fields(id, data);
    DbView {
        store: reindexed_only(
            fields_written(db.store, entity, id, ts, fs),
            entity,
            id,
            None,
            Some(fs),
            followed_columns(db, entity),
        ),
        statistics: with_count(db.statistics, entity, one_more(count_of(db.statistics, entity))),
        ..db
    }
}

/// What is said of an entity that is not there.
pub open spec fn not_found_text(entity: Seq<char>, id: Seq<u8>) -> Seq<char> {
    "entity "@ + entity + ":"@ + hex_of(id) + " not found"@
}

/// What is said of data that cannot be read.
pub open spec fn undecodable(e: ErrorView) -> ServerErrorView {
    ServerErrorView::Database("failed to decode entity: "@ + store_error_text(e))
}

/// What a mutation does: the database afterwards, and what is answered.
pub ghost struct Done {
    /// The database afterwards.
    pub db: DbView,
    /// What is answered.
    pub answer: Result<MutationResultView, ServerErrorView>,
    /// The change to log, where there is one.
    pub change: Option<ChangeView>,
}

/// Nothing is done.
pub open spec fn refused(db: DbView, e: ServerErrorView) -> Done {
    Done { db, answer: Err(e), change: None }
}

/// A change to log.
pub open spec fn change_of(
    db: DbView,
    ts: u64,
    entity: Seq<char>,
    id: Seq<u8>,
    change_type: ChangeType,
    before_data: Option<Seq<u8>>,
    after_data: Option<Seq<u8>>,
    changed_fields: Seq<Seq<char>>,
) -> ChangeView {
    ChangeView {
        lsn: 0,
        timestamp: ts,
        entity_type: entity,
        entity_id: id,
        change_type,
        before_data,
        after_data,
        changed_fields,
        schema_version: db.schema.version,
    }
}

/// What an insertion does.
pub open spec fn insert_done(
    db: DbView,
    entity: Seq<char>,
    id: Seq<u8>,
    ts: u64,
    data: Seq<FieldView>,
) -> Done {
    Done {
        db: inserted_db(db, entity, id, ts, data),
        answer: Ok(inserted_view(seq![id])),
        change: Some(
            change_of(
                db,
                ts,
                entity,
                id,
                ChangeType::Insert,
                None,
                Some(entity_bytes(inserted_fields(id, data))),
                field_names(data),
            ),
        ),
    }
}

/// What an update does.
pub open spec fn update_done(
    db: DbView,
    entity: Seq<char>,
    id: Seq<u8>,
    ts: u64,
    data: Seq<FieldView>,
) -> Done {
    match latest_outcome(db.store, id) {
        Err(e) => refused(db, ServerErrorView::Storage(e)),
        Ok(None) => refused(db, ServerErrorView::Database(not_found_text(entity, id))),
        Ok(Some(v)) => match entity_outcome(v.1.data) {
            Err(e) => refused(db, undecodable(e)),
            Ok(before) => {
                let after = merged(before, data);
                Done {
                    db: DbView {
                        store: reindexed_only(
                            fields_written(db.store, entity, id, ts, after),
                            entity,
                            id,
                            Some(before),
                            Some(after),
                            followed_columns(db, entity),
                        ),
                        ..db
                    },
                    answer: Ok(affected_view(1)),
                    change: Some(
                        change_of(
                            db,
                            ts,
                            entity,
                            id,
                            ChangeType::Update,
                            Some(v.1.data),
                            Some(entity_bytes(after)),
                            changed_names(before, data),
                        ),
                    ),
                }
            },
        },
    }
}

/// What is said of an entity type that the schema does not have.
pub open spec fn no_type_text(entity: Seq<char>) -> Seq<char> {
    "entity '"@ + entity + "' not found"@
}

/// The database after an entity has been marked as deleted.
pub open spec fn marked_deleted(db: DbView, entity: Seq<char>, id: Seq<u8>, ts: u64) -> DbView {
    DbView {
        store: put_view(db.store, id, ts, tombstone()),
        statistics: with_count(db.statistics, entity, one_less(count_of(db.statistics, entity))),
        ..db
    }
}

/// What a deletion does.
pub open spec fn delete_done(db: DbView, entity: Seq<char>, id: Seq<u8>, ts: u64) -> Done {
    match latest_outcome(db.store, id) {
        Err(e) => refused(db, ServerErrorView::Storage(e)),
        Ok(None) => Done { db, answer: Ok(affected_view(0)), change: None },
        Ok(Some(v)) => {
            let marked = marked_deleted(db, entity, id, ts);
            match entity_outcome(v.1.data) {
                Err(e) => Done { db: marked, answer: Err(undecodable(e)), change: None },
                Ok(before) => {
                    let indexed = reindexed_only(
                        marked.store,
                        entity,
                        id,
                        Some(before),
                        None,
                        followed_columns(db, entity),
                    );
                    if entity_named(db.schema.entities, entity) is None {
                        Done {
                            db: DbView { store: indexed, ..marked },
                            answer: Err(ServerErrorView::Database(no_type_text(entity))),
                            change: None,
                        }
                    } else {
                        Done {
                            db: DbView { store: without_row(indexed, entity, id), ..marked },
                            answer: Ok(affected_view(1)),
                            change: Some(
                                change_of(
                                    db,
                                    ts,
                                    entity,
                                    id,
                                    ChangeType::Delete,
                                    Some(v.1.data),
                                    None,
                                    Seq::empty(),
                                ),
                            ),
                        }
                    }
                },
            }
        },
    }
}

/// The identifier that an inserted entity gets: a fresh one, unless the one that
/// its data brings counts.
pub open spec fn chosen_id(data: Seq<FieldView>, fresh: Seq<u8>, given: bool) -> Seq<u8> {
    match given_id(data) {
        Some(id) => if given {
            id
        } else {
            fresh
        },
        None => fresh,
    }
}

/// What a mutation does. `given` tells whether an identifier counts that the data
/// of an insertion brings.
#[verifier::opaque]
pub open spec fn mutation_done(
    db: DbView,
    m: MutationView,
    ts: u64,
    fresh: Seq<u8>,
    given: bool,
) -> Done {
    match m {
        MutationView::Insert(entity, data) => insert_done(
            db,
            entity,
            chosen_id(data, fresh, given),
            ts,
            data,
        ),
        MutationView::Update(entity, id, data) => update_done(db, entity, id, ts, data),
        MutationView::Delete(entity, id) => delete_done(db, entity, id, ts),
        MutationView::Upsert(entity, Some(id), data) => match latest_outcome(db.store, id) {
            Err(e) => refused(db, ServerErrorView::Storage(e)),
            Ok(Some(_)) => update_done(db, entity, id, ts, data),
            Ok(None) => insert_done(db, entity, id, ts, data),
        },
        MutationView::Upsert(entity, None, data) => insert_done(
            db,
            entity,
            chosen_id(data, fresh, given),
            ts,
            data,
        ),
    }
}

/// Whether a store is what is expected. Where an update of the row projection
/// was lost, nothing is said of the projection.
pub open spec fn store_settles(got: StoreView, expected: StoreView) -> bool {
    &&& got == (StoreView {
        columnar: got.columnar,
        projection_stale: got.projection_stale,
        ..expected
    })
    &&& expected.projection_stale ==> got.projection_stale
    &&& !got.projection_stale ==> got.columnar == expected.columnar
}

/// Whether a database is what is expected.
pub open spec fn settles(got: DbView, expected: DbView) -> bool {
    store_settles(got.store, expected.store) && got == (DbView { store: got.store, ..expected })
}

/// Whether a mutation has been made in part and is not shown: the schema, the log of
/// changes and the watermark are as they were, nothing but the content of the store's
/// trees and indexes differs, and each version, each pointer and each entry of the type
/// index is as before or as it was to be.
pub open spec fn unshown(after: DbView, before: DbView, done: StoreView) -> bool {
    &&& after == (DbView { store: after.store, statistics: after.statistics, ..before })
    &&& content_differs(after.store, before.store)
    &&& after.store.watermark == before.store.watermark
    &&& between(before.store.data, done.data, after.store.data)
    &&& between(before.store.meta, done.meta, after.store.meta)
    &&& between(before.store.types, done.types, after.store.types)
}

/// Whether nothing but the content of the trees and indexes, and how far it is shown,
/// differs.
pub open spec fn content_differs(a: StoreView, b: StoreView) -> bool {
    a == (StoreView {
        data: a.data,
        meta: a.meta,
        types: a.types,
        columnar: a.columnar,
        hash: a.hash,
        btree: a.btree,
        projection_stale: a.projection_stale,
        watermark: a.watermark,
        ..b
    })
}

/// Whether what was answered is what a mutation does, unless the database
/// failed; nothing of the mutation is shown in that case.
pub open spec fn mutated(
    r: Result<MutationResult, ServerError>,
    before: DbView,
    after: DbView,
    done: Done,
) -> bool {
    match r {
        Ok(result) => done.answer == Ok::<MutationResultView, ServerErrorView>(result@) && settles(
            after,
            done.db,
        ),
        Err(e) => (database_failed(e@) && unshown(after, before, done.db.store)) || (done.answer
            == Err::<MutationResultView, ServerErrorView>(e@) && settles(after, done.db)),
    }
}

pub(crate) fn choose_id(data: &Vec<FieldValue>, fresh: EntityId, given: bool) -> (id: EntityId)
    ensures
        id@ == chosen_id(data_view(data@), fresh@, given),
{
    match id_given(data) {
        Some(id) => if given {
            id
        } else {
            fresh
        },
        None => fresh,
    }
}

fn id_given(data: &Vec<FieldValue>) -> (r: Option<EntityId>)
    ensures
        optional_id(r) == given_id(data_view(data@)),
{
    let ghost all = data_view(data@);
    let mut i: usize = 0;
    assert(all.skip(0) =~= all);
    while i < data.len()
        invariant
            i <= data@.len(),
            all == data_view(data@),
            given_id(all) == given_id(all.skip(i as int)),
        decreases data@.len() - i,
    {
        proof {
            assert(all.skip(i as int)[0] == data@[i as int]@);
            assert(all.skip(i as int).drop_first() =~= all.skip(i + 1));
        }
        if str_eq(data[i].field.as_str(), "id") {
            if let Value::Uuid(id) = &data[i].value {
                return Some(*id);
            }
        }
        i = i + 1;
    }
    None
}

pub(crate) fn fields_to_insert(id: EntityId, data: &Vec<FieldValue>) -> (out: Vec<Field>)
    ensures
        fields_view(out@) == inserted_fields(id@, data_view(data@)),
{
    let ghost all = data_view(data@);
    let ghost keep = |f: FieldView| f.0 != id_name();
    let ghost head = seq![(id_name(), ValueView::Uuid(id@))];
    let mut out: Vec<Field> = Vec::new();
    out.push(("id".to_owned(), Value::Uuid(id)));
    let mut i: usize = 0;
    proof {
        reveal(Seq::filter);
        assert(all.take(0) =~= Seq::<FieldView>::empty());
        assert(fields_view(out@) =~= head + all.take(0).filter(keep));
    }
    while i < data.len()
        invariant
            i <= data@.len(),
            all == data_view(data@),
            keep == (|f: FieldView| f.0 != id_name()),
            fields_view(out@) == head + all.take(i as int).filter(keep),
        decreases data@.len() - i,
    {
        let ghost before = fields_view(out@);
        proof {
            reveal(Seq::filter);
            assert(all.take(i + 1).drop_last() =~= all.take(i as int));
            assert(all.take(i + 1).last() == data@[i as int]@);
        }
        if !str_eq(data[i].field.as_str(), "id") {
            out.push((data[i].field.clone(), data[i].value.copy()));
            assert(fields_view(out@) =~= before.push(data@[i as int]@));
        }
        i = i + 1;
        assert(fields_view(out@) =~= head + all.take(i as int).filter(keep));
    }
    assert(all.take(all.len() as int) =~= all);
    out
}

proof fn lemma_field_pos(fs: Seq<FieldView>, name: Seq<char>, n: int)
    requires
        0 <= n <= fs.len(),
        forall|j: int| 0 <= j < n ==> (#[trigger] fs[j]).0 != name,
        n == fs.len() || fs[n].0 == name,
    ensures
        field_pos(fs, name) == n,
    decreases fs.len(),
{
    if n > 0 {
        let rest = fs.drop_first();
        assert forall|j: int| 0 <= j < n - 1 implies (#[trigger] rest[j]).0 != name by {
            assert(rest[j] == fs[j + 1]);
        }
        assert(fs[0].0 != name);
        lemma_field_pos(rest, name, n - 1);
    }
}

fn position_of(fields: &Vec<Field>, name: &str) -> (n: usize)
    ensures
        n == field_pos(fields_view(fields@), name@),
        n <= fields@.len(),
{
    let ghost fs = fields_view(fields@);
    let mut i: usize = 0;
    while i < fields.len()
        invariant
            i <= fields@.len(),
            fs == fields_view(fields@),
            forall|j: int| 0 <= j < i ==> (#[trigger] fs[j]).0 != name@,
        decreases fields@.len() - i,
    {
        assert(fs[i as int].0 == fields@[i as int].0@);
        if str_eq(fields[i].0.as_str(), name) {
            proof {
                lemma_field_pos(fs, name@, i as int);
            }
            return i;
        }
        i = i + 1;
    }
    proof {
        lemma_field_pos(fs, name@, i as int);
    }
    i
}

/// Sets fields, in order. Gives the fields afterwards and the names of those
/// that changed.
pub fn merge_fields(before: &Vec<Field>, data: &Vec<FieldValue>) -> (r: (Vec<Field>, Vec<String>))
    ensures
        fields_view(r.0@) == merged(fields_view(before@), data_view(data@)),
        texts(r.1@) == changed_names(fields_view(before@), data_view(data@)),
{
    let ghost fs = fields_view(before@);
    let ghost all = data_view(data@);
    let mut out: Vec<Field> = copy_fields(before.as_slice());
    let mut changed: Vec<String> = Vec::new();
    let mut i: usize = 0;
    assert(all.take(0) =~= Seq::<FieldView>::empty());
    assert(texts(changed@) =~= Seq::<Seq<char>>::empty());
    while i < data.len()
        invariant
            i <= data@.len(),
            fs == fields_view(before@),
            all == data_view(data@),
            fields_view(out@) == merged(fs, all.take(i as int)),
            texts(changed@) == changed_names(fs, all.take(i as int)),
        decreases data@.len() - i,
    {
        let ghost now = fields_view(out@);
        let ghost names = texts(changed@);
        let ghost f = all[i as int];
        proof {
            assert(all.take(i + 1).drop_last() =~= all.take(i as int));
            assert(all.take(i + 1).last() == f);
            assert(f == data@[i as int]@);
        }
        let fv: &FieldValue = &data[i];
        if !str_eq(fv.field.as_str(), "id") {
            let pos: usize = position_of(&out, fv.field.as_str());
            assert(now.len() == out@.len());
            if pos < out.len() {
                assert(now[pos as int] == (out@[pos as int].0@, out@[pos as int].1@));
                if !out[pos].1.same(&fv.value) {
                    changed.push(fv.field.clone());
                    assert(texts(changed@) =~= names.push(f.0));
                }
                let name: String = out[pos].0.clone();
                out[pos] = (name, fv.value.copy());
                assert(fields_view(out@) =~= now.update(pos as int, (now[pos as int].0, f.1)));
            } else {
                changed.push(fv.field.clone());
                assert(texts(changed@) =~= names.push(f.0));
                out.push((fv.field.clone(), fv.value.copy()));
                assert(fields_view(out@) =~= now.push(f));
            }
        }
        i = i + 1;
    }
    assert(all.take(all.len() as int) =~= all);
    (out, changed)
}

/// A field keeps its place and its name when others are set, and the identifier
/// is never set.
pub proof fn law_merge_keeps_id(fs: Seq<FieldView>, data: Seq<FieldView>)
    ensures
        first_value(merged(fs, data), id_name()) == first_value(fs, id_name()),
    decreases data.len(),
{
    if data.len() > 0 {
        law_merge_keeps_id(fs, data.drop_last());
        lemma_set_keeps_others(merged(fs, data.drop_last()), data.last(), id_name());
    }
}

proof fn lemma_field_pos_is(fs: Seq<FieldView>, name: Seq<char>)
    ensures
        0 <= field_pos(fs, name) <= fs.len(),
        field_pos(fs, name) < fs.len() ==> fs[field_pos(fs, name)].0 == name,
        forall|j: int| 0 <= j < field_pos(fs, name) ==> (#[trigger] fs[j]).0 != name,
        first_value(fs, name) == if field_pos(fs, name) < fs.len() {
            Some(fs[field_pos(fs, name)].1)
        } else {
            None
        },
    decreases fs.len(),
{
    if fs.len() > 0 && fs[0].0 != name {
        let rest = fs.drop_first();
        lemma_field_pos_is(rest, name);
        assert forall|j: int| 0 <= j < field_pos(fs, name) implies (#[trigger] fs[j]).0 != name by {
            if j > 0 {
                assert(rest[j - 1] == fs[j]);
            }
        }
    }
}

proof fn lemma_set_keeps_others(fs: Seq<FieldView>, f: FieldView, name: Seq<char>)
    requires
        f.0 != name || name == id_name(),
    ensures
        first_value(field_set(fs, f), name) == first_value(fs, name),
{
    if f.0 != id_name() {
        let after = field_set(fs, f);
        lemma_field_pos_is(fs, f.0);
        lemma_field_pos_is(fs, name);
        let n = field_pos(fs, name);
        if n < fs.len() {
            lemma_field_pos(after, name, n);
        } else {
            lemma_field_pos(after, name, after.len() as int);
        }
        lemma_field_pos_is(after, name);
    }
}

/// A field that is set last has the value that it was set to.
pub proof fn law_merge_sets_last(fs: Seq<FieldView>, data: Seq<FieldView>, f: FieldView)
    requires
        f.0 != id_name(),
    ensures
        first_value(merged(fs, data.push(f)), f.0) == Some(f.1),
{
    assert(data.push(f).drop_last() =~= data);
    let now = merged(fs, data);
    let after = field_set(now, f);
    lemma_field_pos_is(now, f.0);
    lemma_field_pos(after, f.0, field_pos(now, f.0));
    lemma_field_pos_is(after, f.0);
}

/// After fields have been set, each one has the value that it was set to last, and one
/// that was not set, and the identifier, has the value that it had.
pub proof fn law_merge_sets(fs: Seq<FieldView>, data: Seq<FieldView>, name: Seq<char>)
    ensures
        first_value(merged(fs, data), name) == if name != id_name() && last_value(data, name) is Some {
            last_value(data, name)
        } else {
            first_value(fs, name)
        },
    decreases data.len(),
{
    if data.len() > 0 {
        let init = data.drop_last();
        let f = data.last();
        law_merge_sets(fs, init, name);
        if f.0 == name && name != id_name() {
            law_merge_sets_last(fs, init, f);
            assert(init.push(f) =~= data);
        } else {
            lemma_set_keeps_others(merged(fs, init), f, name);
        }
    }
}

/// The fields that an update reports as changed are those that it sets to a value that
/// differs from the one they had.
pub proof fn law_changed_are_those_that_differ(
    fs: Seq<FieldView>,
    data: Seq<FieldView>,
    name: Seq<char>,
)
    requires
        named_once(data),
    ensures
        changed_names(fs, data).contains(name) <==> (name != id_name() && last_value(
            data,
            name,
        ) is Some && !optional_equal(first_value(fs, name), last_value(data, name))),
    decreases data.len(),
{
    if data.len() > 0 {
        let init = data.drop_last();
        let f = data.last();
        let before = changed_names(fs, init);
        let all = changed_names(fs, data);
        assert forall|i: int, j: int| 0 <= i < j < init.len() implies (#[trigger] init[i]).0 != (
        #[trigger] init[j]).0 by {
            assert(data[i].0 != data[j].0);
        }
        law_changed_are_those_that_differ(fs, init, name);
        if f.0 == name {
            lemma_last_is_there(init, name);
            if last_value(init, name) is Some {
                let i = choose|i: int|
                    0 <= i < init.len() && #[trigger] init[i] == (name, last_value(init, name)->0);
                assert(data[i].0 != data[data.len() - 1].0);
            }
            law_merge_sets(fs, init, name);
            lemma_field_pos_is(merged(fs, init), name);
            if all.len() > before.len() {
                assert(all[before.len() as int] == name);
            }
        } else {
            if before.contains(name) {
                let k = choose|k: int| 0 <= k < before.len() && before[k] == name;
                assert(all[k] == name);
            }
            if all.contains(name) {
                let k = choose|k: int| 0 <= k < all.len() && all[k] == name;
                assert(before[k] == name);
            }
        }
    }
}

/// Setting fields of an entity that has each once leaves it with each once.
pub proof fn law_merge_keeps_names_once(fs: Seq<FieldView>, data: Seq<FieldView>)
    requires
        named_once(fs),
    ensures
        named_once(merged(fs, data)),
    decreases data.len(),
{
    if data.len() > 0 {
        let init = data.drop_last();
        let f = data.last();
        law_merge_keeps_names_once(fs, init);
        let now = merged(fs, init);
        let after = field_set(now, f);
        lemma_field_pos_is(now, f.0);
        assert forall|i: int, j: int| 0 <= i < j < after.len() implies (#[trigger] after[i]).0 != (
        #[trigger] after[j]).0 by {
            if j < now.len() {
                assert(now[i].0 != now[j].0);
            } else {
                assert(now[i].0 != f.0);
            }
        }
    }
}

fn columns_to_follow(db: &Database, entity: &str) -> (out: Vec<String>)
    ensures
        texts(out@) == followed_columns(db@, entity@),
{
    let mut out: Vec<String> = db.storage.btree_indexed_columns_for_entity(entity);
    let more: Vec<String> = db.catalog.relation_fields_to(entity);
    push_texts(&mut out, more.as_slice());
    out
}

pub(crate) fn not_found(entity: &str, id: &EntityId) -> (e: ServerError)
    ensures
        e@ == ServerErrorView::Database(not_found_text(entity@, id@)),
{
    let mut s: String = "entity ".to_owned();
    s.append(entity);
    s.append(":");
    s.append(uuid_to_hex(id).as_str());
    s.append(" not found");
    ServerError::Database(s)
}

pub(crate) fn no_type(entity: &str) -> (e: ServerError)
    ensures
        e@ == ServerErrorView::Database(no_type_text(entity@)),
{
    let mut s: String = "entity '".to_owned();
    s.append(entity);
    s.append("' not found");
    ServerError::Database(s)
}

pub(crate) fn cannot_decode(e: &DbError) -> (r: ServerError)
    ensures
        r@ == undecodable(e@),
{
    ServerError::Database(join2("failed to decode entity: ", store_error_message(e).as_str()))
}

/// How the writes of mutations are stamped.
#[derive(Debug, Clone, Copy, PartialEq, Eq, Structural)]
pub enum WriteClock {
    /// With the time at which they are made; the watermark follows the time. Every
    /// inserted entity gets a fresh identifier.
    Wall,
    /// With a commit timestamp, the same on all nodes; the watermark follows it. An
    /// inserted entity keeps the identifier that its data bring.
    Commit(u64),
}

/// Makes mutations.
#[derive(Debug, Clone, Copy)]
pub struct MutationExecutor {
    clock: WriteClock,
}

/// The timestamp of a write: later than every commit before it, unless the log
/// gives it.
pub open spec fn write_ts(clock: WriteClock, watermark: u64, now: u64) -> u64 {
    match clock {
        WriteClock::Wall => next_ts(watermark, now),
        WriteClock::Commit(ts) => ts,
    }
}

/// The watermark after a mutation.
pub open spec fn watermark_after(clock: WriteClock, watermark: u64, now: u64) -> u64 {
    match clock {
        WriteClock::Wall => next_ts(watermark, now),
        WriteClock::Commit(ts) => if ts > watermark {
            ts
        } else {
            watermark
        },
    }
}

/// Whether the clock has run out: no timestamp is left for so many mutations.
pub open spec fn exhausted(clock: WriteClock, watermark: u64, now: u64, count: nat) -> bool {
    clock is Wall && (watermark + count >= u64::MAX || now + count >= u64::MAX)
}

/// What is said where the clock has run out.
pub open spec fn exhausted_error() -> ServerErrorView {
    ServerErrorView::Database("commit clock exhausted"@)
}

/// The database with a change logged, where there is one and it is to be.
pub open spec fn with_change(db: DbView, change: Option<ChangeView>, log: bool) -> DbView {
    match change {
        Some(c) => if log {
            DbView { changelog: logged(db.changelog, c), ..db }
        } else {
            db
        },
        None => db,
    }
}

/// The database with the watermark advanced.
pub open spec fn with_watermark(db: DbView, watermark: u64) -> DbView {
    DbView { store: StoreView { watermark, ..db.store }, ..db }
}

/// What making a mutation does: where it succeeds, the change is logged if that
/// is asked for, and the watermark advances so that snapshot reads see it.
pub open spec fn execute_done(
    db: DbView,
    m: MutationView,
    clock: WriteClock,
    now: u64,
    fresh: Seq<u8>,
    log: bool,
) -> Done {
    let done = mutation_done(
        db,
        m,
        write_ts(clock, db.store.watermark, now),
        fresh,
        clock is Commit,
    );
    if done.answer is Ok {
        Done {
            db: with_watermark(
                with_change(done.db, done.change, log),
                watermark_after(clock, done.db.store.watermark, now),
            ),
            ..done
        }
    } else {
        done
    }
}

/// How far a batch has come.
pub ghost struct BatchDone {
    /// The database.
    pub db: DbView,
    /// The entities that were changed.
    pub affected: nat,
    /// The entities that were inserted.
    pub inserted: Seq<Seq<u8>>,
    /// The first error, where there was one.
    pub failed: Option<ServerErrorView>,
}

/// What making mutations in order gives up to the first that fails.
pub open spec fn batch_run(
    db: DbView,
    ms: Seq<MutationView>,
    clock: WriteClock,
    now: u64,
    fresh: Seq<Seq<u8>>,
    log: bool,
) -> BatchDone
    decreases ms.len(),
{
    if ms.len() == 0 {
        BatchDone { db, affected: 0, inserted: Seq::empty(), failed: None }
    } else {
        let init = batch_run(db, ms.drop_last(), clock, now, fresh, log);
        if init.failed is Some {
            init
        } else {
            let done = execute_done(
                init.db,
                ms.last(),
                clock,
                now,
                fresh[ms.len() - 1],
                log,
            );
            match done.answer {
                Ok(r) => BatchDone {
                    db: done.db,
                    affected: init.affected + r.affected as nat,
                    inserted: init.inserted + r.inserted_ids,
                    failed: None,
                },
                Err(e) => BatchDone { db: done.db, failed: Some(e), ..init },
            }
        }
    }
}

/// What a batch does: all of its mutations are made in order, or where one fails,
/// none.
pub open spec fn batch_done(
    db: DbView,
    ms: Seq<MutationView>,
    clock: WriteClock,
    now: u64,
    fresh: Seq<Seq<u8>>,
    log: bool,
) -> BatchDone {
    let run = batch_run(db, ms, clock, now, fresh, log);
    if run.failed is Some {
        BatchDone { db, affected: 0, inserted: Seq::empty(), failed: run.failed }
    } else {
        run
    }
}

/// Whether a batch in which the database failed leaves the schema as it was, and
/// of the log of changes and the watermark nothing behind.
pub open spec fn cut_short(after: DbView, before: DbView) -> bool {
    &&& after == (DbView {
        store: after.store,
        statistics: after.statistics,
        changelog: after.changelog,
        ..before
    })
    &&& content_differs(after.store, before.store)
    &&& before.changelog.len() <= after.changelog.len()
    &&& after.changelog.take(before.changelog.len() as int) == before.changelog
    &&& after.store.watermark >= before.store.watermark
}

/// What a batch answers: the entities that were inserted where there are any,
/// else the number of those that were changed.
pub open spec fn batch_answer(done: BatchDone) -> Result<MutationResultView, ServerErrorView> {
    match done.failed {
        Some(e) => Err(e),
        None => if done.inserted.len() == 0 {
            Ok(affected_view(done.affected as u64))
        } else {
            Ok(inserted_view(done.inserted))
        },
    }
}

/// Stores that differ in nothing but a row projection that has been lost answer
/// alike.
proof fn lemma_settled_stores_read_alike(a: StoreView, b: StoreView, id: Seq<u8>)
    requires
        store_settles(a, b),
    ensures
        latest_outcome(a, id) == latest_outcome(b, id),
{
}

proof fn lemma_settled_dbs_mutate_alike(
    got: DbView,
    a: DbView,
    b: DbView,
    m: MutationView,
    clock: WriteClock,
    now: u64,
    fresh: Seq<u8>,
    log: bool,
)
    requires
        settles(a, b),
        settles(got, execute_done(a, m, clock, now, fresh, log).db),
    ensures
        execute_done(a, m, clock, now, fresh, log).answer == execute_done(
            b,
            m,
            clock,
            now,
            fresh,
            log,
        ).answer,
        settles(got, execute_done(b, m, clock, now, fresh, log).db),
{
    reveal(mutation_done);
    match m {
        MutationView::Update(entity, id, data) => {
            lemma_settled_stores_read_alike(a.store, b.store, id);
        },
        MutationView::Delete(entity, id) => {
            lemma_settled_stores_read_alike(a.store, b.store, id);
        },
        MutationView::Upsert(entity, Some(id), data) => {
            lemma_settled_stores_read_alike(a.store, b.store, id);
        },
        _ => {},
    }
}

impl MutationExecutor {
    /// How writes are stamped.
    pub closed spec fn clock_of(&self) -> WriteClock {
        self.clock
    }

    /// Makes mutations now.
    pub fn new() -> (e: MutationExecutor)
        ensures
            e.clock_of() == WriteClock::Wall,
    {
        MutationExecutor { clock: WriteClock::Wall }
    }

    /// Makes mutations at a commit timestamp.
    pub fn at_commit(ts: u64) -> (e: MutationExecutor)
        ensures
            e.clock_of() == WriteClock::Commit(ts),
    {
        MutationExecutor { clock: WriteClock::Commit(ts) }
    }

    fn do_insert(&self, db: &mut Database, entity: &str, id: EntityId, ts: u64, data: &Vec<FieldValue>) -> (r:
        Result<Vec<u8>, ServerError>)
        ensures
            past_kept(final(db)@.store.data, old(db)@.store.data, ts),
            match r {
                Ok(encoded) => encoded@ == entity_bytes(inserted_fields(id@, data_view(data@)))
                    && settles(
                    final(db)@,
                    inserted_db(old(db)@, entity@, id@, ts, data_view(data@)),
                ),
                Err(e) => database_failed(e@) && unshown(
                    final(db)@,
                    old(db)@,
                    inserted_db(old(db)@, entity@, id@, ts, data_view(data@)).store,
                ),
            },
    {
        let fields: Vec<Field> = fields_to_insert(id, data);
        let encoded: Vec<u8> = match encode_entity(fields.as_slice()) {
            Ok(encoded) => encoded,
            Err(e) => {
                return Err(ServerError::Storage(e));
            },
        };
        let columns: Vec<String> = columns_to_follow(db, entity);
        let record: Record = Record::new(copy_slice(encoded.as_slice()));
        match db.storage.write_typed(entity, VersionedKey::new(id, ts), record) {
            Ok(_) => {},
            Err(e) => {
                return Err(ServerError::Storage(e));
            },
        }
        db.statistics.increment(entity);
        match db.storage.update_indexes_only(
            entity,
            id,
            None,
            Some(fields.as_slice()),
            columns.as_slice(),
        ) {
            Ok(_) => Ok(encoded),
            Err(e) => Err(ServerError::Storage(e)),
        }
    }

    fn do_update(&self, db: &mut Database, entity: &str, id: &EntityId, ts: u64, data: &Vec<FieldValue>) -> (r:
        Result<(Vec<u8>, Vec<u8>, Vec<String>), ServerError>)
        ensures
            past_kept(final(db)@.store.data, old(db)@.store.data, ts),
            ({
                let done = update_done(old(db)@, entity@, id@, ts, data_view(data@));
                match r {
                    Ok((before, after, changed)) => {
                        &&& done.answer == Ok::<MutationResultView, ServerErrorView>(
                            affected_view(1),
                        )
                        &&& settles(final(db)@, done.db)
                        &&& done.change == Some(
                            change_of(
                                old(db)@,
                                ts,
                                entity@,
                                id@,
                                ChangeType::Update,
                                Some(before@),
                                Some(after@),
                                texts(changed@),
                            ),
                        )
                    },
                    Err(e) => (database_failed(e@) && unshown(
                        final(db)@,
                        old(db)@,
                        done.db.store,
                    )) || (done.answer == Err::<
                        MutationResultView,
                        ServerErrorView,
                    >(e@) && final(db)@ == old(db)@ && done.db == old(db)@),
                }
            }),
    {
        let latest: Option<(u64, Record)> = match db.storage.get_latest(id) {
            Ok(latest) => latest,
            Err(e) => {
                return Err(ServerError::Storage(e));
            },
        };
        let existing: Record = match latest {
            Some((_, record)) => record,
            None => {
                return Err(not_found(entity, id));
            },
        };
        let before_fields: Vec<Field> = match decode_entity(existing.data.as_slice()) {
            Ok(fields) => fields,
            Err(e) => {
                return Err(cannot_decode(&e));
            },
        };
        let (fields, changed) = merge_fields(&before_fields, data);
        let encoded: Vec<u8> = match encode_entity(fields.as_slice()) {
            Ok(encoded) => encoded,
            Err(e) => {
                return Err(ServerError::Storage(e));
            },
        };
        let columns: Vec<String> = columns_to_follow(db, entity);
        let record: Record = Record::new(copy_slice(encoded.as_slice()));
        match db.storage.write_typed(entity, VersionedKey::new(*id, ts), record) {
            Ok(_) => {},
            Err(e) => {
                return Err(ServerError::Storage(e));
            },
        }
        match db.storage.update_indexes_only(
            entity,
            *id,
            Some(before_fields.as_slice()),
            Some(fields.as_slice()),
            columns.as_slice(),
        ) {
            Ok(_) => Ok((existing.data, encoded, changed)),
            Err(e) => Err(ServerError::Storage(e)),
        }
    }

    fn do_delete(&self, db: &mut Database, entity: &str, id: &EntityId, ts: u64) -> (r: Result<
        Option<Vec<u8>>,
        ServerError,
    >)
        ensures
            past_kept(final(db)@.store.data, old(db)@.store.data, ts),
            ({
                let done = delete_done(old(db)@, entity@, id@, ts);
                match r {
                    Ok(Some(before)) => {
                        &&& done.answer == Ok::<MutationResultView, ServerErrorView>(
                            affected_view(1),
                        )
                        &&& final(db)@ == done.db
                        &&& done.change == Some(
                            change_of(
                                old(db)@,
                                ts,
                                entity@,
                                id@,
                                ChangeType::Delete,
                                Some(before@),
                                None,
                                Seq::empty(),
                            ),
                        )
                    },
                    Ok(None) => {
                        &&& done.answer == Ok::<MutationResultView, ServerErrorView>(
                            affected_view(0),
                        )
                        &&& done.change is None
                        &&& final(db)@ == done.db
                    },
                    Err(e) => (database_failed(e@) && unshown(
                        final(db)@,
                        old(db)@,
                        done.db.store,
                    )) || (done.answer == Err::<
                        MutationResultView,
                        ServerErrorView,
                    >(e@) && final(db)@ == done.db),
                }
            }),
    {
        let latest: Option<(u64, Record)> = match db.storage.get_latest(id) {
            Ok(latest) => latest,
            Err(e) => {
                return Err(ServerError::Storage(e));
            },
        };
        let existing: Record = match latest {
            Some((_, record)) => record,
            None => {
                return Ok(None);
            },
        };
        let columns: Vec<String> = columns_to_follow(db, entity);
        match db.storage.write_version(VersionedKey::new(*id, ts), Record::tombstone()) {
            Ok(_) => {},
            Err(e) => {
                return Err(ServerError::Storage(e));
            },
        }
        db.statistics.decrement(entity);
        let before_fields: Vec<Field> = match decode_entity(existing.data.as_slice()) {
            Ok(fields) => fields,
            Err(e) => {
                return Err(cannot_decode(&e));
            },
        };
        match db.storage.update_indexes_only(
            entity,
            *id,
            Some(before_fields.as_slice()),
            None,
            columns.as_slice(),
        ) {
            Ok(_) => {},
            Err(e) => {
                return Err(ServerError::Storage(e));
            },
        }
        if db.catalog.get_entity(entity).is_none() {
            return Err(no_type(entity));
        }
        match db.storage.delete_columnar_row(entity, *id) {
            Ok(_) => Ok(Some(existing.data)),
            Err(e) => Err(ServerError::Storage(e)),
        }
    }

    fn log_change(
        &self,
        db: &mut Database,
        ts: u64,
        entity: &str,
        id: EntityId,
        change_type: ChangeType,
        before_data: Option<Vec<u8>>,
        after_data: Option<Vec<u8>>,
        changed_fields: Vec<String>,
    )
        ensures
            final(db)@ == (DbView {
                changelog: logged(
                    old(db)@.changelog,
                    change_of(
                        old(db)@,
                        ts,
                        entity@,
                        id@,
                        change_type,
                        bytes_view(before_data),
                        bytes_view(after_data),
                        texts(changed_fields@),
                    ),
                ),
                ..old(db)@
            }),
    {
        let schema_version: u64 = db.catalog.current_version();
        db.changelog.append(
            ChangeLogEntry {
                lsn: 0,
                timestamp: ts,
                entity_type: entity.to_owned(),
                entity_id: id,
                change_type,
                before_data,
                after_data,
                changed_fields,
                schema_version,
            },
        );
    }

    fn insert(
        &self,
        db: &mut Database,
        entity: &str,
        id: EntityId,
        ts: u64,
        data: &Vec<FieldValue>,
        log: bool,
    ) -> (r: Result<MutationResult, ServerError>)
        ensures
            past_kept(final(db)@.store.data, old(db)@.store.data, ts),
            ({
                let done = insert_done(old(db)@, entity@, id@, ts, data_view(data@));
                match r {
                    Ok(result) => done.answer == Ok::<MutationResultView, ServerErrorView>(
                        result@,
                    ) && settles(final(db)@, with_change(done.db, done.change, log)),
                    Err(e) => database_failed(e@) && unshown(
                        final(db)@,
                        old(db)@,
                        done.db.store,
                    ),
                }
            }),
    {
        let encoded: Vec<u8> = self.do_insert(db, entity, id, ts, data)?;
        if log {
            let names: Vec<String> = data_names(data);
            self.log_change(db, ts, entity, id, ChangeType::Insert, None, Some(encoded), names);
        }
        Ok(MutationResult::inserted(id))
    }

    fn update(
        &self,
        db: &mut Database,
        entity: &str,
        id: &EntityId,
        ts: u64,
        data: &Vec<FieldValue>,
        log: bool,
    ) -> (r: Result<MutationResult, ServerError>)
        ensures
            past_kept(final(db)@.store.data, old(db)@.store.data, ts),
            ({
                let done = update_done(old(db)@, entity@, id@, ts, data_view(data@));
                match r {
                    Ok(result) => done.answer == Ok::<MutationResultView, ServerErrorView>(
                        result@,
                    ) && settles(final(db)@, with_change(done.db, done.change, log)),
                    Err(e) => (database_failed(e@) && unshown(
                        final(db)@,
                        old(db)@,
                        done.db.store,
                    )) || (done.answer == Err::<
                        MutationResultView,
                        ServerErrorView,
                    >(e@) && settles(final(db)@, done.db)),
                }
            }),
    {
        let (before, after, changed) = self.do_update(db, entity, id, ts, data)?;
        if log {
            self.log_change(
                db,
                ts,
                entity,
                *id,
                ChangeType::Update,
                Some(before),
                Some(after),
                changed,
            );
        }
        Ok(MutationResult::affected(1))
    }

    fn delete(&self, db: &mut Database, entity: &str, id: &EntityId, ts: u64, log: bool) -> (r: Result<
        MutationResult,
        ServerError,
    >)
        ensures
            past_kept(final(db)@.store.data, old(db)@.store.data, ts),
            ({
                let done = delete_done(old(db)@, entity@, id@, ts);
                match r {
                    Ok(result) => done.answer == Ok::<MutationResultView, ServerErrorView>(
                        result@,
                    ) && settles(final(db)@, with_change(done.db, done.change, log)),
                    Err(e) => (database_failed(e@) && unshown(
                        final(db)@,
                        old(db)@,
                        done.db.store,
                    )) || (done.answer == Err::<
                        MutationResultView,
                        ServerErrorView,
                    >(e@) && settles(final(db)@, done.db)),
                }
            }),
    {
        match self.do_delete(db, entity, id, ts)? {
            Some(before) => {
                if log {
                    let none: Vec<String> = Vec::new();
                    assert(texts(none@) =~= Seq::<Seq<char>>::empty());
                    self.log_change(
                        db,
                        ts,
                        entity,
                        *id,
                        ChangeType::Delete,
                        Some(before),
                        None,
                        none,
                    );
                }
                Ok(MutationResult::affected(1))
            },
            None => Ok(MutationResult::affected(0)),
        }
    }

    /// Makes a mutation at a given time, with a fresh identifier at hand.
    pub fn execute_at(
        &self,
        db: &mut Database,
        mutation: &Mutation,
        now: u64,
        fresh: EntityId,
        log: bool,
    ) -> (r: Result<MutationResult, ServerError>)
        requires
            !exhausted(self.clock_of(), old(db)@.store.watermark, now, 1),
        ensures
            past_kept(
                final(db)@.store.data,
                old(db)@.store.data,
                write_ts(self.clock_of(), old(db)@.store.watermark, now),
            ),
            mutated(
                r,
                old(db)@,
                final(db)@,
                execute_done(old(db)@, mutation@, self.clock_of(), now, fresh@, log),
            ),
    {
        proof {
            reveal(mutation_done);
        }
        let given: bool = match self.clock {
            WriteClock::Wall => false,
            WriteClock::Commit(_) => true,
        };
        let watermark: u64 = db.storage.read_watermark();
        let ts: u64 = match self.clock {
            WriteClock::Wall => if now > watermark {
                now
            } else {
                watermark + 1
            },
            WriteClock::Commit(ts) => ts,
        };
        let result: MutationResult = match mutation {
            Mutation::Insert { entity, data } => {
                let id: EntityId = choose_id(data, fresh, given);
                self.insert(db, entity.as_str(), id, ts, data, log)?
            },
            Mutation::Update { entity, id, data } => self.update(
                db,
                entity.as_str(),
                id,
                ts,
                data,
                log,
            )?,
            Mutation::Delete { entity, id } => self.delete(db, entity.as_str(), id, ts, log)?,
            Mutation::Upsert { entity, id, data } => match id {
                Some(existing) => {
                    let latest: Option<(u64, Record)> = match db.storage.get_latest(existing) {
                        Ok(latest) => latest,
                        Err(e) => {
                            return Err(ServerError::Storage(e));
                        },
                    };
                    if latest.is_some() {
                        self.update(db, entity.as_str(), existing, ts, data, log)?
                    } else {
                        self.insert(db, entity.as_str(), *existing, ts, data, log)?
                    }
                },
                None => {
                    let id: EntityId = choose_id(data, fresh, given);
                    self.insert(db, entity.as_str(), id, ts, data, log)?
                },
            },
        };
        proof {
            lemma_mutation_keeps_watermark(old(db)@, mutation@, ts, fresh@, given);
        }
        match self.clock {
            WriteClock::Wall => {
                let _ = db.storage.tick_watermark_at(now);
            },
            WriteClock::Commit(ts) => {
                db.storage.advance_watermark_to(ts);
            },
        }
        Ok(result)
    }

    fn clock_exhausted(&self, db: &Database, now: u64, count: usize) -> (r: bool)
        ensures
            r == exhausted(self.clock_of(), db@.store.watermark, now, count as nat),
    {
        match self.clock {
            WriteClock::Wall => db.storage.read_watermark() as u128 + count as u128
                >= u64::MAX as u128 || now as u128 + count as u128 >= u64::MAX as u128,
            WriteClock::Commit(_) => false,
        }
    }

    fn execute_now(&self, db: &mut Database, mutation: &Mutation, log: bool) -> (r: Result<
        MutationResult,
        ServerError,
    >)
        ensures
            exists|now: u64, fresh: Seq<u8>|
                #[trigger] executed(
                    r,
                    old(db)@,
                    final(db)@,
                    mutation@,
                    self.clock_of(),
                    now,
                    fresh,
                    log,
                ),
    {
        let now: u64 = current_timestamp();
        if self.clock_exhausted(db, now, 1) {
            let r: Result<MutationResult, ServerError> = Err(
                ServerError::Database("commit clock exhausted".to_owned()),
            );
            assert(executed(
                r,
                old(db)@,
                db@,
                mutation@,
                self.clock_of(),
                now,
                Seq::empty(),
                log,
            ));
            return r;
        }
        let fresh: EntityId = db.fresh_id();
        let r: Result<MutationResult, ServerError> = self.execute_at(db, mutation, now, fresh, log);
        assert(executed(r, old(db)@, db@, mutation@, self.clock_of(), now, fresh@, log));
        r
    }

    /// Makes a mutation. The change is not logged.
    pub fn execute(&self, db: &mut Database, mutation: &Mutation) -> (r: Result<
        MutationResult,
        ServerError,
    >)
        ensures
            exists|now: u64, fresh: Seq<u8>|
                #[trigger] executed(
                    r,
                    old(db)@,
                    final(db)@,
                    mutation@,
                    self.clock_of(),
                    now,
                    fresh,
                    false,
                ),
    {
        self.execute_now(db, mutation, false)
    }

    /// Makes a mutation and logs the change.
    pub fn execute_with_cdc(&self, db: &mut Database, mutation: &Mutation) -> (r: Result<
        MutationResult,
        ServerError,
    >)
        ensures
            exists|now: u64, fresh: Seq<u8>|
                #[trigger] executed(
                    r,
                    old(db)@,
                    final(db)@,
                    mutation@,
                    self.clock_of(),
                    now,
                    fresh,
                    true,
                ),
    {
        self.execute_now(db, mutation, true)
    }

    /// Makes mutations in order at a given time, with fresh identifiers at hand: all
    /// of them, or where one cannot be made, none.
    pub fn execute_batch_at(
        &self,
        db: &mut Database,
        batch: &MutationBatch,
        now: u64,
        fresh: &Vec<EntityId>,
        log: bool,
    ) -> (r: Result<MutationResult, ServerError>)
        requires
            fresh@.len() == batch.mutations@.len(),
            !exhausted(
                self.clock_of(),
                old(db)@.store.watermark,
                now,
                batch.mutations@.len(),
            ),
        ensures
            past_kept(
                final(db)@.store.data,
                old(db)@.store.data,
                write_ts(self.clock_of(), old(db)@.store.watermark, now),
            ),
            batch_settled(
                r,
                old(db)@,
                final(db)@,
                batch_done(
                    old(db)@,
                    mutations_view(batch.mutations@),
                    self.clock_of(),
                    now,
                    ids_view(fresh@),
                    log,
                ),
            ),
            batch.mutations@.len() == 0 ==> r is Ok,
    {
        proof {
            lemma_nothing_cut(db@);
        }
        check_batch(db, batch, self.clock, now, fresh, log)?;
        let ghost ms = mutations_view(batch.mutations@);
        let ghost ids = ids_view(fresh@);
        let ghost clock = self.clock_of();
        let ghost start = db@;
        let mut affected: u64 = 0;
        let mut inserted: Vec<EntityId> = Vec::new();
        let mut i: usize = 0;
        proof {
            assert(ms.take(0) =~= Seq::<MutationView>::empty());
            assert(ids_view(inserted@) =~= Seq::<Seq<u8>>::empty());
        }
        while i < batch.mutations.len()
            invariant
                i <= batch.mutations@.len(),
                ms == mutations_view(batch.mutations@),
                ids == ids_view(fresh@),
                clock == self.clock_of(),
                start == old(db)@,
                batch_run(start, ms, clock, now, ids, log).failed is None,
                cut_short(db@, start),
                past_kept(
                    db@.store.data,
                    start.store.data,
                    write_ts(clock, start.store.watermark, now),
                ),
                fresh@.len() == batch.mutations@.len(),
                !exhausted(clock, start.store.watermark, now, batch.mutations@.len()),
                clock is Wall ==> db@.store.watermark <= watermark_bound(
                    start.store.watermark,
                    now,
                ) + i,
                settles(db@, batch_run(start, ms.take(i as int), clock, now, ids, log).db),
                batch_run(start, ms.take(i as int), clock, now, ids, log).failed is None,
                affected == batch_run(start, ms.take(i as int), clock, now, ids, log).affected,
                affected <= i,
                ids_view(inserted@) == batch_run(
                    start,
                    ms.take(i as int),
                    clock,
                    now,
                    ids,
                    log,
                ).inserted,
            decreases batch.mutations@.len() - i,
        {
            let ghost so_far = batch_run(start, ms.take(i as int), clock, now, ids, log);
            let ghost before = db@;
            let ghost inserted_before = ids_view(inserted@);
            let ghost m = batch.mutations@[i as int]@;
            let ghost done = execute_done(before, m, clock, now, fresh@[i as int]@, log);
            proof {
                assert(ms.take(i + 1).drop_last() =~= ms.take(i as int));
                assert(ms.take(i + 1).last() == m);
                assert(ids[i as int] == fresh@[i as int]@);
                let ts = write_ts(clock, before.store.watermark, now);
                lemma_mutation_keeps_watermark(before, m, ts, fresh@[i as int]@, clock is Commit);
                lemma_answers_count(before, m, ts, fresh@[i as int]@, clock is Commit);
            }
            let made: Result<MutationResult, ServerError> = self.execute_at(
                db,
                &batch.mutations[i],
                now,
                fresh[i],
                log,
            );
            proof {
                lemma_past_stays_kept(
                    start.store.data,
                    before.store.data,
                    db@.store.data,
                    write_ts(clock, start.store.watermark, now),
                    write_ts(clock, before.store.watermark, now),
                );
            }
            match made {
                Ok(result) => {
                    proof {
                        lemma_made_within_batch(
                            start,
                            before,
                            db@,
                            m,
                            clock,
                            now,
                            fresh@[i as int]@,
                            log,
                        );
                        lemma_settled_dbs_mutate_alike(
                            db@,
                            before,
                            so_far.db,
                            m,
                            clock,
                            now,
                            fresh@[i as int]@,
                            log,
                        );
                    }
                    affected = affected + result.affected;
                    let mut more: Vec<EntityId> = result.inserted_ids;
                    let ghost more_view = ids_view(more@);
                    inserted.append(&mut more);
                    assert(ids_view(inserted@) =~= inserted_before + more_view);
                },
                Err(e) => {
                    proof {
                        let done = execute_done(before, m, clock, now, fresh@[i as int]@, log);
                        if !(database_failed(e@) && unshown(db@, before, done.db.store)) {
                            lemma_settled_dbs_mutate_alike(
                                db@,
                                before,
                                so_far.db,
                                m,
                                clock,
                                now,
                                fresh@[i as int]@,
                                log,
                            );
                            lemma_batch_fails(start, ms, clock, now, ids, log, i + 1);
                        }
                    }
                    return Err(e);
                },
            }
            i = i + 1;
        }
        assert(ms.take(ms.len() as int) =~= ms);
        assert(ids_view(inserted@).len() == inserted@.len());
        if inserted.len() == 0 {
            Ok(MutationResult::affected(affected))
        } else {
            Ok(MutationResult::bulk_inserted(inserted))
        }
    }

    fn execute_batch_now(&self, db: &mut Database, batch: &MutationBatch, log: bool) -> (r: Result<
        MutationResult,
        ServerError,
    >)
        ensures
            exists|now: u64, fresh: Seq<Seq<u8>>|
                #[trigger] batch_executed(
                    r,
                    old(db)@,
                    final(db)@,
                    mutations_view(batch.mutations@),
                    self.clock_of(),
                    now,
                    fresh,
                    log,
                ),
    {
        let now: u64 = current_timestamp();
        let ghost ms = mutations_view(batch.mutations@);
        assert(ms.len() == batch.mutations@.len());
        if batch.mutations.len() == 0 {
            let r: Result<MutationResult, ServerError> = Ok(MutationResult::affected(0));
            assert(batch_executed(
                r,
                old(db)@,
                db@,
                ms,
                self.clock_of(),
                now,
                Seq::empty(),
                log,
            ));
            return r;
        }
        if self.clock_exhausted(db, now, batch.mutations.len()) {
            let r: Result<MutationResult, ServerError> = Err(
                ServerError::Database("commit clock exhausted".to_owned()),
            );
            assert(batch_executed(
                r,
                old(db)@,
                db@,
                ms,
                self.clock_of(),
                now,
                Seq::empty(),
                log,
            ));
            return r;
        }
        let fresh: Vec<EntityId> = db.fresh_ids(batch.mutations.len());
        assert(ids_view(fresh@).len() == fresh@.len());
        let ghost ready = db@;
        let r: Result<MutationResult, ServerError> = self.execute_batch_at(
            db,
            batch,
            now,
            &fresh,
            log,
        );
        assert(batch_executed(r, old(db)@, db@, ms, self.clock_of(), now, ids_view(fresh@), log))
            by {
            assert(batch_settled(r, ready, db@, batch_done(
                ready,
                ms,
                self.clock_of(),
                now,
                ids_view(fresh@),
                log,
            )));
        }
        r
    }

    /// Makes mutations in order. The changes are not logged.
    pub fn execute_batch(&self, db: &mut Database, batch: &MutationBatch) -> (r: Result<
        MutationResult,
        ServerError,
    >)
        ensures
            exists|now: u64, fresh: Seq<Seq<u8>>|
                #[trigger] batch_executed(
                    r,
                    old(db)@,
                    final(db)@,
                    mutations_view(batch.mutations@),
                    self.clock_of(),
                    now,
                    fresh,
                    false,
                ),
    {
        self.execute_batch_now(db, batch, false)
    }

    /// Makes mutations in order and logs the changes.
    pub fn execute_batch_with_cdc(&self, db: &mut Database, batch: &MutationBatch) -> (r: Result<
        MutationResult,
        ServerError,
    >)
        ensures
            exists|now: u64, fresh: Seq<Seq<u8>>|
                #[trigger] batch_executed(
                    r,
                    old(db)@,
                    final(db)@,
                    mutations_view(batch.mutations@),
                    self.clock_of(),
                    now,
                    fresh,
                    true,
                ),
    {
        self.execute_batch_now(db, batch, true)
    }
}

/// Where the watermark is at most after mutations at a time, apart from one step
/// for each.
pub open spec fn watermark_bound(watermark: u64, now: u64) -> nat {
    if now > watermark {
        now as nat
    } else {
        watermark as nat
    }
}

/// Whether a mutation was made as it is to be, at a time and with an identifier that
/// was given out for it; or refused because the clock has run out.
pub open spec fn executed(
    r: Result<MutationResult, ServerError>,
    before: DbView,
    after: DbView,
    m: MutationView,
    clock: WriteClock,
    now: u64,
    fresh: Seq<u8>,
    log: bool,
) -> bool {
    if exhausted(clock, before.store.watermark, now, 1) {
        (r matches Err(e) && e@ == exhausted_error()) && after == before
    } else {
        let started = DbView { next_id: bumped(before.next_id), ..before };
        &&& is_given_out(fresh, before.next_id)
        &&& mutated(r, started, after, execute_done(started, m, clock, now, fresh, log))
        &&& past_kept(
            after.store.data,
            before.store.data,
            write_ts(clock, before.store.watermark, now),
        )
    }
}

/// Whether a batch was made as it is to be: where it was refused, the database is
/// as it was.
pub open spec fn batch_settled(
    r: Result<MutationResult, ServerError>,
    before: DbView,
    after: DbView,
    done: BatchDone,
) -> bool {
    match r {
        Ok(result) => batch_answer(done) == Ok::<MutationResultView, ServerErrorView>(result@)
            && settles(after, done.db),
        Err(e) => (database_failed(e@) && cut_short(after, before)) || (batch_answer(done) == Err::<
            MutationResultView,
            ServerErrorView,
        >(e@) && after == before),
    }
}

/// Whether a batch was made as it is to be, at a time and with identifiers that were
/// given out for it; or refused because the clock has run out. A batch without
/// mutations succeeds and changes nothing.
pub open spec fn batch_executed(
    r: Result<MutationResult, ServerError>,
    before: DbView,
    after: DbView,
    ms: Seq<MutationView>,
    clock: WriteClock,
    now: u64,
    fresh: Seq<Seq<u8>>,
    log: bool,
) -> bool {
    if ms.len() == 0 {
        (r matches Ok(result) && result@ == affected_view(0)) && after == before
    } else if exhausted(clock, before.store.watermark, now, ms.len()) {
        (r matches Err(e) && e@ == exhausted_error()) && after == before
    } else {
        let started = DbView { next_id: next_after(before.next_id, ms.len()), ..before };
        &&& given_out(fresh, before.next_id)
        &&& fresh.len() == ms.len()
        &&& batch_settled(r, started, after, batch_done(started, ms, clock, now, fresh, log))
        &&& past_kept(
            after.store.data,
            before.store.data,
            write_ts(clock, before.store.watermark, now),
        )
    }
}

fn data_names(data: &Vec<FieldValue>) -> (out: Vec<String>)
    ensures
        texts(out@) == field_names(data_view(data@)),
{
    let mut out: Vec<String> = Vec::new();
    let mut i: usize = 0;
    while i < data.len()
        invariant
            i <= data@.len(),
            out@.len() == i,
            forall|k: int| 0 <= k < i ==> (#[trigger] out@[k])@ == data@[k].field@,
        decreases data@.len() - i,
    {
        out.push(data[i].field.clone());
        i = i + 1;
    }
    assert(texts(out@) =~= field_names(data_view(data@)));
    out
}

/// A mutation itself does not move the watermark.
proof fn lemma_mutation_keeps_watermark(
    db: DbView,
    m: MutationView,
    ts: u64,
    fresh: Seq<u8>,
    given: bool,
)
    ensures
        mutation_done(db, m, ts, fresh, given).db.store.watermark == db.store.watermark,
{
    reveal(mutation_done);
}

/// A mutation changes one entity at most.
proof fn lemma_answers_count(
    db: DbView,
    m: MutationView,
    ts: u64,
    fresh: Seq<u8>,
    given: bool,
)
    ensures
        mutation_done(db, m, ts, fresh, given).answer matches Ok(r) ==> r.affected <= 1,
{
    reveal(mutation_done);
}

proof fn lemma_past_stays_kept(a: Bytes, b: Bytes, c: Bytes, first: u64, then: u64)
    requires
        past_kept(b, a, first),
        past_kept(c, b, then),
        first <= then,
    ensures
        past_kept(c, a, first),
{
    assert forall|k: Seq<u8>| #[trigger] c.get(k) == a.get(k) || (parse_key(k) matches Some(version)
        && version.1 >= first) by {
        assert(b.get(k) == a.get(k) || (parse_key(k) matches Some(version) && version.1 >= first));
    }
}

pub proof fn lemma_nothing_cut(db: DbView)
    ensures
        cut_short(db, db),
{
    assert(db.changelog.take(db.changelog.len() as int) =~= db.changelog);
}

/// A mutation more leaves the log of changes and the watermark behind nothing.
proof fn lemma_made_within_batch(
    start: DbView,
    before: DbView,
    after: DbView,
    m: MutationView,
    clock: WriteClock,
    now: u64,
    fresh: Seq<u8>,
    log: bool,
)
    requires
        cut_short(before, start),
        execute_done(before, m, clock, now, fresh, log).answer is Ok,
        settles(after, execute_done(before, m, clock, now, fresh, log).db),
        clock is Wall ==> before.store.watermark < u64::MAX,
    ensures
        cut_short(after, start),
{
    reveal(mutation_done);
    let ts = write_ts(clock, before.store.watermark, now);
    lemma_mutation_keeps_watermark(before, m, ts, fresh, clock is Commit);
    let entries = execute_done(before, m, clock, now, fresh, log).db.changelog;
    let n = start.changelog.len() as int;
    assert(before.changelog.take(n) =~= entries.take(n));
}

pub proof fn lemma_batch_fails(
    db: DbView,
    ms: Seq<MutationView>,
    clock: WriteClock,
    now: u64,
    fresh: Seq<Seq<u8>>,
    log: bool,
    n: int,
)
    requires
        0 <= n <= ms.len(),
        batch_run(db, ms.take(n), clock, now, fresh, log).failed is Some,
    ensures
        batch_run(db, ms, clock, now, fresh, log) == batch_run(
            db,
            ms.take(n),
            clock,
            now,
            fresh,
            log,
        ),
    decreases ms.len() - n,
{
    if n == ms.len() {
        assert(ms.take(n) =~= ms);
    } else {
        assert(ms.take(n + 1).drop_last() =~= ms.take(n));
        lemma_batch_fails(db, ms, clock, now, fresh, log, n + 1);
    }
}

/// A mutation that brings all identifiers with it.
pub open spec fn assigned(m: MutationView, fresh: Seq<u8>) -> MutationView {
    match m {
        MutationView::Insert(entity, data) => if given_id(data) is Some {
            m
        } else {
            MutationView::Insert(entity, data.push((id_name(), ValueView::Uuid(fresh))))
        },
        MutationView::Upsert(entity, None, data) => MutationView::Upsert(
            entity,
            Some(
                match given_id(data) {
                    Some(id) => id,
                    None => fresh,
                },
            ),
            data,
        ),
        _ => m,
    }
}

fn copy_data(data: &Vec<FieldValue>) -> (out: Vec<FieldValue>)
    ensures
        data_view(out@) == data_view(data@),
{
    let mut out: Vec<FieldValue> = Vec::new();
    let mut i: usize = 0;
    while i < data.len()
        invariant
            i <= data@.len(),
            out@.len() == i,
            forall|k: int| 0 <= k < i ==> (#[trigger] out@[k])@ == data@[k]@,
        decreases data@.len() - i,
    {
        out.push(data[i].copy());
        i = i + 1;
    }
    assert(data_view(out@) =~= data_view(data@));
    out
}

/// Gives an insertion an identifier, where it brings none, so that every node
/// inserts the same.
pub fn ensure_assigned_id(mutation: &Mutation, fresh: EntityId) -> (m: Mutation)
    ensures
        m@ == assigned(mutation@, fresh@),
{
    match mutation {
        Mutation::Insert { entity, data } => {
            let mut all: Vec<FieldValue> = copy_data(data);
            let ghost before = data_view(all@);
            if id_given(data).is_none() {
                all.push(FieldValue::new("id", Value::Uuid(fresh)));
                assert(data_view(all@) =~= before.push((id_name(), ValueView::Uuid(fresh@))));
            }
            Mutation::Insert { entity: entity.clone(), data: all }
        },
        Mutation::Update { entity, id, data } => Mutation::Update {
            entity: entity.clone(),
            id: *id,
            data: copy_data(data),
        },
        Mutation::Delete { entity, id } => Mutation::Delete { entity: entity.clone(), id: *id },
        Mutation::Upsert { entity, id, data } => {
            let id: EntityId = match id {
                Some(id) => *id,
                None => match id_given(data) {
                    Some(id) => id,
                    None => fresh,
                },
            };
            Mutation::Upsert { entity: entity.clone(), id: Some(id), data: copy_data(data) }
        },
    }
}

proof fn lemma_given_id_push(data: Seq<FieldView>, fresh: Seq<u8>)
    requires
        given_id(data) is None,
    ensures
        given_id(data.push((id_name(), ValueView::Uuid(fresh)))) == Some(fresh),
    decreases data.len(),
{
    let all = data.push((id_name(), ValueView::Uuid(fresh)));
    if data.len() > 0 {
        lemma_given_id_push(data.drop_first(), fresh);
        assert(all.drop_first() =~= data.drop_first().push((id_name(), ValueView::Uuid(fresh))));
        assert(all[0] == data[0]);
    } else {
        assert(all[0] == (id_name(), ValueView::Uuid(fresh)));
    }
}

/// Replication is deterministic: a mutation that brings its identifiers and is
/// made at a commit timestamp does the same on every node that is in the same
/// state, whatever the node's own time and identifiers are.
pub proof fn law_commit_is_deterministic(
    db: DbView,
    m: MutationView,
    assigned_id: Seq<u8>,
    ts: u64,
    now_a: u64,
    now_b: u64,
    fresh_a: Seq<u8>,
    fresh_b: Seq<u8>,
    log: bool,
)
    ensures
        execute_done(
            db,
            assigned(m, assigned_id),
            WriteClock::Commit(ts),
            now_a,
            fresh_a,
            log,
        ) == execute_done(
            db,
            assigned(m, assigned_id),
            WriteClock::Commit(ts),
            now_b,
            fresh_b,
            log,
        ),
{
    reveal(mutation_done);
    match m {
        MutationView::Insert(entity, data) => {
            if given_id(data) is None {
                lemma_given_id_push(data, assigned_id);
            }
        },
        _ => {},
    }
}

/// An entity that has been inserted can be read, with the fields it was given,
/// at once and by snapshot reads at the watermark.
pub proof fn law_insert_then_read(
    db: DbView,
    entity: Seq<char>,
    data: Seq<FieldView>,
    clock: WriteClock,
    now: u64,
    fresh: Seq<u8>,
    log: bool,
)
    requires
        sound(db.store),
        nothing_pending(db.store),
        db.store.watermark < u64::MAX,
        fresh.len() == 16,
        given_id(data) matches Some(id) ==> id.len() == 16,
        clock matches WriteClock::Commit(ts) ==> ts > db.store.watermark,
    ensures
        ({
            let id = chosen_id(data, fresh, clock is Commit);
            let ts = write_ts(clock, db.store.watermark, now);
            let done = execute_done(db, MutationView::Insert(entity, data), clock, now, fresh, log);
            let written = live_data(entity_bytes(inserted_fields(id, data)));
            &&& done.answer == Ok::<MutationResultView, ServerErrorView>(inserted_view(seq![id]))
            &&& latest_outcome(done.db.store, id) == Ok::<Option<(u64, RecordView)>, ErrorView>(
                Some((ts, written)),
            )
            &&& as_of_outcome(done.db.store.data, id, done.db.store.watermark) == Ok::<
                Option<(u64, RecordView)>,
                ErrorView,
            >(Some((ts, written)))
            &&& done.db.store.watermark >= ts
        }),
{
    let id = chosen_id(data, fresh, clock is Commit);
    let ts = write_ts(clock, db.store.watermark, now);
    let written = live_data(entity_bytes(inserted_fields(id, data)));
    let done = execute_done(db, MutationView::Insert(entity, data), clock, now, fresh, log);
    reveal(mutation_done);
    law_put_then_latest(db.store, id, ts, written, id);
    assert forall|u: u64| ts < u <= done.db.store.watermark implies !(
    #[trigger] db.store.data.contains_key(key_bytes(id, u))) by {
        assert(u > db.store.watermark);
    }
    law_as_of_sees_write(db.store, id, ts, written, done.db.store.watermark);
    let put = put_view(db.store, id, ts, written);
    assert(done.db.store.data == put.data);
    assert(done.db.store.meta == put.meta);
}

} // verus!
