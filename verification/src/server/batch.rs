//! Whether a batch can be made: what would fail is found before anything is written.

use vstd::prelude::*;

use crate::bytes::EntityId;
use crate::codec::{decode_entity, encode_entity, entity_bytes, Field, FieldView};
use crate::error::ErrorView;
use crate::server::database::{Database, DbView};
use crate::server::error::{database_failed, ServerError, ServerErrorView};
use crate::server::mutation::{
    batch_run, cannot_decode, choose_id, data_view, delete_done, fields_to_insert, insert_done,
    inserted_fields, lemma_batch_fails, live_data, merge_fields, mutation_done, mutations_view,
    no_type, not_found, update_done, write_ts, FieldValue, Mutation, MutationBatch,
    MutationResultView, MutationView, WriteClock,
};
use crate::storage::hash_index::ids_view;
use crate::storage::id_map::{law_value_set, value_of, with_value, IdMap};
use crate::storage::laws::law_put_then_latest;
use crate::storage::model::{latest_outcome, put_view, StoreView};
use crate::storage::record::{tombstone, Record, RecordView};

verus! {

/// The record that an entity has, without its version.
pub open spec fn record_in(latest: Result<Option<(u64, RecordView)>, ErrorView>) -> Result<
    Option<RecordView>,
    ErrorView,
> {
    match latest {
        Ok(Some(v)) => Ok(Some(v.1)),
        Ok(None) => Ok(None),
        Err(e) => Err(e),
    }
}

/// The record that an entity would have: what mutations would have written, else
/// what the store has.
pub open spec fn record_seen(
    seen: Seq<(Seq<u8>, Option<RecordView>)>,
    store: StoreView,
    id: Seq<u8>,
) -> Result<Option<RecordView>, ErrorView> {
    match value_of(seen, id) {
        Some(r) => Ok(r),
        None => record_in(latest_outcome(store, id)),
    }
}

/// Whether a store shows what was foreseen of another.
pub open spec fn foreseen(
    seen: Seq<(Seq<u8>, Option<RecordView>)>,
    store: StoreView,
    later: StoreView,
) -> bool {
    forall|id: Seq<u8>|
        id.len() == 16 ==> record_in(#[trigger] latest_outcome(later, id)) == record_seen(
            seen,
            store,
            id,
        )
}

/// What a write leads to is foreseen.
proof fn lemma_foresee_write(
    seen: Seq<(Seq<u8>, Option<RecordView>)>,
    store: StoreView,
    before: StoreView,
    after: StoreView,
    id: Seq<u8>,
    ts: u64,
    r: RecordView,
)
    requires
        foreseen(seen, store, before),
        id.len() == 16,
        after.data == put_view(before, id, ts, r).data,
        after.meta == put_view(before, id, ts, r).meta,
    ensures
        foreseen(
            with_value(
                seen,
                id,
                if r.deleted {
                    None
                } else {
                    Some(r)
                },
            ),
            store,
            after,
        ),
{
    let shown = if r.deleted {
        None
    } else {
        Some(r)
    };
    let next = with_value(seen, id, shown);
    assert forall|other: Seq<u8>| other.len() == 16 implies record_in(
        #[trigger] latest_outcome(after, other),
    ) == record_seen(next, store, other) by {
        law_put_then_latest(before, id, ts, r, other);
        law_value_set(seen, id, shown, other);
        assert(latest_outcome(after, other) == latest_outcome(put_view(before, id, ts, r), other));
        assert(record_in(latest_outcome(before, other)) == record_seen(seen, store, other));
    }
}

fn look(db: &Database, seen: &IdMap<Option<Record>>, id: &EntityId) -> (r: Result<
    Option<Record>,
    ServerError,
>)
    ensures
        match r {
            Ok(record) => record_seen(seen.entries(), db@.store, id@) == Ok::<
                Option<RecordView>,
                ErrorView,
            >(record.deep_view()),
            Err(e) => database_failed(e@) || (e@ matches ServerErrorView::Storage(x)
                && record_seen(seen.entries(), db@.store, id@) == Err::<
                Option<RecordView>,
                ErrorView,
            >(x)),
        },
{
    match seen.get(id) {
        Some(Some(record)) => Ok(Some(record.copy())),
        Some(None) => Ok(None),
        None => match db.storage.get_latest(id) {
            Ok(Some((_, record))) => Ok(Some(record)),
            Ok(None) => Ok(None),
            Err(e) => Err(ServerError::Storage(e)),
        },
    }
}

fn foresee_insert(
    seen: &mut IdMap<Option<Record>>,
    id: EntityId,
    data: &Vec<FieldValue>,
) -> (r: Result<(), ServerError>)
    ensures
        r is Ok,
        final(seen).entries() == with_value(
            old(seen).entries(),
            id@,
            Some(live_data(entity_bytes(inserted_fields(id@, data_view(data@))))),
        ),
{
    let fields: Vec<Field> = fields_to_insert(id, data);
    match encode_entity(fields.as_slice()) {
        Ok(encoded) => {
            seen.insert(id, Some(Record::new(encoded)));
            Ok(())
        },
        Err(e) => Err(ServerError::Storage(e)),
    }
}

/// Finds out whether an entity can be updated, and what it would be.
fn foresee_update(
    db: &Database,
    seen: &mut IdMap<Option<Record>>,
    entity: &str,
    id: &EntityId,
    data: &Vec<FieldValue>,
    Ghost(now): Ghost<DbView>,
    Ghost(ts): Ghost<u64>,
) -> (r: Result<(), ServerError>)
    requires
        foreseen(old(seen).entries(), db@.store, now.store),
    ensures
        ({
            let done = update_done(now, entity@, id@, ts, data_view(data@));
            match r {
                Ok(_) => done.answer is Ok && foreseen(
                    final(seen).entries(),
                    db@.store,
                    done.db.store,
                ) && done.db.schema == now.schema,
                Err(e) => database_failed(e@) || done.answer == Err::<
                    MutationResultView,
                    ServerErrorView,
                >(e@),
            }
        }),
{
    proof {
        assert(record_in(latest_outcome(now.store, id@)) == record_seen(
            seen.entries(),
            db@.store,
            id@,
        ));
    }
    let record: Record = match look(db, seen, id)? {
        Some(record) => record,
        None => {
            return Err(not_found(entity, id));
        },
    };
    let before: Vec<Field> = match decode_entity(record.data.as_slice()) {
        Ok(fields) => fields,
        Err(e) => {
            return Err(cannot_decode(&e));
        },
    };
    let (fields, _) = merge_fields(&before, data);
    let encoded: Vec<u8> = match encode_entity(fields.as_slice()) {
        Ok(encoded) => encoded,
        Err(e) => {
            return Err(ServerError::Storage(e));
        },
    };
    let written: Record = Record::new(encoded);
    proof {
        lemma_foresee_write(
            seen.entries(),
            db@.store,
            now.store,
            update_done(now, entity@, id@, ts, data_view(data@)).db.store,
            id@,
            ts,
            written@,
        );
    }
    seen.insert(*id, Some(written));
    Ok(())
}

/// Finds out whether an entity can be deleted.
fn foresee_delete(
    db: &Database,
    seen: &mut IdMap<Option<Record>>,
    entity: &str,
    id: &EntityId,
    Ghost(now): Ghost<DbView>,
    Ghost(ts): Ghost<u64>,
) -> (r: Result<(), ServerError>)
    requires
        foreseen(old(seen).entries(), db@.store, now.store),
        now.schema == db@.schema,
    ensures
        ({
            let done = delete_done(now, entity@, id@, ts);
            match r {
                Ok(_) => done.answer is Ok && foreseen(
                    final(seen).entries(),
                    db@.store,
                    done.db.store,
                ) && done.db.schema == now.schema,
                Err(e) => database_failed(e@) || done.answer == Err::<
                    MutationResultView,
                    ServerErrorView,
                >(e@),
            }
        }),
{
    proof {
        assert(record_in(latest_outcome(now.store, id@)) == record_seen(
            seen.entries(),
            db@.store,
            id@,
        ));
    }
    let record: Record = match look(db, seen, id)? {
        Some(record) => record,
        None => {
            return Ok(());
        },
    };
    if let Err(e) = decode_entity(record.data.as_slice()) {
        return Err(cannot_decode(&e));
    }
    if db.catalog.get_entity(entity).is_none() {
        return Err(no_type(entity));
    }
    proof {
        lemma_foresee_write(
            seen.entries(),
            db@.store,
            now.store,
            delete_done(now, entity@, id@, ts).db.store,
            id@,
            ts,
            tombstone(),
        );
    }
    seen.insert(*id, None);
    Ok(())
}

proof fn lemma_foresee_insert(
    seen: Seq<(Seq<u8>, Option<RecordView>)>,
    store: StoreView,
    now: DbView,
    entity: Seq<char>,
    id: Seq<u8>,
    ts: u64,
    data: Seq<FieldView>,
)
    requires
        foreseen(seen, store, now.store),
        id.len() == 16,
    ensures
        ({
            let done = insert_done(now, entity, id, ts, data);
            &&& done.answer is Ok
            &&& done.db.schema == now.schema
            &&& foreseen(
                with_value(seen, id, Some(live_data(entity_bytes(inserted_fields(id, data))))),
                store,
                done.db.store,
            )
        }),
{
    let r = live_data(entity_bytes(inserted_fields(id, data)));
    lemma_foresee_write(
        seen,
        store,
        now.store,
        insert_done(now, entity, id, ts, data).db.store,
        id,
        ts,
        r,
    );
}

/// Finds out whether a mutation can be made after others, and what it would lead
/// to.
fn foresee(
    db: &Database,
    seen: &mut IdMap<Option<Record>>,
    mutation: &Mutation,
    fresh: EntityId,
    given: bool,
    Ghost(now): Ghost<DbView>,
    Ghost(ts): Ghost<u64>,
) -> (r: Result<(), ServerError>)
    requires
        foreseen(old(seen).entries(), db@.store, now.store),
        now.schema == db@.schema,
    ensures
        ({
            let done = mutation_done(now, mutation@, ts, fresh@, given);
            match r {
                Ok(_) => done.answer is Ok && foreseen(
                    final(seen).entries(),
                    db@.store,
                    done.db.store,
                ) && done.db.schema == now.schema,
                Err(e) => database_failed(e@) || done.answer == Err::<
                    MutationResultView,
                    ServerErrorView,
                >(e@),
            }
        }),
{
    proof {
        reveal(mutation_done);
    }
    match mutation {
        Mutation::Insert { entity, data } => {
            let id: EntityId = choose_id(data, fresh, given);
            proof {
                lemma_foresee_insert(
                    seen.entries(),
                    db@.store,
                    now,
                    entity@,
                    id@,
                    ts,
                    data_view(data@),
                );
            }
            foresee_insert(seen, id, data)
        },
        Mutation::Update { entity, id, data } => foresee_update(
            db,
            seen,
            entity.as_str(),
            id,
            data,
            Ghost(now),
            Ghost(ts),
        ),
        Mutation::Delete { entity, id } => foresee_delete(
            db,
            seen,
            entity.as_str(),
            id,
            Ghost(now),
            Ghost(ts),
        ),
        Mutation::Upsert { entity, id, data } => {
            let target: EntityId = match id {
                Some(existing) => {
                    proof {
                        assert(record_in(latest_outcome(now.store, existing@)) == record_seen(
                            seen.entries(),
                            db@.store,
                            existing@,
                        ));
                    }
                    if look(db, seen, existing)?.is_some() {
                        return foresee_update(
                            db,
                            seen,
                            entity.as_str(),
                            existing,
                            data,
                            Ghost(now),
                            Ghost(ts),
                        );
                    }
                    *existing
                },
                None => choose_id(data, fresh, given),
            };
            proof {
                lemma_foresee_insert(
                    seen.entries(),
                    db@.store,
                    now,
                    entity@,
                    target@,
                    ts,
                    data_view(data@),
                );
            }
            foresee_insert(seen, target, data)
        },
    }
}

/// Finds out whether all mutations of a batch can be made, one after the other;
/// where not, the first that cannot says why.
pub(crate) fn check_batch(
    db: &Database,
    batch: &MutationBatch,
    clock: WriteClock,
    now: u64,
    fresh: &Vec<EntityId>,
    log: bool,
) -> (r: Result<(), ServerError>)
    requires
        fresh@.len() == batch.mutations@.len(),
    ensures
        ({
            let run = batch_run(
                db@,
                mutations_view(batch.mutations@),
                clock,
                now,
                ids_view(fresh@),
                log,
            );
            match r {
                Ok(_) => run.failed is None,
                Err(e) => database_failed(e@) || run.failed == Some(e@),
            }
        }),
        batch.mutations@.len() == 0 ==> r is Ok,
{
    let ghost ms = mutations_view(batch.mutations@);
    let ghost ids = ids_view(fresh@);
    let given: bool = match clock {
        WriteClock::Wall => false,
        WriteClock::Commit(_) => true,
    };
    let _ = (now, log);
    let mut seen: IdMap<Option<Record>> = IdMap::new();
    let mut i: usize = 0;
    proof {
        assert(ms.take(0) =~= Seq::<MutationView>::empty());
        assert forall|id: Seq<u8>| id.len() == 16 implies record_in(
            #[trigger] latest_outcome(db@.store, id),
        ) == record_seen(seen.entries(), db@.store, id) by {
            assert(value_of(seen.entries(), id) is None);
        }
    }
    while i < batch.mutations.len()
        invariant
            i <= batch.mutations@.len(),
            fresh@.len() == batch.mutations@.len(),
            ms == mutations_view(batch.mutations@),
            ids == ids_view(fresh@),
            given == (clock is Commit),
            batch_run(db@, ms.take(i as int), clock, now, ids, log).failed is None,
            batch_run(db@, ms.take(i as int), clock, now, ids, log).db.schema == db@.schema,
            foreseen(
                seen.entries(),
                db@.store,
                batch_run(db@, ms.take(i as int), clock, now, ids, log).db.store,
            ),
        decreases batch.mutations@.len() - i,
    {
        let ghost run = batch_run(db@, ms.take(i as int), clock, now, ids, log);
        let ghost ts = write_ts(clock, run.db.store.watermark, now);
        let ghost m = batch.mutations@[i as int]@;
        proof {
            assert(ms.take(i + 1).drop_last() =~= ms.take(i as int));
            assert(ms.take(i + 1).last() == m);
            assert(ids[i as int] == fresh@[i as int]@);
        }
        match foresee(
            db,
            &mut seen,
            &batch.mutations[i],
            fresh[i],
            given,
            Ghost(run.db),
            Ghost(ts),
        ) {
            Ok(_) => {
                proof {
                    let done = mutation_done(run.db, m, ts, fresh@[i as int]@, given);
                    let next = batch_run(db@, ms.take(i + 1), clock, now, ids, log);
                    lemma_same_records(seen.entries(), db@.store, done.db.store, next.db.store);
                }
            },
            Err(e) => {
                proof {
                    if !database_failed(e@) {
                        lemma_batch_fails(db@, ms, clock, now, ids, log, i + 1);
                    }
                }
                return Err(e);
            },
        }
        i = i + 1;
    }
    assert(ms.take(ms.len() as int) =~= ms);
    Ok(())
}

proof fn lemma_same_records(
    seen: Seq<(Seq<u8>, Option<RecordView>)>,
    store: StoreView,
    a: StoreView,
    b: StoreView,
)
    requires
        foreseen(seen, store, a),
        a.data == b.data,
        a.meta == b.meta,
    ensures
        foreseen(seen, store, b),
{
    assert forall|id: Seq<u8>| id.len() == 16 implies record_in(#[trigger] latest_outcome(b, id))
        == record_seen(seen, store, id) by {
        assert(latest_outcome(a, id) == latest_outcome(b, id));
    }
}

} // verus!
