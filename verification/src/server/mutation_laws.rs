//! What holds of mutations and reads together.

use vstd::prelude::*;
use vstd::utf8::encode_utf8;

use crate::bytes::lemma_be_limit_u64;
use crate::catalog::entity_named;
use crate::codec::{entity_bytes, entity_outcome, FieldView};
use crate::error::ErrorView;
use crate::query::ast::PlanView;
use crate::query::fetch::{fetch_outcome, HitsView};
use crate::query::fetch_laws::law_found_is_somewhere;
use crate::server::database::DbView;
use crate::server::error::ServerErrorView;
use crate::server::mutation::{
    affected_view, batch_answer, batch_done, batch_run, chosen_id, delete_done, execute_done,
    id_name, insert_done, inserted_fields, live_data, merged, mutation_done, unshown, update_done,
    write_ts, MutationResultView, MutationView, WriteClock,
};
use crate::storage::columnar::{last_value, row_items};
use crate::storage::index_laws::{countable, holds, law_index_follows_fields};
use crate::storage::index_ops::indexable;
use crate::storage::key::{key_bytes, law_key_round_trip};
use crate::storage::laws::{
    law_as_of_ignores_later, law_as_of_sees_write, law_put_sound, law_put_then_latest,
    nothing_pending, sound,
};
use crate::storage::layout::type_key;
use crate::storage::model::{as_of_outcome, latest_outcome, put_view, StoreView};
use crate::storage::record::{tombstone, RecordView};
use crate::storage::truth::law_no_row_without_a_key;

verus! {

/// Whether a mutation is made later than everything that the store holds.
pub open spec fn timely(db: DbView, clock: WriteClock, now: u64) -> bool {
    &&& sound(db.store)
    &&& nothing_pending(db.store)
    &&& db.store.watermark < u64::MAX
    &&& write_ts(clock, db.store.watermark, now) > db.store.watermark
}

/// The entity that a mutation speaks of.
pub open spec fn target_of(m: MutationView, clock: WriteClock, fresh: Seq<u8>) -> Seq<u8> {
    match m {
        MutationView::Insert(_, data) => chosen_id(data, fresh, clock is Commit),
        MutationView::Update(_, id, _) => id,
        MutationView::Delete(_, id) => id,
        MutationView::Upsert(_, Some(id), _) => id,
        MutationView::Upsert(_, None, data) => chosen_id(data, fresh, clock is Commit),
    }
}

/// The store after a mutation, as far as versions go: nothing is written, or one
/// version of the entity that it speaks of.
pub open spec fn versions_follow(
    after: StoreView,
    before: StoreView,
    id: Seq<u8>,
    ts: u64,
) -> bool {
    ||| after.data == before.data && after.meta == before.meta && after.types == before.types
    ||| exists|r: RecordView|
        {
            &&& after.data == (#[trigger] put_view(before, id, ts, r)).data
            &&& after.meta == put_view(before, id, ts, r).meta
            &&& before.types.dom().finite() ==> after.types.dom().finite()
        }
}

proof fn lemma_insert_follows(
    db: DbView,
    entity: Seq<char>,
    id: Seq<u8>,
    ts: u64,
    data: Seq<FieldView>,
)
    ensures
        versions_follow(insert_done(db, entity, id, ts, data).db.store, db.store, id, ts),
{
    let after = insert_done(db, entity, id, ts, data).db.store;
    let put = put_view(db.store, id, ts, live_data(entity_bytes(inserted_fields(id, data))));
    assert(after.data == put.data && after.meta == put.meta);
}

proof fn lemma_update_follows(
    db: DbView,
    entity: Seq<char>,
    id: Seq<u8>,
    ts: u64,
    data: Seq<FieldView>,
)
    ensures
        versions_follow(update_done(db, entity, id, ts, data).db.store, db.store, id, ts),
{
    let after = update_done(db, entity, id, ts, data).db.store;
    match latest_outcome(db.store, id) {
        Ok(Some(v)) => match entity_outcome(v.1.data) {
            Ok(before) => {
                let r = live_data(entity_bytes(merged(before, data)));
                let put = put_view(db.store, id, ts, r);
                assert(after.data == put.data && after.meta == put.meta);
            },
            Err(_) => {},
        },
        _ => {},
    }
}

proof fn lemma_delete_follows(db: DbView, entity: Seq<char>, id: Seq<u8>, ts: u64)
    ensures
        versions_follow(delete_done(db, entity, id, ts).db.store, db.store, id, ts),
{
    let after = delete_done(db, entity, id, ts).db.store;
    match latest_outcome(db.store, id) {
        Ok(Some(_)) => {
            let put = put_view(db.store, id, ts, tombstone());
            assert(after.data == put.data && after.meta == put.meta);
        },
        _ => {},
    }
}

proof fn lemma_versions_follow(
    db: DbView,
    m: MutationView,
    clock: WriteClock,
    now: u64,
    fresh: Seq<u8>,
    log: bool,
)
    ensures
        versions_follow(
            execute_done(db, m, clock, now, fresh, log).db.store,
            db.store,
            target_of(m, clock, fresh),
            write_ts(clock, db.store.watermark, now),
        ),
{
    let id = target_of(m, clock, fresh);
    let ts = write_ts(clock, db.store.watermark, now);
    let done = mutation_done(db, m, ts, fresh, clock is Commit);
    assert(versions_follow(done.db.store, db.store, id, ts)) by {
        reveal(mutation_done);
        match m {
            MutationView::Insert(entity, data) => {
                lemma_insert_follows(db, entity, id, ts, data);
            },
            MutationView::Update(entity, _, data) => {
                lemma_update_follows(db, entity, id, ts, data);
            },
            MutationView::Delete(entity, _) => {
                lemma_delete_follows(db, entity, id, ts);
            },
            MutationView::Upsert(entity, _, data) => {
                lemma_insert_follows(db, entity, id, ts, data);
                lemma_update_follows(db, entity, id, ts, data);
            },
        }
    }
    let after = execute_done(db, m, clock, now, fresh, log).db.store;
    assert(after.data == done.db.store.data && after.meta == done.db.store.meta && after.types
        == done.db.store.types);
}

/// Mutations keep the store sound, and after one that succeeds nothing is later
/// than the watermark, which never moves back.
pub proof fn law_mutations_keep_order(
    db: DbView,
    m: MutationView,
    clock: WriteClock,
    now: u64,
    fresh: Seq<u8>,
    log: bool,
)
    requires
        timely(db, clock, now),
        target_of(m, clock, fresh).len() == 16,
    ensures
        ({
            let done = execute_done(db, m, clock, now, fresh, log);
            &&& sound(done.db.store)
            &&& done.answer is Ok ==> nothing_pending(done.db.store)
            &&& done.db.store.watermark >= db.store.watermark
        }),
{
    let done = execute_done(db, m, clock, now, fresh, log);
    let id = target_of(m, clock, fresh);
    let ts = write_ts(clock, db.store.watermark, now);
    lemma_versions_follow(db, m, clock, now, fresh, log);
    reveal(mutation_done);
    if done.db.store.data != db.store.data {
        let r = choose|r: RecordView|
            {
                &&& done.db.store.data == (#[trigger] put_view(db.store, id, ts, r)).data
                &&& done.db.store.meta == put_view(db.store, id, ts, r).meta
                &&& db.store.types.dom().finite() ==> done.db.store.types.dom().finite()
            };
        law_put_sound(db.store, id, ts, r);
        if done.answer is Ok {
            assert forall|other: Seq<u8>, u: u64|
                other.len() == 16 && u > done.db.store.watermark implies !(
            #[trigger] done.db.store.data.contains_key(key_bytes(other, u))) by {
                law_key_round_trip(other, u);
                law_key_round_trip(id, ts);
                assert(u > db.store.watermark);
            }
        }
    }
}

/// A mutation leaves every other entity as it is, and every entity as it was
/// before the mutation's timestamp.
pub proof fn law_mutations_keep_the_rest(
    db: DbView,
    m: MutationView,
    clock: WriteClock,
    now: u64,
    fresh: Seq<u8>,
    log: bool,
    other: Seq<u8>,
    read_ts: u64,
)
    requires
        sound(db.store),
        target_of(m, clock, fresh).len() == 16,
        other.len() == 16,
    ensures
        ({
            let done = execute_done(db, m, clock, now, fresh, log);
            &&& other != target_of(m, clock, fresh) ==> latest_outcome(done.db.store, other)
                == latest_outcome(db.store, other)
            &&& other != target_of(m, clock, fresh) || read_ts < write_ts(clock, db.store.watermark, now) ==> as_of_outcome(
                done.db.store.data,
                other,
                read_ts,
            ) == as_of_outcome(db.store.data, other, read_ts)
        }),
{
    let done = execute_done(db, m, clock, now, fresh, log);
    let id = target_of(m, clock, fresh);
    let ts = write_ts(clock, db.store.watermark, now);
    lemma_versions_follow(db, m, clock, now, fresh, log);
    let same = done.db.store.data == db.store.data && done.db.store.meta == db.store.meta;
    if !same {
        let r = choose|r: RecordView|
            {
                &&& done.db.store.data == (#[trigger] put_view(db.store, id, ts, r)).data
                &&& done.db.store.meta == put_view(db.store, id, ts, r).meta
                &&& db.store.types.dom().finite() ==> done.db.store.types.dom().finite()
            };
        law_put_then_latest(db.store, id, ts, r, other);
        if other != id || read_ts < ts {
            law_as_of_ignores_later(db.store, id, ts, r, other, read_ts);
        }
    }
}

/// A mutation in the middle of which the database failed leaves every other entity as
/// it was, and every entity as it was before the mutation's timestamp.
pub proof fn law_failed_mutation_is_unseen(
    db: DbView,
    m: MutationView,
    clock: WriteClock,
    now: u64,
    fresh: Seq<u8>,
    log: bool,
    after: DbView,
    other: Seq<u8>,
    read_ts: u64,
)
    requires
        sound(db.store),
        target_of(m, clock, fresh).len() == 16,
        other.len() == 16,
        unshown(after, db, execute_done(db, m, clock, now, fresh, log).db.store),
        other != target_of(m, clock, fresh) || read_ts < write_ts(clock, db.store.watermark, now),
    ensures
        as_of_outcome(after.store.data, other, read_ts) == as_of_outcome(
            db.store.data,
            other,
            read_ts,
        ),
        after.store.watermark == db.store.watermark,
{
    let done = execute_done(db, m, clock, now, fresh, log);
    let k = key_bytes(target_of(m, clock, fresh), write_ts(clock, db.store.watermark, now));
    lemma_versions_follow(db, m, clock, now, fresh, log);
    law_mutations_keep_the_rest(db, m, clock, now, fresh, log, other, read_ts);
    let data = after.store.data;
    assert forall|q: Seq<u8>| q != k implies #[trigger] data.get(q) == db.store.data.get(q)
        && db.store.data.get(q) == done.db.store.data.get(q) by {}
    let expected = if data.get(k) == db.store.data.get(k) {
        db.store.data
    } else {
        done.db.store.data
    };
    assert forall|q: Seq<u8>| #[trigger] data.get(q) == expected.get(q) by {}
    assert forall|q: Seq<u8>| data.contains_key(q) == expected.contains_key(q) by {
        assert(data.get(q) == expected.get(q));
    }
    assert forall|q: Seq<u8>| data.contains_key(q) implies data[q] == expected[q] by {
        assert(data.get(q) == expected.get(q));
    }
    assert(data =~= expected);
}

/// An entity that has been updated can be read with what it had and what it was
/// given, at once and by snapshot reads at the watermark.
pub proof fn law_update_then_read(
    db: DbView,
    entity: Seq<char>,
    id: Seq<u8>,
    data: Seq<FieldView>,
    clock: WriteClock,
    now: u64,
    fresh: Seq<u8>,
    log: bool,
    version: (u64, RecordView),
    fields: Seq<FieldView>,
)
    requires
        timely(db, clock, now),
        id.len() == 16,
        latest_outcome(db.store, id) == Ok::<Option<(u64, RecordView)>, ErrorView>(Some(version)),
        entity_outcome(version.1.data) == Ok::<Seq<FieldView>, ErrorView>(fields),
    ensures
        ({
            let ts = write_ts(clock, db.store.watermark, now);
            let m = MutationView::Update(entity, id, data);
            let done = execute_done(db, m, clock, now, fresh, log);
            let written = live_data(entity_bytes(merged(fields, data)));
            &&& done.answer == Ok::<MutationResultView, ServerErrorView>(affected_view(1))
            &&& latest_outcome(done.db.store, id) == Ok::<Option<(u64, RecordView)>, ErrorView>(
                Some((ts, written)),
            )
            &&& as_of_outcome(done.db.store.data, id, done.db.store.watermark) == Ok::<
                Option<(u64, RecordView)>,
                ErrorView,
            >(Some((ts, written)))
        }),
{
    reveal(mutation_done);
    let ts = write_ts(clock, db.store.watermark, now);
    let done = execute_done(db, MutationView::Update(entity, id, data), clock, now, fresh, log);
    let written = live_data(entity_bytes(merged(fields, data)));
    lemma_written(db, done.db, id, ts, written);
}

/// An entity that has been deleted is gone, at once and for snapshot reads at the
/// watermark, and stays as it was for reads before the deletion.
pub proof fn law_delete_then_gone(
    db: DbView,
    entity: Seq<char>,
    id: Seq<u8>,
    clock: WriteClock,
    now: u64,
    fresh: Seq<u8>,
    log: bool,
    version: (u64, RecordView),
    read_ts: u64,
)
    requires
        timely(db, clock, now),
        id.len() == 16,
        latest_outcome(db.store, id) == Ok::<Option<(u64, RecordView)>, ErrorView>(Some(version)),
        entity_outcome(version.1.data) is Ok,
        entity_named(db.schema.entities, entity) is Some,
        read_ts < write_ts(clock, db.store.watermark, now),
    ensures
        ({
            let m = MutationView::Delete(entity, id);
            let done = execute_done(db, m, clock, now, fresh, log);
            &&& done.answer == Ok::<MutationResultView, ServerErrorView>(affected_view(1))
            &&& latest_outcome(done.db.store, id) == Ok::<Option<(u64, RecordView)>, ErrorView>(
                None,
            )
            &&& as_of_outcome(done.db.store.data, id, done.db.store.watermark) == Ok::<
                Option<(u64, RecordView)>,
                ErrorView,
            >(None)
            &&& as_of_outcome(done.db.store.data, id, read_ts) == as_of_outcome(
                db.store.data,
                id,
                read_ts,
            )
        }),
{
    reveal(mutation_done);
    let ts = write_ts(clock, db.store.watermark, now);
    let done = execute_done(db, MutationView::Delete(entity, id), clock, now, fresh, log);
    lemma_written(db, done.db, id, ts, tombstone());
    law_as_of_ignores_later(db.store, id, ts, tombstone(), id, read_ts);
}

/// Once a deletion has answered that it deleted an entity, nothing of the entity is
/// left: the row projection has no row of it.
pub proof fn law_delete_leaves_no_row(
    db: DbView,
    entity: Seq<char>,
    id: Seq<u8>,
    clock: WriteClock,
    now: u64,
    fresh: Seq<u8>,
    log: bool,
)
    requires
        id.len() == 16,
        db.store.columnar.dom().finite(),
        execute_done(db, MutationView::Delete(entity, id), clock, now, fresh, log).answer == Ok::<
            MutationResultView,
            ServerErrorView,
        >(affected_view(1)),
    ensures
        ({
            let m = MutationView::Delete(entity, id);
            let rows = row_items(
                execute_done(db, m, clock, now, fresh, log).db.store.columnar,
                entity,
            );
            forall|i: int|
                0 <= i < rows.len() ==> !((#[trigger] rows[i]) matches Ok(row) && row.0 == id)
        }),
{
    reveal(mutation_done);
    let done = execute_done(db, MutationView::Delete(entity, id), clock, now, fresh, log);
    law_no_row_without_a_key(done.db.store.columnar, entity, id);
}

/// Once a deletion has answered that it deleted an entity, no query of the present finds
/// the entity, whatever its condition, its order and the way it takes.
pub proof fn law_deleted_is_never_found(
    db: DbView,
    entity: Seq<char>,
    id: Seq<u8>,
    clock: WriteClock,
    now: u64,
    fresh: Seq<u8>,
    log: bool,
    plan: PlanView,
    hits: Option<HitsView>,
)
    requires
        timely(db, clock, now),
        id.len() == 16,
        db.store.columnar.dom().finite(),
        execute_done(db, MutationView::Delete(entity, id), clock, now, fresh, log).answer == Ok::<
            MutationResultView,
            ServerErrorView,
        >(affected_view(1)),
        plan.root_entity == entity,
    ensures
        ({
            let m = MutationView::Delete(entity, id);
            let done = execute_done(db, m, clock, now, fresh, log);
            fetch_outcome(done.db.store, plan, None, hits) matches Ok(found) ==> forall|i: int|
                0 <= i < found.rows.len() ==> (#[trigger] found.rows[i]).id != id
        }),
{
    let m = MutationView::Delete(entity, id);
    let done = execute_done(db, m, clock, now, fresh, log);
    let ts = write_ts(clock, db.store.watermark, now);
    let store = done.db.store;
    assert(latest_outcome(store, id) == Ok::<Option<(u64, RecordView)>, ErrorView>(None)
        && !store.columnar.contains_key(type_key(entity, id)) && store.columnar.dom().finite()
        && store.types.dom().finite()) by {
        reveal(mutation_done);
        lemma_written(db, done.db, id, ts, tombstone());
    }
    if let Ok(found) = fetch_outcome(store, plan, None, hits) {
        assert forall|i: int| 0 <= i < found.rows.len() implies (#[trigger] found.rows[i]).id
            != id by {
            if found.rows[i].id == id {
                assert(found.rows.contains(found.rows[i]));
                law_found_is_somewhere(store, plan, hits, found.rows[i]);
            }
        }
    }
}

proof fn lemma_written(db: DbView, after: DbView, id: Seq<u8>, ts: u64, r: RecordView)
    requires
        sound(db.store),
        nothing_pending(db.store),
        id.len() == 16,
        db.store.watermark < ts <= after.store.watermark,
        after.store.data == put_view(db.store, id, ts, r).data,
        after.store.meta == put_view(db.store, id, ts, r).meta,
    ensures
        ({
            let seen = if r.deleted {
                None
            } else {
                Some((ts, r))
            };
            &&& latest_outcome(after.store, id) == Ok::<Option<(u64, RecordView)>, ErrorView>(seen)
            &&& as_of_outcome(after.store.data, id, after.store.watermark) == Ok::<
                Option<(u64, RecordView)>,
                ErrorView,
            >(seen)
        }),
{
    law_put_then_latest(db.store, id, ts, r, id);
    assert forall|u: u64| ts < u <= after.store.watermark implies !(
    #[trigger] db.store.data.contains_key(key_bytes(id, u))) by {
        assert(u > db.store.watermark);
    }
    law_as_of_sees_write(db.store, id, ts, r, after.store.watermark);
}

proof fn lemma_id_name_countable()
    ensures
        countable(id_name()),
{
    reveal_strlit("id");
    reveal_with_fuel(encode_utf8, 3);
    assert(encode_utf8(id_name()).len() <= 8);
    lemma_be_limit_u64();
}

/// The equality index holds every value that an inserted entity has, apart from
/// those that are not indexed.
pub proof fn law_insert_is_indexed(
    db: DbView,
    entity: Seq<char>,
    data: Seq<FieldView>,
    clock: WriteClock,
    now: u64,
    fresh: Seq<u8>,
    log: bool,
    column: Seq<char>,
)
    requires
        forall|i: int| 0 <= i < data.len() ==> countable((#[trigger] data[i]).0),
        countable(column),
        indexable(
            last_value(
                inserted_fields(target_of(MutationView::Insert(entity, data), clock, fresh), data),
                column,
            ),
        ),
    ensures
        ({
            let m = MutationView::Insert(entity, data);
            let id = target_of(m, clock, fresh);
            let value = last_value(inserted_fields(id, data), column)->0;
            let done = execute_done(db, m, clock, now, fresh, log);
            holds(done.db.store.hash, entity, column, value, id)
        }),
{
    reveal(mutation_done);
    let m = MutationView::Insert(entity, data);
    let id = target_of(m, clock, fresh);
    let fs = inserted_fields(id, data);
    let value = last_value(fs, column)->0;
    lemma_id_name_countable();
    assert forall|i: int| 0 <= i < fs.len() implies countable((#[trigger] fs[i]).0) by {
        if i > 0 {
            let keep = |f: FieldView| f.0 != id_name();
            assert(fs[i] == data.filter(keep)[i - 1]);
            assert(data.filter(keep).contains(fs[i]));
            data.lemma_filter_contains_rev(keep, fs[i]);
            let j = choose|j: int| 0 <= j < data.len() && data[j] == fs[i];
            assert(countable(data[j].0));
        }
    }
    law_index_follows_fields(db.store.hash, entity, id, Seq::empty(), fs, column, value);
}

/// A batch is made as a whole or not at all: where one of its mutations is refused,
/// everything stays as it was, and else the mutations are made one after the other.
pub proof fn law_batch_is_atomic(
    db: DbView,
    ms: Seq<MutationView>,
    clock: WriteClock,
    now: u64,
    fresh: Seq<Seq<u8>>,
    log: bool,
)
    ensures
        batch_answer(batch_done(db, ms, clock, now, fresh, log)) is Err ==> batch_done(
            db,
            ms,
            clock,
            now,
            fresh,
            log,
        ).db == db,
        batch_answer(batch_done(db, ms, clock, now, fresh, log)) is Ok ==> batch_done(
            db,
            ms,
            clock,
            now,
            fresh,
            log,
        ) == batch_run(db, ms, clock, now, fresh, log),
{
}

} // verus!
