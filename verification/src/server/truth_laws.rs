//! What mutations make of the database as a whole: what they write can be found in every
//! way, is counted and is told to those who follow the changes.

use vstd::prelude::*;

use crate::catalog::entity_named;
use crate::codec::{
    entity_bytes, entity_outcome, fields_holdable, law_entity_round_trip, FieldView,
};
use crate::error::ErrorView;
use crate::query::ast::{first_value, FilterView, PlanView};
use crate::query::fetch::{fetch_outcome, HitsView};
use crate::query::fetch_laws::{finds, law_found_is_what_passes, plainly_asked};
use crate::query::filter::holds;
use crate::query::statistics::{count_of, one_less, one_more, type_pos, with_count};
use crate::server::changelog::{ChangeType, ChangeView};
use crate::server::database::DbView;
use crate::server::error::ServerErrorView;
use crate::server::mutation::{
    affected_view, execute_done, followed_columns, given_id, id_name, inserted_fields,
    law_merge_keeps_names_once, live_data, merged, mutation_done, write_ts, MutationResultView,
    MutationView, WriteClock,
};
use crate::server::mutation_laws::target_of;
use crate::storage::commit_laws::lemma_column_covered;
use crate::storage::index_laws::hash_after;
use crate::storage::index_ops::{change_ops, distinct, field_names};
use crate::storage::laws::law_put_then_latest;
use crate::storage::layout::type_key;
use crate::storage::model::{
    apply_btree, covered_columns, latest_outcome, or_none, put_view, with_row, StoreView,
};
use crate::storage::record::{tombstone, RecordView};
use crate::storage::truth::{
    faithful, fields_now, follows_change, is_there, law_following_keeps_truth, named_once,
    replaced_plainly,
};
use crate::value::ValueView;

verus! {

proof fn lemma_first_of_filtered(
    fs: Seq<FieldView>,
    keep: spec_fn(FieldView) -> bool,
    name: Seq<char>,
)
    requires
        forall|v: ValueView| #[trigger] keep((name, v)),
    ensures
        first_value(fs.filter(keep), name) == first_value(fs, name),
    decreases fs.len(),
{
    reveal_with_fuel(Seq::filter, 2);
    if fs.len() > 0 {
        let rest = fs.drop_first();
        lemma_first_of_filtered(rest, keep, name);
        assert(fs =~= seq![fs[0]] + rest);
        Seq::filter_distributes_over_add(seq![fs[0]], rest, keep);
        assert(seq![fs[0]].drop_last() =~= Seq::<FieldView>::empty());
        let head = seq![fs[0]].filter(keep);
        let tail = rest.filter(keep);
        if keep(fs[0]) {
            assert(head =~= seq![fs[0]]);
            assert((head + tail).drop_first() =~= tail);
            assert((head + tail)[0] == fs[0]);
        } else {
            assert(keep((fs[0].0, fs[0].1)) == keep(fs[0]));
            assert(head =~= Seq::<FieldView>::empty());
            assert(head + tail =~= tail);
        }
    }
}

/// An inserted entity has its identifier, and in every other field what it was given.
pub proof fn law_inserted_has_what_was_given(id: Seq<u8>, data: Seq<FieldView>, name: Seq<char>)
    ensures
        first_value(inserted_fields(id, data), id_name()) == Some(ValueView::Uuid(id)),
        name != id_name() ==> first_value(inserted_fields(id, data), name) == first_value(
            data,
            name,
        ),
{
    let keep = |f: FieldView| f.0 != id_name();
    let fs = inserted_fields(id, data);
    assert(fs[0] == (id_name(), ValueView::Uuid(id)));
    if name != id_name() {
        assert(fs.drop_first() =~= data.filter(keep));
        lemma_first_of_filtered(data, keep, name);
    }
}

proof fn lemma_all_covered(db: DbView, entity: Seq<char>)
    ensures
        forall|c: Seq<char>| #[trigger]
            db.store.btree_columns.contains((entity, c)) ==> followed_columns(db, entity).contains(
                c,
            ),
{
    let all = followed_columns(db, entity);
    let some = covered_columns(db.store.btree_columns, entity);
    assert forall|c: Seq<char>| #[trigger]
        db.store.btree_columns.contains((entity, c)) implies all.contains(c) by {
        lemma_column_covered(db.store.btree_columns, entity, c);
        let k = choose|k: int| 0 <= k < some.len() && some[k] == c;
        assert(all[k] == c);
    }
}

/// Whether fields can be stored as they are: each has its own name, and they fit.
pub open spec fn storable(fs: Seq<FieldView>) -> bool {
    named_once(fs) && fields_holdable(fs)
}

/// Inserting an entity that is not there keeps everything true that the store says of its
/// type, and the entity is there with its fields.
pub proof fn law_insert_keeps_truth(
    db: DbView,
    entity: Seq<char>,
    data: Seq<FieldView>,
    clock: WriteClock,
    now: u64,
    fresh: Seq<u8>,
    log: bool,
)
    requires
        faithful(db.store, entity),
        ({
            let id = target_of(MutationView::Insert(entity, data), clock, fresh);
            &&& id.len() == 16
            &&& fields_now(db.store, id) is None
            &&& storable(inserted_fields(id, data))
        }),
    ensures
        ({
            let m = MutationView::Insert(entity, data);
            let id = target_of(m, clock, fresh);
            let after = execute_done(db, m, clock, now, fresh, log).db.store;
            &&& faithful(after, entity)
            &&& is_there(after, entity, id)
            &&& fields_now(after, id) == Some(inserted_fields(id, data))
        }),
{
    let m = MutationView::Insert(entity, data);
    let id = target_of(m, clock, fresh);
    let fs = inserted_fields(id, data);
    let ts = write_ts(clock, db.store.watermark, now);
    let after = execute_done(db, m, clock, now, fresh, log).db.store;
    let columns = followed_columns(db, entity);
    assert(is_written(db.store, after, entity, id, ts, None, Some(fs), columns)) by {
        reveal(mutation_done);
    }
    lemma_written_follows(db.store, after, entity, id, ts, None, Some(fs), columns);
    lemma_all_covered(db, entity);
    law_following_keeps_truth(db.store, after, entity, id, None, Some(fs), columns);
}

/// The record of an entity's fields, or that it is gone.
spec fn record_of(now: Option<Seq<FieldView>>) -> RecordView {
    match now {
        Some(fs) => live_data(entity_bytes(fs)),
        None => tombstone(),
    }
}

spec fn is_written(
    store: StoreView,
    after: StoreView,
    entity: Seq<char>,
    id: Seq<u8>,
    ts: u64,
    before: Option<Seq<FieldView>>,
    now: Option<Seq<FieldView>>,
    columns: Seq<Seq<char>>,
) -> bool {
    let b = or_none(before);
    let a = or_none(now);
    let put = put_view(store, id, ts, record_of(now));
    &&& after.data == put.data
    &&& after.meta == put.meta
    &&& after.types == match now {
        Some(_) => store.types.insert(type_key(entity, id), Seq::empty()),
        None => store.types,
    }
    &&& after.columnar == match now {
        Some(fs) => with_row(store.columnar, entity, id, fs),
        None => store.columnar.remove(type_key(entity, id)),
    }
    &&& after.hash == hash_after(store.hash, entity, id, b, a)
    &&& after.btree_columns == store.btree_columns
    &&& after.btree == match store.btree {
        Some(s) => Some(apply_btree(s, entity, id, change_ops(distinct(columns), b, a))),
        None => None,
    }
}

proof fn lemma_written_follows(
    store: StoreView,
    after: StoreView,
    entity: Seq<char>,
    id: Seq<u8>,
    ts: u64,
    before: Option<Seq<FieldView>>,
    now: Option<Seq<FieldView>>,
    columns: Seq<Seq<char>>,
)
    requires
        id.len() == 16,
        is_written(store, after, entity, id, ts, before, now, columns),
        now matches Some(fs) ==> storable(fs),
    ensures
        follows_change(store, after, entity, id, before, now, columns),
{
    let r = record_of(now);
    let put = put_view(store, id, ts, r);
    assert forall|x: Seq<u8>| #[trigger] latest_outcome(after, x) == latest_outcome(put, x) by {}
    law_put_then_latest(store, id, ts, r, id);
    assert(latest_outcome(after, id) == latest_outcome(put, id));
    if let Some(fs) = now {
        law_entity_round_trip(fs);
    }
    assert forall|other: Seq<u8>| other.len() == 16 && other != id implies #[trigger] latest_outcome(
        after,
        other,
    ) == latest_outcome(store, other) by {
        law_put_then_latest(store, id, ts, r, other);
        assert(latest_outcome(after, other) == latest_outcome(put, other));
    }
}

/// Updating an entity that is there keeps everything true that the store says of its type,
/// and the entity has the fields that were set, and else those that it had.
pub proof fn law_update_keeps_truth(
    db: DbView,
    entity: Seq<char>,
    id: Seq<u8>,
    data: Seq<FieldView>,
    clock: WriteClock,
    now: u64,
    fresh: Seq<u8>,
    log: bool,
)
    requires
        faithful(db.store, entity),
        is_there(db.store, entity, id),
        fields_holdable(merged(fields_now(db.store, id)->0, data)),
        replaced_plainly(
            fields_now(db.store, id)->0,
            merged(fields_now(db.store, id)->0, data),
        ),
    ensures
        ({
            let m = MutationView::Update(entity, id, data);
            let after = execute_done(db, m, clock, now, fresh, log).db.store;
            &&& faithful(after, entity)
            &&& is_there(after, entity, id)
            &&& fields_now(after, id) == Some(merged(fields_now(db.store, id)->0, data))
        }),
{
    let m = MutationView::Update(entity, id, data);
    let before = fields_now(db.store, id);
    let fs = merged(before->0, data);
    let ts = write_ts(clock, db.store.watermark, now);
    let after = execute_done(db, m, clock, now, fresh, log).db.store;
    let columns = followed_columns(db, entity);
    law_merge_keeps_names_once(before->0, data);
    assert(is_written(db.store, after, entity, id, ts, before, Some(fs), columns)) by {
        reveal(mutation_done);
    }
    lemma_written_follows(db.store, after, entity, id, ts, before, Some(fs), columns);
    lemma_all_covered(db, entity);
    law_following_keeps_truth(db.store, after, entity, id, before, Some(fs), columns);
}

/// Deleting an entity that is there keeps everything true that the store says of its type,
/// and the entity is there no longer.
pub proof fn law_delete_keeps_truth(
    db: DbView,
    entity: Seq<char>,
    id: Seq<u8>,
    clock: WriteClock,
    now: u64,
    fresh: Seq<u8>,
    log: bool,
)
    requires
        faithful(db.store, entity),
        is_there(db.store, entity, id),
        entity_named(db.schema.entities, entity) is Some,
    ensures
        ({
            let m = MutationView::Delete(entity, id);
            let after = execute_done(db, m, clock, now, fresh, log).db.store;
            &&& faithful(after, entity)
            &&& !is_there(after, entity, id)
        }),
{
    let m = MutationView::Delete(entity, id);
    let before = fields_now(db.store, id);
    let ts = write_ts(clock, db.store.watermark, now);
    let after = execute_done(db, m, clock, now, fresh, log).db.store;
    let columns = followed_columns(db, entity);
    assert(is_written(db.store, after, entity, id, ts, before, None, columns)) by {
        reveal(mutation_done);
    }
    lemma_written_follows(db.store, after, entity, id, ts, before, None, columns);
    lemma_all_covered(db, entity);
    assert(replaced_plainly(or_none(before), or_none(None::<Seq<FieldView>>)));
    law_following_keeps_truth(db.store, after, entity, id, before, None, columns);
}

/// Whether a query without a page finds an entity just where its fields meet the
/// condition.
pub open spec fn found_by_its_fields(
    store: StoreView,
    plan: PlanView,
    f: FilterView,
    hits: Option<HitsView>,
    id: Seq<u8>,
    fs: Seq<FieldView>,
) -> bool {
    fetch_outcome(store, plan, None, hits) matches Ok(found) ==> (finds(found.rows, id)
        <==> holds(f, fs) == Ok::<bool, ErrorView>(true))
}

/// Queries find an inserted entity by the fields that it was given, whatever way they
/// take.
pub proof fn law_inserted_is_found(
    db: DbView,
    entity: Seq<char>,
    data: Seq<FieldView>,
    clock: WriteClock,
    now: u64,
    fresh: Seq<u8>,
    log: bool,
    plan: PlanView,
    f: FilterView,
    hits: Option<HitsView>,
)
    requires
        faithful(db.store, entity),
        ({
            let id = target_of(MutationView::Insert(entity, data), clock, fresh);
            &&& id.len() == 16
            &&& fields_now(db.store, id) is None
            &&& storable(inserted_fields(id, data))
        }),
        plan.root_entity == entity,
        plan.filter == Some(f),
        plan.pagination is None,
        plainly_asked(f),
    ensures
        ({
            let m = MutationView::Insert(entity, data);
            let id = target_of(m, clock, fresh);
            let after = execute_done(db, m, clock, now, fresh, log).db.store;
            found_by_its_fields(after, plan, f, hits, id, inserted_fields(id, data))
        }),
{
    let m = MutationView::Insert(entity, data);
    let id = target_of(m, clock, fresh);
    let after = execute_done(db, m, clock, now, fresh, log).db.store;
    law_insert_keeps_truth(db, entity, data, clock, now, fresh, log);
    if fetch_outcome(after, plan, None, hits) is Ok {
        law_found_is_what_passes(after, plan, f, hits, id);
    }
}

/// Queries find an updated entity by the fields that it has now, and no longer by those
/// that it had, whatever way they take.
pub proof fn law_updated_is_found(
    db: DbView,
    entity: Seq<char>,
    id: Seq<u8>,
    data: Seq<FieldView>,
    clock: WriteClock,
    now: u64,
    fresh: Seq<u8>,
    log: bool,
    plan: PlanView,
    f: FilterView,
    hits: Option<HitsView>,
)
    requires
        faithful(db.store, entity),
        is_there(db.store, entity, id),
        fields_holdable(merged(fields_now(db.store, id)->0, data)),
        replaced_plainly(
            fields_now(db.store, id)->0,
            merged(fields_now(db.store, id)->0, data),
        ),
        plan.root_entity == entity,
        plan.filter == Some(f),
        plan.pagination is None,
        plainly_asked(f),
    ensures
        found_by_its_fields(
            execute_done(
                db,
                MutationView::Update(entity, id, data),
                clock,
                now,
                fresh,
                log,
            ).db.store,
            plan,
            f,
            hits,
            id,
            merged(fields_now(db.store, id)->0, data),
        ),
{
    let m = MutationView::Update(entity, id, data);
    let after = execute_done(db, m, clock, now, fresh, log).db.store;
    law_update_keeps_truth(db, entity, id, data, clock, now, fresh, log);
    if fetch_outcome(after, plan, None, hits) is Ok {
        law_found_is_what_passes(after, plan, f, hits, id);
    }
}

/// To write an entity that is there is to update it; to write one that is not is to
/// insert it under the identifier; and to write one without an identifier is to insert it.
pub proof fn law_upsert_updates_or_inserts(
    db: DbView,
    entity: Seq<char>,
    id: Seq<u8>,
    data: Seq<FieldView>,
    clock: WriteClock,
    now: u64,
    fresh: Seq<u8>,
    log: bool,
)
    ensures
        ({
            let upsert = execute_done(
                db,
                MutationView::Upsert(entity, Some(id), data),
                clock,
                now,
                fresh,
                log,
            );
            let update = MutationView::Update(entity, id, data);
            let insert = MutationView::Insert(entity, data);
            &&& latest_outcome(db.store, id) matches Ok(Some(_)) ==> upsert == execute_done(
                db,
                update,
                clock,
                now,
                fresh,
                log,
            )
            &&& (latest_outcome(db.store, id) matches Ok(None) && (clock is Wall || given_id(
                data,
            ) is None)) ==> upsert == execute_done(db, insert, clock, now, id, log)
            &&& latest_outcome(db.store, id) is Err ==> upsert.answer is Err && upsert.db == db
        }),
        execute_done(db, MutationView::Upsert(entity, None, data), clock, now, fresh, log)
            == execute_done(db, MutationView::Insert(entity, data), clock, now, fresh, log),
{
    reveal(mutation_done);
}

/// Whoever updates an entity that is not there is refused, and nothing changes; whoever
/// deletes one is told that nothing was deleted.
pub proof fn law_nothing_there_nothing_done(
    db: DbView,
    entity: Seq<char>,
    id: Seq<u8>,
    data: Seq<FieldView>,
    clock: WriteClock,
    now: u64,
    fresh: Seq<u8>,
    log: bool,
)
    requires
        latest_outcome(db.store, id) == Ok::<Option<(u64, RecordView)>, ErrorView>(None),
    ensures
        ({
            let update = MutationView::Update(entity, id, data);
            let delete = MutationView::Delete(entity, id);
            let updated = execute_done(db, update, clock, now, fresh, log);
            let deleted = execute_done(db, delete, clock, now, fresh, log);
            &&& updated.answer is Err
            &&& updated.db == db
            &&& deleted.answer == Ok::<MutationResultView, ServerErrorView>(affected_view(0))
            &&& deleted.db.store.data == db.store.data
            &&& deleted.db.store.columnar == db.store.columnar
            &&& deleted.db.changelog == db.changelog
            &&& deleted.db.statistics == db.statistics
        }),
{
    reveal(mutation_done);
}

proof fn lemma_counted(s: Seq<(Seq<char>, u64)>, entity: Seq<char>, n: u64, other: Seq<char>)
    ensures
        count_of(with_count(s, entity, n), entity) == Some(n),
        other != entity ==> count_of(with_count(s, entity, n), other) == count_of(s, other),
    decreases s.len(),
{
    let after = with_count(s, entity, n);
    if s.len() == 0 {
        reveal_with_fuel(type_pos, 3);
        assert(after =~= seq![(entity, n)]);
        assert(after.drop_first() =~= Seq::<(Seq<char>, u64)>::empty());
    } else {
        let rest = s.drop_first();
        lemma_counted(rest, entity, n, other);
        lemma_type_pos_within(rest, entity);
        lemma_type_pos_within(rest, other);
        if s[0].0 == entity {
            assert(after.drop_first() =~= rest);
        } else {
            assert(after.drop_first() =~= with_count(rest, entity, n));
            assert(after[0] == s[0]);
            lemma_type_pos_within(with_count(rest, entity, n), entity);
            lemma_type_pos_within(with_count(rest, entity, n), other);
        }
    }
}

proof fn lemma_type_pos_within(s: Seq<(Seq<char>, u64)>, entity: Seq<char>)
    ensures
        0 <= type_pos(s, entity) <= s.len(),
    decreases s.len(),
{
    if s.len() > 0 && s[0].0 != entity {
        lemma_type_pos_within(s.drop_first(), entity);
    }
}

/// How many entities of a type are known to be there.
pub open spec fn known_count(db: DbView, entity: Seq<char>) -> int {
    match count_of(db.statistics, entity) {
        Some(n) => n as int,
        None => 0,
    }
}

/// An insertion counts one entity of the type more, a deletion one less, an update none,
/// and none of them changes the count of another type.
pub proof fn law_mutations_are_counted(
    db: DbView,
    m: MutationView,
    clock: WriteClock,
    now: u64,
    fresh: Seq<u8>,
    log: bool,
    entity: Seq<char>,
)
    requires
        0 < known_count(db, entity) < u64::MAX,
        execute_done(db, m, clock, now, fresh, log).answer is Ok,
    ensures
        ({
            let done = execute_done(db, m, clock, now, fresh, log);
            let gained = known_count(done.db, entity) - known_count(db, entity);
            &&& m matches MutationView::Insert(e, _) ==> gained == if e == entity {
                1int
            } else {
                0
            }
            &&& m matches MutationView::Delete(e, id) ==> gained == if e == entity
                && done.answer->Ok_0.affected == 1 {
                -1int
            } else {
                0
            }
            &&& m is Update ==> gained == 0
        }),
{
    reveal(mutation_done);
    let (e, n) = match m {
        MutationView::Insert(e, _) => (e, one_more(count_of(db.statistics, e))),
        MutationView::Update(e, _, _) => (e, 0),
        MutationView::Delete(e, _) => (e, one_less(count_of(db.statistics, e))),
        MutationView::Upsert(e, _, _) => (e, 0),
    };
    lemma_counted(db.statistics, e, n, entity);
}

/// The last change that is logged.
pub open spec fn last_change(db: DbView) -> ChangeView {
    db.changelog.last()
}

/// A mutation that changes an entity is logged as one change at the end of the log, with
/// the entity, its type, the time of the version that was written, and the entity's data
/// as it was before and as it is afterwards.
pub proof fn law_changes_tell_what_happened(
    db: DbView,
    m: MutationView,
    clock: WriteClock,
    now: u64,
    fresh: Seq<u8>,
)
    requires
        target_of(m, clock, fresh).len() == 16,
        execute_done(db, m, clock, now, fresh, true).answer is Ok,
    ensures
        ({
            let id = target_of(m, clock, fresh);
            let done = execute_done(db, m, clock, now, fresh, true);
            let c = last_change(done.db);
            let was = latest_outcome(db.store, id);
            let is_now = latest_outcome(done.db.store, id);
            let grew = done.db.changelog.len() == db.changelog.len() + 1
                && done.db.changelog.drop_last() == db.changelog && c.entity_id == id
                && c.schema_version == db.schema.version;
            &&& m matches MutationView::Insert(entity, data) ==> {
                &&& grew && c.entity_type == entity && c.change_type == ChangeType::Insert
                &&& c.before_data is None
                &&& (is_now matches Ok(Some(v)) && c.after_data == Some(v.1.data) && c.timestamp
                    == v.0)
                &&& c.changed_fields == field_names(data)
            }
            &&& m matches MutationView::Update(entity, _, data) ==> {
                &&& grew && c.entity_type == entity && c.change_type == ChangeType::Update
                &&& (was matches Ok(Some(v)) && c.before_data == Some(v.1.data))
                &&& (is_now matches Ok(Some(v)) && c.after_data == Some(v.1.data) && c.timestamp
                    == v.0)
            }
            &&& m matches MutationView::Delete(entity, _) ==> if done.answer->Ok_0.affected == 0 {
                done.db.changelog == db.changelog
            } else {
                &&& grew && c.entity_type == entity && c.change_type == ChangeType::Delete
                &&& (was matches Ok(Some(v)) && c.before_data == Some(v.1.data))
                &&& c.after_data is None
                &&& is_now matches Ok(None)
            }
        }),
{
    let id = target_of(m, clock, fresh);
    let ts = write_ts(clock, db.store.watermark, now);
    let done = execute_done(db, m, clock, now, fresh, true);
    reveal(mutation_done);
    let was = latest_outcome(db.store, id);
    let r = match m {
        MutationView::Insert(_, data) => live_data(entity_bytes(inserted_fields(id, data))),
        MutationView::Update(_, _, data) => live_data(
            entity_bytes(merged(entity_outcome(was->Ok_0->Some_0.1.data)->Ok_0, data)),
        ),
        MutationView::Delete(_, _) => tombstone(),
        MutationView::Upsert(_, _, _) => tombstone(),
    };
    let put = put_view(db.store, id, ts, r);
    law_put_then_latest(db.store, id, ts, r, id);
    if !(m is Upsert) && !(m is Delete && was matches Ok(None)) {
        assert(done.db.store.data == put.data && done.db.store.meta == put.meta);
        assert(latest_outcome(done.db.store, id) == latest_outcome(put, id));
        assert(done.db.changelog.drop_last() =~= db.changelog);
    }
}

} // verus!
