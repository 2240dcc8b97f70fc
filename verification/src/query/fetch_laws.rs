//! Which rows a query finds, by whatever way they are found.

use vstd::prelude::*;

use crate::codec::{entity_outcome, project, value_holdable, FieldView};
use crate::error::{lemma_collect_ok, ErrorView};
use crate::query::ast::{first_value, FilterView, OrderDirection, OrderView, PlanView, RowView};
use crate::query::fetch::{
    bound_of, columnar_row, columnar_rows, cut, decoded, enough, fetch_outcome, found_row, gather,
    needed_names, ordered_rows, rows_for_ids, scan_row, scanned_rows, selected, within_reach,
    AccessPath, HitsView,
};
use crate::query::filter::{filter_names, holds, passes};
use crate::query::meaning::{
    law_bound_is_the_condition, law_equal_is_the_same, law_first_field_counts,
    law_no_field_no_value,
};
use crate::storage::btree_index::{meets, scan_ids, BoundView};
use crate::storage::columnar::{last_value, row_items, RowItemView};
use crate::storage::engine::ensured;
use crate::storage::hash_index::{column_indexed, lookup_outcome};
use crate::storage::index_laws::countable;
use crate::storage::index_ops::indexable;
use crate::storage::laws::law_batch_is_each;
use crate::storage::layout::type_key;
use crate::storage::model::{
    latest_batch_outcome, latest_outcome, read_outcome, scan_outcome, Bytes, ScanItemView,
    StoreView, When,
};
use crate::storage::record::RecordView;
use crate::storage::truth::{
    faithful, fields_now, is_there, law_covering_is_true, law_lookup_is_true,
    law_ordered_scan_is_true, law_rows_are_those_held, law_scan_shows_members, lemma_last_is_there,
    listed, named_once,
};
use crate::value::ValueView;

verus! {

/// What is gathered was among the results.
pub proof fn lemma_gathered_were_there<T>(
    items: Seq<Result<Option<T>, ErrorView>>,
    got: Seq<T>,
    target: Option<nat>,
    t: T,
)
    requires
        gather(items, got, target) matches Ok(all) && all.contains(t),
    ensures
        got.contains(t) || exists|i: int|
            0 <= i < items.len() && #[trigger] items[i] == Ok::<Option<T>, ErrorView>(Some(t)),
    decreases items.len(),
{
    if items.len() > 0 {
        let rest = items.drop_first();
        match items[0] {
            Err(_) => {},
            Ok(None) => {
                lemma_gathered_were_there(rest, got, target, t);
            },
            Ok(Some(x)) => {
                let more = got.push(x);
                if !(target is Some && more.len() >= target->0) {
                    lemma_gathered_were_there(rest, more, target, t);
                }
                if more.contains(t) {
                    let k = choose|k: int| 0 <= k < more.len() && more[k] == t;
                    if k < got.len() {
                        assert(got[k] == t);
                    } else {
                        assert(items[0] == Ok::<Option<T>, ErrorView>(Some(t)));
                    }
                }
            },
        }
        if exists|i: int|
            0 <= i < rest.len() && #[trigger] rest[i] == Ok::<Option<T>, ErrorView>(Some(t)) {
            let i = choose|i: int|
                0 <= i < rest.len() && #[trigger] rest[i] == Ok::<Option<T>, ErrorView>(Some(t));
            assert(items[i + 1] == Ok::<Option<T>, ErrorView>(Some(t)));
        }
    }
}

/// What was among the results is gathered, where no number of them is enough.
pub proof fn lemma_all_are_gathered<T>(
    items: Seq<Result<Option<T>, ErrorView>>,
    got: Seq<T>,
    t: T,
)
    requires
        gather(items, got, None) is Ok,
        got.contains(t) || exists|i: int|
            0 <= i < items.len() && #[trigger] items[i] == Ok::<Option<T>, ErrorView>(Some(t)),
    ensures
        gather(items, got, None)->Ok_0.contains(t),
    decreases items.len(),
{
    if items.len() > 0 {
        let rest = items.drop_first();
        if exists|i: int|
            0 <= i < items.len() && #[trigger] items[i] == Ok::<Option<T>, ErrorView>(Some(t)) {
            let i = choose|i: int|
                0 <= i < items.len() && #[trigger] items[i] == Ok::<Option<T>, ErrorView>(Some(t));
            if i > 0 {
                assert(rest[i - 1] == items[i]);
            }
        }
        match items[0] {
            Err(_) => {},
            Ok(None) => {
                lemma_all_are_gathered(rest, got, t);
            },
            Ok(Some(x)) => {
                let more = got.push(x);
                if got.contains(t) {
                    let k = choose|k: int| 0 <= k < got.len() && got[k] == t;
                    assert(more[k] == t);
                }
                if x == t {
                    assert(more[got.len() as int] == t);
                }
                lemma_all_are_gathered(rest, more, t);
            },
        }
    }
}

/// Rows that are read for identifiers are of entities among them that are there.
pub proof fn lemma_rows_for_ids_are_there(
    store: StoreView,
    ids: Seq<Seq<u8>>,
    plan: PlanView,
    row: RowView,
)
    requires
        rows_for_ids(store, ids, plan) matches Ok(rows) && rows.contains(row),
    ensures
        ids.contains(row.id),
        latest_outcome(store, row.id) matches Ok(Some(v)) && entity_outcome(v.1.data) is Ok,
{
    let kept = cut(ids, enough(plan));
    let needed = needed_names(plan.fields, plan.filter, plan.order_by);
    let found = latest_batch_outcome(store, kept)->Ok_0;
    let items = Seq::new(kept.len(), |i: int| found_row(kept[i], found[i], None, needed));
    lemma_gathered_were_there(items, Seq::empty(), None, row);
    let i = choose|i: int|
        0 <= i < items.len() && #[trigger] items[i] == Ok::<Option<RowView>, ErrorView>(Some(row));
    law_batch_is_each(store, kept);
    let each = kept.map_values(|id: Seq<u8>| latest_outcome(store, id));
    lemma_collect_ok(each);
    assert(each[i] == Ok::<Option<(u64, RecordView)>, ErrorView>(found[i]));
    assert(row.id == kept[i]);
    assert(kept[i] == ids[i]);
}

/// Every entity that is there among the identifiers gets its row, where there is no
/// page.
pub proof fn lemma_all_for_ids_are_read(
    store: StoreView,
    ids: Seq<Seq<u8>>,
    plan: PlanView,
    id: Seq<u8>,
)
    requires
        rows_for_ids(store, ids, plan) is Ok,
        plan.pagination is None,
        ids.contains(id),
        latest_outcome(store, id) matches Ok(Some(_)),
    ensures
        exists|row: RowView| #[trigger]
            rows_for_ids(store, ids, plan)->Ok_0.contains(row) && row.id == id,
{
    let kept = cut(ids, enough(plan));
    let needed = needed_names(plan.fields, plan.filter, plan.order_by);
    let found = latest_batch_outcome(store, kept)->Ok_0;
    let items = Seq::new(kept.len(), |i: int| found_row(kept[i], found[i], None, needed));
    let i = choose|i: int| 0 <= i < ids.len() && ids[i] == id;
    law_batch_is_each(store, kept);
    let each = kept.map_values(|id: Seq<u8>| latest_outcome(store, id));
    lemma_collect_ok(each);
    assert(each[i] == Ok::<Option<(u64, RecordView)>, ErrorView>(found[i]));
    lemma_gathered_are_sound(items, Seq::empty(), None, i);
    let row = items[i]->Ok_0->0;
    assert(items[i] == Ok::<Option<RowView>, ErrorView>(Some(row)));
    lemma_all_are_gathered(items, Seq::empty(), row);
}

/// Where gathering succeeds without a number that is enough, no result failed.
pub proof fn lemma_gathered_are_sound<T>(
    items: Seq<Result<Option<T>, ErrorView>>,
    got: Seq<T>,
    target: Option<nat>,
    i: int,
)
    requires
        target is None,
        gather(items, got, target) is Ok,
        0 <= i < items.len(),
    ensures
        items[i] is Ok,
    decreases items.len(),
{
    if i > 0 {
        let rest = items.drop_first();
        assert(rest[i - 1] == items[i]);
        match items[0] {
            Err(_) => {},
            Ok(None) => {
                lemma_gathered_are_sound(rest, got, target, i - 1);
            },
            Ok(Some(x)) => {
                lemma_gathered_are_sound(rest, got.push(x), target, i - 1);
            },
        }
    }
}

/// Whatever a query of the present finds, by whatever way and for whatever condition,
/// is of an entity that is there now, or has a row in the row projection.
pub proof fn law_found_is_somewhere(
    store: StoreView,
    plan: PlanView,
    hits: Option<HitsView>,
    row: RowView,
)
    requires
        store.types.dom().finite(),
        store.columnar.dom().finite(),
        row.id.len() == 16,
        fetch_outcome(store, plan, None, hits) matches Ok(f) && f.rows.contains(row),
    ensures
        latest_outcome(store, row.id) matches Ok(Some(_)) || store.columnar.contains_key(
            type_key(plan.root_entity, row.id),
        ),
{
    let found = fetch_outcome(store, plan, None, hits)->Ok_0;
    match found.path {
        AccessPath::Row => {
            let needed = needed_names(plan.fields, plan.filter, plan.order_by);
            let scanned = scan_outcome(store, plan.root_entity, When::Latest);
            let items = scanned.map_values(|i: ScanItemView| scan_row(i, plan.filter, needed));
            lemma_gathered_were_there(items, Seq::empty(), enough(plan), row);
            let i = choose|i: int|
                0 <= i < items.len() && #[trigger] items[i] == Ok::<Option<RowView>, ErrorView>(
                    Some(row),
                );
            let item = scanned[i]->Ok_0;
            assert(scanned.contains(scanned[i]));
            law_scan_shows_members(store, plan.root_entity, When::Latest, item.0, (item.1, item.2));
        },
        AccessPath::Columnar => {
            let f = plan.filter->0;
            let rows = row_items(store.columnar, plan.root_entity);
            let items = rows.map_values(|i: RowItemView| columnar_row(i, f, selected(plan)));
            lemma_gathered_were_there(items, Seq::empty(), enough(plan), row);
            let i = choose|i: int|
                0 <= i < items.len() && #[trigger] items[i] == Ok::<Option<RowView>, ErrorView>(
                    Some(row),
                );
            let item = rows[i]->Ok_0;
            assert(rows.contains(rows[i]));
            law_rows_are_those_held(store.columnar, plan.root_entity, item.0, item.1);
        },
        AccessPath::HashIndex => {
            let f = plan.filter->0;
            let ids = lookup_outcome(store.hash, plan.root_entity, f->Eq_0, f->Eq_1)->Ok_0;
            lemma_rows_for_ids_are_there(store, ids, plan, row);
        },
        AccessPath::BfTree => {
            let (column, bound, backwards) = match plan.filter {
                Some(f) => (bound_of(f)->Some_0.0, bound_of(f)->Some_0.1, false),
                None => (
                    plan.order_by[0].0,
                    BoundView::All,
                    plan.order_by[0].1 == OrderDirection::Desc,
                ),
            };
            assert(fetch_outcome(store, plan, None, hits) == ordered_rows(
                store,
                plan,
                column,
                bound,
                backwards,
            ));
            let after = ensured(store, plan.root_entity, column)->Ok_0;
            let ids = scan_ids(after.btree->0, plan.root_entity, column, bound);
            let turned = if backwards {
                ids.reverse()
            } else {
                ids
            };
            lemma_rows_for_ids_are_there(after, turned, plan, row);
            assert(latest_outcome(after, row.id) == latest_outcome(store, row.id));
        },
        _ => {
            let f = plan.filter->0;
            let ids = within_reach(hits->0.hits, f->Search_1.reach());
            lemma_rows_for_ids_are_there(store, ids, plan, row);
        },
    }
}

proof fn lemma_first_kept(fs: Seq<FieldView>, names: Seq<Seq<char>>, name: Seq<char>)
    requires
        names.contains(name),
    ensures
        first_value(project(fs, names), name) == first_value(fs, name),
    decreases fs.len(),
{
    let keep = |f: FieldView| names.contains(f.0);
    reveal_with_fuel(Seq::filter, 2);
    if fs.len() > 0 {
        let rest = fs.drop_first();
        lemma_first_kept(rest, names, name);
        assert(fs =~= seq![fs[0]] + rest);
        Seq::filter_distributes_over_add(seq![fs[0]], rest, keep);
        assert(seq![fs[0]].drop_last() =~= Seq::<FieldView>::empty());
        let head = seq![fs[0]].filter(keep);
        let tail = project(rest, names);
        assert(project(fs, names) == head + tail);
        if keep(fs[0]) {
            assert(head =~= seq![fs[0]]);
            assert((head + tail).drop_first() =~= tail);
            assert((head + tail)[0] == fs[0]);
        } else {
            assert(head =~= Seq::<FieldView>::empty());
            assert(head + tail =~= tail);
        }
    }
}

/// A condition depends on the fields that it speaks of, and on no others.
pub proof fn law_condition_reads_its_fields(
    f: FilterView,
    fs: Seq<FieldView>,
    names: Seq<Seq<char>>,
)
    requires
        forall|n: Seq<char>| #[trigger] filter_names(f).contains(n) ==> names.contains(n),
    ensures
        holds(f, project(fs, names)) == holds(f, fs),
    decreases f,
{
    match f {
        FilterView::And(a, b) => {
            lemma_names_of_both(f, *a, *b, names);
            law_condition_reads_its_fields(*a, fs, names);
            law_condition_reads_its_fields(*b, fs, names);
        },
        FilterView::Or(a, b) => {
            lemma_names_of_both(f, *a, *b, names);
            law_condition_reads_its_fields(*a, fs, names);
            law_condition_reads_its_fields(*b, fs, names);
        },
        FilterView::Not(a) => {
            assert(filter_names(f) == filter_names(*a));
            law_condition_reads_its_fields(*a, fs, names);
        },
        _ => {
            let name = filter_names(f)[0];
            assert(filter_names(f).contains(name));
            lemma_first_kept(fs, names, name);
        },
    }
}

proof fn lemma_names_of_both(
    f: FilterView,
    a: FilterView,
    b: FilterView,
    names: Seq<Seq<char>>,
)
    requires
        filter_names(f) == filter_names(a) + filter_names(b),
        forall|n: Seq<char>| #[trigger] filter_names(f).contains(n) ==> names.contains(n),
    ensures
        forall|n: Seq<char>| #[trigger] filter_names(a).contains(n) ==> names.contains(n),
        forall|n: Seq<char>| #[trigger] filter_names(b).contains(n) ==> names.contains(n),
{
    let both = filter_names(f);
    assert forall|n: Seq<char>| #[trigger] filter_names(a).contains(n) implies names.contains(n) by {
        let i = choose|i: int| 0 <= i < filter_names(a).len() && filter_names(a)[i] == n;
        assert(both[i] == n);
        assert(both.contains(n));
    }
    assert forall|n: Seq<char>| #[trigger] filter_names(b).contains(n) implies names.contains(n) by {
        let i = choose|i: int| 0 <= i < filter_names(b).len() && filter_names(b)[i] == n;
        assert(both[filter_names(a).len() + i] == n);
        assert(both.contains(n));
    }
}

/// The fields that are read are enough to tell whether the condition holds.
pub proof fn lemma_enough_is_read(
    fields: Seq<Seq<char>>,
    filter: Option<FilterView>,
    order: Seq<OrderView>,
    data: Seq<u8>,
)
    ensures
        ({
            let needed = needed_names(fields, filter, order);
            &&& decoded(data, needed) is Ok <==> entity_outcome(data) is Ok
            &&& entity_outcome(data) is Ok ==> passes(filter, decoded(data, needed)->Ok_0)
                == passes(filter, entity_outcome(data)->Ok_0)
        }),
{
    let needed = needed_names(fields, filter, order);
    if let Some(names) = needed {
        if let Some(f) = filter {
            if let Ok(fs) = entity_outcome(data) {
                assert forall|n: Seq<char>| #[trigger] filter_names(f).contains(n) implies names.contains(
                    n,
                ) by {
                    let i = choose|i: int| 0 <= i < filter_names(f).len() && filter_names(f)[i] == n;
                    assert(names[fields.len() + i] == n);
                }
                law_condition_reads_its_fields(f, fs, names);
            }
        }
    }
}

/// Where no two fields have the same name, the first value of a name is the last.
pub proof fn lemma_first_is_last(fs: Seq<FieldView>, name: Seq<char>)
    requires
        named_once(fs),
    ensures
        first_value(fs, name) == last_value(fs, name),
{
    lemma_last_is_there(fs, name);
    match last_value(fs, name) {
        Some(v) => {
            let i = choose|i: int| 0 <= i < fs.len() && #[trigger] fs[i] == (name, v);
            assert forall|j: int| 0 <= j < i implies (#[trigger] fs[j]).0 != name by {
                assert(fs[j].0 != fs[i].0);
            }
            law_first_field_counts(fs, name, i);
        },
        None => {
            law_no_field_no_value(fs, name);
        },
    }
}

/// Whether rows have one of an entity.
pub open spec fn finds(rows: Seq<RowView>, id: Seq<u8>) -> bool {
    exists|row: RowView| #[trigger] rows.contains(row) && row.id == id
}

/// Whether a value is neither null nor made of numbers with a fraction.
pub open spec fn has_no_fraction(v: ValueView) -> bool {
    v is Bool || v is Int32 || v is Int64 || v is String || v is Bytes || v is Timestamp
        || v is Uuid || v is BoolArray || v is Int32Array || v is Int64Array || v is StringArray
        || v is UuidArray
}

/// Whether a condition can be put to an index as well as to an entity: it does not ask
/// for a null or for a number with a fraction.
pub open spec fn plainly_asked(f: FilterView) -> bool {
    match f {
        FilterView::Eq(field, v) => countable(field) && value_holdable(v) && has_no_fraction(v),
        FilterView::Gt(_, v) => !(v is Null),
        FilterView::Ge(_, v) => !(v is Null),
        FilterView::Lt(_, v) => !(v is Null),
        FilterView::Le(_, v) => !(v is Null),
        FilterView::Search(_, _) => false,
        _ => true,
    }
}

/// A query of the present with a condition finds entities of the type that meet it as
/// they are now, and where there is no page, it finds all of them, whatever way it
/// takes.
pub proof fn law_found_is_what_passes(
    store: StoreView,
    plan: PlanView,
    f: FilterView,
    hits: Option<HitsView>,
    id: Seq<u8>,
)
    requires
        faithful(store, plan.root_entity),
        plan.filter == Some(f),
        plainly_asked(f),
        id.len() == 16,
        fetch_outcome(store, plan, None, hits) is Ok,
    ensures
        ({
            let rows = fetch_outcome(store, plan, None, hits)->Ok_0.rows;
            let wanted = is_there(store, plan.root_entity, id) && holds(f, fields_now(store, id)->0)
                == Ok::<bool, ErrorView>(true);
            &&& finds(rows, id) ==> wanted
            &&& plan.pagination is None && wanted ==> finds(rows, id)
        }),
{
    if f is Eq && column_indexed(store.hash, plan.root_entity, f->Eq_0) {
        lemma_lookup_gives(store, plan, f, id);
    } else if store.btree is Some && bound_of(f) is Some {
        lemma_order_gives(store, plan, f, id);
    } else {
        lemma_projection_gives(store, plan, f, id);
    }
}

proof fn lemma_lookup_gives(store: StoreView, plan: PlanView, f: FilterView, id: Seq<u8>)
    requires
        faithful(store, plan.root_entity),
        f is Eq,
        plainly_asked(f),
        id.len() == 16,
        lookup_outcome(store.hash, plan.root_entity, f->Eq_0, f->Eq_1) is Ok,
        rows_for_ids(
            store,
            lookup_outcome(store.hash, plan.root_entity, f->Eq_0, f->Eq_1)->Ok_0,
            plan,
        ) is Ok,
    ensures
        ({
            let ids = lookup_outcome(store.hash, plan.root_entity, f->Eq_0, f->Eq_1)->Ok_0;
            let rows = rows_for_ids(store, ids, plan)->Ok_0;
            let wanted = is_there(store, plan.root_entity, id) && holds(f, fields_now(store, id)->0)
                == Ok::<bool, ErrorView>(true);
            &&& finds(rows, id) ==> wanted
            &&& plan.pagination is None && wanted ==> finds(rows, id)
        }),
{
    let entity = plan.root_entity;
    let fs = fields_now(store, id)->0;
    let (field, v) = (f->Eq_0, f->Eq_1);
    let ids = lookup_outcome(store.hash, entity, field, v)->Ok_0;
    law_lookup_is_true(store, entity, field, v, id);
    lemma_ids_give_rows(store, ids, plan, id);
    if is_there(store, entity, id) {
        lemma_first_is_last(fs, field);
        if let Some(x) = last_value(fs, field) {
            law_equal_is_the_same(v, x);
        }
    }
}

proof fn lemma_order_gives(store: StoreView, plan: PlanView, f: FilterView, id: Seq<u8>)
    requires
        faithful(store, plan.root_entity),
        plainly_asked(f),
        id.len() == 16,
        store.btree is Some,
        bound_of(f) is Some,
        ordered_rows(store, plan, bound_of(f)->Some_0.0, bound_of(f)->Some_0.1, false) is Ok,
    ensures
        ({
            let rows = ordered_rows(
                store,
                plan,
                bound_of(f)->Some_0.0,
                bound_of(f)->Some_0.1,
                false,
            )->Ok_0.rows;
            let wanted = is_there(store, plan.root_entity, id) && holds(f, fields_now(store, id)->0)
                == Ok::<bool, ErrorView>(true);
            &&& finds(rows, id) ==> wanted
            &&& plan.pagination is None && wanted ==> finds(rows, id)
        }),
{
    let entity = plan.root_entity;
    let fs = fields_now(store, id)->0;
    let (field, bound) = bound_of(f)->0;
    lemma_column_gives(store, plan, field, bound, false, id);
    if is_there(store, entity, id) {
        lemma_first_is_last(fs, field);
        if let Some(x) = last_value(fs, field) {
            law_bound_is_the_condition(f, x);
            let alone = seq![(field, x)];
            assert(alone[0].0 == field);
            assert(first_value(alone, field) == Some(x));
        }
    }
}

proof fn lemma_column_gives(
    store: StoreView,
    plan: PlanView,
    column: Seq<char>,
    bound: BoundView,
    backwards: bool,
    id: Seq<u8>,
)
    requires
        faithful(store, plan.root_entity),
        store.btree is Some,
        ordered_rows(store, plan, column, bound, backwards) is Ok,
    ensures
        ({
            let rows = ordered_rows(store, plan, column, bound, backwards)->Ok_0.rows;
            let wanted = is_there(store, plan.root_entity, id) && indexable(
                last_value(fields_now(store, id)->0, column),
            ) && meets(last_value(fields_now(store, id)->0, column)->0, bound);
            &&& finds(rows, id) ==> wanted
            &&& plan.pagination is None && wanted ==> finds(rows, id)
        }),
{
    let entity = plan.root_entity;
    law_covering_is_true(store, entity, column);
    let after = ensured(store, entity, column)->Ok_0;
    let ids = scan_ids(after.btree->0, entity, column, bound);
    let turned = if backwards {
        ids.reverse()
    } else {
        ids
    };
    law_ordered_scan_is_true(after, after.btree->0, entity, column, bound, id);
    assert(is_there(after, entity, id) <==> is_there(store, entity, id));
    assert(fields_now(after, id) == fields_now(store, id));
    lemma_same_turned(ids, id);
    lemma_ids_give_rows(after, turned, plan, id);
}

proof fn lemma_ids_give_rows(store: StoreView, ids: Seq<Seq<u8>>, plan: PlanView, id: Seq<u8>)
    requires
        rows_for_ids(store, ids, plan) is Ok,
    ensures
        ({
            let rows = rows_for_ids(store, ids, plan)->Ok_0;
            &&& finds(rows, id) ==> ids.contains(id)
            &&& plan.pagination is None && ids.contains(id) && fields_now(store, id) is Some
                ==> finds(rows, id)
        }),
{
    let rows = rows_for_ids(store, ids, plan)->Ok_0;
    if finds(rows, id) {
        let row = choose|row: RowView| #[trigger] rows.contains(row) && row.id == id;
        lemma_rows_for_ids_are_there(store, ids, plan, row);
    }
    if plan.pagination is None && ids.contains(id) && fields_now(store, id) is Some {
        lemma_all_for_ids_are_read(store, ids, plan, id);
    }
}

proof fn lemma_projection_gives(store: StoreView, plan: PlanView, f: FilterView, id: Seq<u8>)
    requires
        faithful(store, plan.root_entity),
        plainly_asked(f),
        id.len() == 16,
        columnar_rows(store, plan, f) is Ok,
    ensures
        ({
            let rows = columnar_rows(store, plan, f)->Ok_0;
            let wanted = is_there(store, plan.root_entity, id) && holds(f, fields_now(store, id)->0)
                == Ok::<bool, ErrorView>(true);
            &&& finds(rows, id) ==> wanted
            &&& plan.pagination is None && wanted ==> finds(rows, id)
        }),
{
    let entity = plan.root_entity;
    let rows = columnar_rows(store, plan, f)->Ok_0;
    let held = row_items(store.columnar, entity);
    let items = held.map_values(|i: RowItemView| columnar_row(i, f, selected(plan)));
    let now = fields_now(store, id)->0;
    assert forall|n: Seq<char>| #[trigger] filter_names(f).contains(n) implies filter_names(
        f,
    ).contains(n) by {}
    if finds(rows, id) {
        let row = choose|row: RowView| #[trigger] rows.contains(row) && row.id == id;
        lemma_gathered_were_there(items, Seq::empty(), enough(plan), row);
        let i = choose|i: int|
            0 <= i < items.len() && #[trigger] items[i] == Ok::<Option<RowView>, ErrorView>(
                Some(row),
            );
        let item = held[i]->Ok_0;
        assert(held.contains(held[i]));
        law_rows_are_those_held(store.columnar, entity, item.0, item.1);
        assert(store.columnar.contains_key(type_key(entity, id)));
        assert(is_there(store, entity, id));
        law_condition_reads_its_fields(f, now, filter_names(f));
        if let FilterView::Eq(field, _) = f {
            lemma_first_is_last(now, field);
        }
    }
    if plan.pagination is None && is_there(store, entity, id) && holds(f, now) == Ok::<
        bool,
        ErrorView,
    >(true) {
        assert(store.columnar.contains_key(type_key(entity, id)));
        law_rows_are_those_held(store.columnar, entity, id, now);
        let i = choose|i: int|
            0 <= i < held.len() && held[i] == Ok::<(Seq<u8>, Seq<FieldView>), ErrorView>((id, now));
        law_condition_reads_its_fields(f, now, filter_names(f));
        if let FilterView::Eq(field, _) = f {
            lemma_first_is_last(now, field);
        }
        let row = items[i]->Ok_0->0;
        assert(items[i] == Ok::<Option<RowView>, ErrorView>(Some(row)));
        lemma_all_are_gathered(items, Seq::empty(), row);
    }
}

/// A query of the present without a condition finds entities of the type, and where there
/// is no page, it finds all of them; except that one that is sorted by a single
/// field through the ordered index finds those that have a value there.
pub proof fn law_found_without_condition(
    store: StoreView,
    plan: PlanView,
    hits: Option<HitsView>,
    id: Seq<u8>,
)
    requires
        faithful(store, plan.root_entity),
        plan.filter is None,
        id.len() == 16,
        fetch_outcome(store, plan, None, hits) is Ok,
    ensures
        ({
            let rows = fetch_outcome(store, plan, None, hits)->Ok_0.rows;
            let there = is_there(store, plan.root_entity, id);
            let ordered = store.btree is Some && plan.order_by.len() == 1;
            let wanted = there && (ordered ==> indexable(
                last_value(fields_now(store, id)->0, plan.order_by[0].0),
            ));
            &&& finds(rows, id) ==> wanted
            &&& plan.pagination is None && wanted ==> finds(rows, id)
        }),
{
    if store.btree is Some && plan.order_by.len() == 1 {
        lemma_column_gives(
            store,
            plan,
            plan.order_by[0].0,
            BoundView::All,
            plan.order_by[0].1 == OrderDirection::Desc,
            id,
        );
    } else {
        lemma_scan_gives(
            store,
            plan,
            When::Latest,
            needed_names(plan.fields, plan.filter, plan.order_by),
            enough(plan),
            id,
        );
    }
}

proof fn lemma_same_turned(ids: Seq<Seq<u8>>, id: Seq<u8>)
    ensures
        ids.contains(id) <==> ids.reverse().contains(id),
{
    if ids.contains(id) {
        let i = choose|i: int| 0 <= i < ids.len() && ids[i] == id;
        assert(ids.reverse()[ids.len() - 1 - i] == id);
    }
    if ids.reverse().contains(id) {
        let i = choose|i: int| 0 <= i < ids.len() && ids.reverse()[i] == id;
        assert(ids[ids.len() - 1 - i] == id);
    }
}

/// The fields that an entity of a type has at some time, where it is noted under the
/// type.
pub open spec fn fields_when(store: StoreView, entity: Seq<char>, id: Seq<u8>, when: When) -> Option<
    Seq<FieldView>,
> {
    if !listed(store, entity, id) {
        None
    } else {
        match read_outcome(store, id, when) {
            Ok(Some(v)) => match entity_outcome(v.1.data) {
                Ok(fs) => Some(fs),
                Err(_) => None,
            },
            _ => None,
        }
    }
}

proof fn lemma_scan_gives(
    store: StoreView,
    plan: PlanView,
    when: When,
    needed: Option<Seq<Seq<char>>>,
    target: Option<nat>,
    id: Seq<u8>,
)
    requires
        store.types.dom().finite(),
        id.len() == 16,
        needed is None || needed == needed_names(plan.fields, plan.filter, plan.order_by),
        scanned_rows(store, plan, when, needed, target) is Ok,
    ensures
        ({
            let rows = scanned_rows(store, plan, when, needed, target)->Ok_0;
            let wanted = fields_when(store, plan.root_entity, id, when) matches Some(fs) && passes(
                plan.filter,
                fs,
            ) == Ok::<bool, ErrorView>(true);
            &&& finds(rows, id) ==> wanted
            &&& target is None && wanted ==> finds(rows, id)
        }),
{
    let entity = plan.root_entity;
    let rows = scanned_rows(store, plan, when, needed, target)->Ok_0;
    let scanned = scan_outcome(store, entity, when);
    let items = scanned.map_values(|i: ScanItemView| scan_row(i, plan.filter, needed));
    if finds(rows, id) {
        let row = choose|row: RowView| #[trigger] rows.contains(row) && row.id == id;
        lemma_gathered_were_there(items, Seq::empty(), target, row);
        let i = choose|i: int|
            0 <= i < items.len() && #[trigger] items[i] == Ok::<Option<RowView>, ErrorView>(
                Some(row),
            );
        let item = scanned[i]->Ok_0;
        assert(scanned.contains(scanned[i]));
        law_scan_shows_members(store, entity, when, item.0, (item.1, item.2));
        lemma_enough_is_read(plan.fields, plan.filter, plan.order_by, item.2.data);
    }
    if target is None && (fields_when(store, entity, id, when) matches Some(fs) && passes(
        plan.filter,
        fs,
    ) == Ok::<bool, ErrorView>(true)) {
        let v = read_outcome(store, id, when)->Ok_0->0;
        law_scan_shows_members(store, entity, when, id, v);
        let item = Ok::<(Seq<u8>, u64, RecordView), ErrorView>((id, v.0, v.1));
        let i = choose|i: int| 0 <= i < scanned.len() && scanned[i] == item;
        lemma_enough_is_read(plan.fields, plan.filter, plan.order_by, v.1.data);
        let row = items[i]->Ok_0->0;
        assert(items[i] == Ok::<Option<RowView>, ErrorView>(Some(row)));
        lemma_all_are_gathered(items, Seq::empty(), row);
    }
}

/// A query as of a timestamp finds exactly the entities of the type that were there
/// then and met its condition as they were then.
pub proof fn law_found_as_of(
    store: StoreView,
    plan: PlanView,
    ts: u64,
    hits: Option<HitsView>,
    id: Seq<u8>,
)
    requires
        store.types.dom().finite(),
        id.len() == 16,
        fetch_outcome(store, plan, Some(ts), hits) is Ok,
    ensures
        finds(fetch_outcome(store, plan, Some(ts), hits)->Ok_0.rows, id) <==> (fields_when(
            store,
            plan.root_entity,
            id,
            When::AsOf(ts),
        ) matches Some(fs) && passes(plan.filter, fs) == Ok::<bool, ErrorView>(true)),
{
    lemma_scan_gives(store, plan, When::AsOf(ts), None, None, id);
}

} // verus!
