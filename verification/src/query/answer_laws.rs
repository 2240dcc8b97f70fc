//! What the answer to a query holds: which entities, and which values of them.

use vstd::prelude::*;

use crate::codec::{entity_outcome, project, FieldView};
use crate::error::{lemma_collect_ok, ErrorView};
use crate::query::ast::{FilterView, OrderDirection, OrderView, Pagination, PlanView, RowView};
use crate::query::executor::{run_outcome, secured, RunRules};
use crate::query::fetch::{
    bound_of, columnar_row, columnar_rows, cut, decoded, enough, fetch_outcome, found_row,
    needed_names, rows_for_ids, scan_row, scanned_rows, selected, HitsView,
};
use crate::query::fetch_laws::{
    finds, law_found_is_what_passes, law_found_without_condition, lemma_gathered_were_there,
    plainly_asked,
};
use crate::query::filter::{combined, filter_names, holds, passes};
use crate::query::meaning::law_equal_is_the_same;
use crate::query::rows::{
    block_column, block_names, block_of, last_of_name, law_sorting_keeps_rows, lemma_same_members,
    paged, row_ids, rule_for, sorted, MaskView,
};
use crate::security::{policy_for, PolicyView};
use crate::storage::btree_index::{scan_ids, BoundView};
use crate::storage::columnar::{last_value, row_items, RowItemView};
use crate::storage::engine::ensured;
use crate::storage::hash_index::{column_indexed, lookup_outcome};
use crate::storage::laws::law_batch_is_each;
use crate::storage::layout::type_key;
use crate::storage::model::{
    latest_batch_outcome, latest_outcome, scan_outcome, ScanItemView, StoreView, When,
};
use crate::storage::record::RecordView;
use crate::storage::truth::{
    faithful, fields_now, is_there, law_rows_are_those_held, law_scan_shows_members,
};
use crate::value::ValueView;

verus! {

proof fn lemma_last_of_filtered(
    fs: Seq<FieldView>,
    keep: spec_fn(FieldView) -> bool,
    name: Seq<char>,
    kept: bool,
)
    requires
        forall|v: ValueView| #[trigger] keep((name, v)) == kept,
    ensures
        last_value(fs.filter(keep), name) == if kept {
            last_value(fs, name)
        } else {
            None
        },
    decreases fs.len(),
{
    reveal(Seq::filter);
    if fs.len() > 0 {
        let init = fs.drop_last();
        let f = fs.last();
        lemma_last_of_filtered(init, keep, name, kept);
        if f.0 == name {
            assert(keep((name, f.1)) == kept);
            assert(f == (name, f.1));
        }
        if keep(f) {
            let all = fs.filter(keep);
            assert(all == init.filter(keep).push(f));
            assert(all.drop_last() =~= init.filter(keep));
            assert(all.last() == f);
        }
    }
}

proof fn lemma_last_of_both(a: Seq<FieldView>, b: Seq<FieldView>, name: Seq<char>)
    ensures
        last_value(a + b, name) == match last_value(b, name) {
            Some(v) => Some(v),
            None => last_value(a, name),
        },
    decreases b.len(),
{
    if b.len() == 0 {
        assert(a + b =~= a);
    } else {
        lemma_last_of_both(a, b.drop_last(), name);
        assert((a + b).drop_last() =~= a + b.drop_last());
        assert((a + b).last() == b.last());
    }
}

/// Whether a query asks for a field of the root entities.
pub open spec fn asks_for(plan: PlanView, name: Seq<char>) -> bool {
    if plan.fields.len() == 0 {
        plan.root_fields.contains(name)
    } else {
        plan.fields.contains(name)
    }
}

proof fn lemma_read_fields(plan: PlanView, data: Seq<u8>, name: Seq<char>)
    requires
        asks_for(plan, name),
        entity_outcome(data) is Ok,
    ensures
        ({
            let needed = needed_names(plan.fields, plan.filter, plan.order_by);
            decoded(data, needed) is Ok && last_value(decoded(data, needed)->Ok_0, name)
                == last_value(entity_outcome(data)->Ok_0, name)
        }),
{
    if let Some(names) = needed_names(plan.fields, plan.filter, plan.order_by) {
        let i = choose|i: int| 0 <= i < plan.fields.len() && plan.fields[i] == name;
        assert(names[i] == name);
        assert(names.contains(name));
        lemma_last_of_filtered(
            entity_outcome(data)->Ok_0,
            |f: FieldView| names.contains(f.0),
            name,
            true,
        );
    }
}

proof fn lemma_ids_show(
    store: StoreView,
    ids: Seq<Seq<u8>>,
    plan: PlanView,
    row: RowView,
    name: Seq<char>,
)
    requires
        asks_for(plan, name),
        rows_for_ids(store, ids, plan) matches Ok(rows) && rows.contains(row),
    ensures
        fields_now(store, row.id) is Some,
        last_value(row.fields, name) == last_value(fields_now(store, row.id)->0, name),
{
    let kept = cut(ids, enough(plan));
    let needed = needed_names(plan.fields, plan.filter, plan.order_by);
    let found = latest_batch_outcome(store, kept)->Ok_0;
    let items = Seq::new(kept.len(), |i: int| found_row(kept[i], found[i], None, needed));
    lemma_gathered_were_there(items, Seq::empty(), None, row);
    let i = choose|i: int|
        0 <= i < items.len() && #[trigger] items[i] == Ok::<Option<RowView>, ErrorView>(Some(row));
    law_batch_is_each(store, kept);
    let each = kept.map_values(|id: Seq<u8>| latest_outcome(store, id));
    lemma_collect_ok(each);
    assert(each[i] == Ok::<Option<(u64, RecordView)>, ErrorView>(found[i]));
    lemma_read_fields(plan, found[i]->Some_0.1.data, name);
}

proof fn lemma_scan_shows(store: StoreView, plan: PlanView, row: RowView, name: Seq<char>)
    requires
        faithful(store, plan.root_entity),
        asks_for(plan, name),
        row.id.len() == 16,
        scanned_rows(
            store,
            plan,
            When::Latest,
            needed_names(plan.fields, plan.filter, plan.order_by),
            enough(plan),
        ) matches Ok(rows) && rows.contains(row),
    ensures
        fields_now(store, row.id) is Some,
        last_value(row.fields, name) == last_value(fields_now(store, row.id)->0, name),
{
    let entity = plan.root_entity;
    let needed = needed_names(plan.fields, plan.filter, plan.order_by);
    let scanned = scan_outcome(store, entity, When::Latest);
    let items = scanned.map_values(|i: ScanItemView| scan_row(i, plan.filter, needed));
    lemma_gathered_were_there(items, Seq::empty(), enough(plan), row);
    let i = choose|i: int|
        0 <= i < items.len() && #[trigger] items[i] == Ok::<Option<RowView>, ErrorView>(Some(row));
    let item = scanned[i]->Ok_0;
    assert(scanned.contains(scanned[i]));
    law_scan_shows_members(store, entity, When::Latest, item.0, (item.1, item.2));
    lemma_read_fields(plan, item.2.data, name);
}

proof fn lemma_projected_row(
    id: Seq<u8>,
    fs: Seq<FieldView>,
    f: FilterView,
    select: Seq<Seq<char>>,
    row: RowView,
    name: Seq<char>,
)
    requires
        columnar_row(Ok((id, fs)), f, select) == Ok::<Option<RowView>, ErrorView>(Some(row)),
        plainly_asked(f),
        select.contains(name),
    ensures
        last_value(row.fields, name) == last_value(fs, name),
{
    let names = filter_names(f);
    let other = |f: FieldView| select.contains(f.0) && !names.contains(f.0);
    let others = fs.filter(other);
    lemma_last_of_filtered(fs, other, name, !names.contains(name));
    match f {
        FilterView::Eq(field, v) => {
            let x = last_value(fs, field)->0;
            law_equal_is_the_same(v, x);
            assert(names[0] == field);
            let own = if select.contains(field) {
                seq![(field, v)]
            } else {
                Seq::empty()
            };
            lemma_last_of_both(own, others, name);
            if field == name {
                assert(names.contains(name));
                assert(own.last() == (field, v));
                assert(last_value(own, name) == Some(v));
                assert(v == x);
            } else {
                assert(names =~= seq![field]);
                assert(!names.contains(name));
                reveal_with_fuel(last_value, 2);
                if select.contains(field) {
                    assert(own.drop_last() =~= Seq::<FieldView>::empty());
                }
            }
        },
        _ => {
            let known = project(fs, names);
            let keep = |f: FieldView| select.contains(f.0);
            lemma_last_of_filtered(fs, |f: FieldView| names.contains(f.0), name, names.contains(name));
            lemma_last_of_filtered(known, keep, name, true);
            lemma_last_of_both(known.filter(keep), others, name);
        },
    }
}

proof fn lemma_projection_shows(
    store: StoreView,
    plan: PlanView,
    f: FilterView,
    row: RowView,
    name: Seq<char>,
)
    requires
        faithful(store, plan.root_entity),
        plainly_asked(f),
        asks_for(plan, name),
        row.id.len() == 16,
        columnar_rows(store, plan, f) matches Ok(rows) && rows.contains(row),
    ensures
        fields_now(store, row.id) is Some,
        last_value(row.fields, name) == last_value(fields_now(store, row.id)->0, name),
{
    let entity = plan.root_entity;
    let select = selected(plan);
    let held = row_items(store.columnar, entity);
    let items = held.map_values(|i: RowItemView| columnar_row(i, f, select));
    lemma_gathered_were_there(items, Seq::empty(), enough(plan), row);
    let i = choose|i: int|
        0 <= i < items.len() && #[trigger] items[i] == Ok::<Option<RowView>, ErrorView>(Some(row));
    let item = held[i]->Ok_0;
    assert(held.contains(held[i]));
    law_rows_are_those_held(store.columnar, entity, item.0, item.1);
    assert(store.columnar.contains_key(type_key(entity, row.id)));
    assert(is_there(store, entity, row.id));
    let fs = fields_now(store, row.id)->0;
    let asked = if plan.fields.len() == 0 {
        plan.root_fields
    } else {
        plan.fields
    };
    let k = choose|k: int| 0 <= k < asked.len() && asked[k] == name;
    assert(select[k] == name);
    assert(select.contains(name));
    lemma_projected_row(row.id, fs, f, select, row, name);
}

/// The rows that a query of the present finds show of each field that it asks for the
/// value that the entity has now, whatever way the query takes.
pub proof fn law_rows_show_what_is_there(
    store: StoreView,
    plan: PlanView,
    hits: Option<HitsView>,
    row: RowView,
    name: Seq<char>,
)
    requires
        faithful(store, plan.root_entity),
        plan.filter matches Some(f) ==> plainly_asked(f),
        asks_for(plan, name),
        row.id.len() == 16,
        fetch_outcome(store, plan, None, hits) matches Ok(f) && f.rows.contains(row),
    ensures
        fields_now(store, row.id) is Some,
        last_value(row.fields, name) == last_value(fields_now(store, row.id)->0, name),
{
    let entity = plan.root_entity;
    let found = fetch_outcome(store, plan, None, hits)->Ok_0;
    match plan.filter {
        None => if plan.order_by.len() == 1 && store.btree is Some {
            let column = plan.order_by[0].0;
            let after = ensured(store, entity, column)->Ok_0;
            let ids = scan_ids(after.btree->0, entity, column, BoundView::All);
            let turned = if plan.order_by[0].1 == OrderDirection::Desc {
                ids.reverse()
            } else {
                ids
            };
            lemma_ids_show(after, turned, plan, row, name);
            assert(latest_outcome(after, row.id) == latest_outcome(store, row.id));
        } else {
            lemma_scan_shows(store, plan, row, name);
        },
        Some(f) => if f is Eq && column_indexed(store.hash, entity, f->Eq_0) {
            let ids = lookup_outcome(store.hash, entity, f->Eq_0, f->Eq_1)->Ok_0;
            lemma_ids_show(store, ids, plan, row, name);
        } else if store.btree is Some && bound_of(f) is Some {
            let (column, bound) = bound_of(f)->0;
            let after = ensured(store, entity, column)->Ok_0;
            let ids = scan_ids(after.btree->0, entity, column, bound);
            lemma_ids_show(after, ids, plan, row, name);
            assert(latest_outcome(after, row.id) == latest_outcome(store, row.id));
        } else {
            lemma_projection_shows(store, plan, f, row, name);
        },
    }
}

/// Whether an entity of a type meets all policies for the type.
pub open spec fn is_allowed(
    policies: Seq<PolicyView>,
    entity: Seq<char>,
    fs: Seq<FieldView>,
) -> bool {
    forall|i: int|
        0 <= i < policies.len() && (#[trigger] policies[i]).0 == entity ==> holds(
            policies[i].1,
            fs,
        ) == Ok::<bool, ErrorView>(true)
}

/// The policy for a type is met where each of the policies for the type is.
pub proof fn law_policy_is_all_of_them(
    policies: Seq<PolicyView>,
    entity: Seq<char>,
    fs: Seq<FieldView>,
)
    ensures
        passes(policy_for(policies, entity), fs) == Ok::<bool, ErrorView>(true) <==> is_allowed(
            policies,
            entity,
            fs,
        ),
    decreases policies.len(),
{
    if policies.len() > 0 {
        let init = policies.drop_last();
        law_policy_is_all_of_them(init, entity, fs);
        let last = policies[policies.len() - 1];
        assert(last == policies.last());
        lemma_both_pass(policy_for(init, entity), Some(last.1), fs);
        if is_allowed(policies, entity, fs) {
            assert forall|i: int| 0 <= i < init.len() && (#[trigger] init[i]).0 == entity implies holds(
                init[i].1,
                fs,
            ) == Ok::<bool, ErrorView>(true) by {
                assert(policies[i] == init[i]);
            }
        }
        if is_allowed(init, entity, fs) && (last.0 == entity ==> holds(last.1, fs) == Ok::<
            bool,
            ErrorView,
        >(true)) {
            assert forall|i: int|
                0 <= i < policies.len() && (#[trigger] policies[i]).0 == entity implies holds(
                policies[i].1,
                fs,
            ) == Ok::<bool, ErrorView>(true) by {
                if i < init.len() {
                    assert(init[i] == policies[i]);
                }
            }
        }
    }
}

proof fn lemma_both_pass(a: Option<FilterView>, b: Option<FilterView>, fs: Seq<FieldView>)
    ensures
        passes(combined(a, b), fs) == Ok::<bool, ErrorView>(true) <==> passes(a, fs) == Ok::<
            bool,
            ErrorView,
        >(true) && passes(b, fs) == Ok::<bool, ErrorView>(true),
{
}

/// Whether a query can be answered from an index as well as from the entities: its
/// condition, with the policies, is one, and where there is none, the ordered index is
/// not used for sorting.
pub open spec fn plainly_run(store: StoreView, plan: PlanView, policies: Seq<PolicyView>) -> bool {
    match secured(plan, policies).filter {
        Some(f) => plainly_asked(f),
        None => store.btree is None || plan.order_by.len() != 1,
    }
}

/// The answer to a query of the present without a page holds in its first block exactly
/// the entities of the type that meet its condition and all policies for the type.
pub proof fn law_answer_holds_what_passes(
    store: StoreView,
    plan: PlanView,
    rules: RunRules,
    statistics: Option<Seq<(Seq<char>, u64)>>,
    id: Seq<u8>,
)
    requires
        faithful(store, plan.root_entity),
        rules.read_ts is None,
        plan.pagination is None,
        plainly_run(store, plan, rules.policies),
        id.len() == 16,
        run_outcome(store, plan, rules, statistics) is Ok,
    ensures
        ({
            let blocks = run_outcome(store, plan, rules, statistics)->Ok_0.result.entities;
            &&& blocks.len() > 0
            &&& blocks[0].entity == plan.root_entity
            &&& blocks[0].ids.contains(id) <==> is_there(store, plan.root_entity, id) && passes(
                plan.filter,
                fields_now(store, id)->0,
            ) == Ok::<bool, ErrorView>(true) && is_allowed(
                rules.policies,
                plan.root_entity,
                fields_now(store, id)->0,
            )
        }),
{
    let p = secured(plan, rules.policies);
    let found = fetch_outcome(store, p, None, rules.hits)->Ok_0;
    let rows = paged(sorted(found.rows, p.order_by), p.pagination);
    let blocks = run_outcome(store, plan, rules, statistics)->Ok_0.result.entities;
    let block = block_of(p.root_entity, rows, p.fields, rules.masks);
    assert(blocks[0] == block);
    assert(block.ids =~= row_ids(rows));
    law_sorting_keeps_rows(found.rows, p.order_by);
    lemma_same_members(rows, found.rows);
    assert(block.ids.contains(id) <==> finds(found.rows, id)) by {
        if block.ids.contains(id) {
            let k = choose|k: int| 0 <= k < block.ids.len() && block.ids[k] == id;
            assert(rows.contains(rows[k]));
            assert(found.rows.contains(rows[k]));
        }
        if finds(found.rows, id) {
            let row = choose|row: RowView| #[trigger] found.rows.contains(row) && row.id == id;
            assert(rows.contains(row));
            let k = choose|k: int| 0 <= k < rows.len() && rows[k] == row;
            assert(row_ids(rows)[k] == id);
        }
    }
    match p.filter {
        Some(f) => {
            law_found_is_what_passes(store, p, f, rules.hits, id);
        },
        None => {
            law_found_without_condition(store, p, rules.hits, id);
        },
    }
    if is_there(store, plan.root_entity, id) {
        let fs = fields_now(store, id)->0;
        law_policy_is_all_of_them(rules.policies, plan.root_entity, fs);
        lemma_both_pass(plan.filter, policy_for(rules.policies, plan.root_entity), fs);
    }
}

/// The first block of an answer shows of each field that is asked for and not masked the
/// value that the entity has now, and null where it has none.
pub proof fn law_answer_shows_what_is_there(
    store: StoreView,
    plan: PlanView,
    rules: RunRules,
    statistics: Option<Seq<(Seq<char>, u64)>>,
    i: int,
    c: int,
)
    requires
        faithful(store, plan.root_entity),
        rules.read_ts is None,
        secured(plan, rules.policies).filter matches Some(f) ==> plainly_asked(f),
        run_outcome(store, plan, rules, statistics) is Ok,
        ({
            let block = run_outcome(store, plan, rules, statistics)->Ok_0.result.entities[0];
            &&& 0 <= i < block.ids.len()
            &&& block.ids[i].len() == 16
            &&& 0 <= c < block.columns.len()
            &&& asks_for(plan, block.columns[c].name)
            &&& rule_for(rules.masks, plan.root_entity, block.columns[c].name) is Open
            &&& forall|d: int|
                c < d < block.columns.len() ==> (#[trigger] block.columns[d]).name
                    != block.columns[c].name
        }),
    ensures
        ({
            let block = run_outcome(store, plan, rules, statistics)->Ok_0.result.entities[0];
            &&& block.columns[c].values.len() == block.ids.len()
            &&& fields_now(store, block.ids[i]) is Some
            &&& block.columns[c].values[i] == match last_value(
                fields_now(store, block.ids[i])->0,
                block.columns[c].name,
            ) {
                Some(v) => v,
                None => ValueView::Null,
            }
        }),
{
    let p = secured(plan, rules.policies);
    let found = fetch_outcome(store, p, None, rules.hits)->Ok_0;
    let rows = paged(sorted(found.rows, p.order_by), p.pagination);
    let block = block_of(p.root_entity, rows, p.fields, rules.masks);
    lemma_first_block(store, plan, rules, statistics);
    lemma_shown(p.root_entity, rows, p.fields, rules.masks, i, c);
    lemma_paged_are_found(found.rows, p.order_by, p.pagination, i);
    law_rows_show_what_is_there(store, p, rules.hits, rows[i], block.columns[c].name);
}

proof fn lemma_first_block(
    store: StoreView,
    plan: PlanView,
    rules: RunRules,
    statistics: Option<Seq<(Seq<char>, u64)>>,
)
    requires
        run_outcome(store, plan, rules, statistics) is Ok,
    ensures
        ({
            let p = secured(plan, rules.policies);
            let found = fetch_outcome(store, p, rules.read_ts, rules.hits)->Ok_0;
            let rows = paged(sorted(found.rows, p.order_by), p.pagination);
            run_outcome(store, plan, rules, statistics)->Ok_0.result.entities[0] == block_of(
                p.root_entity,
                rows,
                p.fields,
                rules.masks,
            )
        }),
{
}

proof fn lemma_paged_are_found(
    found: Seq<RowView>,
    order: Seq<OrderView>,
    p: Option<Pagination>,
    i: int,
)
    requires
        0 <= i < paged(sorted(found, order), p).len(),
    ensures
        found.contains(paged(sorted(found, order), p)[i]),
{
    let all = sorted(found, order);
    let rows = paged(all, p);
    law_sorting_keeps_rows(found, order);
    lemma_same_members(all, found);
    if let Some(page_of) = p {
        let start = if page_of.offset < all.len() {
            page_of.offset as int
        } else {
            all.len() as int
        };
        assert(all[start + i] == rows[i]);
    }
    assert(all.contains(rows[i]));
}

proof fn lemma_shown(
    entity: Seq<char>,
    rows: Seq<RowView>,
    fields: Seq<Seq<char>>,
    masks: Seq<MaskView>,
    i: int,
    c: int,
)
    requires
        ({
            let block = block_of(entity, rows, fields, masks);
            &&& 0 <= i < block.ids.len()
            &&& 0 <= c < block.columns.len()
            &&& rule_for(masks, entity, block.columns[c].name) is Open
            &&& forall|d: int|
                c < d < block.columns.len() ==> (#[trigger] block.columns[d]).name
                    != block.columns[c].name
        }),
    ensures
        ({
            let block = block_of(entity, rows, fields, masks);
            &&& i < rows.len()
            &&& block.ids.len() == rows.len()
            &&& block.ids[i] == rows[i].id
            &&& block.columns[c].values.len() == rows.len()
            &&& block.columns[c].values[i] == match last_value(
                rows[i].fields,
                block.columns[c].name,
            ) {
                Some(v) => v,
                None => ValueView::Null,
            }
        }),
{
    let block = block_of(entity, rows, fields, masks);
    let names = block_names(entity, rows, fields, masks);
    assert(block.columns[c] == block_column(entity, rows, names, c, masks));
    assert(last_of_name(names, c)) by {
        assert forall|d: int| c < d < names.len() implies #[trigger] names[d] != names[c] by {
            assert(block.columns[d].name != block.columns[c].name);
        }
    }
}

} // verus!
