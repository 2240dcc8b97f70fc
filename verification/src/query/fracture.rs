//! Fractured graphs: a graph whose entities stem from different commits.
//!
//! Where a writer marks all entities with the number of its commit, a graph that
//! holds more than one such mark was torn by a commit while it was read.

use vstd::prelude::*;

use crate::codec::{entity_outcome, FieldView};
use crate::error::ErrorView;
use crate::query::ast::{
    blocks_view, column_named, values_view, BlockView, ColumnView, EdgeView, EntityBlock,
    FilterView, IncludeView, OrderView, Pagination, PlanView, QueryResult, RowView,
};
use crate::query::executor::{run_outcome, secured, RunRules};
use crate::query::fetch::{gather, scan_row, scanned_rows};
use crate::query::filter::{combined, law_combined_is_stricter, passes};
use crate::query::includes::{
    finished, follow, follow_all, ordered_edges, related_row, scanned_related, sources_of,
    FollowRules, Followed,
};
use crate::query::rows::{
    attached, block_column, block_names, block_of, cell, edges_from, firsts, law_sorting_keeps_rows,
    lemma_same_members, page, paged, paged_by_source, row_ids, row_with_id, rule_for, seconds,
    sorted, MaskView,
};
use crate::security::{policy_for, PolicyView};
use crate::storage::columnar::last_value;
use crate::storage::index_ops::{distinct, distinct_texts};
use crate::storage::model::{scan_outcome, ScanItemView, StoreView, When};
use crate::text::{str_eq, texts};
use crate::value::{Value, ValueView};

verus! {

/// A type of entities and the field that holds their mark.
pub type MarkField = (String, String);

/// Fields with marks, in mathematical terms.
pub open spec fn marks_view(fields: Seq<MarkField>) -> Seq<(Seq<char>, Seq<char>)> {
    fields.map_values(|f: MarkField| (f.0@, f.1@))
}

/// The field that holds the mark of entities of a type.
pub open spec fn mark_field(fields: Seq<(Seq<char>, Seq<char>)>, entity: Seq<char>) -> Option<
    Seq<char>,
>
    decreases fields.len(),
{
    if fields.len() == 0 {
        None
    } else if fields[0].0 == entity {
        Some(fields[0].1)
    } else {
        mark_field(fields.drop_first(), entity)
    }
}

/// The texts among values.
pub open spec fn texts_among(values: Seq<ValueView>) -> Seq<Seq<char>>
    decreases values.len(),
{
    if values.len() == 0 {
        Seq::empty()
    } else {
        match values.last() {
            ValueView::String(s) => texts_among(values.drop_last()).push(s),
            _ => texts_among(values.drop_last()),
        }
    }
}

/// The marks of the entities in a block.
pub open spec fn block_marks(b: BlockView, fields: Seq<(Seq<char>, Seq<char>)>) -> Seq<Seq<char>> {
    match mark_field(fields, b.entity) {
        None => Seq::empty(),
        Some(field) => match column_named(b.columns, field) {
            None => Seq::empty(),
            Some(column) => texts_among(column.values),
        },
    }
}

/// The marks of the entities in blocks.
pub open spec fn all_marks(blocks: Seq<BlockView>, fields: Seq<(Seq<char>, Seq<char>)>) -> Seq<
    Seq<char>,
>
    decreases blocks.len(),
{
    if blocks.len() == 0 {
        Seq::empty()
    } else {
        all_marks(blocks.drop_last(), fields) + block_marks(blocks.last(), fields)
    }
}

fn find_mark_field<'a>(fields: &'a Vec<MarkField>, entity: &str) -> (r: Option<&'a String>)
    ensures
        match r {
            Some(f) => mark_field(marks_view(fields@), entity@) == Some(f@),
            None => mark_field(marks_view(fields@), entity@) is None,
        },
{
    let ghost all = marks_view(fields@);
    let mut i: usize = 0;
    assert(all.skip(0) =~= all);
    while i < fields.len()
        invariant
            i <= fields@.len(),
            all == marks_view(fields@),
            mark_field(all, entity@) == mark_field(all.skip(i as int), entity@),
        decreases fields@.len() - i,
    {
        proof {
            assert(all.skip(i as int)[0] == (fields@[i as int].0@, fields@[i as int].1@));
            assert(all.skip(i as int).drop_first() =~= all.skip(i + 1));
        }
        if str_eq(fields[i].0.as_str(), entity) {
            return Some(&fields[i].1);
        }
        i = i + 1;
    }
    None
}

fn push_texts_among(out: &mut Vec<String>, values: &Vec<Value>)
    ensures
        texts(final(out)@) == texts(old(out)@) + texts_among(values_view(values@)),
{
    let ghost start = texts(out@);
    let ghost all = values_view(values@);
    let mut i: usize = 0;
    assert(all.take(0) =~= Seq::<ValueView>::empty());
    assert(texts(out@) =~= start + texts_among(all.take(0)));
    while i < values.len()
        invariant
            i <= values@.len(),
            all == values_view(values@),
            texts(out@) == start + texts_among(all.take(i as int)),
        decreases values@.len() - i,
    {
        let ghost before = texts(out@);
        proof {
            assert(all.take(i + 1).drop_last() =~= all.take(i as int));
            assert(all.take(i + 1).last() == values@[i as int]@);
        }
        if let Value::String(s) = &values[i] {
            out.push(s.clone());
            assert(texts(out@) =~= before.push(s@));
            assert(texts(out@) =~= start + texts_among(all.take(i as int)).push(s@));
        }
        i = i + 1;
    }
    assert(all.take(all.len() as int) =~= all);
}

/// The different marks of the entities in a graph, in the order in which they
/// first come.
pub fn distinct_generations(result: &QueryResult, fields: &Vec<MarkField>) -> (out: Vec<String>)
    ensures
        texts(out@) == distinct(all_marks(result@.entities, marks_view(fields@))),
{
    let ghost blocks = result@.entities;
    let ghost tags = marks_view(fields@);
    let mut all: Vec<String> = Vec::new();
    let mut i: usize = 0;
    assert(blocks.take(0) =~= Seq::<BlockView>::empty());
    assert(texts(all@) =~= all_marks(blocks.take(0), tags));
    while i < result.entities.len()
        invariant
            i <= result.entities@.len(),
            blocks == blocks_view(result.entities@),
            tags == marks_view(fields@),
            texts(all@) == all_marks(blocks.take(i as int), tags),
        decreases result.entities@.len() - i,
    {
        let block: &EntityBlock = &result.entities[i];
        proof {
            assert(blocks.take(i + 1).drop_last() =~= blocks.take(i as int));
            assert(blocks.take(i + 1).last() == block@);
        }
        let ghost before = texts(all@);
        if let Some(field) = find_mark_field(fields, block.entity.as_str()) {
            if let Some(column) = block.column(field.as_str()) {
                push_texts_among(&mut all, &column.values);
            }
        }
        assert(texts(all@) =~= before + block_marks(block@, tags));
        i = i + 1;
    }
    assert(blocks.take(blocks.len() as int) =~= blocks);
    distinct_texts(all.as_slice())
}

/// Whether a graph holds more than one mark.
pub open spec fn fractured(blocks: Seq<BlockView>, fields: Seq<(Seq<char>, Seq<char>)>) -> bool {
    distinct(all_marks(blocks, fields)).len() > 1
}

/// Whether a graph was torn by a commit.
pub fn is_fractured(result: &QueryResult, fields: &Vec<MarkField>) -> (r: bool)
    ensures
        r == fractured(result@.entities, marks_view(fields@)),
{
    let found: Vec<String> = distinct_generations(result, fields);
    assert(texts(found@).len() == found@.len());
    found.len() > 1
}

/// Whether a row is an entity as it was at a time, and passes a condition.
pub open spec fn was_there(
    row: RowView,
    store: StoreView,
    entity: Seq<char>,
    filter: Option<FilterView>,
    ts: u64,
) -> bool {
    &&& passes(filter, row.fields) == Ok::<bool, ErrorView>(true)
    &&& exists|i: int|
        0 <= i < scan_outcome(store, entity, When::AsOf(ts)).len() && #[trigger] shows(
            scan_outcome(store, entity, When::AsOf(ts))[i],
            row,
        )
}

/// Whether an entity that was scanned is a row.
pub open spec fn shows(item: ScanItemView, row: RowView) -> bool {
    item matches Ok(v) && v.0 == row.id && entity_outcome(v.2.data) == Ok::<
        Seq<FieldView>,
        ErrorView,
    >(row.fields)
}

/// Whether all rows are entities as they were at a time, and pass a condition.
pub open spec fn were_there(
    rows: Seq<RowView>,
    store: StoreView,
    entity: Seq<char>,
    filter: Option<FilterView>,
    ts: u64,
) -> bool {
    forall|i: int| 0 <= i < rows.len() ==> was_there(#[trigger] rows[i], store, entity, filter, ts)
}

proof fn lemma_gathered<T>(items: Seq<Result<Option<T>, ErrorView>>, got: Seq<T>, x: T)
    requires
        gather(items, got, None) is Ok,
        gather(items, got, None)->Ok_0.contains(x),
    ensures
        got.contains(x) || exists|i: int|
            0 <= i < items.len() && #[trigger] items[i] == Ok::<Option<T>, ErrorView>(Some(x)),
    decreases items.len(),
{
    if items.len() > 0 {
        let rest = items.drop_first();
        match items[0] {
            Err(_) => {},
            Ok(None) => {
                lemma_gathered(rest, got, x);
                if !got.contains(x) {
                    let i = choose|i: int|
                        0 <= i < rest.len() && #[trigger] rest[i] == Ok::<Option<T>, ErrorView>(
                            Some(x),
                        );
                    assert(items[i + 1] == rest[i]);
                }
            },
            Ok(Some(t)) => {
                lemma_gathered(rest, got.push(t), x);
                if got.push(t).contains(x) {
                    let k = choose|k: int| 0 <= k < got.push(t).len() && got.push(t)[k] == x;
                    if k < got.len() {
                        assert(got[k] == x);
                    } else {
                        assert(items[0] == Ok::<Option<T>, ErrorView>(Some(x)));
                    }
                } else {
                    let i = choose|i: int|
                        0 <= i < rest.len() && #[trigger] rest[i] == Ok::<Option<T>, ErrorView>(
                            Some(x),
                        );
                    assert(items[i + 1] == rest[i]);
                }
            },
        }
    }
}

proof fn lemma_scanned_were_there(store: StoreView, plan: PlanView, ts: u64)
    requires
        scanned_rows(store, plan, When::AsOf(ts), None, None) is Ok,
    ensures
        were_there(
            scanned_rows(store, plan, When::AsOf(ts), None, None)->Ok_0,
            store,
            plan.root_entity,
            plan.filter,
            ts,
        ),
{
    let scan = scan_outcome(store, plan.root_entity, When::AsOf(ts));
    let items = scan.map_values(|i: ScanItemView| scan_row(i, plan.filter, None));
    let rows = gather(items, Seq::<RowView>::empty(), None)->Ok_0;
    assert forall|i: int| 0 <= i < rows.len() implies was_there(
        #[trigger] rows[i],
        store,
        plan.root_entity,
        plan.filter,
        ts,
    ) by {
        assert(rows.contains(rows[i]));
        lemma_gathered(items, Seq::empty(), rows[i]);
        let k = choose|k: int|
            0 <= k < items.len() && #[trigger] items[k] == Ok::<Option<RowView>, ErrorView>(
                Some(rows[i]),
            );
        assert(items[k] == scan_row(scan[k], plan.filter, None));
        assert(shows(scan[k], rows[i]));
    }
}

proof fn lemma_related_were_there(
    store: StoreView,
    from: Seq<Seq<u8>>,
    rel: IncludeView,
    ts: u64,
)
    requires
        scanned_related(store, from, rel, When::AsOf(ts)) is Ok,
    ensures
        were_there(
            firsts(scanned_related(store, from, rel, When::AsOf(ts))->Ok_0),
            store,
            rel.to_entity,
            rel.filter,
            ts,
        ),
{
    let scan = scan_outcome(store, rel.to_entity, When::AsOf(ts));
    let items = scan.map_values(|i: ScanItemView| related_row(i, from, rel));
    let pairs = gather(items, Seq::<(RowView, EdgeView)>::empty(), None)->Ok_0;
    let rows = firsts(pairs);
    assert forall|i: int| 0 <= i < rows.len() implies was_there(
        #[trigger] rows[i],
        store,
        rel.to_entity,
        rel.filter,
        ts,
    ) by {
        assert(pairs.contains(pairs[i]));
        lemma_gathered(items, Seq::empty(), pairs[i]);
        let k = choose|k: int|
            0 <= k < items.len() && #[trigger] items[k] == Ok::<
                Option<(RowView, EdgeView)>,
                ErrorView,
            >(Some(pairs[i]));
        assert(items[k] == related_row(scan[k], from, rel));
        assert(shows(scan[k], rows[i]));
    }
}

proof fn lemma_sorted_were_there(
    rows: Seq<RowView>,
    order: Seq<OrderView>,
    store: StoreView,
    entity: Seq<char>,
    filter: Option<FilterView>,
    ts: u64,
)
    requires
        were_there(rows, store, entity, filter, ts),
    ensures
        were_there(sorted(rows, order), store, entity, filter, ts),
{
    let s = sorted(rows, order);
    law_sorting_keeps_rows(rows, order);
    lemma_same_members(s, rows);
    assert forall|i: int| 0 <= i < s.len() implies was_there(#[trigger] s[i], store, entity, filter, ts) by {
        assert(s.contains(s[i]));
        let k = choose|k: int| 0 <= k < rows.len() && rows[k] == s[i];
        assert(was_there(rows[k], store, entity, filter, ts));
    }
}

proof fn lemma_row_with_id(rows: Seq<RowView>, id: Seq<u8>)
    ensures
        row_with_id(rows, id) matches Some(r) ==> rows.contains(r),
    decreases rows.len(),
{
    if rows.len() > 0 {
        lemma_row_with_id(rows.drop_first(), id);
        if rows[0].id == id {
            assert(rows.contains(rows[0]));
        } else if row_with_id(rows.drop_first(), id) is Some {
            let r = row_with_id(rows.drop_first(), id)->0;
            let k = choose|k: int| 0 <= k < rows.drop_first().len() && rows.drop_first()[k] == r;
            assert(rows[k + 1] == r);
        }
    }
}

proof fn lemma_attached(rows: Seq<RowView>, edges: Seq<EdgeView>)
    ensures
        forall|i: int|
            0 <= i < attached(rows, edges).len() ==> rows.contains(
                (#[trigger] attached(rows, edges)[i]).0,
            ),
    decreases edges.len(),
{
    if edges.len() > 0 {
        let init = attached(rows, edges.drop_last());
        let all = attached(rows, edges);
        lemma_attached(rows, edges.drop_last());
        lemma_row_with_id(rows, edges.last().to_id);
        assert forall|i: int| 0 <= i < all.len() implies rows.contains((#[trigger] all[i]).0) by {
            if i < init.len() {
                assert(all[i] == init[i]);
            }
        }
    }
}

proof fn lemma_paged_by_source(
    rows: Seq<RowView>,
    edges: Seq<EdgeView>,
    from: Seq<Seq<u8>>,
    p: Pagination,
)
    ensures
        forall|i: int|
            0 <= i < paged_by_source(rows, edges, from, p).len() ==> rows.contains(
                (#[trigger] paged_by_source(rows, edges, from, p)[i]).0,
            ),
    decreases from.len(),
{
    if from.len() > 0 {
        let init = paged_by_source(rows, edges, from.drop_last(), p);
        let more = attached(rows, page(edges_from(edges, from.last()), p));
        let all = paged_by_source(rows, edges, from, p);
        lemma_paged_by_source(rows, edges, from.drop_last(), p);
        lemma_attached(rows, page(edges_from(edges, from.last()), p));
        assert forall|i: int| 0 <= i < all.len() implies rows.contains((#[trigger] all[i]).0) by {
            if i < init.len() {
                assert(all[i] == init[i]);
            } else {
                assert(all[i] == more[i - init.len()]);
            }
        }
    }
}

proof fn lemma_finished_were_there(
    pairs: Seq<(RowView, EdgeView)>,
    rel: IncludeView,
    store: StoreView,
    ts: u64,
)
    requires
        were_there(firsts(pairs), store, rel.to_entity, rel.filter, ts),
    ensures
        were_there(finished(pairs, rel).0, store, rel.to_entity, rel.filter, ts),
{
    let rows = sorted(firsts(pairs), rel.order_by);
    lemma_sorted_were_there(firsts(pairs), rel.order_by, store, rel.to_entity, rel.filter, ts);
    if rel.pagination is Some {
        let p = rel.pagination->0;
        let edges = ordered_edges(rows, seconds(pairs), rel.order_by);
        let from = crate::query::rows::sources(edges);
        lemma_paged_by_source(rows, edges, from, p);
        let kept = paged_by_source(rows, edges, from, p);
        assert forall|i: int| 0 <= i < firsts(kept).len() implies was_there(
            #[trigger] firsts(kept)[i],
            store,
            rel.to_entity,
            rel.filter,
            ts,
        ) by {
            assert(firsts(kept)[i] == kept[i].0);
            let k = choose|k: int| 0 <= k < rows.len() && rows[k] == kept[i].0;
            assert(was_there(rows[k], store, rel.to_entity, rel.filter, ts));
        }
    }
}

/// Whether a block shows entities as they were at a time.
#[verifier::opaque]
pub open spec fn shows_cut(
    b: BlockView,
    store: StoreView,
    filter: Option<FilterView>,
    projected: Seq<Seq<char>>,
    masks: Seq<MaskView>,
    ts: u64,
) -> bool {
    exists|rows: Seq<RowView>|
        were_there(rows, store, b.entity, filter, ts) && b == #[trigger] block_of(
            b.entity,
            rows,
            projected,
            masks,
        )
}

/// Whether a block shows what a relation leads to, as it was at a time.
pub open spec fn is_of_include(
    b: BlockView,
    rel: IncludeView,
    store: StoreView,
    masks: Seq<MaskView>,
    ts: u64,
) -> bool {
    b.entity == rel.to_entity && shows_cut(b, store, rel.filter, rel.fields, masks, ts)
}

/// Whether a block shows what one of some relations leads to, as it was at a time.
#[verifier::opaque]
pub open spec fn is_of_includes(
    b: BlockView,
    includes: Seq<IncludeView>,
    store: StoreView,
    masks: Seq<MaskView>,
    ts: u64,
) -> bool {
    exists|j: int|
        0 <= j < includes.len() && is_of_include(b, #[trigger] includes[j], store, masks, ts)
}

/// Whether a block shows what a plan reads, as it was at a time.
pub open spec fn is_of_plan(
    b: BlockView,
    store: StoreView,
    plan: PlanView,
    masks: Seq<MaskView>,
    ts: u64,
) -> bool {
    ||| b.entity == plan.root_entity && shows_cut(b, store, plan.filter, plan.fields, masks, ts)
    ||| is_of_includes(b, plan.includes, store, masks, ts)
}

proof fn lemma_shows_cut(
    entity: Seq<char>,
    rows: Seq<RowView>,
    projected: Seq<Seq<char>>,
    masks: Seq<MaskView>,
    store: StoreView,
    filter: Option<FilterView>,
    ts: u64,
)
    requires
        were_there(rows, store, entity, filter, ts),
    ensures
        block_of(entity, rows, projected, masks).entity == entity,
        shows_cut(block_of(entity, rows, projected, masks), store, filter, projected, masks, ts),
{
    reveal(shows_cut);
    let b = block_of(entity, rows, projected, masks);
    assert(b.entity == entity);
    assert(b == block_of(b.entity, rows, projected, masks));
}

proof fn lemma_more_includes(
    b: BlockView,
    includes: Seq<IncludeView>,
    store: StoreView,
    masks: Seq<MaskView>,
    ts: u64,
)
    requires
        includes.len() > 0,
        is_of_includes(b, includes.drop_last(), store, masks, ts) || is_of_include(
            b,
            includes.last(),
            store,
            masks,
            ts,
        ),
    ensures
        is_of_includes(b, includes, store, masks, ts),
{
    reveal(is_of_includes);
    let init = includes.drop_last();
    if is_of_includes(b, init, store, masks, ts) {
        let j = choose|j: int|
            0 <= j < init.len() && is_of_include(b, #[trigger] init[j], store, masks, ts);
        assert(includes[j] == init[j]);
    } else {
        assert(includes[includes.len() - 1] == includes.last());
    }
}

proof fn lemma_follow_one_shows_cut(
    done: Followed,
    rules: FollowRules,
    rel: IncludeView,
    ts: u64,
)
    requires
        rules.read_ts == Some(ts),
        follow(done, rules, rel) is Ok,
    ensures
        ({
            let next = follow(done, rules, rel)->Ok_0;
            &&& next.store == done.store
            &&& next.blocks == done.blocks || (next.blocks.len() == done.blocks.len() + 1
                && next.blocks.drop_last() == done.blocks && is_of_include(
                next.blocks.last(),
                rel,
                done.store,
                rules.masks,
                ts,
            ))
        }),
{
    let from = sources_of(done, rules, rel)->Ok_0;
    if from.len() > 0 {
        let pairs = scanned_related(done.store, from, rel, When::AsOf(ts))->Ok_0;
        lemma_related_were_there(done.store, from, rel, ts);
        lemma_finished_were_there(pairs, rel, done.store, ts);
        let rows = finished(pairs, rel).0;
        lemma_shows_cut(
            rel.to_entity,
            rows,
            rel.fields,
            rules.masks,
            done.store,
            rel.filter,
            ts,
        );
        let b = block_of(rel.to_entity, rows, rel.fields, rules.masks);
        assert(done.blocks.push(b).drop_last() =~= done.blocks);
    }
}

proof fn lemma_follow_shows_cut(
    store: StoreView,
    rules: FollowRules,
    includes: Seq<IncludeView>,
    ts: u64,
)
    requires
        rules.read_ts == Some(ts),
        follow_all(store, rules, includes) is Ok,
    ensures
        ({
            let done = follow_all(store, rules, includes)->Ok_0;
            &&& done.store == store
            &&& forall|k: int|
                0 <= k < done.blocks.len() ==> is_of_includes(
                    #[trigger] done.blocks[k],
                    includes,
                    store,
                    rules.masks,
                    ts,
                )
        }),
    decreases includes.len(),
{
    if includes.len() > 0 {
        let init = includes.drop_last();
        lemma_follow_shows_cut(store, rules, init, ts);
        let before = follow_all(store, rules, init)->Ok_0;
        let done = follow_all(store, rules, includes)->Ok_0;
        lemma_follow_one_shows_cut(before, rules, includes.last(), ts);
        assert forall|k: int| 0 <= k < done.blocks.len() implies is_of_includes(
            #[trigger] done.blocks[k],
            includes,
            store,
            rules.masks,
            ts,
        ) by {
            if k < before.blocks.len() {
                assert(done.blocks[k] == before.blocks[k]);
            }
            lemma_more_includes(done.blocks[k], includes, store, rules.masks, ts);
        }
    }
}

/// A snapshot shows every entity, root or related, as it was at its timestamp, and
/// only entities that pass the conditions of the query and of the policies.
pub proof fn law_snapshot_shows_the_past(
    store: StoreView,
    plan: PlanView,
    rules: RunRules,
    ts: u64,
    k: int,
)
    requires
        rules.read_ts == Some(ts),
        run_outcome(store, plan, rules, None) is Ok,
        0 <= k < run_outcome(store, plan, rules, None)->Ok_0.result.entities.len(),
    ensures
        is_of_plan(
            run_outcome(store, plan, rules, None)->Ok_0.result.entities[k],
            store,
            secured(plan, rules.policies),
            rules.masks,
            ts,
        ),
{
    let p = secured(plan, rules.policies);
    let found = scanned_rows(store, p, When::AsOf(ts), None, None)->Ok_0;
    lemma_scanned_were_there(store, p, ts);
    lemma_sorted_were_there(found, p.order_by, store, p.root_entity, p.filter, ts);
    let all = sorted(found, p.order_by);
    let rows = paged(all, p.pagination);
    lemma_paged_were_there(all, p.pagination, store, p.root_entity, p.filter, ts);
    lemma_shows_cut(p.root_entity, rows, p.fields, rules.masks, store, p.filter, ts);
    let follow = FollowRules {
        roots: row_ids(rows),
        max_edges: p.budget.max_edges as nat,
        masks: rules.masks,
        read_ts: rules.read_ts,
        statistics: None,
    };
    lemma_follow_shows_cut(store, follow, p.includes, ts);
    let done = follow_all(store, follow, p.includes)->Ok_0;
    let blocks = run_outcome(store, plan, rules, None)->Ok_0.result.entities;
    if k > 0 {
        assert(blocks[k] == done.blocks[k - 1]);
    }
}

proof fn lemma_paged_were_there(
    rows: Seq<RowView>,
    p: Option<Pagination>,
    store: StoreView,
    entity: Seq<char>,
    filter: Option<FilterView>,
    ts: u64,
)
    requires
        were_there(rows, store, entity, filter, ts),
    ensures
        were_there(paged(rows, p), store, entity, filter, ts),
{
    if p is Some {
        let kept = page(rows, p->0);
        assert forall|i: int| 0 <= i < kept.len() implies was_there(
            #[trigger] kept[i],
            store,
            entity,
            filter,
            ts,
        ) by {
            lemma_page_member(rows, p->0, i);
            let j = choose|j: int| 0 <= j < rows.len() && #[trigger] rows[j] == kept[i];
            assert(was_there(rows[j], store, entity, filter, ts));
        }
    }
}

proof fn lemma_page_member<T>(rows: Seq<T>, p: Pagination, i: int)
    requires
        0 <= i < page(rows, p).len(),
    ensures
        exists|j: int| 0 <= j < rows.len() && #[trigger] rows[j] == page(rows, p)[i],
{
    let start = if p.offset < rows.len() {
        p.offset as int
    } else {
        rows.len() as int
    };
    assert(rows[start + i] == page(rows, p)[i]);
}

/// Whether every entity of a type, as it was at a time, has a mark.
pub open spec fn uniform(
    store: StoreView,
    entity: Seq<char>,
    field: Seq<char>,
    mark: Seq<char>,
    ts: u64,
) -> bool {
    let scan = scan_outcome(store, entity, When::AsOf(ts));
    forall|i: int, row: RowView|
        0 <= i < scan.len() && #[trigger] shows(scan[i], row) ==> last_value(row.fields, field)
            == Some(ValueView::String(mark))
}

proof fn lemma_column_named(columns: Seq<ColumnView>, name: Seq<char>)
    ensures
        column_named(columns, name) matches Some(c) ==> c.name == name && exists|k: int|
            0 <= k < columns.len() && #[trigger] columns[k] == c,
    decreases columns.len(),
{
    if columns.len() > 0 {
        lemma_column_named(columns.drop_first(), name);
        if columns[0].name == name {
            assert(columns[0] == column_named(columns, name)->0);
        } else if column_named(columns.drop_first(), name) is Some {
            let c = column_named(columns.drop_first(), name)->0;
            let k = choose|k: int|
                0 <= k < columns.drop_first().len() && #[trigger] columns.drop_first()[k] == c;
            assert(columns[k + 1] == c);
        }
    }
}

proof fn lemma_texts_among(values: Seq<ValueView>, mark: Seq<char>)
    requires
        forall|i: int|
            0 <= i < values.len() ==> (#[trigger] values[i] == ValueView::String(mark)
                || values[i] is Null),
    ensures
        forall|i: int|
            0 <= i < texts_among(values).len() ==> #[trigger] texts_among(values)[i] == mark,
    decreases values.len(),
{
    if values.len() > 0 {
        let init = values.drop_last();
        assert forall|i: int| 0 <= i < init.len() implies (#[trigger] init[i] == ValueView::String(
            mark,
        ) || init[i] is Null) by {
            assert(init[i] == values[i]);
        }
        lemma_texts_among(init, mark);
        assert(values[values.len() - 1] == values.last());
        let head = texts_among(init);
        let all = texts_among(values);
        assert forall|i: int| 0 <= i < all.len() implies #[trigger] all[i] == mark by {
            if i < head.len() {
                assert(all[i] == head[i]);
            }
        }
    }
}

proof fn lemma_block_is_uniform(
    b: BlockView,
    store: StoreView,
    filter: Option<FilterView>,
    projected: Seq<Seq<char>>,
    fields: Seq<(Seq<char>, Seq<char>)>,
    mark: Seq<char>,
    ts: u64,
)
    requires
        shows_cut(b, store, filter, projected, Seq::empty(), ts),
        mark_field(fields, b.entity) matches Some(field) ==> uniform(
            store,
            b.entity,
            field,
            mark,
            ts,
        ),
    ensures
        forall|i: int|
            0 <= i < block_marks(b, fields).len() ==> #[trigger] block_marks(b, fields)[i] == mark,
{
    reveal(shows_cut);
    let none = Seq::<MaskView>::empty();
    let rows = choose|rows: Seq<RowView>|
        were_there(rows, store, b.entity, filter, ts) && b == #[trigger] block_of(
            b.entity,
            rows,
            projected,
            none,
        );
    if mark_field(fields, b.entity) is Some {
        let field = mark_field(fields, b.entity)->0;
        lemma_column_named(b.columns, field);
        if column_named(b.columns, field) is Some {
            let column = column_named(b.columns, field)->0;
            let c = choose|k: int| 0 <= k < b.columns.len() && #[trigger] b.columns[k] == column;
            let names = block_names(b.entity, rows, projected, none);
            assert(column == block_column(b.entity, rows, names, c, none));
            assert forall|i: int| 0 <= i < column.values.len() implies (
            #[trigger] column.values[i] == ValueView::String(mark) || column.values[i] is Null) by {
                let row = rows[i];
                assert(column.values[i] == cell(b.entity, row, names, c, none));
                assert(was_there(row, store, b.entity, filter, ts));
                assert(rule_for(none, b.entity, field) is Open);
            }
            lemma_texts_among(column.values, mark);
        }
    }
}

proof fn lemma_marks_are_uniform(
    blocks: Seq<BlockView>,
    fields: Seq<(Seq<char>, Seq<char>)>,
    mark: Seq<char>,
)
    requires
        forall|k: int, i: int|
            0 <= k < blocks.len() && 0 <= i < block_marks(blocks[k], fields).len()
                ==> #[trigger] block_marks(blocks[k], fields)[i] == mark,
    ensures
        forall|i: int|
            0 <= i < all_marks(blocks, fields).len() ==> #[trigger] all_marks(blocks, fields)[i]
                == mark,
    decreases blocks.len(),
{
    if blocks.len() > 0 {
        let init = blocks.drop_last();
        assert forall|k: int, i: int|
            0 <= k < init.len() && 0 <= i < block_marks(init[k], fields).len() implies
            #[trigger] block_marks(init[k], fields)[i] == mark by {
            assert(init[k] == blocks[k]);
        }
        lemma_marks_are_uniform(init, fields, mark);
        let head = all_marks(init, fields);
        let all = all_marks(blocks, fields);
        assert forall|i: int| 0 <= i < all.len() implies #[trigger] all[i] == mark by {
            if i < head.len() {
                assert(all[i] == head[i]);
            } else {
                let last = blocks[blocks.len() - 1];
                assert(last == blocks.last());
                assert(all[i] == block_marks(last, fields)[i - head.len()]);
            }
        }
    }
}

proof fn lemma_one_distinct(marks: Seq<Seq<char>>, mark: Seq<char>)
    requires
        forall|i: int| 0 <= i < marks.len() ==> #[trigger] marks[i] == mark,
    ensures
        distinct(marks).len() <= 1,
        distinct(marks).len() == 1 ==> distinct(marks)[0] == mark,
        marks.len() > 0 ==> distinct(marks).len() == 1,
    decreases marks.len(),
{
    if marks.len() > 0 {
        let init = marks.drop_last();
        assert forall|i: int| 0 <= i < init.len() implies #[trigger] init[i] == mark by {
            assert(init[i] == marks[i]);
        }
        lemma_one_distinct(init, mark);
        assert(marks[marks.len() - 1] == marks.last());
        if init.len() > 0 {
            assert(distinct(init)[0] == mark);
            assert(distinct(init).contains(mark));
        }
    }
}

/// Where all entities had one mark at a time, a snapshot of that time is not
/// fractured, whatever has been committed since.
pub proof fn law_snapshot_is_unfractured(
    store: StoreView,
    plan: PlanView,
    rules: RunRules,
    fields: Seq<(Seq<char>, Seq<char>)>,
    mark: Seq<char>,
    ts: u64,
)
    requires
        rules.read_ts == Some(ts),
        rules.masks == Seq::<MaskView>::empty(),
        forall|entity: Seq<char>|
            #[trigger] mark_field(fields, entity) is Some ==> uniform(
                store,
                entity,
                mark_field(fields, entity)->0,
                mark,
                ts,
            ),
    ensures
        run_outcome(store, plan, rules, None) matches Ok(ran) ==> !fractured(
            ran.result.entities,
            fields,
        ),
{
    if run_outcome(store, plan, rules, None) is Ok {
        let blocks = run_outcome(store, plan, rules, None)->Ok_0.result.entities;
        assert forall|k: int, i: int|
            0 <= k < blocks.len() && 0 <= i < block_marks(blocks[k], fields).len() implies
            #[trigger] block_marks(blocks[k], fields)[i] == mark by {
            law_snapshot_shows_the_past(store, plan, rules, ts, k);
            let b = blocks[k];
            let p = secured(plan, rules.policies);
            if shows_cut(b, store, p.filter, p.fields, rules.masks, ts) {
                lemma_block_is_uniform(b, store, p.filter, p.fields, fields, mark, ts);
            } else {
                reveal(is_of_includes);
                let j = choose|j: int|
                    0 <= j < p.includes.len() && is_of_include(
                        b,
                        #[trigger] p.includes[j],
                        store,
                        rules.masks,
                        ts,
                    );
                let rel = p.includes[j];
                lemma_block_is_uniform(b, store, rel.filter, rel.fields, fields, mark, ts);
            }
        }
        lemma_marks_are_uniform(blocks, fields, mark);
        lemma_one_distinct(all_marks(blocks, fields), mark);
    }
}

/// What passes a condition that policies were put into passes the policies, all
/// of them that speak of the type.
pub proof fn law_policies_hold(
    filter: Option<FilterView>,
    policies: Seq<PolicyView>,
    entity: Seq<char>,
    fs: Seq<FieldView>,
    n: int,
)
    requires
        passes(combined(filter, policy_for(policies, entity)), fs) == Ok::<bool, ErrorView>(true),
        0 <= n < policies.len(),
        policies[n].0 == entity,
    ensures
        passes(filter, fs) == Ok::<bool, ErrorView>(true),
        passes(Some(policies[n].1), fs) == Ok::<bool, ErrorView>(true),
    decreases policies.len(),
{
    let rest = policies.drop_last();
    let last = policies[policies.len() - 1];
    assert(last == policies.last());
    if filter is Some && policy_for(policies, entity) is Some {
        law_combined_is_stricter(filter->0, policy_for(policies, entity)->0, fs);
    }
    assert(passes(policy_for(policies, entity), fs) == Ok::<bool, ErrorView>(true));
    if last.0 == entity && policy_for(rest, entity) is Some {
        law_combined_is_stricter(policy_for(rest, entity)->0, last.1, fs);
    }
    if n < rest.len() {
        assert(rest[n] == policies[n]);
        law_policies_hold(None, rest, entity, fs, n);
    }
}

} // verus!
