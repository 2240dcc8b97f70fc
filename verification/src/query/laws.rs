//! What holds of queries as a whole: snapshot reads see one commit cut.

use vstd::prelude::*;

use crate::error::ErrorView;
use crate::query::ast::{IncludeView, PlanView, RowView};
use crate::query::executor::{run_outcome, secured, RunRules};
use crate::query::fetch::{counting, cut, enough, fetch_outcome, gather, scan_row, scanned_rows};
use crate::query::includes::{
    expected_children, follow_all, related_outcome, sources_of, FollowRules, Followed,
};
use crate::query::rows::{law_unsorted_stays, more_after, page, paged, row_ids, sorted};
use crate::storage::kv::prefix_listing;
use crate::storage::laws::{
    law_commit_invisible_before, law_ops_sound, law_scan_as_of_ignores_later,
    lemma_work_keeps_versions, ops_sound, out_of_sight, sound,
};
use crate::storage::layout::{type_key, type_prefix};
use crate::storage::model::{
    indexed_items, put_typed_view, scan_outcome, EntryView, ScanItemView, StoreView, When,
};
use crate::storage::record::RecordView;
use crate::storage::transaction::{commit_outcome, ops_applied, work_outcome, OpView, Stamp};

verus! {

/// Whether two stores show the same entities of a type as of a timestamp.
pub open spec fn same_cut(a: StoreView, b: StoreView, entity: Seq<char>, read_ts: u64) -> bool {
    scan_outcome(a, entity, When::AsOf(read_ts)) == scan_outcome(b, entity, When::AsOf(read_ts))
}

/// Whether two stores show the same entities of all types that a plan reads.
pub open spec fn same_cut_for(a: StoreView, b: StoreView, plan: PlanView, read_ts: u64) -> bool {
    &&& same_cut(a, b, plan.root_entity, read_ts)
    &&& forall|i: int|
        0 <= i < plan.includes.len() ==> same_cut(
            a,
            b,
            (#[trigger] plan.includes[i]).to_entity,
            read_ts,
        )
}

/// Following relations on two stores, apart from the stores themselves.
pub open spec fn same_but_store(a: Result<Followed, ErrorView>, b: Result<Followed, ErrorView>) -> bool {
    match (a, b) {
        (Ok(x), Ok(y)) => x == (Followed { store: x.store, ..y }),
        (Err(x), Err(y)) => x == y,
        _ => false,
    }
}

proof fn lemma_follow_same_cut(
    a: StoreView,
    b: StoreView,
    rules: FollowRules,
    includes: Seq<IncludeView>,
    read_ts: u64,
)
    requires
        rules.read_ts == Some(read_ts),
        forall|i: int|
            0 <= i < includes.len() ==> same_cut(a, b, (#[trigger] includes[i]).to_entity, read_ts),
    ensures
        same_but_store(follow_all(a, rules, includes), follow_all(b, rules, includes)),
        follow_all(a, rules, includes) matches Ok(x) ==> x.store == a,
        follow_all(b, rules, includes) matches Ok(y) ==> y.store == b,
    decreases includes.len(),
{
    if includes.len() > 0 {
        let init = includes.drop_last();
        assert forall|i: int| 0 <= i < init.len() implies same_cut(
            a,
            b,
            (#[trigger] init[i]).to_entity,
            read_ts,
        ) by {
            assert(init[i] == includes[i]);
        }
        lemma_follow_same_cut(a, b, rules, init, read_ts);
        let rel = includes[includes.len() - 1];
        assert(same_cut(a, b, rel.to_entity, read_ts));
        if follow_all(a, rules, init) is Ok {
            let x = follow_all(a, rules, init)->Ok_0;
            let y = follow_all(b, rules, init)->Ok_0;
            assert(sources_of(x, rules, rel) == sources_of(y, rules, rel));
        }
    }
}

/// A snapshot read is determined by what the store shows as of its timestamp:
/// the root entities and all related ones come from one commit cut.
pub proof fn law_snapshot_is_one_cut(
    a: StoreView,
    b: StoreView,
    plan: PlanView,
    rules: RunRules,
    read_ts: u64,
)
    requires
        rules.read_ts == Some(read_ts),
        same_cut_for(a, b, plan, read_ts),
    ensures
        match (run_outcome(a, plan, rules, None), run_outcome(b, plan, rules, None)) {
            (Ok(x), Ok(y)) => x.result == y.result && x.store == a && y.store == b,
            (Err(x), Err(y)) => x == y,
            _ => false,
        },
{
    let p = secured(plan, rules.policies);
    let items_a = scan_outcome(a, p.root_entity, When::AsOf(read_ts)).map_values(
        |i: ScanItemView| scan_row(i, p.filter, None),
    );
    let items_b = scan_outcome(b, p.root_entity, When::AsOf(read_ts)).map_values(
        |i: ScanItemView| scan_row(i, p.filter, None),
    );
    assert(items_a == items_b);
    assert(scanned_rows(a, p, When::AsOf(read_ts), None, None) == scanned_rows(
        b,
        p,
        When::AsOf(read_ts),
        None,
        None,
    ));
    if fetch_outcome(a, p, rules.read_ts, rules.hits) is Ok {
        let found = fetch_outcome(a, p, rules.read_ts, rules.hits)->Ok_0;
        let rows = paged(sorted(found.rows, p.order_by), p.pagination);
        let follow = FollowRules {
            roots: row_ids(rows),
            max_edges: p.budget.max_edges as nat,
            masks: rules.masks,
            read_ts: rules.read_ts,
            statistics: None,
        };
        assert forall|i: int| 0 <= i < p.includes.len() implies same_cut(
            a,
            b,
            (#[trigger] p.includes[i]).to_entity,
            read_ts,
        ) by {
            assert(p.includes[i].to_entity == plan.includes[i].to_entity);
        }
        lemma_follow_same_cut(a, b, follow, p.includes, read_ts);
    }
}

/// Whether a write stays out of sight of everything that a plan reads as of an
/// earlier time.
pub open spec fn out_of_plan_sight(
    store: StoreView,
    plan: PlanView,
    entity_type: Seq<char>,
    id: Seq<u8>,
    read_ts: u64,
) -> bool {
    &&& out_of_sight(store, plan.root_entity, entity_type, id, read_ts)
    &&& forall|i: int|
        0 <= i < plan.includes.len() ==> out_of_sight(
            store,
            (#[trigger] plan.includes[i]).to_entity,
            entity_type,
            id,
            read_ts,
        )
}

/// A snapshot read excludes writes after its timestamp, in the root entities
/// and in all related ones.
pub proof fn law_snapshot_ignores_later(
    store: StoreView,
    plan: PlanView,
    rules: RunRules,
    read_ts: u64,
    entity_type: Seq<char>,
    id: Seq<u8>,
    ts: u64,
    r: RecordView,
)
    requires
        sound(store),
        rules.read_ts == Some(read_ts),
        read_ts < ts,
        id.len() == 16,
        out_of_plan_sight(store, plan, entity_type, id, read_ts),
    ensures
        match (
            run_outcome(put_typed_view(store, entity_type, id, ts, r), plan, rules, None),
            run_outcome(store, plan, rules, None),
        ) {
            (Ok(x), Ok(y)) => x.result == y.result,
            (Err(x), Err(y)) => x == y,
            _ => false,
        },
{
    let after = put_typed_view(store, entity_type, id, ts, r);
    law_scan_as_of_ignores_later(store, plan.root_entity, entity_type, id, ts, r, read_ts);
    assert forall|i: int| 0 <= i < plan.includes.len() implies same_cut(
        after,
        store,
        (#[trigger] plan.includes[i]).to_entity,
        read_ts,
    ) by {
        law_scan_as_of_ignores_later(
            store,
            plan.includes[i].to_entity,
            entity_type,
            id,
            ts,
            r,
            read_ts,
        );
    }
    law_snapshot_is_one_cut(after, store, plan, rules, read_ts);
}

/// Whether all operations stay out of sight of a scan.
pub open spec fn ops_out_of_sight(
    store: StoreView,
    scanned: Seq<char>,
    ops: Seq<OpView>,
    read_ts: u64,
) -> bool {
    forall|i: int|
        0 <= i < ops.len() ==> out_of_sight(
            store,
            scanned,
            (#[trigger] ops[i]).entity_type(),
            ops[i].id(),
            read_ts,
        )
}

proof fn lemma_types_grow(store: StoreView, ops: Seq<OpView>, stamp: Stamp, k: Seq<u8>)
    requires
        store.types.contains_key(k),
    ensures
        ops_applied(store, ops, stamp).types.contains_key(k),
    decreases ops.len(),
{
    if ops.len() > 0 {
        lemma_types_grow(store, ops.drop_last(), stamp, k);
    }
}

/// A scan as of a timestamp does not see a commit after it.
pub proof fn law_scan_ignores_commit(
    store: StoreView,
    scanned: Seq<char>,
    ops: Seq<OpView>,
    ts: u64,
    read_ts: u64,
)
    requires
        sound(store),
        ops_sound(ops),
        read_ts < ts,
        ops_out_of_sight(store, scanned, ops, read_ts),
    ensures
        same_cut(ops_applied(store, ops, Stamp::All(ts)), store, scanned, read_ts),
    decreases ops.len(),
{
    if ops.len() > 0 {
        let init = ops.drop_last();
        let op = ops[ops.len() - 1];
        let stamp = Stamp::All(ts);
        assert(ops_sound(init)) by {
            assert forall|i: int| 0 <= i < init.len() implies (#[trigger] init[i]).id().len() == 16 by {
                assert(init[i] == ops[i]);
            }
        }
        assert(ops_out_of_sight(store, scanned, init, read_ts)) by {
            assert forall|i: int| 0 <= i < init.len() implies out_of_sight(
                store,
                scanned,
                (#[trigger] init[i]).entity_type(),
                init[i].id(),
                read_ts,
            ) by {
                assert(init[i] == ops[i]);
            }
        }
        law_scan_ignores_commit(store, scanned, init, ts, read_ts);
        let before = ops_applied(store, init, stamp);
        law_ops_sound(store, init, stamp);
        assert(op.id().len() == 16);
        assert(out_of_sight(store, scanned, op.entity_type(), op.id(), read_ts));
        law_commit_invisible_before(store, init, ts, op.id(), read_ts);
        let k = type_key(op.entity_type(), op.id());
        if store.types.contains_key(k) {
            lemma_types_grow(store, init, stamp, k);
        }
        assert(out_of_sight(before, scanned, op.entity_type(), op.id(), read_ts));
        law_scan_as_of_ignores_later(
            before,
            scanned,
            op.entity_type(),
            op.id(),
            ts,
            op.record(),
            read_ts,
        );
        assert(ops.last() == op);
    }
}

/// A snapshot taken at the watermark stays as it is under every later commit:
/// the answer of a graph fetch as of the old watermark does not change.
pub proof fn law_watermark_snapshot_is_stable(
    store: StoreView,
    plan: PlanView,
    rules: RunRules,
    ops: Seq<OpView>,
    expected: Seq<(Seq<u8>, u64)>,
    ts: u64,
)
    requires
        sound(store),
        ops_sound(ops),
        ts > store.watermark,
        rules.read_ts == Some(store.watermark),
        commit_outcome(store, ops, expected, Stamp::All(ts)) is Ok,
        ops_out_of_sight(store, plan.root_entity, ops, store.watermark),
        forall|i: int|
            0 <= i < plan.includes.len() ==> ops_out_of_sight(
                store,
                (#[trigger] plan.includes[i]).to_entity,
                ops,
                store.watermark,
            ),
    ensures
        ({
            let after = StoreView {
                watermark: ts,
                ..commit_outcome(store, ops, expected, Stamp::All(ts))->Ok_0
            };
            match (run_outcome(after, plan, rules, None), run_outcome(store, plan, rules, None)) {
                (Ok(x), Ok(y)) => x.result == y.result,
                (Err(x), Err(y)) => x == y,
                _ => false,
            }
        }),
{
    let w = store.watermark;
    let work = work_outcome(store, ops)->Ok_0;
    let written = ops_applied(store, ops, Stamp::All(ts));
    lemma_work_keeps_versions(written, work);
    let after = StoreView {
        watermark: ts,
        ..commit_outcome(store, ops, expected, Stamp::All(ts))->Ok_0
    };
    law_scan_ignores_commit(store, plan.root_entity, ops, ts, w);
    lemma_scan_reads_versions(after, written, plan.root_entity, w);
    assert forall|i: int| 0 <= i < plan.includes.len() implies same_cut(
        after,
        store,
        (#[trigger] plan.includes[i]).to_entity,
        w,
    ) by {
        law_scan_ignores_commit(store, plan.includes[i].to_entity, ops, ts, w);
        lemma_scan_reads_versions(after, written, plan.includes[i].to_entity, w);
    }
    law_snapshot_is_one_cut(after, store, plan, rules, w);
}

proof fn lemma_items_read_versions(
    a: StoreView,
    b: StoreView,
    l: Seq<EntryView>,
    n: nat,
    read_ts: u64,
)
    requires
        a.data == b.data,
    ensures
        indexed_items(a, l, n, When::AsOf(read_ts)) == indexed_items(
            b,
            l,
            n,
            When::AsOf(read_ts),
        ),
    decreases l.len(),
{
    if l.len() > 0 {
        lemma_items_read_versions(a, b, l.drop_last(), n, read_ts);
    }
}

/// What a scan as of a timestamp shows rests on the versions and the type index
/// alone.
proof fn lemma_scan_reads_versions(a: StoreView, b: StoreView, entity: Seq<char>, read_ts: u64)
    requires
        a.data == b.data,
        a.types == b.types,
    ensures
        same_cut(a, b, entity, read_ts),
{
    let prefix = type_prefix(entity);
    lemma_items_read_versions(a, b, prefix_listing(a.types, prefix), prefix.len(), read_ts);
}

proof fn lemma_gathering_grows<T>(items: Seq<Result<Option<T>, ErrorView>>, got: Seq<T>)
    requires
        gather(items, got, None) is Ok,
    ensures
        gather(items, got, None)->Ok_0.len() >= got.len(),
        gather(items, got, None)->Ok_0.take(got.len() as int) == got,
    decreases items.len(),
{
    if items.len() == 0 {
        assert(got.take(got.len() as int) =~= got);
    } else {
        match items[0] {
            Err(_) => {},
            Ok(None) => lemma_gathering_grows(items.drop_first(), got),
            Ok(Some(t)) => {
                let more = got.push(t);
                lemma_gathering_grows(items.drop_first(), more);
                let all = gather(items, got, None)->Ok_0;
                assert(all.take(got.len() as int) =~= all.take(more.len() as int).take(
                    got.len() as int,
                ));
                assert(more.take(got.len() as int) =~= got);
            },
        }
    }
}

proof fn lemma_gathering_stops<T>(items: Seq<Result<Option<T>, ErrorView>>, got: Seq<T>, n: nat)
    requires
        got.len() < n,
        gather(items, got, None) is Ok,
    ensures
        gather(items, got, Some(n)) == Ok::<Seq<T>, ErrorView>(
            cut(gather(items, got, None)->Ok_0, Some(n)),
        ),
    decreases items.len(),
{
    if items.len() > 0 {
        match items[0] {
            Err(_) => {},
            Ok(None) => lemma_gathering_stops(items.drop_first(), got, n),
            Ok(Some(t)) => {
                let more = got.push(t);
                if more.len() >= n {
                    lemma_gathering_grows(items.drop_first(), more);
                    let all = gather(items, got, None)->Ok_0;
                    assert(cut(all, Some(n)) =~= more);
                } else {
                    lemma_gathering_stops(items.drop_first(), more, n);
                }
            },
        }
    }
}

/// To stop reading when enough rows are there changes neither the page that is wanted
/// nor whether there are more rows after it.
pub proof fn law_stopping_early_keeps_page(
    items: Seq<Result<Option<RowView>, ErrorView>>,
    plan: PlanView,
)
    requires
        gather(items, Seq::empty(), None) is Ok,
    ensures
        gather(items, Seq::empty(), enough(plan)) matches Ok(some) && {
            let all = gather(items, Seq::empty(), None)->Ok_0;
            &&& paged(sorted(some, plan.order_by), plan.pagination) == paged(
                sorted(all, plan.order_by),
                plan.pagination,
            )
            &&& more_after(some.len(), plan.pagination) == more_after(all.len(), plan.pagination)
            &&& counting(some.len(), plan, None) <= all.len()
        },
{
    if enough(plan) is Some {
        lemma_gathering_stops(items, Seq::empty(), enough(plan)->0);
        let all = gather(items, Seq::empty(), None)->Ok_0;
        let some = cut(all, enough(plan));
        law_unsorted_stays(all);
        law_unsorted_stays(some);
        assert(plan.order_by =~= Seq::empty());
        let p = plan.pagination->0;
        assert(page(some, p) =~= page(all, p));
    }
}

/// Relations lead to the same entities whichever strategy they are followed by.
proof fn lemma_strategies_lead_alike(
    store: StoreView,
    rules: FollowRules,
    other: FollowRules,
    includes: Seq<IncludeView>,
)
    requires
        other == (FollowRules { statistics: other.statistics, ..rules }),
        follow_all(store, rules, includes) is Ok,
        follow_all(store, other, includes) is Ok,
    ensures
        ({
            let a = follow_all(store, rules, includes)->Ok_0;
            let b = follow_all(store, other, includes)->Ok_0;
            &&& a.store == b.store
            &&& a.resolved == b.resolved
            &&& a.blocks == b.blocks
            &&& a.edge_blocks == b.edge_blocks
        }),
    decreases includes.len(),
{
    if includes.len() > 0 {
        lemma_strategies_lead_alike(store, rules, other, includes.drop_last());
        let a = follow_all(store, rules, includes.drop_last())->Ok_0;
        let b = follow_all(store, other, includes.drop_last())->Ok_0;
        let rel = includes.last();
        assert(sources_of(a, rules, rel) == sources_of(b, other, rel));
        let from = sources_of(a, rules, rel)->Ok_0;
        let x = related_outcome(a.store, from, rel, rules.read_ts, expected_children(rules, rel));
        let y = related_outcome(b.store, from, rel, other.read_ts, expected_children(other, rel));
        if from.len() > 0 {
            assert(x->Ok_0.pairs == y->Ok_0.pairs && x->Ok_0.store == y->Ok_0.store);
        }
    }
}

/// Statistics choose strategies, not answers: two runs of one plan that are within
/// the budget answer alike and leave the store alike, whatever is known of the number
/// of entities.
pub proof fn law_statistics_choose_no_answers(
    store: StoreView,
    plan: PlanView,
    rules: RunRules,
    a: Option<Seq<(Seq<char>, u64)>>,
    b: Option<Seq<(Seq<char>, u64)>>,
)
    requires
        run_outcome(store, plan, rules, a) is Ok,
        run_outcome(store, plan, rules, b) is Ok,
    ensures
        run_outcome(store, plan, rules, a)->Ok_0.result == run_outcome(
            store,
            plan,
            rules,
            b,
        )->Ok_0.result,
        run_outcome(store, plan, rules, a)->Ok_0.store == run_outcome(
            store,
            plan,
            rules,
            b,
        )->Ok_0.store,
{
    let p = secured(plan, rules.policies);
    let found = fetch_outcome(store, p, rules.read_ts, rules.hits)->Ok_0;
    let rows = paged(sorted(found.rows, p.order_by), p.pagination);
    let first = FollowRules {
        roots: row_ids(rows),
        max_edges: p.budget.max_edges as nat,
        masks: rules.masks,
        read_ts: rules.read_ts,
        statistics: a,
    };
    lemma_strategies_lead_alike(
        found.store,
        first,
        FollowRules { statistics: b, ..first },
        p.includes,
    );
}

} // verus!
