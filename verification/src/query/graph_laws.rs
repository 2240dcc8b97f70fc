//! What a graph fetch brings together: where edges start, where they lead, and that
//! none is missing.

use vstd::prelude::*;

use crate::bytes::{lemma_be_bytes_len, lemma_be_limit_u64};
use crate::codec::{chunk_bytes, chunks_of, value_holdable};
use crate::error::{lemma_collect_ok, ErrorView};
use crate::query::ast::{
    first_value, BlockView, EdgeBlockView, EdgeView, IncludeView, Pagination, RowView,
};
use crate::query::fetch::queries_keep;
use crate::query::fetch_laws::{
    fields_when, lemma_all_are_gathered, lemma_enough_is_read, lemma_first_is_last,
    lemma_gathered_were_there,
};
use crate::query::filter::passes;
use crate::query::includes::{
    children_of, expected_children, finished, follow, follow_all, indexed_children, indexed_pairs,
    indexed_related, last_dot, ordered_edges, pair_row, parent_of, reached, related_outcome,
    related_row, scanned_related, sources_of, FollowRules, Followed,
};
use crate::query::rows::{
    attached, block_of, edges_from, edges_to, firsts, in_row_order, law_sorting_keeps_rows,
    lemma_same_members, page, paged_by_source, row_ids, row_with_id, seconds, sorted,
};
use crate::storage::btree_index::BoundView;
use crate::storage::engine::ensured;
use crate::storage::hash_index::column_indexed;
use crate::storage::index_laws::countable;
use crate::storage::laws::law_batch_is_each;
use crate::storage::model::{
    latest_batch_outcome, latest_outcome, read_outcome, scan_outcome, ScanItemView, StoreView, When,
};
use crate::storage::record::RecordView;
use crate::storage::truth::{
    column_true, faithful, fields_now, is_there, law_covering_is_true, law_covering_leaves_others,
    law_lookup_is_true, law_ordered_scan_is_true, law_scan_shows_members,
};
use crate::value::ValueView;

verus! {

/// Whether there is an edge among the edges of a relation.
pub open spec fn has_edge(blocks: Seq<EdgeBlockView>, path: Seq<char>, e: EdgeView) -> bool {
    exists|i: int|
        0 <= i < blocks.len() && (#[trigger] blocks[i]).relation == path && blocks[i].edges.contains(
            e,
        )
}

/// Whether a relation leads to an entity.
pub open spec fn leads_to(blocks: Seq<EdgeBlockView>, path: Seq<char>, id: Seq<u8>) -> bool {
    exists|e: EdgeView| #[trigger] has_edge(blocks, path, e) && e.to_id == id
}

/// Whether an entity is in a block of its type.
pub open spec fn in_block(blocks: Seq<BlockView>, entity: Seq<char>, id: Seq<u8>) -> bool {
    exists|i: int|
        0 <= i < blocks.len() && (#[trigger] blocks[i]).entity == entity && blocks[i].ids.contains(
            id,
        )
}

/// Whether pairs are of a row and the edge to it, from one of some sources.
pub open spec fn paired(pairs: Seq<(RowView, EdgeView)>, sources: Seq<Seq<u8>>) -> bool {
    forall|p: (RowView, EdgeView)| #[trigger]
        pairs.contains(p) ==> p.1.to_id == p.0.id && sources.contains(p.1.from_id)
}

/// Whether pairs hold an edge.
pub open spec fn has_pair(pairs: Seq<(RowView, EdgeView)>, e: EdgeView) -> bool {
    exists|p: (RowView, EdgeView)| #[trigger] pairs.contains(p) && p.1 == e
}

proof fn lemma_scanned_are_paired(
    store: StoreView,
    sources: Seq<Seq<u8>>,
    rel: IncludeView,
    when: When,
)
    requires
        scanned_related(store, sources, rel, when) is Ok,
    ensures
        paired(scanned_related(store, sources, rel, when)->Ok_0, sources),
{
    let scanned = scan_outcome(store, rel.to_entity, when);
    let items = scanned.map_values(|i: ScanItemView| related_row(i, sources, rel));
    let pairs = scanned_related(store, sources, rel, when)->Ok_0;
    assert forall|p: (RowView, EdgeView)| #[trigger] pairs.contains(p) implies p.1.to_id == p.0.id
        && sources.contains(p.1.from_id) by {
        lemma_gathered_were_there(items, Seq::empty(), None, p);
        let i = choose|i: int|
            0 <= i < items.len() && #[trigger] items[i] == Ok::<
                Option<(RowView, EdgeView)>,
                ErrorView,
            >(Some(p));
        assert(items[i] == related_row(scanned[i], sources, rel));
    }
}

proof fn lemma_indexed_pairs_from(
    store: StoreView,
    use_hash: bool,
    rel: IncludeView,
    sources: Seq<Seq<u8>>,
    k: int,
)
    requires
        indexed_pairs(store, use_hash, rel, sources) matches Ok(pairs) && 0 <= k < pairs.len(),
    ensures
        sources.contains(indexed_pairs(store, use_hash, rel, sources)->Ok_0[k].0),
    decreases sources.len(),
{
    let init = sources.drop_last();
    let before = indexed_pairs(store, use_hash, rel, init)->Ok_0;
    let pairs = indexed_pairs(store, use_hash, rel, sources)->Ok_0;
    if k < before.len() {
        lemma_indexed_pairs_from(store, use_hash, rel, init, k);
        let i = choose|i: int| 0 <= i < init.len() && init[i] == before[k].0;
        assert(sources[i] == pairs[k].0);
    } else {
        assert(sources[sources.len() - 1] == pairs[k].0);
    }
}

proof fn lemma_indexed_are_paired(
    store: StoreView,
    use_hash: bool,
    sources: Seq<Seq<u8>>,
    rel: IncludeView,
)
    requires
        indexed_related(store, use_hash, sources, rel) is Ok,
    ensures
        paired(indexed_related(store, use_hash, sources, rel)->Ok_0, sources),
{
    let pairs = indexed_pairs(store, use_hash, rel, sources)->Ok_0;
    let found = latest_batch_outcome(store, children_of(pairs))->Ok_0;
    let items = Seq::new(pairs.len(), |i: int| pair_row(pairs[i], found[i], rel));
    let all = indexed_related(store, use_hash, sources, rel)->Ok_0;
    assert forall|p: (RowView, EdgeView)| #[trigger] all.contains(p) implies p.1.to_id == p.0.id
        && sources.contains(p.1.from_id) by {
        lemma_gathered_were_there(items, Seq::empty(), None, p);
        let i = choose|i: int|
            0 <= i < items.len() && #[trigger] items[i] == Ok::<
                Option<(RowView, EdgeView)>,
                ErrorView,
            >(Some(p));
        assert(items[i] == pair_row(pairs[i], found[i], rel));
        lemma_indexed_pairs_from(store, use_hash, rel, sources, i);
    }
}

proof fn lemma_related_are_paired(
    store: StoreView,
    sources: Seq<Seq<u8>>,
    rel: IncludeView,
    read_ts: Option<u64>,
    children: nat,
)
    requires
        related_outcome(store, sources, rel, read_ts, children) is Ok,
    ensures
        paired(related_outcome(store, sources, rel, read_ts, children)->Ok_0.pairs, sources),
{
    match read_ts {
        Some(ts) => {
            lemma_scanned_are_paired(store, sources, rel, When::AsOf(ts));
        },
        None => {
            if rel.edge_entity is Some {
                lemma_scanned_are_paired(store, sources, rel, When::Latest);
            } else if column_indexed(store.hash, rel.to_entity, rel.to_field) {
                lemma_indexed_are_paired(store, true, sources, rel);
            } else if store.btree is Some {
                let after = ensured(store, rel.to_entity, rel.to_field)->Ok_0;
                lemma_indexed_are_paired(after, false, sources, rel);
            } else {
                lemma_scanned_are_paired(store, sources, rel, When::Latest);
            }
        },
    }
}

proof fn lemma_attached_pairs(rows: Seq<RowView>, edges: Seq<EdgeView>, p: (RowView, EdgeView))
    requires
        attached(rows, edges).contains(p),
    ensures
        p.1.to_id == p.0.id,
        edges.contains(p.1),
        rows.contains(p.0),
    decreases edges.len(),
{
    let all = attached(rows, edges);
    let k = choose|k: int| 0 <= k < all.len() && all[k] == p;
    let init = attached(rows, edges.drop_last());
    if k < init.len() {
        assert(init[k] == p);
        assert(init.contains(p));
        lemma_attached_pairs(rows, edges.drop_last(), p);
        let i = choose|i: int| 0 <= i < edges.drop_last().len() && edges.drop_last()[i] == p.1;
        assert(edges[i] == p.1);
    } else {
        assert(edges[edges.len() - 1] == p.1);
        lemma_row_found_by_id(rows, edges.last().to_id);
    }
}

proof fn lemma_row_found_by_id(rows: Seq<RowView>, id: Seq<u8>)
    ensures
        row_with_id(rows, id) matches Some(r) ==> r.id == id && rows.contains(r),
    decreases rows.len(),
{
    if rows.len() > 0 {
        if rows[0].id == id {
            assert(rows.contains(rows[0]));
        } else {
            let rest = rows.drop_first();
            lemma_row_found_by_id(rest, id);
            if let Some(r) = row_with_id(rest, id) {
                let i = choose|i: int| 0 <= i < rest.len() && rest[i] == r;
                assert(rows[i + 1] == r);
            }
        }
    }
}

proof fn lemma_paged_pairs(
    rows: Seq<RowView>,
    edges: Seq<EdgeView>,
    from: Seq<Seq<u8>>,
    p: Pagination,
    x: (RowView, EdgeView),
)
    requires
        paged_by_source(rows, edges, from, p).contains(x),
    ensures
        x.1.to_id == x.0.id,
        edges.contains(x.1),
    decreases from.len(),
{
    let all = paged_by_source(rows, edges, from, p);
    let k = choose|k: int| 0 <= k < all.len() && all[k] == x;
    let init = paged_by_source(rows, edges, from.drop_last(), p);
    if k < init.len() {
        assert(init[k] == x);
        assert(init.contains(x));
        lemma_paged_pairs(rows, edges, from.drop_last(), p, x);
    } else {
        let mine = edges_from(edges, from.last());
        let some = page(mine, p);
        let last = attached(rows, some);
        assert(last[k - init.len()] == x);
        assert(last.contains(x));
        lemma_attached_pairs(rows, some, x);
        let i = choose|i: int| 0 <= i < some.len() && some[i] == x.1;
        let start = if p.offset < mine.len() {
            p.offset as int
        } else {
            mine.len() as int
        };
        assert(mine[start + i] == x.1);
        assert(mine.contains(x.1));
        edges.lemma_filter_contains_rev(|e: EdgeView| e.from_id == from.last(), x.1);
    }
}

proof fn lemma_ordered_are_edges(rows: Seq<RowView>, edges: Seq<EdgeView>, e: EdgeView)
    requires
        in_row_order(rows, edges).contains(e),
    ensures
        edges.contains(e),
    decreases rows.len(),
{
    let all = in_row_order(rows, edges);
    let k = choose|k: int| 0 <= k < all.len() && all[k] == e;
    let init = in_row_order(rows.drop_last(), edges);
    if k < init.len() {
        assert(init[k] == e);
        assert(init.contains(e));
        lemma_ordered_are_edges(rows.drop_last(), edges, e);
    } else {
        let mine = edges_to(edges, rows.last().id);
        assert(mine[k - init.len()] == e);
        assert(mine.contains(e));
        edges.lemma_filter_contains_rev(|x: EdgeView| x.to_id == rows.last().id, e);
    }
}

/// What is returned of what a relation leads to: every edge is one that was found, and
/// the rows are those that the edges lead to.
proof fn lemma_finished(pairs: Seq<(RowView, EdgeView)>, rel: IncludeView, sources: Seq<Seq<u8>>)
    requires
        paired(pairs, sources),
    ensures
        ({
            let (rows, edges) = finished(pairs, rel);
            &&& forall|e: EdgeView| #[trigger]
                edges.contains(e) ==> sources.contains(e.from_id) && row_ids(rows).contains(e.to_id)
                    && has_pair(pairs, e)
            &&& forall|id: Seq<u8>| #[trigger]
                row_ids(rows).contains(id) ==> exists|e: EdgeView| #[trigger]
                    edges.contains(e) && e.to_id == id
            &&& rel.pagination is None ==> forall|p: (RowView, EdgeView)| #[trigger]
                pairs.contains(p) ==> edges.contains(p.1)
        }),
{
    let (rows, edges) = finished(pairs, rel);
    let all = sorted(firsts(pairs), rel.order_by);
    law_sorting_keeps_rows(firsts(pairs), rel.order_by);
    lemma_same_members(all, firsts(pairs));
    assert forall|p: (RowView, EdgeView)| #[trigger] pairs.contains(p) implies seconds(
        pairs,
    ).contains(p.1) && all.contains(p.0) by {
        let k = choose|k: int| 0 <= k < pairs.len() && pairs[k] == p;
        assert(seconds(pairs)[k] == p.1);
        assert(firsts(pairs)[k] == p.0);
        assert(firsts(pairs).contains(p.0));
    }
    match rel.pagination {
        None => {
            assert forall|e: EdgeView| #[trigger] edges.contains(e) implies sources.contains(e.from_id)
                && row_ids(rows).contains(e.to_id) && has_pair(pairs, e) by {
                let k = choose|k: int| 0 <= k < edges.len() && edges[k] == e;
                assert(pairs.contains(pairs[k]));
                assert(all.contains(pairs[k].0));
                let j = choose|j: int| 0 <= j < all.len() && all[j] == pairs[k].0;
                assert(row_ids(rows)[j] == e.to_id);
            }
            assert forall|id: Seq<u8>| #[trigger] row_ids(rows).contains(id) implies exists|e: EdgeView|
                #[trigger] edges.contains(e) && e.to_id == id by {
                let j = choose|j: int| 0 <= j < row_ids(rows).len() && row_ids(rows)[j] == id;
                assert(all.contains(all[j]));
                assert(firsts(pairs).contains(all[j]));
                let k = choose|k: int| 0 <= k < firsts(pairs).len() && firsts(pairs)[k] == all[j];
                assert(pairs.contains(pairs[k]));
                assert(edges.contains(pairs[k].1));
            }
        },
        Some(p) => {
            let turned = ordered_edges(all, seconds(pairs), rel.order_by);
            let kept = paged_by_source(all, turned, crate::query::rows::sources(turned), p);
            assert forall|x: (RowView, EdgeView)| #[trigger] kept.contains(x) implies x.1.to_id
                == x.0.id && sources.contains(x.1.from_id) && has_pair(pairs, x.1) by {
                lemma_paged_pairs(all, turned, crate::query::rows::sources(turned), p, x);
                if rel.order_by.len() > 0 {
                    lemma_ordered_are_edges(all, seconds(pairs), x.1);
                }
                assert(seconds(pairs).contains(x.1));
                let k = choose|k: int| 0 <= k < seconds(pairs).len() && seconds(pairs)[k] == x.1;
                assert(pairs.contains(pairs[k]));
            }
            assert forall|e: EdgeView| #[trigger] edges.contains(e) implies sources.contains(e.from_id)
                && row_ids(rows).contains(e.to_id) && has_pair(pairs, e) by {
                let k = choose|k: int| 0 <= k < edges.len() && edges[k] == e;
                assert(kept.contains(kept[k]));
                assert(row_ids(rows)[k] == e.to_id);
            }
            assert forall|id: Seq<u8>| #[trigger] row_ids(rows).contains(id) implies exists|e: EdgeView|
                #[trigger] edges.contains(e) && e.to_id == id by {
                let j = choose|j: int| 0 <= j < row_ids(rows).len() && row_ids(rows)[j] == id;
                assert(kept.contains(kept[j]));
                assert(edges[j] == kept[j].1);
                assert(edges.contains(edges[j]));
            }
        },
    }
}

/// Whether relations are followed along paths of their own.
pub open spec fn own_paths(includes: Seq<IncludeView>) -> bool {
    &&& forall|i: int| 0 <= i < includes.len() ==> (#[trigger] includes[i]).path.len() > 0
    &&& forall|i: int, j: int|
        0 <= i < j < includes.len() ==> (#[trigger] includes[i]).path != (
        #[trigger] includes[j]).path
}

/// Whether a path is one of those that are followed.
pub open spec fn is_followed(includes: Seq<IncludeView>, path: Seq<char>) -> bool {
    exists|i: int| 0 <= i < includes.len() && (#[trigger] includes[i]).path == path
}

proof fn lemma_fewer_paths(includes: Seq<IncludeView>)
    requires
        own_paths(includes),
        includes.len() > 0,
    ensures
        own_paths(includes.drop_last()),
        !is_followed(includes.drop_last(), includes.last().path),
        includes.last().path.len() > 0,
{
    let init = includes.drop_last();
    assert forall|i: int| 0 <= i < init.len() implies (#[trigger] init[i]).path.len() > 0 by {
        assert(includes[i].path.len() > 0);
    }
    assert forall|i: int, j: int| 0 <= i < j < init.len() implies (#[trigger] init[i]).path != (
    #[trigger] init[j]).path by {
        assert(includes[i].path != includes[j].path);
    }
    let n = includes.len() - 1;
    assert(includes[n] == includes.last());
    if is_followed(init, includes.last().path) {
        let i = choose|i: int|
            0 <= i < init.len() && (#[trigger] init[i]).path == includes.last().path;
        assert(includes[i].path != includes[n].path);
    }
}

proof fn lemma_followed_grows(includes: Seq<IncludeView>, path: Seq<char>)
    requires
        includes.len() > 0,
    ensures
        is_followed(includes, path) <==> is_followed(includes.drop_last(), path)
            || includes.last().path == path,
{
    let init = includes.drop_last();
    if is_followed(init, path) {
        let i = choose|i: int| 0 <= i < init.len() && (#[trigger] init[i]).path == path;
        assert(includes[i].path == path);
    }
    if is_followed(includes, path) {
        let i = choose|i: int| 0 <= i < includes.len() && (#[trigger] includes[i]).path == path;
        if i < init.len() {
            assert(init[i].path == path);
        }
    }
    assert(includes[includes.len() - 1] == includes.last());
}

/// One relation more leaves the edges of the others as they are, and its own edges
/// are those that were found.
proof fn lemma_one_more(done: Followed, rules: FollowRules, rel: IncludeView, path: Seq<char>, e: EdgeView)
    requires
        follow(done, rules, rel) is Ok,
        !(exists|k: int|
            0 <= k < done.edge_blocks.len() && (#[trigger] done.edge_blocks[k]).relation
                == rel.path),
    ensures
        ({
            let next = follow(done, rules, rel)->Ok_0;
            &&& path != rel.path ==> (has_edge(next.edge_blocks, path, e) <==> has_edge(
                done.edge_blocks,
                path,
                e,
            ))
            &&& has_edge(next.edge_blocks, rel.path, e) ==> {
                let from = sources_of(done, rules, rel)->Ok_0;
                let related = related_outcome(
                    done.store,
                    from,
                    rel,
                    rules.read_ts,
                    expected_children(rules, rel),
                )->Ok_0;
                from.len() > 0 && finished(related.pairs, rel).1.contains(e)
            }
            &&& sources_of(done, rules, rel)->Ok_0.len() > 0 ==> {
                let from = sources_of(done, rules, rel)->Ok_0;
                let related = related_outcome(
                    done.store,
                    from,
                    rel,
                    rules.read_ts,
                    expected_children(rules, rel),
                )->Ok_0;
                finished(related.pairs, rel).1.contains(e) ==> has_edge(
                    next.edge_blocks,
                    rel.path,
                    e,
                )
            }
        }),
{
    let next = follow(done, rules, rel)->Ok_0;
    let from = sources_of(done, rules, rel)->Ok_0;
    if from.len() > 0 {
        let related = related_outcome(
            done.store,
            from,
            rel,
            rules.read_ts,
            expected_children(rules, rel),
        )->Ok_0;
        let edges = finished(related.pairs, rel).1;
        let n = done.edge_blocks.len() as int;
        if edges.len() > 0 {
            assert(next.edge_blocks[n] == EdgeBlockView { relation: rel.path, edges });
        }
        if has_edge(next.edge_blocks, path, e) {
            let k = choose|k: int|
                0 <= k < next.edge_blocks.len() && (#[trigger] next.edge_blocks[k]).relation == path
                    && next.edge_blocks[k].edges.contains(e);
            if k < n {
                assert(done.edge_blocks[k] == next.edge_blocks[k]);
            }
        }
        if has_edge(done.edge_blocks, path, e) {
            let k = choose|k: int|
                0 <= k < n && (#[trigger] done.edge_blocks[k]).relation == path
                    && done.edge_blocks[k].edges.contains(e);
            assert(next.edge_blocks[k] == done.edge_blocks[k]);
        }
        if has_edge(next.edge_blocks, rel.path, e) {
            let k = choose|k: int|
                0 <= k < next.edge_blocks.len() && (#[trigger] next.edge_blocks[k]).relation
                    == rel.path && next.edge_blocks[k].edges.contains(e);
            if k < n {
                assert(done.edge_blocks[k].relation == rel.path);
            }
        }
        if edges.contains(e) {
            assert(edges.len() > 0);
        }
    } else if has_edge(next.edge_blocks, rel.path, e) {
        let k = choose|k: int|
            0 <= k < next.edge_blocks.len() && (#[trigger] next.edge_blocks[k]).relation == rel.path
                && next.edge_blocks[k].edges.contains(e);
        assert(done.edge_blocks[k].relation == rel.path);
    }
}

proof fn lemma_blocks_are_followed(
    store: StoreView,
    rules: FollowRules,
    includes: Seq<IncludeView>,
    k: int,
)
    requires
        follow_all(store, rules, includes) matches Ok(done) && 0 <= k < done.edge_blocks.len(),
    ensures
        is_followed(includes, follow_all(store, rules, includes)->Ok_0.edge_blocks[k].relation),
    decreases includes.len(),
{
    if includes.len() > 0 {
        let init = includes.drop_last();
        let before = follow_all(store, rules, init)->Ok_0;
        let done = follow_all(store, rules, includes)->Ok_0;
        lemma_followed_grows(includes, done.edge_blocks[k].relation);
        if k < before.edge_blocks.len() {
            lemma_blocks_are_followed(store, rules, init, k);
            assert(done.edge_blocks[k] == before.edge_blocks[k]);
        }
    }
}

proof fn lemma_new_path(store: StoreView, rules: FollowRules, includes: Seq<IncludeView>)
    requires
        own_paths(includes),
        includes.len() > 0,
        follow_all(store, rules, includes) is Ok,
    ensures
        ({
            let before = follow_all(store, rules, includes.drop_last())->Ok_0;
            !(exists|k: int|
                0 <= k < before.edge_blocks.len() && (#[trigger] before.edge_blocks[k]).relation
                    == includes.last().path)
        }),
{
    lemma_fewer_paths(includes);
    let init = includes.drop_last();
    let before = follow_all(store, rules, init)->Ok_0;
    if exists|k: int|
        0 <= k < before.edge_blocks.len() && (#[trigger] before.edge_blocks[k]).relation
            == includes.last().path {
        let k = choose|k: int|
            0 <= k < before.edge_blocks.len() && (#[trigger] before.edge_blocks[k]).relation
                == includes.last().path;
        lemma_blocks_are_followed(store, rules, init, k);
    }
}

/// What a path has led to is what its edges lead to.
proof fn lemma_reached_is_led_to(
    store: StoreView,
    rules: FollowRules,
    includes: Seq<IncludeView>,
    path: Seq<char>,
    id: Seq<u8>,
)
    requires
        own_paths(includes),
        path.len() > 0,
        follow_all(store, rules, includes) is Ok,
    ensures
        ({
            let done = follow_all(store, rules, includes)->Ok_0;
            &&& reached(done.resolved, path) matches Some(ids) ==> is_followed(includes, path) && (
            ids.contains(id) <==> leads_to(done.edge_blocks, path, id))
            &&& reached(done.resolved, Seq::empty()) == Some(rules.roots)
        }),
    decreases includes.len(),
{
    let done = follow_all(store, rules, includes)->Ok_0;
    if includes.len() == 0 {
        reveal_with_fuel(reached, 2);
        assert(done.resolved.drop_last().len() == 0);
    } else {
        let init = includes.drop_last();
        let rel = includes.last();
        let before = follow_all(store, rules, init)->Ok_0;
        lemma_fewer_paths(includes);
        lemma_followed_grows(includes, path);
        lemma_reached_is_led_to(store, rules, init, path, id);
        lemma_new_path(store, rules, includes);
        let from = sources_of(before, rules, rel)->Ok_0;
        if from.len() > 0 {
            let related = related_outcome(
                before.store,
                from,
                rel,
                rules.read_ts,
                expected_children(rules, rel),
            )->Ok_0;
            let (rows, edges) = finished(related.pairs, rel);
            lemma_related_are_paired(
                before.store,
                from,
                rel,
                rules.read_ts,
                expected_children(rules, rel),
            );
            lemma_finished(related.pairs, rel, from);
            assert(done.resolved.drop_last() =~= before.resolved);
            if path == rel.path {
                if row_ids(rows).contains(id) {
                    let e = choose|e: EdgeView| #[trigger] edges.contains(e) && e.to_id == id;
                    lemma_one_more(before, rules, rel, path, e);
                    assert(has_edge(done.edge_blocks, path, e));
                }
                if leads_to(done.edge_blocks, path, id) {
                    let e = choose|e: EdgeView|
                        #[trigger] has_edge(done.edge_blocks, path, e) && e.to_id == id;
                    lemma_one_more(before, rules, rel, path, e);
                    assert(edges.contains(e));
                }
            } else {
                if leads_to(done.edge_blocks, path, id) {
                    let e = choose|e: EdgeView|
                        #[trigger] has_edge(done.edge_blocks, path, e) && e.to_id == id;
                    lemma_one_more(before, rules, rel, path, e);
                    assert(has_edge(before.edge_blocks, path, e));
                }
                if leads_to(before.edge_blocks, path, id) {
                    let e = choose|e: EdgeView|
                        #[trigger] has_edge(before.edge_blocks, path, e) && e.to_id == id;
                    lemma_one_more(before, rules, rel, path, e);
                    assert(has_edge(done.edge_blocks, path, e));
                }
            }
        }
    }
}

/// Whether a text holds no dot.
pub open spec fn undotted(name: Seq<char>) -> bool {
    forall|i: int| 0 <= i < name.len() ==> #[trigger] name[i] != '.'
}

proof fn lemma_last_dot(q: Seq<char>, name: Seq<char>)
    requires
        undotted(name),
    ensures
        parent_of(q + seq!['.'] + name) == Some(q),
        parent_of(name) is None,
    decreases name.len(),
{
    let p = q + seq!['.'] + name;
    lemma_no_dot(name);
    lemma_dot_before(q, name);
    assert(p.take(q.len() as int) =~= q);
}

/// Where the last dot of a path under another one stands.
pub proof fn lemma_where_the_dot_is(parent: Seq<char>, name: Seq<char>)
    requires
        undotted(name),
    ensures
        last_dot(path_under(parent, name)) == if parent.len() == 0 {
            -1
        } else {
            parent.len() as int
        },
{
    lemma_no_dot(name);
    lemma_dot_before(parent, name);
}

proof fn lemma_no_dot(name: Seq<char>)
    requires
        undotted(name),
    ensures
        last_dot(name) == -1,
    decreases name.len(),
{
    if name.len() > 0 {
        assert(name[name.len() - 1] != '.');
        assert forall|i: int| 0 <= i < name.drop_last().len() implies #[trigger] name.drop_last()[i]
            != '.' by {
            assert(name[i] != '.');
        }
        lemma_no_dot(name.drop_last());
    }
}

proof fn lemma_dot_before(q: Seq<char>, name: Seq<char>)
    requires
        undotted(name),
    ensures
        last_dot(q + seq!['.'] + name) == q.len(),
    decreases name.len(),
{
    let p = q + seq!['.'] + name;
    if name.len() == 0 {
        assert(p.last() == '.');
    } else {
        assert(name[name.len() - 1] != '.');
        assert(p.last() == name[name.len() - 1]);
        let shorter = name.drop_last();
        assert forall|i: int| 0 <= i < shorter.len() implies #[trigger] shorter[i] != '.' by {
            assert(name[i] != '.');
        }
        lemma_dot_before(q, shorter);
        assert(p.drop_last() =~= q + seq!['.'] + shorter);
    }
}

/// The edges of a relation that starts from another one start at entities that the
/// other one leads to; those of a relation that starts from the root start at root
/// entities.
pub proof fn law_edges_start_where_the_parent_leads(
    store: StoreView,
    rules: FollowRules,
    includes: Seq<IncludeView>,
    parent: Seq<char>,
    name: Seq<char>,
    e: EdgeView,
)
    requires
        own_paths(includes),
        undotted(name),
        follow_all(store, rules, includes) is Ok,
    ensures
        ({
            let blocks = follow_all(store, rules, includes)->Ok_0.edge_blocks;
            &&& parent.len() > 0 && has_edge(blocks, parent + seq!['.'] + name, e) ==> leads_to(
                blocks,
                parent,
                e.from_id,
            )
            &&& has_edge(blocks, name, e) ==> rules.roots.contains(e.from_id)
        }),
    decreases includes.len(),
{
    let done = follow_all(store, rules, includes)->Ok_0;
    let path = parent + seq!['.'] + name;
    if includes.len() > 0 {
        let init = includes.drop_last();
        let rel = includes.last();
        let before = follow_all(store, rules, init)->Ok_0;
        lemma_fewer_paths(includes);
        lemma_new_path(store, rules, includes);
        law_edges_start_where_the_parent_leads(store, rules, init, parent, name, e);
        lemma_last_dot(parent, name);
        lemma_one_more(before, rules, rel, path, e);
        lemma_one_more(before, rules, rel, name, e);
        let from = sources_of(before, rules, rel)->Ok_0;
        if from.len() > 0 {
            lemma_related_are_paired(
                before.store,
                from,
                rel,
                rules.read_ts,
                expected_children(rules, rel),
            );
            let related = related_outcome(
                before.store,
                from,
                rel,
                rules.read_ts,
                expected_children(rules, rel),
            )->Ok_0;
            lemma_finished(related.pairs, rel, from);
        }
        if parent.len() > 0 && has_edge(done.edge_blocks, path, e) {
            if rel.path == path {
                lemma_reached_is_led_to(store, rules, init, parent, e.from_id);
            }
            assert(leads_to(before.edge_blocks, parent, e.from_id));
            let d = choose|d: EdgeView|
                #[trigger] has_edge(before.edge_blocks, parent, d) && d.to_id == e.from_id;
            lemma_one_more(before, rules, rel, parent, d);
            if rel.path == parent {
                let k = choose|k: int|
                    0 <= k < before.edge_blocks.len() && (#[trigger] before.edge_blocks[k]).relation
                        == parent && before.edge_blocks[k].edges.contains(d);
                assert(before.edge_blocks[k].relation == rel.path);
            }
            assert(has_edge(done.edge_blocks, parent, d));
        }
    }
}

/// When the entities of a graph fetch are read.
pub open spec fn time_of(read_ts: Option<u64>) -> When {
    match read_ts {
        Some(ts) => When::AsOf(ts),
        None => When::Latest,
    }
}

/// Whether an entity of the relation's type refers to another one in the relation's
/// field, and meets the relation's condition.
pub open spec fn refers(
    store: StoreView,
    when: When,
    rel: IncludeView,
    child: Seq<u8>,
    parent: Seq<u8>,
) -> bool {
    fields_when(store, rel.to_entity, child, when) matches Some(fs) && first_value(fs, rel.to_field)
        == Some(ValueView::Uuid(parent)) && passes(rel.filter, fs) == Ok::<bool, ErrorView>(true)
}

proof fn lemma_scanned_are_true(
    store: StoreView,
    sources: Seq<Seq<u8>>,
    rel: IncludeView,
    when: When,
    e: EdgeView,
)
    requires
        store.types.dom().finite(),
        e.to_id.len() == 16,
        scanned_related(store, sources, rel, when) is Ok,
    ensures
        has_pair(scanned_related(store, sources, rel, when)->Ok_0, e) <==> sources.contains(e.from_id)
            && refers(store, when, rel, e.to_id, e.from_id),
{
    let scanned = scan_outcome(store, rel.to_entity, when);
    let items = scanned.map_values(|i: ScanItemView| related_row(i, sources, rel));
    let pairs = scanned_related(store, sources, rel, when)->Ok_0;
    if has_pair(pairs, e) {
        let p = choose|p: (RowView, EdgeView)| #[trigger] pairs.contains(p) && p.1 == e;
        lemma_gathered_were_there(items, Seq::empty(), None, p);
        let i = choose|i: int|
            0 <= i < items.len() && #[trigger] items[i] == Ok::<
                Option<(RowView, EdgeView)>,
                ErrorView,
            >(Some(p));
        assert(items[i] == related_row(scanned[i], sources, rel));
        let item = scanned[i]->Ok_0;
        assert(scanned.contains(scanned[i]));
        law_scan_shows_members(store, rel.to_entity, when, item.0, (item.1, item.2));
    }
    if sources.contains(e.from_id) && refers(store, when, rel, e.to_id, e.from_id) {
        let v = read_outcome(store, e.to_id, when)->Ok_0->0;
        law_scan_shows_members(store, rel.to_entity, when, e.to_id, v);
        let item = Ok::<(Seq<u8>, u64, RecordView), ErrorView>((e.to_id, v.0, v.1));
        let i = choose|i: int| 0 <= i < scanned.len() && scanned[i] == item;
        assert(items[i] == related_row(scanned[i], sources, rel));
        let p = items[i]->Ok_0->0;
        assert(items[i] == Ok::<Option<(RowView, EdgeView)>, ErrorView>(Some(p)));
        assert(p.1 == e);
        lemma_all_are_gathered(items, Seq::empty(), p);
        assert(pairs.contains(p));
    }
}

proof fn lemma_indexed_pairs_are(
    store: StoreView,
    use_hash: bool,
    rel: IncludeView,
    sources: Seq<Seq<u8>>,
    parent: Seq<u8>,
    child: Seq<u8>,
)
    requires
        indexed_pairs(store, use_hash, rel, sources) is Ok,
    ensures
        sources.contains(parent) ==> indexed_children(store, use_hash, rel, parent) is Ok,
        indexed_pairs(store, use_hash, rel, sources)->Ok_0.contains((parent, child))
            <==> sources.contains(parent) && indexed_children(
            store,
            use_hash,
            rel,
            parent,
        )->Ok_0.contains(child),
    decreases sources.len(),
{
    let pairs = indexed_pairs(store, use_hash, rel, sources)->Ok_0;
    if sources.len() > 0 {
        let init = sources.drop_last();
        let last = sources[sources.len() - 1];
        assert(last == sources.last());
        let before = indexed_pairs(store, use_hash, rel, init)->Ok_0;
        let children = indexed_children(store, use_hash, rel, last)->Ok_0;
        lemma_indexed_pairs_are(store, use_hash, rel, init, parent, child);
        assert(sources.contains(parent) <==> init.contains(parent) || parent == last) by {
            if init.contains(parent) {
                let i = choose|i: int| 0 <= i < init.len() && init[i] == parent;
                assert(sources[i] == parent);
            }
            if sources.contains(parent) {
                let i = choose|i: int| 0 <= i < sources.len() && sources[i] == parent;
                if i < init.len() {
                    assert(init[i] == parent);
                }
            }
        }
        if pairs.contains((parent, child)) {
            let k = choose|k: int| 0 <= k < pairs.len() && pairs[k] == (parent, child);
            if k < before.len() {
                assert(before[k] == (parent, child));
                assert(before.contains((parent, child)));
            } else {
                assert(children[k - before.len()] == child);
            }
        }
        if before.contains((parent, child)) {
            let k = choose|k: int| 0 <= k < before.len() && before[k] == (parent, child);
            assert(pairs[k] == (parent, child));
        }
        if parent == last && children.contains(child) {
            let k = choose|k: int| 0 <= k < children.len() && children[k] == child;
            assert(pairs[before.len() + k] == (parent, child));
        }
    }
}

proof fn lemma_indexed_are_read(
    store: StoreView,
    use_hash: bool,
    sources: Seq<Seq<u8>>,
    rel: IncludeView,
    e: EdgeView,
)
    requires
        indexed_related(store, use_hash, sources, rel) is Ok,
    ensures
        indexed_pairs(store, use_hash, rel, sources) is Ok,
        has_pair(indexed_related(store, use_hash, sources, rel)->Ok_0, e) <==> indexed_pairs(
            store,
            use_hash,
            rel,
            sources,
        )->Ok_0.contains((e.from_id, e.to_id)) && (fields_now(store, e.to_id) matches Some(fs)
            && passes(rel.filter, fs) == Ok::<bool, ErrorView>(true)),
{
    let pairs = indexed_pairs(store, use_hash, rel, sources)->Ok_0;
    let kept = children_of(pairs);
    let found = latest_batch_outcome(store, kept)->Ok_0;
    let items = Seq::new(pairs.len(), |i: int| pair_row(pairs[i], found[i], rel));
    let all = indexed_related(store, use_hash, sources, rel)->Ok_0;
    let each = kept.map_values(|id: Seq<u8>| latest_outcome(store, id));
    law_batch_is_each(store, kept);
    lemma_collect_ok(each);
    if has_pair(all, e) {
        let p = choose|p: (RowView, EdgeView)| #[trigger] all.contains(p) && p.1 == e;
        lemma_gathered_were_there(items, Seq::empty(), None, p);
        let i = choose|i: int|
            0 <= i < items.len() && #[trigger] items[i] == Ok::<
                Option<(RowView, EdgeView)>,
                ErrorView,
            >(Some(p));
        assert(items[i] == pair_row(pairs[i], found[i], rel));
        assert(each[i] == Ok::<Option<(u64, RecordView)>, ErrorView>(found[i]));
        assert(pairs[i] == (e.from_id, e.to_id));
        lemma_enough_is_read(rel.fields, rel.filter, rel.order_by, found[i]->Some_0.1.data);
    }
    if pairs.contains((e.from_id, e.to_id)) && (fields_now(store, e.to_id) matches Some(fs)
        && passes(rel.filter, fs) == Ok::<bool, ErrorView>(true)) {
        let i = choose|i: int| 0 <= i < pairs.len() && pairs[i] == (e.from_id, e.to_id);
        assert(each[i] == Ok::<Option<(u64, RecordView)>, ErrorView>(found[i]));
        assert(kept[i] == e.to_id);
        lemma_enough_is_read(rel.fields, rel.filter, rel.order_by, found[i]->Some_0.1.data);
        let p = items[i]->Ok_0->0;
        assert(items[i] == pair_row(pairs[i], found[i], rel));
        assert(items[i] == Ok::<Option<(RowView, EdgeView)>, ErrorView>(Some(p)));
        lemma_all_are_gathered(items, Seq::empty(), p);
        assert(all.contains(p));
    }
}

proof fn lemma_identifier_holdable(id: Seq<u8>)
    requires
        id.len() == 16,
    ensures
        value_holdable(ValueView::Uuid(id)),
{
    let cs = chunks_of(ValueView::Uuid(id));
    lemma_be_limit_u64();
    reveal_with_fuel(chunk_bytes, 2);
    lemma_be_bytes_len(cs.len(), 8);
    lemma_be_bytes_len(16, 8);
    assert(cs.drop_first().len() == 0);
    assert(chunk_bytes(cs).len() == 24);
}

proof fn lemma_indexed_are_true(
    store: StoreView,
    use_hash: bool,
    sources: Seq<Seq<u8>>,
    rel: IncludeView,
    e: EdgeView,
)
    requires
        faithful(store, rel.to_entity),
        countable(rel.to_field),
        e.from_id.len() == 16,
        e.to_id.len() == 16,
        !use_hash ==> store.btree is Some && column_true(
            store,
            store.btree->0,
            rel.to_entity,
            rel.to_field,
        ),
        indexed_related(store, use_hash, sources, rel) is Ok,
    ensures
        has_pair(indexed_related(store, use_hash, sources, rel)->Ok_0, e) <==> sources.contains(
            e.from_id,
        ) && refers(store, When::Latest, rel, e.to_id, e.from_id),
{
    let v = ValueView::Uuid(e.from_id);
    lemma_indexed_are_read(store, use_hash, sources, rel, e);
    lemma_indexed_pairs_are(store, use_hash, rel, sources, e.from_id, e.to_id);
    lemma_identifier_holdable(e.from_id);
    if use_hash {
        if sources.contains(e.from_id) {
            law_lookup_is_true(store, rel.to_entity, rel.to_field, v, e.to_id);
        }
    } else {
        law_ordered_scan_is_true(
            store,
            store.btree->0,
            rel.to_entity,
            rel.to_field,
            BoundView::Equal(v),
            e.to_id,
        );
    }
    if is_there(store, rel.to_entity, e.to_id) {
        let fs = fields_now(store, e.to_id)->0;
        lemma_first_is_last(fs, rel.to_field);
    }
}

proof fn lemma_related_are_true(
    store: StoreView,
    sources: Seq<Seq<u8>>,
    rel: IncludeView,
    read_ts: Option<u64>,
    children: nat,
    e: EdgeView,
)
    requires
        faithful(store, rel.to_entity),
        countable(rel.to_field),
        e.from_id.len() == 16,
        e.to_id.len() == 16,
        related_outcome(store, sources, rel, read_ts, children) is Ok,
    ensures
        has_pair(related_outcome(store, sources, rel, read_ts, children)->Ok_0.pairs, e)
            <==> sources.contains(e.from_id) && refers(
            store,
            time_of(read_ts),
            rel,
            e.to_id,
            e.from_id,
        ),
{
    if read_ts is Some || rel.edge_entity is Some || (!column_indexed(
        store.hash,
        rel.to_entity,
        rel.to_field,
    ) && store.btree is None) {
        lemma_scanned_are_true(store, sources, rel, time_of(read_ts), e);
    } else if column_indexed(store.hash, rel.to_entity, rel.to_field) {
        lemma_indexed_are_true(store, true, sources, rel, e);
    } else {
        let after = ensured(store, rel.to_entity, rel.to_field)->Ok_0;
        law_covering_is_true(store, rel.to_entity, rel.to_field);
        lemma_indexed_are_true(after, false, sources, rel, e);
        assert(fields_when(after, rel.to_entity, e.to_id, When::Latest) == fields_when(
            store,
            rel.to_entity,
            e.to_id,
            When::Latest,
        ));
    }
}

/// Following relations changes nothing of what the store says of its entities.
proof fn lemma_following_keeps(
    store: StoreView,
    rules: FollowRules,
    includes: Seq<IncludeView>,
    entity: Seq<char>,
)
    requires
        faithful(store, entity),
        follow_all(store, rules, includes) is Ok,
    ensures
        faithful(follow_all(store, rules, includes)->Ok_0.store, entity),
        queries_keep(follow_all(store, rules, includes)->Ok_0.store, store),
    decreases includes.len(),
{
    if includes.len() > 0 {
        let init = includes.drop_last();
        let rel = includes.last();
        lemma_following_keeps(store, rules, init, entity);
        let before = follow_all(store, rules, init)->Ok_0;
        let done = follow_all(store, rules, includes)->Ok_0;
        if done.store != before.store {
            assert(Ok::<StoreView, ErrorView>(done.store) == ensured(
                before.store,
                rel.to_entity,
                rel.to_field,
            ));
            if rel.to_entity == entity {
                law_covering_is_true(before.store, entity, rel.to_field);
            } else {
                law_covering_leaves_others(before.store, rel.to_entity, rel.to_field, entity);
            }
        }
    }
}

proof fn lemma_blocks_last(
    done: Followed,
    rules: FollowRules,
    rel: IncludeView,
    path: Seq<char>,
    id: Seq<u8>,
)
    requires
        follow(done, rules, rel) is Ok,
        path != rel.path,
        !(exists|k: int|
            0 <= k < done.edge_blocks.len() && (#[trigger] done.edge_blocks[k]).relation
                == rel.path),
    ensures
        leads_to(follow(done, rules, rel)->Ok_0.edge_blocks, path, id) <==> leads_to(
            done.edge_blocks,
            path,
            id,
        ),
{
    let next = follow(done, rules, rel)->Ok_0;
    if leads_to(next.edge_blocks, path, id) {
        let e = choose|e: EdgeView|
            #[trigger] has_edge(next.edge_blocks, path, e) && e.to_id == id;
        lemma_one_more(done, rules, rel, path, e);
        assert(has_edge(done.edge_blocks, path, e));
    }
    if leads_to(done.edge_blocks, path, id) {
        let e = choose|e: EdgeView|
            #[trigger] has_edge(done.edge_blocks, path, e) && e.to_id == id;
        lemma_one_more(done, rules, rel, path, e);
        assert(has_edge(next.edge_blocks, path, e));
    }
}

/// The path of a relation that starts from another one, or from the root where the
/// other has no name.
pub open spec fn path_under(parent: Seq<char>, name: Seq<char>) -> Seq<char> {
    if parent.len() == 0 {
        name
    } else {
        parent + seq!['.'] + name
    }
}

/// Whether an entity is one that relations under a path start from.
pub open spec fn stands_at(
    blocks: Seq<EdgeBlockView>,
    roots: Seq<Seq<u8>>,
    path: Seq<char>,
    id: Seq<u8>,
) -> bool {
    if path.len() == 0 {
        roots.contains(id)
    } else {
        leads_to(blocks, path, id)
    }
}

/// A graph fetch brings the edges that are there: an edge of a relation is from an entity
/// that the relation starts from to an entity that refers to it and meets the
/// relation's condition; and where the relation has no page, every such edge is brought.
pub proof fn law_edges_are_what_refers(
    store: StoreView,
    rules: FollowRules,
    includes: Seq<IncludeView>,
    i: int,
    parent: Seq<char>,
    name: Seq<char>,
    e: EdgeView,
)
    requires
        own_paths(includes),
        0 <= i < includes.len(),
        includes[i].path == path_under(parent, name),
        undotted(name),
        faithful(store, includes[i].to_entity),
        countable(includes[i].to_field),
        e.from_id.len() == 16,
        e.to_id.len() == 16,
        follow_all(store, rules, includes) is Ok,
    ensures
        ({
            let blocks = follow_all(store, rules, includes)->Ok_0.edge_blocks;
            let rel = includes[i];
            let there = stands_at(blocks, rules.roots, parent, e.from_id) && refers(
                store,
                time_of(rules.read_ts),
                rel,
                e.to_id,
                e.from_id,
            );
            &&& has_edge(blocks, rel.path, e) ==> there
            &&& rel.pagination is None && there ==> has_edge(blocks, rel.path, e)
        }),
    decreases includes.len(),
{
    let init = includes.drop_last();
    if i < init.len() {
        lemma_fewer_paths(includes);
        assert(init[i] == includes[i]);
        law_edges_are_what_refers(store, rules, init, i, parent, name, e);
        lemma_earlier_stays(store, rules, includes, i, parent, name, e);
    } else {
        lemma_last_is_true(store, rules, includes, parent, name, e);
    }
}

/// The last relation leaves the edges of an earlier one, and where that starts, as they
/// are.
proof fn lemma_earlier_stays(
    store: StoreView,
    rules: FollowRules,
    includes: Seq<IncludeView>,
    i: int,
    parent: Seq<char>,
    name: Seq<char>,
    e: EdgeView,
)
    requires
        own_paths(includes),
        0 <= i < includes.len() - 1,
        includes[i].path == path_under(parent, name),
        undotted(name),
        follow_all(store, rules, includes) is Ok,
    ensures
        ({
            let before = follow_all(store, rules, includes.drop_last())->Ok_0.edge_blocks;
            let blocks = follow_all(store, rules, includes)->Ok_0.edge_blocks;
            &&& has_edge(blocks, includes[i].path, e) <==> has_edge(before, includes[i].path, e)
            &&& stands_at(blocks, rules.roots, parent, e.from_id) <==> stands_at(
                before,
                rules.roots,
                parent,
                e.from_id,
            )
        }),
{
    let init = includes.drop_last();
    let last = includes.last();
    let before = follow_all(store, rules, init)->Ok_0;
    lemma_fewer_paths(includes);
    lemma_new_path(store, rules, includes);
    assert(init[i] == includes[i]);
    assert(includes[i].path != last.path);
    lemma_one_more(before, rules, last, includes[i].path, e);
    if parent.len() > 0 {
        if parent == last.path {
            lemma_parent_was_there(store, rules, init, i, parent, name);
        }
        lemma_blocks_last(before, rules, last, parent, e.from_id);
    }
}

/// Where a path under another one leads from.
pub proof fn lemma_parents(parent: Seq<char>, name: Seq<char>)
    requires
        undotted(name),
    ensures
        parent_of(path_under(parent, name)) == if parent.len() == 0 {
            None
        } else {
            Some(parent)
        },
{
    lemma_last_dot(parent, name);
}

/// Where a relation could be followed, the relation that it starts from was followed.
proof fn lemma_parent_was_there(
    store: StoreView,
    rules: FollowRules,
    includes: Seq<IncludeView>,
    i: int,
    parent: Seq<char>,
    name: Seq<char>,
)
    requires
        own_paths(includes),
        0 <= i < includes.len(),
        parent.len() > 0,
        undotted(name),
        includes[i].path == path_under(parent, name),
        follow_all(store, rules, includes) is Ok,
    ensures
        is_followed(includes, parent),
    decreases includes.len(),
{
    let init = includes.drop_last();
    lemma_fewer_paths(includes);
    lemma_followed_grows(includes, parent);
    if i < init.len() {
        assert(init[i] == includes[i]);
        lemma_parent_was_there(store, rules, init, i, parent, name);
    } else {
        lemma_parents(parent, name);
        lemma_reached_is_led_to(store, rules, init, parent, Seq::empty());
    }
}

proof fn lemma_last_is_true(
    store: StoreView,
    rules: FollowRules,
    includes: Seq<IncludeView>,
    parent: Seq<char>,
    name: Seq<char>,
    e: EdgeView,
)
    requires
        own_paths(includes),
        includes.len() > 0,
        includes.last().path == path_under(parent, name),
        undotted(name),
        faithful(store, includes.last().to_entity),
        countable(includes.last().to_field),
        e.from_id.len() == 16,
        e.to_id.len() == 16,
        follow_all(store, rules, includes) is Ok,
    ensures
        ({
            let blocks = follow_all(store, rules, includes)->Ok_0.edge_blocks;
            let rel = includes.last();
            let there = stands_at(blocks, rules.roots, parent, e.from_id) && refers(
                store,
                time_of(rules.read_ts),
                rel,
                e.to_id,
                e.from_id,
            );
            &&& has_edge(blocks, rel.path, e) ==> there
            &&& rel.pagination is None && there ==> has_edge(blocks, rel.path, e)
        }),
{
    let done = follow_all(store, rules, includes)->Ok_0;
    let init = includes.drop_last();
    let rel = includes.last();
    let before = follow_all(store, rules, init)->Ok_0;
    let when = time_of(rules.read_ts);
    let from = sources_of(before, rules, rel)->Ok_0;
    lemma_fewer_paths(includes);
    lemma_new_path(store, rules, includes);
    lemma_parents(parent, name);
    lemma_one_more(before, rules, rel, rel.path, e);
    lemma_following_keeps(store, rules, init, rel.to_entity);
    assert(from.contains(e.from_id) <==> stands_at(
        done.edge_blocks,
        rules.roots,
        parent,
        e.from_id,
    )) by {
        if parent.len() > 0 {
            assert(parent != rel.path) by {
                assert(rel.path.len() > parent.len());
            }
            lemma_reached_is_led_to(store, rules, init, parent, e.from_id);
            lemma_blocks_last(before, rules, rel, parent, e.from_id);
        }
    }
    assert(refers(before.store, when, rel, e.to_id, e.from_id) == refers(
        store,
        when,
        rel,
        e.to_id,
        e.from_id,
    )) by {
        assert(read_outcome(before.store, e.to_id, when) == read_outcome(store, e.to_id, when));
    }
    if from.len() > 0 {
        let children = expected_children(rules, rel);
        let related = related_outcome(before.store, from, rel, rules.read_ts, children)->Ok_0;
        lemma_related_are_paired(before.store, from, rel, rules.read_ts, children);
        lemma_related_are_true(before.store, from, rel, rules.read_ts, children, e);
        lemma_finished(related.pairs, rel, from);
        if has_pair(related.pairs, e) && rel.pagination is None {
            let p = choose|p: (RowView, EdgeView)| #[trigger] related.pairs.contains(p) && p.1 == e;
            assert(finished(related.pairs, rel).1.contains(p.1));
        }
    }
}

/// Whatever an edge of a relation leads to is in a block of the relation's type.
pub proof fn law_edges_lead_into_blocks(
    store: StoreView,
    rules: FollowRules,
    includes: Seq<IncludeView>,
    i: int,
    e: EdgeView,
)
    requires
        own_paths(includes),
        0 <= i < includes.len(),
        follow_all(store, rules, includes) is Ok,
        has_edge(follow_all(store, rules, includes)->Ok_0.edge_blocks, includes[i].path, e),
    ensures
        in_block(
            follow_all(store, rules, includes)->Ok_0.blocks,
            includes[i].to_entity,
            e.to_id,
        ),
    decreases includes.len(),
{
    let done = follow_all(store, rules, includes)->Ok_0;
    let init = includes.drop_last();
    let last = includes.last();
    let before = follow_all(store, rules, init)->Ok_0;
    let rel = includes[i];
    lemma_fewer_paths(includes);
    lemma_new_path(store, rules, includes);
    lemma_one_more(before, rules, last, rel.path, e);
    if i < init.len() {
        assert(init[i] == rel);
        assert(rel.path != last.path);
        law_edges_lead_into_blocks(store, rules, init, i, e);
        let k = choose|k: int|
            0 <= k < before.blocks.len() && (#[trigger] before.blocks[k]).entity == rel.to_entity
                && before.blocks[k].ids.contains(e.to_id);
        assert(done.blocks[k] == before.blocks[k]);
    } else {
        let from = sources_of(before, rules, last)->Ok_0;
        let children = expected_children(rules, last);
        let related = related_outcome(before.store, from, last, rules.read_ts, children)->Ok_0;
        lemma_related_are_paired(before.store, from, last, rules.read_ts, children);
        lemma_finished(related.pairs, last, from);
        let rows = finished(related.pairs, last).0;
        let n = before.blocks.len() as int;
        assert(done.blocks[n] == block_of(last.to_entity, rows, last.fields, rules.masks));
    }
}

} // verus!
