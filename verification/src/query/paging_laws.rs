//! What a page of related entities holds: the first ones in the wanted order.

use vstd::prelude::*;

use crate::query::ast::{EdgeView, IncludeView, OrderView, Pagination, RowView};
use crate::query::includes::{finished, ordered_edges};
use crate::query::rows::{
    attached, edges_from, edges_to, firsts, has_row, in_row_order, law_sorting_keeps_rows,
    law_unsorted_stays, lemma_same_members, page, paged_by_source, row_with_id, seconds, sorted,
    sources,
};

verus! {

/// Whether no two rows are of one entity.
pub open spec fn distinct_rows(rows: Seq<RowView>) -> bool {
    forall|i: int, j: int|
        0 <= i < j < rows.len() ==> (#[trigger] rows[i]).id != (#[trigger] rows[j]).id
}

/// The edge from a source to a row.
pub open spec fn edge_to(source: Seq<u8>, row: RowView) -> EdgeView {
    EdgeView { from_id: source, to_id: row.id }
}

/// The edges from a source to rows.
pub open spec fn edges_to_rows(source: Seq<u8>, rows: Seq<RowView>) -> Seq<EdgeView> {
    rows.map_values(|r: RowView| edge_to(source, r))
}

/// The rows that a source leads to, each with its edge.
pub open spec fn led_to(source: Seq<u8>, rows: Seq<RowView>) -> Seq<(RowView, EdgeView)> {
    rows.map_values(|r: RowView| (r, edge_to(source, r)))
}

proof fn lemma_sorted_distinct(rows: Seq<RowView>, order: Seq<OrderView>)
    requires
        distinct_rows(rows),
    ensures
        distinct_rows(sorted(rows, order)),
{
    let s = sorted(rows, order);
    law_sorting_keeps_rows(rows, order);
    lemma_same_members(s, rows);
    assert(rows.no_duplicates());
    rows.lemma_multiset_has_no_duplicates();
    s.lemma_multiset_has_no_duplicates_conv();
    assert forall|i: int, j: int| 0 <= i < j < s.len() implies (#[trigger] s[i]).id != (
    #[trigger] s[j]).id by {
        assert(s.contains(s[i]) && s.contains(s[j]));
        let a = choose|a: int| 0 <= a < rows.len() && rows[a] == s[i];
        let b = choose|b: int| 0 <= b < rows.len() && rows[b] == s[j];
        assert(s[i] != s[j]);
        if a < b {
            assert(rows[a].id != rows[b].id);
        } else if b < a {
            assert(rows[b].id != rows[a].id);
        }
    }
}

/// Of the edges to distinct rows one leads to each of them.
proof fn lemma_one_edge(source: Seq<u8>, rows: Seq<RowView>, id: Seq<u8>)
    requires
        distinct_rows(rows),
    ensures
        edges_to(edges_to_rows(source, rows), id) == if has_row(rows, id) {
            seq![EdgeView { from_id: source, to_id: id }]
        } else {
            Seq::empty()
        },
    decreases rows.len(),
{
    reveal(Seq::filter);
    let edges = edges_to_rows(source, rows);
    if rows.len() > 0 {
        let init = rows.drop_last();
        assert(edges.drop_last() =~= edges_to_rows(source, init));
        assert(distinct_rows(init)) by {
            assert forall|i: int, j: int| 0 <= i < j < init.len() implies (#[trigger] init[i]).id != (
            #[trigger] init[j]).id by {
                assert(rows[i].id != rows[j].id);
            }
        }
        lemma_one_edge(source, init, id);
        assert(edges.last() == edge_to(source, rows.last()));
        if rows.last().id == id {
            if has_row(init, id) {
                let k = choose|k: int| 0 <= k < init.len() && (#[trigger] init[k]).id == id;
                assert(rows[k].id != rows[rows.len() - 1].id);
            }
            assert(rows[rows.len() - 1].id == id);
            assert(edges_to(edges, id) =~= seq![EdgeView { from_id: source, to_id: id }]);
        } else {
            if has_row(init, id) {
                let k = choose|k: int| 0 <= k < init.len() && (#[trigger] init[k]).id == id;
                assert(rows[k].id == id);
            }
            if has_row(rows, id) {
                let k = choose|k: int| 0 <= k < rows.len() && (#[trigger] rows[k]).id == id;
                assert(init[k].id == id);
            }
        }
    }
}

/// Edges to distinct rows, put into the order of those rows.
proof fn lemma_edges_in_order(
    source: Seq<u8>,
    given: Seq<RowView>,
    rows: Seq<RowView>,
)
    requires
        distinct_rows(given),
        distinct_rows(rows),
        forall|k: int| 0 <= k < rows.len() ==> has_row(given, (#[trigger] rows[k]).id),
    ensures
        in_row_order(rows, edges_to_rows(source, given)) == edges_to_rows(source, rows),
    decreases rows.len(),
{
    let edges = edges_to_rows(source, given);
    if rows.len() > 0 {
        let init = rows.drop_last();
        let last = rows[rows.len() - 1];
        assert(distinct_rows(init)) by {
            assert forall|i: int, j: int| 0 <= i < j < init.len() implies (#[trigger] init[i]).id != (
            #[trigger] init[j]).id by {
                assert(rows[i].id != rows[j].id);
            }
        }
        assert forall|k: int| 0 <= k < init.len() implies has_row(given, (#[trigger] init[k]).id) by {
            assert(has_row(given, rows[k].id));
        }
        lemma_edges_in_order(source, given, init);
        if has_row(init, last.id) {
            let k = choose|k: int| 0 <= k < init.len() && (#[trigger] init[k]).id == last.id;
            assert(rows[k].id != rows[rows.len() - 1].id);
        }
        lemma_one_edge(source, given, last.id);
        assert(has_row(given, last.id));
        assert(in_row_order(rows, edges) =~= edges_to_rows(source, rows));
    } else {
        assert(in_row_order(rows, edges) =~= edges_to_rows(source, rows));
    }
}

proof fn lemma_row_found(rows: Seq<RowView>, k: int)
    requires
        distinct_rows(rows),
        0 <= k < rows.len(),
    ensures
        row_with_id(rows, rows[k].id) == Some(rows[k]),
    decreases rows.len(),
{
    if k > 0 {
        assert(rows[0].id != rows[k].id);
        let rest = rows.drop_first();
        assert(distinct_rows(rest)) by {
            assert forall|i: int, j: int| 0 <= i < j < rest.len() implies (#[trigger] rest[i]).id != (
            #[trigger] rest[j]).id by {
                assert(rows[i + 1].id != rows[j + 1].id);
            }
        }
        lemma_row_found(rest, k - 1);
        assert(rest[k - 1] == rows[k]);
    }
}

/// Edges to some of the rows find these rows again.
proof fn lemma_attached_again(source: Seq<u8>, rows: Seq<RowView>, from: int, to: int)
    requires
        distinct_rows(rows),
        0 <= from <= to <= rows.len(),
    ensures
        attached(rows, edges_to_rows(source, rows).subrange(from, to)) == led_to(
            source,
            rows.subrange(from, to),
        ),
    decreases to - from,
{
    let some = edges_to_rows(source, rows).subrange(from, to);
    let expected = led_to(source, rows.subrange(from, to));
    if from < to {
        lemma_attached_again(source, rows, from, to - 1);
        assert(some.drop_last() =~= edges_to_rows(source, rows).subrange(from, to - 1));
        assert(some.last() == edge_to(source, rows[to - 1]));
        lemma_row_found(rows, to - 1);
        assert(attached(rows, some) =~= expected);
    } else {
        assert(attached(rows, some) =~= expected);
    }
}

proof fn lemma_one_source(source: Seq<u8>, rows: Seq<RowView>)
    ensures
        sources(edges_to_rows(source, rows)) == if rows.len() > 0 {
            seq![source]
        } else {
            Seq::empty()
        },
        edges_from(edges_to_rows(source, rows), source) == edges_to_rows(source, rows),
    decreases rows.len(),
{
    reveal(Seq::filter);
    let edges = edges_to_rows(source, rows);
    if rows.len() > 0 {
        let init = rows.drop_last();
        lemma_one_source(source, init);
        assert(edges.drop_last() =~= edges_to_rows(source, init));
        assert(edges.last().from_id == source);
        assert(seq![source].contains(seq![source][0]));
        assert(sources(edges) =~= seq![source]);
        assert(edges_from(edges, source) =~= edges);
    } else {
        assert(edges_from(edges, source) =~= edges);
    }
}

proof fn lemma_paged(source: Seq<u8>, s: Seq<RowView>, p: Pagination)
    requires
        distinct_rows(s),
    ensures
        paged_by_source(
            s,
            edges_to_rows(source, s),
            sources(edges_to_rows(source, s)),
            p,
        ) == led_to(source, page(s, p)),
{
    let edges = edges_to_rows(source, s);
    lemma_one_source(source, s);
    let wanted = page(s, p);
    let from = if p.offset < s.len() {
        p.offset as int
    } else {
        s.len() as int
    };
    let to = if p.end() < s.len() {
        p.end() as int
    } else {
        s.len() as int
    };
    lemma_attached_again(source, s, from, to);
    let nobody = Seq::<Seq<u8>>::empty();
    if s.len() > 0 {
        let one = seq![source];
        assert(one.drop_last() =~= nobody);
        assert(one.last() == source);
        assert(paged_by_source(s, edges, nobody, p) == Seq::<(RowView, EdgeView)>::empty());
        assert(paged_by_source(s, edges, one, p) =~= attached(s, page(edges, p)));
    } else {
        assert(led_to(source, wanted) =~= Seq::empty());
    }
}

proof fn lemma_ordered(source: Seq<u8>, rows: Seq<RowView>, order: Seq<OrderView>)
    requires
        distinct_rows(rows),
    ensures
        distinct_rows(sorted(rows, order)),
        ordered_edges(sorted(rows, order), edges_to_rows(source, rows), order) == edges_to_rows(
            source,
            sorted(rows, order),
        ),
{
    let s = sorted(rows, order);
    lemma_sorted_distinct(rows, order);
    if order.len() == 0 {
        assert(order =~= Seq::empty());
        law_unsorted_stays(rows);
    } else {
        law_sorting_keeps_rows(rows, order);
        lemma_same_members(s, rows);
        assert forall|k: int| 0 <= k < s.len() implies has_row(rows, (#[trigger] s[k]).id) by {
            assert(s.contains(s[k]));
            let a = choose|a: int| 0 <= a < rows.len() && rows[a] == s[k];
            assert(rows[a].id == s[k].id);
        }
        lemma_edges_in_order(source, rows, s);
    }
}

/// Of the entities that one source leads to, a page holds those that stand there when
/// all of them are sorted, each with its edge.
pub proof fn law_page_is_cut_after_sorting(
    source: Seq<u8>,
    rows: Seq<RowView>,
    rel: IncludeView,
    p: Pagination,
)
    requires
        distinct_rows(rows),
        rel.pagination == Some(p),
    ensures
        finished(led_to(source, rows), rel) == (
            page(sorted(rows, rel.order_by), p),
            edges_to_rows(source, page(sorted(rows, rel.order_by), p)),
        ),
{
    let pairs = led_to(source, rows);
    let s = sorted(rows, rel.order_by);
    assert(firsts(pairs) =~= rows);
    assert(seconds(pairs) =~= edges_to_rows(source, rows));
    lemma_ordered(source, rows, rel.order_by);
    lemma_paged(source, s, p);
    let wanted = page(s, p);
    assert(firsts(led_to(source, wanted)) =~= wanted);
    assert(seconds(led_to(source, wanted)) =~= edges_to_rows(source, wanted));
}

} // verus!
