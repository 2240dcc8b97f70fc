//! What is done to rows once they are found: sorting, paging, masking, and
//! turning them into blocks.

use vstd::prelude::*;
use vstd::utf8::encode_utf8;

use crate::bytes::{id_eq, lemma_lex_antisymmetric, lemma_lex_total, lex_lt, EntityId};
use crate::codec::{fields_view, Field};
use crate::query::ast::{
    edges_view, find_first, first_value, order_view, rows_view, values_view, BlockView, ColumnData,
    ColumnView, Edge, EdgeView, EntityBlock, EntityRow, OrderDirection, OrderSpec, OrderView,
    Pagination, RowView,
};
use crate::storage::columnar::{find_last, last_value};
use crate::storage::engine::id_among;
use crate::storage::hash_index::ids_view;
use crate::storage::index_ops::field_names;
use crate::text::{copy_texts, str_eq, texts};
use crate::value::{
    bytes_order, compare_values_opt, optional_order, value_order, Order, Value, ValueView,
};

verus! {

/// How two rows stand to each other: by the first field in which they differ.
pub open spec fn row_order(a: RowView, b: RowView, order: Seq<OrderView>) -> Order
    decreases order.len(),
{
    if order.len() == 0 {
        Order::Equal
    } else {
        let o = optional_order(
            first_value(a.fields, order[0].0),
            first_value(b.fields, order[0].0),
        );
        let o = if order[0].1 == OrderDirection::Desc {
            o.flipped()
        } else {
            o
        };
        if o != Order::Equal {
            o
        } else {
            row_order(a, b, order.drop_first())
        }
    }
}

/// A sorted sequence with a row put in: behind all that do not come after it.
pub open spec fn placed(s: Seq<RowView>, r: RowView, order: Seq<OrderView>) -> Seq<RowView>
    decreases s.len(),
{
    if s.len() == 0 || row_order(s.last(), r, order) != Order::Greater {
        s.push(r)
    } else {
        placed(s.drop_last(), r, order).push(s.last())
    }
}

/// The rows in order; rows that tie keep the order they had.
pub open spec fn sorted(rows: Seq<RowView>, order: Seq<OrderView>) -> Seq<RowView>
    decreases rows.len(),
{
    if rows.len() == 0 {
        Seq::empty()
    } else {
        placed(sorted(rows.drop_last(), order), rows.last(), order)
    }
}

/// How two rows stand to each other.
pub fn compare_rows(a: &EntityRow, b: &EntityRow, order_by: &[OrderSpec]) -> (r: Order)
    ensures
        r == row_order(a@, b@, order_view(order_by@)),
{
    let ghost order = order_view(order_by@);
    let mut i: usize = 0;
    assert(order.skip(0) =~= order);
    while i < order_by.len()
        invariant
            i <= order_by@.len(),
            order == order_view(order_by@),
            row_order(a@, b@, order) == row_order(a@, b@, order.skip(i as int)),
        decreases order_by@.len() - i,
    {
        let spec: &OrderSpec = &order_by[i];
        proof {
            assert(order.skip(i as int)[0] == spec@);
            assert(order.skip(i as int).drop_first() =~= order.skip(i + 1));
        }
        let x: Option<&Value> = find_first(a.fields.as_slice(), spec.field.as_str());
        let y: Option<&Value> = find_first(b.fields.as_slice(), spec.field.as_str());
        let o: Order = compare_values_opt(x, y);
        let o: Order = match spec.direction {
            OrderDirection::Asc => o,
            OrderDirection::Desc => o.reverse(),
        };
        if o != Order::Equal {
            return o;
        }
        i = i + 1;
    }
    Order::Equal
}

proof fn lemma_placed_at(s: Seq<RowView>, r: RowView, order: Seq<OrderView>, n: int)
    requires
        0 <= n <= s.len(),
        n == 0 || row_order(s[n - 1], r, order) != Order::Greater,
        forall|k: int| n <= k < s.len() ==> row_order(#[trigger] s[k], r, order) == Order::Greater,
    ensures
        placed(s, r, order) == s.insert(n, r),
    decreases s.len(),
{
    if n == s.len() {
        assert(s.insert(n, r) =~= s.push(r));
    } else {
        let init = s.drop_last();
        assert(row_order(s[s.len() - 1], r, order) == Order::Greater);
        assert forall|k: int| n <= k < init.len() implies row_order(#[trigger] init[k], r, order)
            == Order::Greater by {
            assert(init[k] == s[k]);
        }
        lemma_placed_at(init, r, order, n);
        assert(s.insert(n, r) =~= init.insert(n, r).push(s.last()));
    }
}

/// Sorts rows. Rows that tie keep the order they had.
pub fn sort_rows(rows: &mut Vec<EntityRow>, order_by: &[OrderSpec])
    ensures
        rows_view(final(rows)@) == sorted(rows_view(old(rows)@), order_view(order_by@)),
{
    let ghost all = rows_view(rows@);
    let ghost order = order_view(order_by@);
    let mut i: usize = 0;
    proof {
        assert(all.take(0) =~= Seq::<RowView>::empty());
        assert(all =~= sorted(all.take(0), order) + all.skip(0));
    }
    while i < rows.len()
        invariant
            i <= rows@.len(),
            order == order_view(order_by@),
            rows@.len() == all.len(),
            sorted(all.take(i as int), order).len() == i,
            rows_view(rows@) == sorted(all.take(i as int), order) + all.skip(i as int),
        decreases rows@.len() - i,
    {
        let ghost head = sorted(all.take(i as int), order);
        let ghost view = rows_view(rows@);
        let row: EntityRow = rows.remove(i);
        proof {
            assert(row@ == view[i as int]);
            assert(view[i as int] == all[i as int]);
            assert(rows_view(rows@) =~= view.remove(i as int));
            assert(rows_view(rows@) =~= head + all.skip(i + 1));
            assert(all.take(i + 1).drop_last() =~= all.take(i as int));
            assert(all.take(i + 1).last() == all[i as int]);
        }
        let mut n: usize = i;
        while n > 0 && compare_rows(&rows[n - 1], &row, order_by) == Order::Greater
            invariant
                n <= i,
                i <= rows@.len(),
                order == order_view(order_by@),
                head.len() == i,
                rows_view(rows@) == head + all.skip(i + 1),
                forall|k: int|
                    n <= k < i ==> row_order(#[trigger] head[k], row@, order) == Order::Greater,
            decreases n,
        {
            n = n - 1;
            assert(rows_view(rows@)[n as int] == rows@[n as int]@);
            assert(head[n as int] == rows@[n as int]@);
        }
        proof {
            if n > 0 {
                assert(rows_view(rows@)[n - 1] == rows@[n - 1]@);
                assert(head[n - 1] == rows@[n - 1]@);
            }
            lemma_placed_at(head, row@, order, n as int);
        }
        let ghost rest = rows_view(rows@);
        let ghost placed_row = row@;
        rows.insert(n, row);
        proof {
            assert(rows_view(rows@) =~= rest.insert(n as int, placed_row));
            assert(rows_view(rows@) =~= head.insert(n as int, placed_row) + all.skip(i + 1));
        }
        i = i + 1;
    }
    assert(all.take(all.len() as int) =~= all);
    assert(sorted(all, order) + all.skip(all.len() as int) =~= sorted(all, order));
}

/// Sorting neither loses a row nor adds one.
pub proof fn law_sorting_keeps_rows(rows: Seq<RowView>, order: Seq<OrderView>)
    ensures
        sorted(rows, order).to_multiset() == rows.to_multiset(),
        sorted(rows, order).len() == rows.len(),
    decreases rows.len(),
{
    broadcast use vstd::seq_lib::group_to_multiset_ensures;

    if rows.len() > 0 {
        let init = rows.drop_last();
        law_sorting_keeps_rows(init, order);
        lemma_placed_keeps(sorted(init, order), rows.last(), order);
        assert(rows =~= init.push(rows.last()));
    } else {
        assert(rows =~= Seq::<RowView>::empty());
    }
}

proof fn lemma_placed_keeps(s: Seq<RowView>, r: RowView, order: Seq<OrderView>)
    ensures
        placed(s, r, order).to_multiset() == s.to_multiset().insert(r),
        placed(s, r, order).len() == s.len() + 1,
    decreases s.len(),
{
    broadcast use vstd::seq_lib::group_to_multiset_ensures;

    if s.len() == 0 || row_order(s.last(), r, order) != Order::Greater {
    } else {
        let init = s.drop_last();
        lemma_placed_keeps(init, r, order);
        assert(s =~= init.push(s.last()));
        assert(placed(s, r, order).to_multiset() =~= s.to_multiset().insert(r));
    }
}

/// Without anything to sort by, rows stay as they are.
pub proof fn law_unsorted_stays(rows: Seq<RowView>)
    ensures
        sorted(rows, Seq::empty()) == rows,
    decreases rows.len(),
{
    if rows.len() > 0 {
        law_unsorted_stays(rows.drop_last());
        assert(rows.drop_last().push(rows.last()) =~= rows);
    } else {
        assert(rows =~= Seq::<RowView>::empty());
    }
}

/// Whether not coming after is transitive on rows. It is where the values that
/// they are sorted by are of kinds that compare.
#[verifier::opaque]
pub open spec fn consistently_ordered(rows: Seq<RowView>, order: Seq<OrderView>) -> bool {
    forall|a: RowView, b: RowView, c: RowView|
        rows.contains(a) && rows.contains(b) && rows.contains(c) && #[trigger] row_order(a, b, order)
            != Order::Greater && #[trigger] row_order(b, c, order) != Order::Greater ==> row_order(
            a,
            c,
            order,
        ) != Order::Greater
}

proof fn lemma_order_transits(
    rows: Seq<RowView>,
    order: Seq<OrderView>,
    a: RowView,
    b: RowView,
    c: RowView,
)
    requires
        consistently_ordered(rows, order),
        rows.contains(a),
        rows.contains(b),
        rows.contains(c),
        row_order(a, b, order) != Order::Greater,
        row_order(b, c, order) != Order::Greater,
    ensures
        row_order(a, c, order) != Order::Greater,
{
    reveal(consistently_ordered);
}

proof fn lemma_fewer_consistent(rows: Seq<RowView>, order: Seq<OrderView>)
    requires
        rows.len() > 0,
        consistently_ordered(rows, order),
    ensures
        consistently_ordered(rows.drop_last(), order),
{
    reveal(consistently_ordered);
    let init = rows.drop_last();
    assert forall|x: RowView| init.contains(x) implies rows.contains(x) by {
        let k = choose|k: int| 0 <= k < init.len() && init[k] == x;
        assert(rows[k] == x);
    }
}

proof fn lemma_bytes_order_flips(a: Seq<u8>, b: Seq<u8>)
    ensures
        bytes_order(a, b) == bytes_order(b, a).flipped(),
{
    lemma_lex_total(a, b);
    if lex_lt(a, b) {
        lemma_lex_antisymmetric(a, b);
    }
}

/// Swapping two values turns their order round.
pub proof fn lemma_value_order_flips(a: ValueView, b: ValueView)
    ensures
        value_order(a, b) == value_order(b, a).flipped(),
{
    match (a, b) {
        (ValueView::String(x), ValueView::String(y)) => {
            lemma_bytes_order_flips(encode_utf8(x), encode_utf8(y));
        },
        (ValueView::Uuid(x), ValueView::Uuid(y)) => {
            lemma_bytes_order_flips(x, y);
        },
        (ValueView::Bytes(x), ValueView::Bytes(y)) => {
            lemma_bytes_order_flips(x, y);
        },
        _ => {},
    }
}

/// Swapping two rows turns their order round.
pub proof fn law_row_order_flips(a: RowView, b: RowView, order: Seq<OrderView>)
    ensures
        row_order(a, b, order) == row_order(b, a, order).flipped(),
    decreases order.len(),
{
    if order.len() > 0 {
        let x = first_value(a.fields, order[0].0);
        let y = first_value(b.fields, order[0].0);
        if x is Some && y is Some {
            lemma_value_order_flips(x->0, y->0);
        }
        law_row_order_flips(a, b, order.drop_first());
    }
}

/// Whether no row of a sequence comes after a row.
pub open spec fn none_after(s: Seq<RowView>, r: RowView, order: Seq<OrderView>) -> bool {
    forall|k: int| 0 <= k < s.len() ==> row_order(#[trigger] s[k], r, order) != Order::Greater
}

/// Whether no row comes after one that follows it.
pub open spec fn in_order(s: Seq<RowView>, order: Seq<OrderView>) -> bool
    decreases s.len(),
{
    s.len() == 0 || (in_order(s.drop_last(), order) && none_after(s.drop_last(), s.last(), order))
}

/// Sorted rows are in order.
pub proof fn law_sorted_is_ordered(rows: Seq<RowView>, order: Seq<OrderView>)
    requires
        consistently_ordered(rows, order),
    ensures
        in_order(sorted(rows, order), order),
    decreases rows.len(),
{
    if rows.len() > 0 {
        let init = rows.drop_last();
        let r = rows.last();
        assert(rows[rows.len() - 1] == r);
        assert(rows.contains(r));
        lemma_fewer_consistent(rows, order);
        law_sorted_is_ordered(init, order);
        law_sorting_keeps_rows(init, order);
        let s = sorted(init, order);
        lemma_same_members(s, init);
        assert forall|x: RowView| s.contains(x) implies rows.contains(x) by {
            let k = choose|k: int| 0 <= k < init.len() && init[k] == x;
            assert(rows[k] == x);
        }
        lemma_placed_ordered(s, r, order, rows);
    }
}

pub proof fn lemma_same_members(s: Seq<RowView>, t: Seq<RowView>)
    requires
        s.to_multiset() == t.to_multiset(),
    ensures
        forall|x: RowView| s.contains(x) == t.contains(x),
{
    broadcast use vstd::seq_lib::group_to_multiset_ensures;

    assert forall|x: RowView| s.contains(x) == t.contains(x) by {
        assert(s.contains(x) <==> s.to_multiset().count(x) > 0);
        assert(t.contains(x) <==> t.to_multiset().count(x) > 0);
    }
}

proof fn lemma_placed_ordered(s: Seq<RowView>, r: RowView, order: Seq<OrderView>, all: Seq<RowView>)
    requires
        consistently_ordered(all, order),
        all.contains(r),
        forall|x: RowView| s.contains(x) ==> all.contains(x),
        in_order(s, order),
    ensures
        in_order(placed(s, r, order), order),
    decreases s.len(),
{
    if s.len() == 0 {
        assert(s.push(r).drop_last() =~= s);
    } else {
        let init = s.drop_last();
        let last = s[s.len() - 1];
        assert(s.contains(last));
        assert forall|x: RowView| init.contains(x) implies all.contains(x) by {
            let k = choose|k: int| 0 <= k < init.len() && init[k] == x;
            assert(s[k] == x);
            assert(s.contains(x));
        }
        if row_order(last, r, order) != Order::Greater {
            assert(s.push(r).drop_last() =~= s);
            assert forall|k: int| 0 <= k < s.len() implies row_order(#[trigger] s[k], r, order)
                != Order::Greater by {
                if k < s.len() - 1 {
                    assert(init[k] == s[k]);
                    assert(init.contains(init[k]));
                    lemma_order_transits(all, order, s[k], last, r);
                }
            }
        } else {
            lemma_placed_ordered(init, r, order, all);
            let u = placed(init, r, order);
            law_row_order_flips(r, last, order);
            assert forall|k: int| 0 <= k < u.len() implies row_order(#[trigger] u[k], last, order)
                != Order::Greater by {
                assert(u.contains(u[k]));
                lemma_placed_member(init, r, order, u[k]);
                if u[k] != r {
                    let m = choose|m: int| 0 <= m < init.len() && init[m] == u[k];
                    assert(row_order(init[m], last, order) != Order::Greater);
                }
            }
            assert(u.push(last).drop_last() =~= u);
        }
    }
}

proof fn lemma_placed_member(s: Seq<RowView>, r: RowView, order: Seq<OrderView>, x: RowView)
    requires
        placed(s, r, order).contains(x),
    ensures
        x == r || s.contains(x),
    decreases s.len(),
{
    let t = placed(s, r, order);
    let k = choose|k: int| 0 <= k < t.len() && t[k] == x;
    if s.len() == 0 || row_order(s.last(), r, order) != Order::Greater {
        if k < s.len() {
            assert(s[k] == x);
        }
    } else {
        let init = s.drop_last();
        if k < t.len() - 1 {
            assert(placed(init, r, order)[k] == x);
            lemma_placed_member(init, r, order, x);
            if x != r {
                let m = choose|m: int| 0 <= m < init.len() && init[m] == x;
                assert(s[m] == x);
            }
        } else {
            assert(s[s.len() - 1] == x);
        }
    }
}

/// The rows that tie with a row, in order.
pub open spec fn ties(s: Seq<RowView>, r: RowView, order: Seq<OrderView>) -> Seq<RowView>
    decreases s.len(),
{
    if s.len() == 0 {
        Seq::empty()
    } else if row_order(s.last(), r, order) == Order::Equal {
        ties(s.drop_last(), r, order).push(s.last())
    } else {
        ties(s.drop_last(), r, order)
    }
}

/// Rows that tie with a row keep the order they had.
pub proof fn law_sorting_is_stable(rows: Seq<RowView>, order: Seq<OrderView>, r: RowView)
    requires
        consistently_ordered(rows, order),
        rows.contains(r),
    ensures
        ties(sorted(rows, order), r, order) == ties(rows, r, order),
{
    lemma_stable(rows, order, r, rows);
}

proof fn lemma_stable(rows: Seq<RowView>, order: Seq<OrderView>, r: RowView, all: Seq<RowView>)
    requires
        consistently_ordered(all, order),
        all.contains(r),
        forall|x: RowView| rows.contains(x) ==> all.contains(x),
    ensures
        ties(sorted(rows, order), r, order) == ties(rows, r, order),
    decreases rows.len(),
{
    if rows.len() > 0 {
        let init = rows.drop_last();
        assert forall|x: RowView| init.contains(x) implies all.contains(x) by {
            let k = choose|k: int| 0 <= k < init.len() && init[k] == x;
            assert(rows[k] == x);
            assert(rows.contains(x));
        }
        lemma_stable(init, order, r, all);
        law_sorting_keeps_rows(init, order);
        lemma_same_members(sorted(init, order), init);
        assert(rows[rows.len() - 1] == rows.last());
        assert(rows.contains(rows.last()));
        lemma_placed_stable(sorted(init, order), rows.last(), order, r, all);
        let s = sorted(init, order);
        assert(s.push(rows.last()).drop_last() =~= s);
    }
}

proof fn lemma_placed_stable(
    s: Seq<RowView>,
    new: RowView,
    order: Seq<OrderView>,
    r: RowView,
    all: Seq<RowView>,
)
    requires
        consistently_ordered(all, order),
        all.contains(r),
        all.contains(new),
        forall|x: RowView| s.contains(x) ==> all.contains(x),
    ensures
        ties(placed(s, new, order), r, order) == ties(s.push(new), r, order),
    decreases s.len(),
{
    reveal_with_fuel(ties, 3);
    if s.len() > 0 && row_order(s.last(), new, order) == Order::Greater {
        let init = s.drop_last();
        let last = s[s.len() - 1];
        assert(s.contains(last));
        assert forall|x: RowView| init.contains(x) implies all.contains(x) by {
            let k = choose|k: int| 0 <= k < init.len() && init[k] == x;
            assert(s[k] == x);
            assert(s.contains(x));
        }
        lemma_placed_stable(init, new, order, r, all);
        let t = placed(init, new, order);
        assert(t.push(last).drop_last() =~= t);
        assert(s.push(new).drop_last() =~= s);
        assert(init.push(new).drop_last() =~= init);
        if row_order(new, r, order) == Order::Equal && row_order(last, r, order) == Order::Equal {
            law_row_order_flips(r, new, order);
            lemma_order_transits(all, order, last, r, new);
        }
    }
}

/// The wanted part of rows.
pub open spec fn page<T>(rows: Seq<T>, p: Pagination) -> Seq<T> {
    let start = if p.offset < rows.len() {
        p.offset as int
    } else {
        rows.len() as int
    };
    let end = if p.end() < rows.len() {
        p.end() as int
    } else {
        rows.len() as int
    };
    rows.subrange(start, end)
}

/// The wanted part of rows, where a part is asked for.
pub open spec fn paged<T>(rows: Seq<T>, p: Option<Pagination>) -> Seq<T> {
    match p {
        Some(p) => page(rows, p),
        None => rows,
    }
}

/// Whether there are rows after the wanted part.
pub open spec fn more_after(count: nat, p: Option<Pagination>) -> bool {
    match p {
        Some(p) => p.end() < count,
        None => false,
    }
}

/// Leaves the wanted part of rows. Tells whether there are rows after it.
pub fn apply_pagination(rows: &mut Vec<EntityRow>, pagination: &Option<Pagination>) -> (more: bool)
    ensures
        rows_view(final(rows)@) == paged(rows_view(old(rows)@), *pagination),
        more == more_after(old(rows)@.len(), *pagination),
{
    let ghost all = rows_view(rows@);
    if let Some(p) = pagination {
        let offset: usize = p.offset as usize;
        let limit: usize = p.limit as usize;
        if offset > 0 {
            if offset >= rows.len() {
                rows.clear();
                assert(rows_view(rows@) =~= page(all, *p));
                return false;
            }
            let ghost before = rows@;
            let mut rest: Vec<EntityRow> = rows.split_off(offset);
            rows.clear();
            rows.append(&mut rest);
            assert(rows@ =~= before.skip(offset as int));
        }
        assert(rows_view(rows@) =~= all.skip(offset as int));
        if limit < rows.len() {
            rows.truncate(limit);
            assert(rows_view(rows@) =~= page(all, *p));
            return true;
        }
        assert(rows_view(rows@) =~= page(all, *p));
    }
    false
}

/// Pages that follow each other make up all rows: none is lost, none comes
/// twice.
pub proof fn law_pages_partition<T>(rows: Seq<T>, limit: u32, offset: u32)
    requires
        offset + limit <= u32::MAX,
    ensures
        page(rows, Pagination { limit, offset }) + page(
            rows,
            Pagination { limit: u32::MAX, offset: (offset + limit) as u32 },
        ) == page(rows, Pagination { limit: u32::MAX, offset }) || rows.len() > u32::MAX,
        page(rows, Pagination { limit, offset }).len() <= limit,
        more_after(rows.len(), Some(Pagination { limit, offset })) ==> page(
            rows,
            Pagination { limit, offset },
        ).len() == limit,
{
    let a = page(rows, Pagination { limit, offset });
    let b = page(rows, Pagination { limit: u32::MAX, offset: (offset + limit) as u32 });
    let c = page(rows, Pagination { limit: u32::MAX, offset });
    if rows.len() <= u32::MAX {
        assert(a + b =~= c);
    }
}

/// What is done to a field's values before they are returned.
#[derive(Debug)]
pub enum MaskRule {
    /// They are returned as they are.
    Open,
    /// This value is returned in their place.
    Masked(Value),
    /// The field is left out.
    Omitted,
}

/// A mask rule in mathematical terms.
pub ghost enum RuleView {
    /// See [`MaskRule::Open`].
    Open,
    /// See [`MaskRule::Masked`].
    Masked(ValueView),
    /// See [`MaskRule::Omitted`].
    Omitted,
}

/// The mask of a field of an entity type.
#[derive(Debug)]
pub struct FieldMask {
    /// The type.
    pub entity: String,
    /// The field.
    pub field: String,
    /// What is done to its values.
    pub rule: MaskRule,
}

/// A mask in mathematical terms.
pub ghost struct MaskView {
    /// The type.
    pub entity: Seq<char>,
    /// The field.
    pub field: Seq<char>,
    /// What is done to its values.
    pub rule: RuleView,
}

impl View for MaskRule {
    type V = RuleView;

    open spec fn view(&self) -> RuleView {
        match *self {
            MaskRule::Open => RuleView::Open,
            MaskRule::Masked(v) => RuleView::Masked(v@),
            MaskRule::Omitted => RuleView::Omitted,
        }
    }
}

impl View for FieldMask {
    type V = MaskView;

    open spec fn view(&self) -> MaskView {
        MaskView { entity: self.entity@, field: self.field@, rule: self.rule@ }
    }
}

impl FieldMask {
    /// A copy of the mask.
    pub fn copy(&self) -> (m: FieldMask)
        ensures
            m@ == self@,
    {
        FieldMask {
            entity: self.entity.clone(),
            field: self.field.clone(),
            rule: match &self.rule {
                MaskRule::Open => MaskRule::Open,
                MaskRule::Masked(v) => MaskRule::Masked(v.copy()),
                MaskRule::Omitted => MaskRule::Omitted,
            },
        }
    }
}

/// Copies masks.
pub fn copy_masks(masks: &Vec<FieldMask>) -> (out: Vec<FieldMask>)
    ensures
        masks_view(out@) == masks_view(masks@),
{
    let mut out: Vec<FieldMask> = Vec::new();
    let mut i: usize = 0;
    while i < masks.len()
        invariant
            i <= masks@.len(),
            out@.len() == i,
            forall|k: int| 0 <= k < i ==> (#[trigger] out@[k])@ == masks@[k]@,
        decreases masks@.len() - i,
    {
        out.push(masks[i].copy());
        i = i + 1;
    }
    assert(masks_view(out@) =~= masks_view(masks@));
    out
}

/// Masks in mathematical terms.
pub open spec fn masks_view(masks: Seq<FieldMask>) -> Seq<MaskView> {
    masks.map_values(|m: FieldMask| m@)
}

/// What is done to a field's values: what the first mask for it says, and
/// nothing where there is none.
pub open spec fn rule_for(masks: Seq<MaskView>, entity: Seq<char>, field: Seq<char>) -> RuleView
    decreases masks.len(),
{
    if masks.len() == 0 {
        RuleView::Open
    } else if masks[0].entity == entity && masks[0].field == field {
        masks[0].rule
    } else {
        rule_for(masks.drop_first(), entity, field)
    }
}

/// A value after it has been masked.
pub open spec fn masked(rule: RuleView, v: ValueView) -> ValueView {
    match rule {
        RuleView::Open => v,
        RuleView::Masked(m) => m,
        RuleView::Omitted => ValueView::Null,
    }
}

/// What is done to a field's values.
pub fn find_rule<'a>(masks: &'a [FieldMask], entity: &str, field: &str) -> (r: Option<&'a MaskRule>)
    ensures
        rule_for(masks_view(masks@), entity@, field@) == match r {
            Some(rule) => rule@,
            None => RuleView::Open,
        },
{
    let ghost all = masks_view(masks@);
    let mut i: usize = 0;
    assert(all.skip(0) =~= all);
    while i < masks.len()
        invariant
            i <= masks@.len(),
            all == masks_view(masks@),
            rule_for(all, entity@, field@) == rule_for(all.skip(i as int), entity@, field@),
        decreases masks@.len() - i,
    {
        proof {
            assert(all.skip(i as int)[0] == masks@[i as int]@);
            assert(all.skip(i as int).drop_first() =~= all.skip(i + 1));
        }
        if str_eq(masks[i].entity.as_str(), entity) && str_eq(masks[i].field.as_str(), field) {
            return Some(&masks[i].rule);
        }
        i = i + 1;
    }
    None
}

/// The fields that a block has: those asked for, or all that the first row has,
/// without those that are left out.
pub open spec fn block_names(
    entity: Seq<char>,
    rows: Seq<RowView>,
    projected: Seq<Seq<char>>,
    masks: Seq<MaskView>,
) -> Seq<Seq<char>> {
    let names = if projected.len() == 0 {
        field_names(rows[0].fields)
    } else {
        projected
    };
    names.filter(|n: Seq<char>| !(rule_for(masks, entity, n) is Omitted))
}

/// Whether no later column has the same name.
pub open spec fn last_of_name(names: Seq<Seq<char>>, c: int) -> bool {
    forall|d: int| c < d < names.len() ==> #[trigger] names[d] != names[c]
}

/// The value of a row in a column. Of columns with one name only the last is
/// filled.
pub open spec fn cell(
    entity: Seq<char>,
    row: RowView,
    names: Seq<Seq<char>>,
    c: int,
    masks: Seq<MaskView>,
) -> ValueView {
    match last_value(row.fields, names[c]) {
        Some(v) => if last_of_name(names, c) {
            masked(rule_for(masks, entity, names[c]), v)
        } else {
            ValueView::Null
        },
        None => ValueView::Null,
    }
}

/// A column of a block.
pub open spec fn block_column(
    entity: Seq<char>,
    rows: Seq<RowView>,
    names: Seq<Seq<char>>,
    c: int,
    masks: Seq<MaskView>,
) -> ColumnView {
    ColumnView {
        name: names[c],
        values: rows.map_values(|r: RowView| cell(entity, r, names, c, masks)),
    }
}

/// The identifiers of rows.
pub open spec fn row_ids(rows: Seq<RowView>) -> Seq<Seq<u8>> {
    rows.map_values(|r: RowView| r.id)
}

/// The block that rows make.
pub open spec fn block_of(
    entity: Seq<char>,
    rows: Seq<RowView>,
    projected: Seq<Seq<char>>,
    masks: Seq<MaskView>,
) -> BlockView {
    if rows.len() == 0 {
        BlockView { entity, ids: Seq::empty(), columns: Seq::empty() }
    } else {
        let names = block_names(entity, rows, projected, masks);
        BlockView {
            entity,
            ids: row_ids(rows),
            columns: Seq::new(
                names.len(),
                |c: int| block_column(entity, rows, names, c, masks),
            ),
        }
    }
}

/// The identifiers of rows.
pub fn ids_of_rows(rows: &Vec<EntityRow>) -> (ids: Vec<EntityId>)
    ensures
        ids_view(ids@) == row_ids(rows_view(rows@)),
{
    let mut ids: Vec<EntityId> = Vec::new();
    let mut i: usize = 0;
    while i < rows.len()
        invariant
            i <= rows@.len(),
            ids@.len() == i,
            forall|k: int| 0 <= k < i ==> (#[trigger] ids@[k])@ == rows@[k].id@,
        decreases rows@.len() - i,
    {
        ids.push(rows[i].id);
        i = i + 1;
    }
    assert(ids_view(ids@) =~= row_ids(rows_view(rows@)));
    ids
}

fn is_last_of_name(names: &Vec<String>, c: usize) -> (r: bool)
    requires
        c < names@.len(),
    ensures
        r == last_of_name(texts(names@), c as int),
{
    let ghost all = texts(names@);
    let total: usize = names.len();
    let mut d: usize = c + 1;
    while d < total
        invariant
            c < d <= names@.len() == total,
            all == texts(names@),
            forall|k: int| c < k < d ==> #[trigger] all[k] != all[c as int],
        decreases names@.len() - d,
    {
        assert(all[d as int] == names@[d as int]@);
        assert(all[c as int] == names@[c as int]@);
        if str_eq(names[d].as_str(), names[c].as_str()) {
            return false;
        }
        d = d + 1;
    }
    true
}

fn build_column(
    entity: &str,
    rows: &Vec<EntityRow>,
    names: &Vec<String>,
    c: usize,
    masks: &[FieldMask],
) -> (column: ColumnData)
    requires
        c < names@.len(),
    ensures
        column@ == block_column(
            entity@,
            rows_view(rows@),
            texts(names@),
            c as int,
            masks_view(masks@),
        ),
{
    let ghost all = texts(names@);
    let ghost views = rows_view(rows@);
    let ghost ms = masks_view(masks@);
    let name: &String = &names[c];
    assert(all[c as int] == name@);
    let filled: bool = is_last_of_name(names, c);
    let rule: Option<&MaskRule> = find_rule(masks, entity, name.as_str());
    let mut values: Vec<Value> = Vec::new();
    let mut i: usize = 0;
    while i < rows.len()
        invariant
            i <= rows@.len(),
            c < names@.len(),
            all == texts(names@),
            all[c as int] == name@,
            views == rows_view(rows@),
            filled == last_of_name(all, c as int),
            rule_for(ms, entity@, name@) == match rule {
                Some(rule) => rule@,
                None => RuleView::Open,
            },
            values@.len() == i,
            forall|k: int|
                0 <= k < i ==> (#[trigger] values@[k])@ == cell(
                    entity@,
                    views[k],
                    all,
                    c as int,
                    ms,
                ),
        decreases rows@.len() - i,
    {
        assert(views[i as int] == rows@[i as int]@);
        let value: Value = match find_last(rows[i].fields.as_slice(), name.as_str()) {
            Some(v) => if filled {
                match rule {
                    Some(MaskRule::Masked(m)) => m.copy(),
                    Some(MaskRule::Omitted) => Value::Null,
                    _ => v.copy(),
                }
            } else {
                Value::Null
            },
            None => Value::Null,
        };
        values.push(value);
        i = i + 1;
    }
    assert(values_view(values@) =~= views.map_values(
        |r: RowView| cell(entity@, r, all, c as int, ms),
    ));
    ColumnData { name: name.clone(), values }
}

/// Makes a block from rows.
pub fn build_entity_block(
    entity: &str,
    rows: &Vec<EntityRow>,
    projected_fields: &[String],
    masks: &[FieldMask],
) -> (block: EntityBlock)
    ensures
        block@ == block_of(
            entity@,
            rows_view(rows@),
            texts(projected_fields@),
            masks_view(masks@),
        ),
{
    let ghost views = rows_view(rows@);
    let ghost ms = masks_view(masks@);
    if rows.len() == 0 {
        let block = EntityBlock { entity: entity.to_owned(), ids: Vec::new(), columns: Vec::new() };
        assert(block@.ids =~= Seq::<Seq<u8>>::empty());
        assert(block@.columns =~= Seq::<ColumnView>::empty());
        return block;
    }
    assert(views[0] == rows@[0]@);
    let names: Vec<String> = kept_names(entity, &rows[0], projected_fields, masks);
    let ghost all = texts(names@);
    let mut columns: Vec<ColumnData> = Vec::new();
    let mut c: usize = 0;
    while c < names.len()
        invariant
            c <= names@.len(),
            all == texts(names@),
            views == rows_view(rows@),
            ms == masks_view(masks@),
            columns@.len() == c,
            forall|k: int|
                0 <= k < c ==> (#[trigger] columns@[k])@ == block_column(
                    entity@,
                    views,
                    all,
                    k,
                    ms,
                ),
        decreases names@.len() - c,
    {
        columns.push(build_column(entity, rows, &names, c, masks));
        c = c + 1;
    }
    let block = EntityBlock { entity: entity.to_owned(), ids: ids_of_rows(rows), columns };
    assert(block@.columns =~= Seq::new(
        all.len(),
        |c: int| block_column(entity@, views, all, c, ms),
    ));
    block
}

fn kept_names(
    entity: &str,
    first: &EntityRow,
    projected_fields: &[String],
    masks: &[FieldMask],
) -> (out: Vec<String>)
    ensures
        texts(out@) == (if projected_fields@.len() == 0 {
            field_names(first@.fields)
        } else {
            texts(projected_fields@)
        }).filter(|n: Seq<char>| !(rule_for(masks_view(masks@), entity@, n) is Omitted)),
{
    let names: Vec<String> = if projected_fields.len() == 0 {
        names_of(first.fields.as_slice())
    } else {
        copy_texts(projected_fields)
    };
    let ghost all = texts(names@);
    let ghost ms = masks_view(masks@);
    let ghost keep = |n: Seq<char>| !(rule_for(ms, entity@, n) is Omitted);
    let mut out: Vec<String> = Vec::new();
    let mut i: usize = 0;
    proof {
        reveal(Seq::filter);
        assert(all.take(0) =~= Seq::<Seq<char>>::empty());
        assert(texts(out@) =~= all.take(0).filter(keep));
    }
    while i < names.len()
        invariant
            i <= names@.len(),
            all == texts(names@),
            ms == masks_view(masks@),
            keep == (|n: Seq<char>| !(rule_for(ms, entity@, n) is Omitted)),
            texts(out@) == all.take(i as int).filter(keep),
        decreases names@.len() - i,
    {
        let ghost before = texts(out@);
        proof {
            reveal(Seq::filter);
            assert(all.take(i + 1).drop_last() =~= all.take(i as int));
            assert(all.take(i + 1).last() == names@[i as int]@);
        }
        let omitted: bool = match find_rule(masks, entity, names[i].as_str()) {
            Some(MaskRule::Omitted) => true,
            _ => false,
        };
        if !omitted {
            out.push(names[i].clone());
            assert(texts(out@) =~= before.push(names@[i as int]@));
        }
        i = i + 1;
    }
    assert(all.take(all.len() as int) =~= all);
    out
}

fn names_of(fields: &[Field]) -> (out: Vec<String>)
    ensures
        texts(out@) == field_names(fields_view(fields@)),
{
    let mut out: Vec<String> = Vec::new();
    let mut i: usize = 0;
    while i < fields.len()
        invariant
            i <= fields@.len(),
            out@.len() == i,
            forall|k: int| 0 <= k < i ==> (#[trigger] out@[k])@ == fields@[k].0@,
        decreases fields@.len() - i,
    {
        out.push(fields[i].0.clone());
        i = i + 1;
    }
    assert(texts(out@) =~= field_names(fields_view(fields@)));
    out
}

/// A block has a value for each of its entities in each of its columns, and no
/// column for a field that is left out.
pub proof fn law_block_is_rectangular(
    entity: Seq<char>,
    rows: Seq<RowView>,
    projected: Seq<Seq<char>>,
    masks: Seq<MaskView>,
    c: int,
)
    requires
        0 <= c < block_of(entity, rows, projected, masks).columns.len(),
    ensures
        ({
            let block = block_of(entity, rows, projected, masks);
            &&& block.ids.len() == rows.len()
            &&& block.columns[c].values.len() == rows.len()
            &&& !(rule_for(masks, entity, block.columns[c].name) is Omitted)
        }),
{
    let all = if projected.len() == 0 {
        field_names(rows[0].fields)
    } else {
        projected
    };
    let keep = |n: Seq<char>| !(rule_for(masks, entity, n) is Omitted);
    all.lemma_filter_pred(keep, c);
}

/// No value of a field that is masked is shown: a column of such a field holds the
/// mask, and nothing where an entity has no value.
pub proof fn law_masked_values_stay_hidden(
    entity: Seq<char>,
    rows: Seq<RowView>,
    projected: Seq<Seq<char>>,
    masks: Seq<MaskView>,
    c: int,
    i: int,
)
    requires
        0 <= c < block_of(entity, rows, projected, masks).columns.len(),
        0 <= i < block_of(entity, rows, projected, masks).columns[c].values.len(),
    ensures
        ({
            let column = block_of(entity, rows, projected, masks).columns[c];
            rule_for(masks, entity, column.name) matches RuleView::Masked(m) ==> column.values[i]
                == m || column.values[i] is Null
        }),
{
    let column = block_of(entity, rows, projected, masks).columns[c];
    let names = block_names(entity, rows, projected, masks);
    assert(column.values[i] == cell(entity, rows[i], names, c, masks));
}

/// The sources of edges, each once, in the order in which they first come.
pub open spec fn sources(edges: Seq<EdgeView>) -> Seq<Seq<u8>>
    decreases edges.len(),
{
    if edges.len() == 0 {
        Seq::empty()
    } else {
        let init = sources(edges.drop_last());
        if init.contains(edges.last().from_id) {
            init
        } else {
            init.push(edges.last().from_id)
        }
    }
}

/// The first row of an entity.
pub open spec fn row_with_id(rows: Seq<RowView>, id: Seq<u8>) -> Option<RowView>
    decreases rows.len(),
{
    if rows.len() == 0 {
        None
    } else if rows[0].id == id {
        Some(rows[0])
    } else {
        row_with_id(rows.drop_first(), id)
    }
}

/// Edges with the rows that they lead to; edges that lead to no row are left out.
pub open spec fn attached(rows: Seq<RowView>, edges: Seq<EdgeView>) -> Seq<(RowView, EdgeView)>
    decreases edges.len(),
{
    if edges.len() == 0 {
        Seq::empty()
    } else {
        let init = attached(rows, edges.drop_last());
        match row_with_id(rows, edges.last().to_id) {
            Some(r) => init.push((r, edges.last())),
            None => init,
        }
    }
}

/// The edges of one source.
pub open spec fn edges_from(edges: Seq<EdgeView>, id: Seq<u8>) -> Seq<EdgeView> {
    edges.filter(|e: EdgeView| e.from_id == id)
}

/// For each of the sources the wanted part of its edges, with rows.
pub open spec fn paged_by_source(
    rows: Seq<RowView>,
    edges: Seq<EdgeView>,
    from: Seq<Seq<u8>>,
    p: Pagination,
) -> Seq<(RowView, EdgeView)>
    decreases from.len(),
{
    if from.len() == 0 {
        Seq::empty()
    } else {
        paged_by_source(rows, edges, from.drop_last(), p) + attached(
            rows,
            page(edges_from(edges, from.last()), p),
        )
    }
}

/// The rows of pairs.
pub open spec fn firsts(pairs: Seq<(RowView, EdgeView)>) -> Seq<RowView> {
    pairs.map_values(|p: (RowView, EdgeView)| p.0)
}

/// The edges of pairs.
pub open spec fn seconds(pairs: Seq<(RowView, EdgeView)>) -> Seq<EdgeView> {
    pairs.map_values(|p: (RowView, EdgeView)| p.1)
}

fn find_row<'a>(rows: &'a Vec<EntityRow>, id: &EntityId) -> (r: Option<&'a EntityRow>)
    ensures
        match r {
            Some(row) => row_with_id(rows_view(rows@), id@) == Some(row@),
            None => row_with_id(rows_view(rows@), id@) is None,
        },
{
    let ghost all = rows_view(rows@);
    let mut i: usize = 0;
    assert(all.skip(0) =~= all);
    while i < rows.len()
        invariant
            i <= rows@.len(),
            all == rows_view(rows@),
            row_with_id(all, id@) == row_with_id(all.skip(i as int), id@),
        decreases rows@.len() - i,
    {
        proof {
            assert(all.skip(i as int)[0] == rows@[i as int]@);
            assert(all.skip(i as int).drop_first() =~= all.skip(i + 1));
        }
        if id_eq(&rows[i].id, id) {
            return Some(&rows[i]);
        }
        i = i + 1;
    }
    None
}

fn find_sources(edges: &Vec<Edge>) -> (out: Vec<EntityId>)
    ensures
        ids_view(out@) == sources(edges_view(edges@)),
{
    let ghost all = edges_view(edges@);
    let mut out: Vec<EntityId> = Vec::new();
    let mut i: usize = 0;
    assert(all.take(0) =~= Seq::<EdgeView>::empty());
    assert(ids_view(out@) =~= Seq::<Seq<u8>>::empty());
    while i < edges.len()
        invariant
            i <= edges@.len(),
            all == edges_view(edges@),
            ids_view(out@) == sources(all.take(i as int)),
        decreases edges@.len() - i,
    {
        let ghost before = ids_view(out@);
        let id: EntityId = edges[i].from_id;
        proof {
            assert(all.take(i + 1).drop_last() =~= all.take(i as int));
            assert(all.take(i + 1).last() == edges@[i as int]@);
            assert(before.take(out@.len() as int) =~= before);
        }
        if !id_among(out.as_slice(), out.len(), &id) {
            out.push(id);
            assert(ids_view(out@) =~= before.push(id@));
        }
        i = i + 1;
    }
    assert(all.take(all.len() as int) =~= all);
    out
}

fn find_edges_from(edges: &Vec<Edge>, id: &EntityId) -> (out: Vec<Edge>)
    ensures
        edges_view(out@) == edges_from(edges_view(edges@), id@),
{
    let ghost all = edges_view(edges@);
    let ghost keep = |e: EdgeView| e.from_id == id@;
    let mut out: Vec<Edge> = Vec::new();
    let mut i: usize = 0;
    proof {
        reveal(Seq::filter);
        assert(all.take(0) =~= Seq::<EdgeView>::empty());
        assert(edges_view(out@) =~= all.take(0).filter(keep));
    }
    while i < edges.len()
        invariant
            i <= edges@.len(),
            all == edges_view(edges@),
            keep == (|e: EdgeView| e.from_id == id@),
            edges_view(out@) == all.take(i as int).filter(keep),
        decreases edges@.len() - i,
    {
        let ghost before = edges_view(out@);
        proof {
            reveal(Seq::filter);
            assert(all.take(i + 1).drop_last() =~= all.take(i as int));
            assert(all.take(i + 1).last() == edges@[i as int]@);
        }
        if id_eq(&edges[i].from_id, id) {
            out.push(edges[i]);
            assert(edges_view(out@) =~= before.push(edges@[i as int]@));
        }
        i = i + 1;
    }
    assert(all.take(all.len() as int) =~= all);
    out
}

/// Whether an entity is among rows.
pub open spec fn has_row(rows: Seq<RowView>, id: Seq<u8>) -> bool {
    exists|k: int| 0 <= k < rows.len() && (#[trigger] rows[k]).id == id
}

/// The edges that lead to an entity.
pub open spec fn edges_to(edges: Seq<EdgeView>, id: Seq<u8>) -> Seq<EdgeView> {
    edges.filter(|e: EdgeView| e.to_id == id)
}

/// Edges in the order of the rows that they lead to.
pub open spec fn in_row_order(rows: Seq<RowView>, edges: Seq<EdgeView>) -> Seq<EdgeView>
    decreases rows.len(),
{
    if rows.len() == 0 {
        Seq::empty()
    } else {
        let init = in_row_order(rows.drop_last(), edges);
        if has_row(rows.drop_last(), rows.last().id) {
            init
        } else {
            init + edges_to(edges, rows.last().id)
        }
    }
}

/// Where the first row of an entity stands; past the end where there is none.
pub open spec fn row_pos(rows: Seq<RowView>, id: Seq<u8>) -> int
    decreases rows.len(),
{
    if rows.len() == 0 {
        0
    } else if rows[0].id == id {
        0
    } else {
        1 + row_pos(rows.drop_first(), id)
    }
}

proof fn lemma_row_pos(rows: Seq<RowView>, id: Seq<u8>)
    ensures
        0 <= row_pos(rows, id) <= rows.len(),
        forall|k: int| 0 <= k < row_pos(rows, id) ==> (#[trigger] rows[k]).id != id,
        row_pos(rows, id) < rows.len() ==> rows[row_pos(rows, id)].id == id,
    decreases rows.len(),
{
    if rows.len() > 0 && rows[0].id != id {
        let rest = rows.drop_first();
        lemma_row_pos(rest, id);
        assert forall|k: int| 0 <= k < row_pos(rows, id) implies (#[trigger] rows[k]).id != id by {
            if k > 0 {
                assert(rest[k - 1].id != id);
            }
        }
    }
}

proof fn lemma_row_pos_is(rows: Seq<RowView>, id: Seq<u8>, n: int)
    requires
        0 <= n < rows.len(),
        rows[n].id == id,
        forall|k: int| 0 <= k < n ==> (#[trigger] rows[k]).id != id,
    ensures
        row_pos(rows, id) == n,
{
    lemma_row_pos(rows, id);
    if row_pos(rows, id) < n {
        assert(rows[row_pos(rows, id)].id == id);
    }
}

/// Edges in the order of rows lead to rows that come in order.
pub proof fn law_edges_follow_rows(rows: Seq<RowView>, edges: Seq<EdgeView>)
    ensures
        forall|i: int, j: int|
            0 <= i <= j < in_row_order(rows, edges).len() ==> row_pos(
                rows,
                #[trigger] in_row_order(rows, edges)[i].to_id,
            ) <= row_pos(rows, #[trigger] in_row_order(rows, edges)[j].to_id),
        forall|i: int|
            0 <= i < in_row_order(rows, edges).len() ==> row_pos(
                rows,
                #[trigger] in_row_order(rows, edges)[i].to_id,
            ) < rows.len(),
    decreases rows.len(),
{
    if rows.len() > 0 {
        let init = rows.drop_last();
        let id = rows.last().id;
        law_edges_follow_rows(init, edges);
        let before = in_row_order(init, edges);
        let all = in_row_order(rows, edges);
        assert forall|i: int| 0 <= i < before.len() implies row_pos(
            rows,
            #[trigger] before[i].to_id,
        ) == row_pos(init, before[i].to_id) by {
            let x = before[i].to_id;
            let n = row_pos(init, x);
            lemma_row_pos(init, x);
            assert(rows[n] == init[n]);
            assert forall|k: int| 0 <= k < n implies (#[trigger] rows[k]).id != x by {
                assert(init[k].id != x);
            }
            lemma_row_pos_is(rows, x, n);
        }
        if has_row(init, id) {
            assert(all == before);
        } else {
            let more = edges_to(edges, id);
            let keep = |e: EdgeView| e.to_id == id;
            let last = rows.len() - 1;
            assert forall|k: int| 0 <= k < last implies (#[trigger] rows[k]).id != id by {
                assert(init[k].id == rows[k].id);
            }
            lemma_row_pos_is(rows, id, last);
            assert forall|i: int| before.len() <= i < all.len() implies (#[trigger] all[i]).to_id
                == id by {
                edges.lemma_filter_pred(keep, i - before.len());
                assert(all[i] == more[i - before.len()]);
            }
            assert forall|i: int, j: int| 0 <= i <= j < all.len() implies row_pos(
                rows,
                #[trigger] all[i].to_id,
            ) <= row_pos(rows, #[trigger] all[j].to_id) by {
                if i < before.len() {
                    assert(all[i] == before[i]);
                }
                if j < before.len() {
                    assert(all[j] == before[j]);
                }
            }
            assert forall|i: int| 0 <= i < all.len() implies row_pos(rows, #[trigger] all[i].to_id)
                < rows.len() by {
                if i < before.len() {
                    assert(all[i] == before[i]);
                }
            }
        }
    }
}

fn find_edges_to(edges: &Vec<Edge>, id: &EntityId) -> (out: Vec<Edge>)
    ensures
        edges_view(out@) == edges_to(edges_view(edges@), id@),
{
    let ghost all = edges_view(edges@);
    let ghost keep = |e: EdgeView| e.to_id == id@;
    let mut out: Vec<Edge> = Vec::new();
    let mut i: usize = 0;
    proof {
        reveal(Seq::filter);
        assert(all.take(0) =~= Seq::<EdgeView>::empty());
        assert(edges_view(out@) =~= all.take(0).filter(keep));
    }
    while i < edges.len()
        invariant
            i <= edges@.len(),
            all == edges_view(edges@),
            keep == (|e: EdgeView| e.to_id == id@),
            edges_view(out@) == all.take(i as int).filter(keep),
        decreases edges@.len() - i,
    {
        let ghost before = edges_view(out@);
        proof {
            reveal(Seq::filter);
            assert(all.take(i + 1).drop_last() =~= all.take(i as int));
            assert(all.take(i + 1).last() == edges@[i as int]@);
        }
        if id_eq(&edges[i].to_id, id) {
            out.push(edges[i]);
            assert(edges_view(out@) =~= before.push(edges@[i as int]@));
        }
        i = i + 1;
    }
    assert(all.take(all.len() as int) =~= all);
    out
}

fn row_before(rows: &Vec<EntityRow>, count: usize, id: &EntityId) -> (r: bool)
    requires
        count <= rows@.len(),
    ensures
        r == has_row(rows_view(rows@).take(count as int), id@),
{
    let ghost all = rows_view(rows@).take(count as int);
    let mut i: usize = 0;
    while i < count
        invariant
            i <= count <= rows@.len(),
            all == rows_view(rows@).take(count as int),
            forall|k: int| 0 <= k < i ==> (#[trigger] all[k]).id != id@,
        decreases count - i,
    {
        assert(all[i as int].id == rows@[i as int].id@);
        if id_eq(&rows[i].id, id) {
            return true;
        }
        i = i + 1;
    }
    false
}

/// Puts edges in the order of the rows that they lead to.
pub fn order_edges(rows: &Vec<EntityRow>, edges: &Vec<Edge>) -> (out: Vec<Edge>)
    ensures
        edges_view(out@) == in_row_order(rows_view(rows@), edges_view(edges@)),
{
    let ghost all = rows_view(rows@);
    let ghost every = edges_view(edges@);
    let mut out: Vec<Edge> = Vec::new();
    let mut i: usize = 0;
    assert(all.take(0) =~= Seq::<RowView>::empty());
    assert(edges_view(out@) =~= Seq::<EdgeView>::empty());
    while i < rows.len()
        invariant
            i <= rows@.len(),
            all == rows_view(rows@),
            every == edges_view(edges@),
            edges_view(out@) == in_row_order(all.take(i as int), every),
        decreases rows@.len() - i,
    {
        let ghost before = edges_view(out@);
        proof {
            assert(all.take(i + 1).drop_last() =~= all.take(i as int));
            assert(all.take(i + 1).last() == rows@[i as int]@);
        }
        if !row_before(rows, i, &rows[i].id) {
            let mut more: Vec<Edge> = find_edges_to(edges, &rows[i].id);
            let ghost added = edges_view(more@);
            out.append(&mut more);
            assert(edges_view(out@) =~= before + added);
        }
        i = i + 1;
    }
    assert(all.take(all.len() as int) =~= all);
    out
}

/// Leaves for each source entity the wanted part of what it is related to.
pub fn apply_per_parent_pagination(
    rows: &Vec<EntityRow>,
    edges: &Vec<Edge>,
    pagination: &Pagination,
) -> (r: (Vec<EntityRow>, Vec<Edge>))
    ensures
        ({
            let pairs = paged_by_source(
                rows_view(rows@),
                edges_view(edges@),
                sources(edges_view(edges@)),
                *pagination,
            );
            rows_view(r.0@) == firsts(pairs) && edges_view(r.1@) == seconds(pairs)
        }),
{
    let ghost all_rows = rows_view(rows@);
    let ghost all_edges = edges_view(edges@);
    let parents: Vec<EntityId> = find_sources(edges);
    let ghost from = ids_view(parents@);
    let mut out_rows: Vec<EntityRow> = Vec::new();
    let mut out_edges: Vec<Edge> = Vec::new();
    let ghost mut pairs: Seq<(RowView, EdgeView)> = Seq::empty();
    let mut i: usize = 0;
    proof {
        assert(from.take(0) =~= Seq::<Seq<u8>>::empty());
        assert(rows_view(out_rows@) =~= firsts(pairs));
        assert(edges_view(out_edges@) =~= seconds(pairs));
    }
    while i < parents.len()
        invariant
            i <= parents@.len(),
            from == ids_view(parents@),
            all_rows == rows_view(rows@),
            all_edges == edges_view(edges@),
            pairs == paged_by_source(all_rows, all_edges, from.take(i as int), *pagination),
            rows_view(out_rows@) == firsts(pairs),
            edges_view(out_edges@) == seconds(pairs),
        decreases parents@.len() - i,
    {
        let ghost start_pairs = pairs;
        proof {
            assert(from.take(i + 1).drop_last() =~= from.take(i as int));
            assert(from.take(i + 1).last() == parents@[i as int]@);
        }
        let own: Vec<Edge> = find_edges_from(edges, &parents[i]);
        let ghost own_view = edges_view(own@);
        let count: u64 = own.len() as u64;
        let offset: u64 = pagination.offset as u64;
        let wanted_end: u64 = offset + pagination.limit as u64;
        let start: u64 = if offset < count {
            offset
        } else {
            count
        };
        let end: u64 = if wanted_end < count {
            wanted_end
        } else {
            count
        };
        let ghost part = page(own_view, *pagination);
        let ghost mut done: Seq<(RowView, EdgeView)> = Seq::empty();
        let mut k: u64 = start;
        proof {
            assert(part =~= own_view.subrange(start as int, end as int));
            assert(part.take(0) =~= Seq::<EdgeView>::empty());
            assert(start_pairs + done =~= start_pairs);
        }
        while k < end
            invariant
                start <= k <= end <= count,
                count == own@.len(),
                own_view == edges_view(own@),
                all_rows == rows_view(rows@),
                part == own_view.subrange(start as int, end as int),
                done == attached(all_rows, part.take(k - start)),
                rows_view(out_rows@) == firsts(start_pairs + done),
                edges_view(out_edges@) == seconds(start_pairs + done),
            decreases end - k,
        {
            let edge: Edge = own[k as usize];
            let ghost rows_before = rows_view(out_rows@);
            let ghost edges_before = edges_view(out_edges@);
            proof {
                assert(part[k - start] == edge@);
                assert(part.take(k - start + 1).drop_last() =~= part.take(k - start));
                assert(part.take(k - start + 1).last() == edge@);
            }
            match find_row(rows, &edge.to_id) {
                Some(row) => {
                    out_rows.push(row.copy());
                    out_edges.push(edge);
                    proof {
                        done = done.push((row@, edge@));
                        assert(rows_view(out_rows@) =~= rows_before.push(row@));
                        assert(edges_view(out_edges@) =~= edges_before.push(edge@));
                        assert(rows_view(out_rows@) =~= firsts(start_pairs + done));
                        assert(edges_view(out_edges@) =~= seconds(start_pairs + done));
                    }
                },
                None => {},
            }
            k = k + 1;
        }
        proof {
            assert(part.take(part.len() as int) =~= part);
            pairs = start_pairs + done;
        }
        i = i + 1;
    }
    assert(from.take(from.len() as int) =~= from);
    (out_rows, out_edges)
}

/// No source keeps more than the limit.
pub proof fn law_page_within_limit(edges: Seq<EdgeView>, id: Seq<u8>, p: Pagination)
    ensures
        page(edges_from(edges, id), p).len() <= p.limit,
{
}

} // verus!
