//! In what order rows come, and which of them a page holds, by numbers and letters.

use vstd::prelude::*;
use vstd::utf8::encode_utf8;

use crate::query::ast::{first_value, OrderDirection, OrderView, Pagination, RowView};
use crate::query::meaning::{
    dictionary_before, law_floats_are_ordered, law_texts_are_ordered, sign_bit,
};
use crate::query::order_laws::{law_comparable_rows_get_sorted, orderable, sortable};
use crate::query::rows::{
    in_order, law_row_order_flips, law_sorting_keeps_rows, lemma_same_members,
    lemma_value_order_flips, more_after, paged, row_order, sorted,
};
use crate::value::{optional_order, Order, ValueView};

verus! {

proof fn lemma_in_order_pairs(s: Seq<RowView>, order: Seq<OrderView>, i: int, j: int)
    requires
        in_order(s, order),
        0 <= i < j < s.len(),
    ensures
        row_order(s[i], s[j], order) != Order::Greater,
    decreases s.len(),
{
    let init = s.drop_last();
    if j == s.len() - 1 {
        assert(init[i] == s[i]);
        assert(row_order(init[i], s.last(), order) != Order::Greater);
    } else {
        lemma_in_order_pairs(init, order, i, j);
    }
}

/// Whether two rows tie in a field.
pub open spec fn tie_in(a: RowView, b: RowView, field: Seq<char>) -> bool {
    optional_order(first_value(a.fields, field), first_value(b.fields, field)) == Order::Equal
}

/// Whether a row comes before another in a field: it has the smaller value, or the
/// greater one where the field is sorted downwards.
pub open spec fn before_in(a: RowView, b: RowView, by: OrderView) -> bool {
    let (x, y) = (first_value(a.fields, by.0), first_value(b.fields, by.0));
    if by.1 == OrderDirection::Asc {
        optional_order(x, y) == Order::Less
    } else {
        optional_order(y, x) == Order::Less
    }
}

/// Of two rows the one comes first that comes before the other in the first field in
/// which they do not tie.
pub proof fn law_first_difference_decides(a: RowView, b: RowView, order: Seq<OrderView>)
    ensures
        row_order(a, b, order) == Order::Less <==> exists|k: int|
            0 <= k < order.len() && before_in(a, b, #[trigger] order[k]) && forall|m: int|
                0 <= m < k ==> tie_in(a, b, (#[trigger] order[m]).0),
        row_order(a, b, order) == Order::Equal <==> forall|m: int|
            0 <= m < order.len() ==> tie_in(a, b, (#[trigger] order[m]).0),
    decreases order.len(),
{
    if order.len() > 0 {
        let rest = order.drop_first();
        let (x, y) = (first_value(a.fields, order[0].0), first_value(b.fields, order[0].0));
        if x is Some && y is Some {
            lemma_value_order_flips(x->0, y->0);
        }
        law_first_difference_decides(a, b, rest);
        assert forall|m: int| 0 <= m < rest.len() implies rest[m] == order[m + 1] by {}
        if tie_in(a, b, order[0].0) {
            if row_order(a, b, rest) == Order::Less {
                let k = choose|k: int|
                    0 <= k < rest.len() && before_in(a, b, #[trigger] rest[k]) && forall|m: int|
                        0 <= m < k ==> tie_in(a, b, (#[trigger] rest[m]).0);
                assert(before_in(a, b, order[k + 1]));
                assert forall|m: int| 0 <= m < k + 1 implies tie_in(a, b, (#[trigger] order[m]).0) by {
                    if m > 0 {
                        assert(tie_in(a, b, rest[m - 1].0));
                    }
                }
            }
            if exists|k: int|
                0 <= k < order.len() && before_in(a, b, #[trigger] order[k]) && forall|m: int|
                    0 <= m < k ==> tie_in(a, b, (#[trigger] order[m]).0) {
                let k = choose|k: int|
                    0 <= k < order.len() && before_in(a, b, #[trigger] order[k]) && forall|m: int|
                        0 <= m < k ==> tie_in(a, b, (#[trigger] order[m]).0);
                assert(k > 0);
                assert(before_in(a, b, rest[k - 1]));
                assert forall|m: int| 0 <= m < k - 1 implies tie_in(a, b, (#[trigger] rest[m]).0) by {
                    assert(tie_in(a, b, order[m + 1].0));
                }
            }
            if forall|m: int| 0 <= m < rest.len() ==> tie_in(a, b, (#[trigger] rest[m]).0) {
                assert forall|m: int| 0 <= m < order.len() implies tie_in(
                    a,
                    b,
                    (#[trigger] order[m]).0,
                ) by {
                    if m > 0 {
                        assert(tie_in(a, b, rest[m - 1].0));
                    }
                }
            }
            if forall|m: int| 0 <= m < order.len() ==> tie_in(a, b, (#[trigger] order[m]).0) {
                assert forall|m: int| 0 <= m < rest.len() implies tie_in(
                    a,
                    b,
                    (#[trigger] rest[m]).0,
                ) by {
                    assert(tie_in(a, b, order[m + 1].0));
                }
            }
        } else {
            assert(!tie_in(a, b, order[0].0));
            if before_in(a, b, order[0]) {
                assert(row_order(a, b, order) == Order::Less);
            }
        }
    }
}

/// The whole number that a row has in a field: a number, a timestamp or a truth value.
pub open spec fn number_in(r: RowView, field: Seq<char>) -> Option<int> {
    match first_value(r.fields, field) {
        Some(ValueView::Int32(n)) => Some(n as int),
        Some(ValueView::Int64(n)) => Some(n as int),
        Some(ValueView::Timestamp(n)) => Some(n as int),
        Some(ValueView::Bool(b)) => Some(
            if b {
                1
            } else {
                0
            },
        ),
        _ => None,
    }
}

/// Whether all rows have whole numbers in a field, or all timestamps, or all truth
/// values.
pub open spec fn numbers_in(rows: Seq<RowView>, field: Seq<char>) -> bool {
    ||| forall|r: RowView| #[trigger]
        rows.contains(r) ==> (first_value(r.fields, field) matches Some(v) && (v is Int32
            || v is Int64))
    ||| forall|r: RowView| #[trigger]
        rows.contains(r) ==> (first_value(r.fields, field) matches Some(v) && v is Timestamp)
    ||| forall|r: RowView| #[trigger]
        rows.contains(r) ==> (first_value(r.fields, field) matches Some(v) && v is Bool)
}

proof fn lemma_one_field_sorts(rows: Seq<RowView>, field: Seq<char>, up: bool, i: int, j: int)
    requires
        0 <= i < j < rows.len(),
        sortable(rows, seq![(field, direction(up))]),
    ensures
        ({
            let s = sorted(rows, seq![(field, direction(up))]);
            let (x, y) = (first_value(s[i].fields, field), first_value(s[j].fields, field));
            &&& s.len() == rows.len()
            &&& rows.contains(s[i]) && rows.contains(s[j])
            &&& up ==> optional_order(x, y) != Order::Greater
            &&& !up ==> optional_order(y, x) != Order::Greater
        }),
{
    let order = seq![(field, direction(up))];
    let s = sorted(rows, order);
    law_comparable_rows_get_sorted(rows, order);
    law_sorting_keeps_rows(rows, order);
    lemma_same_members(s, rows);
    assert(s.contains(s[i]) && s.contains(s[j]));
    lemma_in_order_pairs(s, order, i, j);
    let (x, y) = (first_value(s[i].fields, field), first_value(s[j].fields, field));
    if x is Some && y is Some {
        lemma_value_order_flips(x->0, y->0);
    }
    assert(order[0] == (field, direction(up)));
    assert(order.drop_first().len() == 0);
    reveal_with_fuel(row_order, 2);
}

/// Upwards or downwards.
pub open spec fn direction(up: bool) -> OrderDirection {
    if up {
        OrderDirection::Asc
    } else {
        OrderDirection::Desc
    }
}

proof fn lemma_one_order(rows: Seq<RowView>, field: Seq<char>, up: bool)
    requires
        forall|a: RowView, b: RowView|
            #![trigger rows.contains(a), rows.contains(b)]
            rows.contains(a) && rows.contains(b) ==> orderable(
                first_value(a.fields, field),
                first_value(b.fields, field),
            ),
    ensures
        sortable(rows, seq![(field, direction(up))]),
{
}

/// Rows that are sorted by a field with numbers come with their numbers rising, or
/// falling where they are sorted downwards.
pub proof fn law_numbers_rise(rows: Seq<RowView>, field: Seq<char>, up: bool, i: int, j: int)
    requires
        numbers_in(rows, field),
        0 <= i < j < rows.len(),
    ensures
        ({
            let s = sorted(rows, seq![(field, direction(up))]);
            let (x, y) = (number_in(s[i], field), number_in(s[j], field));
            &&& x is Some && y is Some
            &&& up ==> x->0 <= y->0
            &&& !up ==> x->0 >= y->0
        }),
{
    lemma_one_order(rows, field, up);
    lemma_one_field_sorts(rows, field, up, i, j);
}

/// Rows that are sorted by a field with texts come in the order of a dictionary, or
/// against it where they are sorted downwards.
pub proof fn law_texts_rise(rows: Seq<RowView>, field: Seq<char>, up: bool, i: int, j: int)
    requires
        forall|r: RowView| #[trigger]
            rows.contains(r) ==> (first_value(r.fields, field) matches Some(v) && v is String),
        0 <= i < j < rows.len(),
    ensures
        ({
            let s = sorted(rows, seq![(field, direction(up))]);
            let x = encode_utf8(first_value(s[i].fields, field)->0->String_0);
            let y = encode_utf8(first_value(s[j].fields, field)->0->String_0);
            &&& up ==> !dictionary_before(y, x)
            &&& !up ==> !dictionary_before(x, y)
        }),
{
    lemma_one_order(rows, field, up);
    lemma_one_field_sorts(rows, field, up, i, j);
    let s = sorted(rows, seq![(field, direction(up))]);
    let a = first_value(s[i].fields, field)->0->String_0;
    let b = first_value(s[j].fields, field)->0->String_0;
    law_texts_are_ordered(a, b, encode_utf8(a), encode_utf8(b));
    law_texts_are_ordered(b, a, encode_utf8(a), encode_utf8(b));
}

/// Rows that are sorted by a field with floating-point numbers come with their numbers
/// rising, or falling where they are sorted downwards: what is greater never comes
/// before what is smaller.
pub proof fn law_floats_rise(rows: Seq<RowView>, field: Seq<char>, up: bool, i: int, j: int)
    requires
        forall|r: RowView| #[trigger]
            rows.contains(r) ==> (first_value(r.fields, field) matches Some(ValueView::Float64(x))
                && x as int % sign_bit() <= 0x7ff0_0000_0000_0000),
        0 <= i < j < rows.len(),
    ensures
        ({
            let s = sorted(rows, seq![(field, direction(up))]);
            let x = first_value(s[i].fields, field)->0->Float64_0;
            let y = first_value(s[j].fields, field)->0->Float64_0;
            let (low, high) = if up {
                (x, y)
            } else {
                (y, x)
            };
            &&& low < sign_bit() && high < sign_bit() ==> low <= high
            &&& low >= sign_bit() && high >= sign_bit() ==> low >= high
            &&& low < sign_bit() && high >= sign_bit() ==> low == 0 && high == sign_bit()
        }),
{
    assert forall|a: RowView, b: RowView|
        #![trigger rows.contains(a), rows.contains(b)]
        rows.contains(a) && rows.contains(b) implies orderable(
        first_value(a.fields, field),
        first_value(b.fields, field),
    ) by {
        let x = first_value(a.fields, field)->0->Float64_0;
        let y = first_value(b.fields, field)->0->Float64_0;
        law_floats_are_ordered(x, y);
    }
    lemma_one_order(rows, field, up);
    lemma_one_field_sorts(rows, field, up, i, j);
    let s = sorted(rows, seq![(field, direction(up))]);
    let x = first_value(s[i].fields, field)->0->Float64_0;
    let y = first_value(s[j].fields, field)->0->Float64_0;
    law_floats_are_ordered(x, y);
    law_floats_are_ordered(y, x);
}

/// Sorted rows are the rows that were there, and none comes after one that it goes
/// before in the first field in which they do not tie.
pub proof fn law_sorted_rows_come_in_turn(
    rows: Seq<RowView>,
    order: Seq<OrderView>,
    i: int,
    j: int,
    k: int,
)
    requires
        sortable(rows, order),
        0 <= i < j < rows.len(),
        0 <= k < order.len(),
        forall|m: int|
            0 <= m < k ==> tie_in(
                sorted(rows, order)[i],
                sorted(rows, order)[j],
                (#[trigger] order[m]).0,
            ),
    ensures
        sorted(rows, order).to_multiset() == rows.to_multiset(),
        !before_in(sorted(rows, order)[j], sorted(rows, order)[i], order[k]),
{
    let s = sorted(rows, order);
    law_comparable_rows_get_sorted(rows, order);
    law_sorting_keeps_rows(rows, order);
    lemma_in_order_pairs(s, order, i, j);
    law_row_order_flips(s[j], s[i], order);
    law_first_difference_decides(s[j], s[i], order);
    if before_in(s[j], s[i], order[k]) {
        assert forall|m: int| 0 <= m < k implies tie_in(s[j], s[i], (#[trigger] order[m]).0) by {
            assert(tie_in(s[i], s[j], order[m].0));
            let x = first_value(s[i].fields, order[m].0);
            let y = first_value(s[j].fields, order[m].0);
            if x is Some && y is Some {
                lemma_value_order_flips(x->0, y->0);
            }
        }
    }
}

/// A page holds the rows from the offset on, as many as the limit says, as far as there
/// are any; and there are more rows exactly where rows stand behind it.
pub proof fn law_page_holds<T>(rows: Seq<T>, limit: u32, offset: u32, i: int)
    ensures
        ({
            let p = paged(rows, Some(Pagination { limit, offset }));
            &&& p.len() == if rows.len() <= offset {
                0
            } else if rows.len() <= offset + limit {
                rows.len() - offset
            } else {
                limit as int
            }
            &&& 0 <= i < p.len() ==> p[i] == rows[offset + i]
            &&& more_after(rows.len(), Some(Pagination { limit, offset })) <==> rows.len() > offset
                + limit
            &&& paged(rows, None) == rows
            &&& !more_after(rows.len(), None)
        }),
{
}

} // verus!
