//! When sorting puts rows in order: where the values that they are sorted by compare.

use vstd::prelude::*;
use vstd::utf8::encode_utf8;

use crate::bytes::{lemma_lex_antisymmetric, lemma_lex_total, lemma_lex_transitive, lex_lt};
use crate::query::ast::{first_value, OrderView, RowView};
use crate::query::rows::{
    consistently_ordered, in_order, law_sorted_is_ordered, lemma_value_order_flips, row_order,
    sorted,
};
use crate::value::{bytes_order, comparable, optional_order, Order, ValueView};

verus! {

/// Whether two values that may be missing have an order: one is missing or null, or
/// they are of kinds that compare.
pub open spec fn orderable(a: Option<ValueView>, b: Option<ValueView>) -> bool {
    match (a, b) {
        (Some(x), Some(y)) => x is Null || y is Null || comparable(x, y),
        _ => true,
    }
}

/// Whether two rows have an order in each field that they are sorted by.
pub open spec fn rows_orderable(a: RowView, b: RowView, order: Seq<OrderView>) -> bool {
    forall|i: int|
        0 <= i < order.len() ==> orderable(
            first_value(a.fields, (#[trigger] order[i]).0),
            first_value(b.fields, order[i].0),
        )
}

/// Whether all rows have an order in each field that they are sorted by.
pub open spec fn sortable(rows: Seq<RowView>, order: Seq<OrderView>) -> bool {
    forall|a: RowView, b: RowView|
        #![trigger rows.contains(a), rows.contains(b)]
        rows.contains(a) && rows.contains(b) ==> rows_orderable(a, b, order)
}

proof fn lemma_bytes_order_transits(a: Seq<u8>, b: Seq<u8>, c: Seq<u8>)
    requires
        bytes_order(a, b) != Order::Greater,
        bytes_order(b, c) != Order::Greater,
    ensures
        bytes_order(a, c) != Order::Greater,
        bytes_order(a, c) == Order::Equal ==> bytes_order(a, b) == Order::Equal,
{
    lemma_lex_total(a, b);
    lemma_lex_total(b, c);
    if lex_lt(a, b) && lex_lt(b, c) {
        lemma_lex_transitive(a, b, c);
        lemma_lex_antisymmetric(a, c);
    }
}

proof fn lemma_optional_order_transits(
    a: Option<ValueView>,
    b: Option<ValueView>,
    c: Option<ValueView>,
)
    requires
        orderable(a, b),
        orderable(b, c),
        orderable(a, c),
        optional_order(a, b) != Order::Greater,
        optional_order(b, c) != Order::Greater,
    ensures
        optional_order(a, c) != Order::Greater,
        optional_order(a, c) == Order::Equal ==> optional_order(a, b) == Order::Equal,
{
    match (a, b, c) {
        (Some(ValueView::String(x)), Some(ValueView::String(y)), Some(ValueView::String(z))) => {
            lemma_bytes_order_transits(encode_utf8(x), encode_utf8(y), encode_utf8(z));
        },
        (Some(ValueView::Uuid(x)), Some(ValueView::Uuid(y)), Some(ValueView::Uuid(z))) => {
            lemma_bytes_order_transits(x, y, z);
        },
        (Some(ValueView::Bytes(x)), Some(ValueView::Bytes(y)), Some(ValueView::Bytes(z))) => {
            lemma_bytes_order_transits(x, y, z);
        },
        _ => {},
    }
}

proof fn lemma_optional_order_flips(a: Option<ValueView>, b: Option<ValueView>)
    ensures
        optional_order(a, b) == optional_order(b, a).flipped(),
{
    if a is Some && b is Some {
        lemma_value_order_flips(a->0, b->0);
    }
}

proof fn lemma_fewer_orderable(a: RowView, b: RowView, order: Seq<OrderView>)
    requires
        order.len() > 0,
        rows_orderable(a, b, order),
    ensures
        rows_orderable(a, b, order.drop_first()),
        orderable(first_value(a.fields, order[0].0), first_value(b.fields, order[0].0)),
{
    let rest = order.drop_first();
    assert forall|i: int| 0 <= i < rest.len() implies orderable(
        first_value(a.fields, (#[trigger] rest[i]).0),
        first_value(b.fields, rest[i].0),
    ) by {
        assert(rest[i] == order[i + 1]);
    }
}

#[verifier::rlimit(40)]
proof fn lemma_row_order_transits(a: RowView, b: RowView, c: RowView, order: Seq<OrderView>)
    requires
        rows_orderable(a, b, order),
        rows_orderable(b, c, order),
        rows_orderable(a, c, order),
        row_order(a, b, order) != Order::Greater,
        row_order(b, c, order) != Order::Greater,
    ensures
        row_order(a, c, order) != Order::Greater,
    decreases order.len(),
{
    if order.len() > 0 {
        let x = first_value(a.fields, order[0].0);
        let y = first_value(b.fields, order[0].0);
        let z = first_value(c.fields, order[0].0);
        let rest = order.drop_first();
        lemma_fewer_orderable(a, b, order);
        lemma_fewer_orderable(b, c, order);
        lemma_fewer_orderable(a, c, order);
        lemma_optional_order_flips(x, y);
        lemma_optional_order_flips(y, z);
        lemma_optional_order_flips(x, z);
        if optional_order(x, y) != Order::Greater && optional_order(y, z) != Order::Greater {
            lemma_optional_order_transits(x, y, z);
        }
        if optional_order(z, y) != Order::Greater && optional_order(y, x) != Order::Greater {
            lemma_optional_order_transits(z, y, x);
        }
        if row_order(a, b, rest) != Order::Greater && row_order(b, c, rest) != Order::Greater {
            lemma_row_order_transits(a, b, c, rest);
        }
    }
}

/// Rows are ordered consistently where the values that they are sorted by compare.
pub proof fn law_comparable_rows_are_consistent(rows: Seq<RowView>, order: Seq<OrderView>)
    requires
        sortable(rows, order),
    ensures
        consistently_ordered(rows, order),
{
    reveal(consistently_ordered);
    assert forall|a: RowView, b: RowView, c: RowView|
        rows.contains(a) && rows.contains(b) && rows.contains(c) && #[trigger] row_order(a, b, order)
            != Order::Greater && #[trigger] row_order(b, c, order) != Order::Greater implies row_order(
        a,
        c,
        order,
    ) != Order::Greater by {
        lemma_row_order_transits(a, b, c, order);
    }
}

/// Rows whose values compare in the fields that they are sorted by come out in order.
pub proof fn law_comparable_rows_get_sorted(rows: Seq<RowView>, order: Seq<OrderView>)
    requires
        sortable(rows, order),
    ensures
        in_order(sorted(rows, order), order),
{
    law_comparable_rows_are_consistent(rows, order);
    law_sorted_is_ordered(rows, order);
}

} // verus!
