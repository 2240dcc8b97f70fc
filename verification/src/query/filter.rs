//! Conditions on rows: which fields they speak of, and whether they hold.

use vstd::prelude::*;
use vstd::string::StrSliceExecFns;

use crate::codec::{fields_view, Field, FieldView};
use crate::error::{DbError, ErrorView};
use crate::query::ast::{find_first, first_value, FilterExpr, FilterView};
use crate::storage::btree_index::text_has_prefix;
use crate::text::{chars_of, texts};
use crate::value::{
    comparable, compare_values, value_order, values_compare, values_equal, Order, Value, ValueView,
};

verus! {

/// Whether a text matches a pattern: `%` stands for any text, `_` for any
/// character, and every other character for itself.
pub open spec fn like(s: Seq<char>, p: Seq<char>) -> bool
    decreases s.len() + p.len(),
{
    if p.len() == 0 {
        s.len() == 0
    } else if p[0] == '%' {
        like(s, p.drop_first()) || (s.len() > 0 && like(s.drop_first(), p))
    } else {
        s.len() > 0 && (p[0] == '_' || p[0] == s[0]) && like(s.drop_first(), p.drop_first())
    }
}

/// Whether a text matches a pattern.
pub fn like_matches(text: &str, pattern: &str) -> (r: bool)
    ensures
        r == like(text@, pattern@),
{
    let s: Vec<char> = chars_of(text);
    let p: Vec<char> = chars_of(pattern);
    // `row[i]` tells whether the text from `i` matches the pattern from `j`.
    let mut row: Vec<bool> = Vec::new();
    let mut i: usize = 0;
    while i < s.len()
        invariant
            i <= s@.len(),
            p@.skip(p@.len() as int).len() == 0,
            row@.len() == i,
            forall|k: int| 0 <= k < i ==> #[trigger] row@[k] == like(s@.skip(k), p@.skip(p@.len() as int)),
        decreases s@.len() - i,
    {
        row.push(false);
        i = i + 1;
    }
    row.push(true);
    let mut j: usize = p.len();
    while j > 0
        invariant
            j <= p@.len(),
            row@.len() == s@.len() + 1,
            forall|k: int| 0 <= k <= s@.len() ==> #[trigger] row@[k] == like(s@.skip(k), p@.skip(j as int)),
        decreases j,
    {
        let ghost above = p@.skip(j as int);
        let ghost here = p@.skip(j - 1);
        j = j - 1;
        let c: char = p[j];
        proof {
            assert(here[0] == c);
            assert(here.drop_first() =~= above);
        }
        let mut next: Vec<bool> = row.clone();
        let ghost old_row = row@;
        let n: usize = s.len();
        let mut i: usize = n + 1;
        assert(next@ =~= old_row);
        while i > 0
            invariant
                i <= n + 1,
                n == s@.len(),
                next@.len() == n + 1,
                row@ == old_row,
                old_row.len() == n + 1,
                here == p@.skip(j as int),
                here.len() > 0,
                here[0] == c,
                here.drop_first() == above,
                forall|k: int| 0 <= k <= n ==> #[trigger] old_row[k] == like(s@.skip(k), above),
                forall|k: int| i <= k <= n ==> #[trigger] next@[k] == like(s@.skip(k), here),
            decreases i,
        {
            i = i - 1;
            let ghost rest = s@.skip(i as int);
            proof {
                if i < n {
                    assert(rest[0] == s@[i as int]);
                    assert(rest.drop_first() =~= s@.skip(i + 1));
                    assert(old_row[i + 1] == like(s@.skip(i + 1), above));
                    assert(next@[i + 1] == like(s@.skip(i + 1), here));
                }
                assert(old_row[i as int] == like(rest, above));
            }
            let hit: bool = if c == '%' {
                row[i] || (i < n && next[i + 1])
            } else {
                i < n && (c == '_' || c == s[i]) && row[i + 1]
            };
            assert(hit == like(rest, here));
            next.set(i, hit);
        }
        row = next;
    }
    assert(s@.skip(0) =~= s@);
    assert(p@.skip(0) =~= p@);
    row[0]
}

/// Whether a text holds no wildcard.
pub open spec fn plain(p: Seq<char>) -> bool {
    forall|i: int| 0 <= i < p.len() ==> #[trigger] p[i] != '%' && p[i] != '_'
}

/// The text that a pattern asks a text to begin with, where it asks for no more
/// than that: the pattern is that text and a `%`.
pub open spec fn prefix_of_pattern(p: Seq<char>) -> Option<Seq<char>> {
    if p.len() >= 2 && p.last() == '%' && plain(p.drop_last()) {
        Some(p.drop_last())
    } else {
        None
    }
}

/// The text that a pattern asks a text to begin with, where it asks for no more
/// than that.
pub fn extract_like_prefix(pattern: &str) -> (r: Option<String>)
    ensures
        r.deep_view() == prefix_of_pattern(pattern@),
{
    let p: Vec<char> = chars_of(pattern);
    if p.len() < 2 || p[p.len() - 1] != '%' {
        return None;
    }
    let n: usize = p.len() - 1;
    let ghost head = pattern@.drop_last();
    let mut i: usize = 0;
    while i < n
        invariant
            i <= n,
            n + 1 == p@.len(),
            p@ == pattern@,
            head == pattern@.drop_last(),
            forall|k: int| 0 <= k < i ==> #[trigger] head[k] != '%' && head[k] != '_',
        decreases n - i,
    {
        if p[i] == '%' || p[i] == '_' {
            assert(head[i as int] == p@[i as int]);
            return None;
        }
        i = i + 1;
    }
    assert(pattern@.subrange(0, n as int) =~= head);
    Some(pattern.substring_char(0, n).to_owned())
}

/// A pattern that is a text without wildcards and a `%` matches exactly what
/// begins with the text: the ordered index and the condition agree.
pub proof fn law_like_prefix(s: Seq<char>, p: Seq<char>)
    requires
        prefix_of_pattern(p) is Some,
    ensures
        like(s, p) == text_has_prefix(s, prefix_of_pattern(p)->0),
{
    let q = p.drop_last();
    assert(p =~= q + seq!['%']);
    lemma_like_prefix(s, q);
}

proof fn lemma_like_prefix(s: Seq<char>, q: Seq<char>)
    requires
        plain(q),
    ensures
        like(s, q + seq!['%']) == text_has_prefix(s, q),
    decreases q.len(),
{
    let p = q + seq!['%'];
    if q.len() == 0 {
        lemma_like_anything(s, p);
        assert(s.take(0) =~= q);
    } else {
        let rest = q.drop_first();
        assert(q[0] != '%' && q[0] != '_');
        assert forall|i: int| 0 <= i < rest.len() implies #[trigger] rest[i] != '%' && rest[i] != '_' by {
            assert(rest[i] == q[i + 1]);
        }
        assert(p[0] == q[0]);
        assert(p.drop_first() =~= rest + seq!['%']);
        if s.len() > 0 {
            lemma_like_prefix(s.drop_first(), rest);
            if s[0] == q[0] && text_has_prefix(s.drop_first(), rest) {
                assert(s.take(q.len() as int) =~= seq![s[0]] + s.drop_first().take(
                    rest.len() as int,
                ));
                assert(q =~= seq![q[0]] + rest);
            }
            if text_has_prefix(s, q) {
                assert(s.take(q.len() as int)[0] == q[0]);
                assert(s.drop_first().take(rest.len() as int) =~= s.take(
                    q.len() as int,
                ).drop_first());
            }
        }
    }
}

proof fn lemma_like_anything(s: Seq<char>, p: Seq<char>)
    requires
        p.len() == 1,
        p[0] == '%',
    ensures
        like(s, p),
    decreases s.len(),
{
    reveal_with_fuel(like, 2);
    if s.len() > 0 {
        lemma_like_anything(s.drop_first(), p);
    }
}

/// The fields that a condition speaks of.
pub open spec fn filter_names(f: FilterView) -> Seq<Seq<char>>
    decreases f,
{
    match f {
        FilterView::Eq(field, _) => seq![field],
        FilterView::Gt(field, _) => seq![field],
        FilterView::Ge(field, _) => seq![field],
        FilterView::Lt(field, _) => seq![field],
        FilterView::Le(field, _) => seq![field],
        FilterView::Like(field, _) => seq![field],
        FilterView::And(a, b) => filter_names(*a) + filter_names(*b),
        FilterView::Or(a, b) => filter_names(*a) + filter_names(*b),
        FilterView::Not(a) => filter_names(*a),
        FilterView::Search(field, _) => seq![field],
    }
}

fn push_filter_names(f: &FilterExpr, out: &mut Vec<String>)
    ensures
        texts(final(out)@) == texts(old(out)@) + filter_names(f@),
    decreases *f,
{
    let ghost before = texts(out@);
    match f {
        FilterExpr::And(a, b) => {
            push_filter_names(a, out);
            push_filter_names(b, out);
        },
        FilterExpr::Or(a, b) => {
            push_filter_names(a, out);
            push_filter_names(b, out);
        },
        FilterExpr::Not(a) => {
            push_filter_names(a, out);
        },
        FilterExpr::Eq { field, value } => {
            out.push(field.clone());
        },
        FilterExpr::Gt { field, value } => {
            out.push(field.clone());
        },
        FilterExpr::Ge { field, value } => {
            out.push(field.clone());
        },
        FilterExpr::Lt { field, value } => {
            out.push(field.clone());
        },
        FilterExpr::Le { field, value } => {
            out.push(field.clone());
        },
        FilterExpr::Like { field, pattern } => {
            out.push(field.clone());
        },
        FilterExpr::Search { field, search } => {
            out.push(field.clone());
        },
    }
    assert(texts(out@) =~= before + filter_names(f@));
}

/// The fields that a condition speaks of.
pub fn extract_filter_fields(f: &FilterExpr) -> (out: Vec<String>)
    ensures
        texts(out@) == filter_names(f@),
{
    let mut out: Vec<String> = Vec::new();
    push_filter_names(f, &mut out);
    assert(texts(out@) =~= filter_names(f@));
    out
}

/// What is said of a search that no index has answered.
pub open spec fn needs_index() -> Seq<char> {
    "search filter requires an index"@
}

/// How two values must stand to each other.
pub open spec fn compares(v: Option<ValueView>, b: ValueView, wanted: spec_fn(Order) -> bool) -> bool {
    v is Some && comparable(v->0, b) && wanted(value_order(v->0, b))
}

/// Whether a condition holds of fields. A field that is not there meets no
/// condition.
pub open spec fn holds(f: FilterView, fs: Seq<FieldView>) -> Result<bool, ErrorView>
    decreases f,
{
    match f {
        FilterView::Eq(field, b) => Ok(
            match first_value(fs, field) {
                Some(v) => values_equal(v, b),
                None => false,
            },
        ),
        FilterView::Gt(field, b) => Ok(
            compares(first_value(fs, field), b, |o: Order| o == Order::Greater),
        ),
        FilterView::Ge(field, b) => Ok(
            compares(first_value(fs, field), b, |o: Order| o != Order::Less),
        ),
        FilterView::Lt(field, b) => Ok(
            compares(first_value(fs, field), b, |o: Order| o == Order::Less),
        ),
        FilterView::Le(field, b) => Ok(
            compares(first_value(fs, field), b, |o: Order| o != Order::Greater),
        ),
        FilterView::Like(field, p) => Ok(
            match first_value(fs, field) {
                Some(ValueView::String(s)) => like(s, p),
                _ => false,
            },
        ),
        FilterView::And(a, b) => match holds(*a, fs) {
            Ok(true) => holds(*b, fs),
            other => other,
        },
        FilterView::Or(a, b) => match holds(*a, fs) {
            Ok(false) => holds(*b, fs),
            other => other,
        },
        FilterView::Not(a) => match holds(*a, fs) {
            Ok(r) => Ok(!r),
            Err(e) => Err(e),
        },
        FilterView::Search(_, _) => Err(ErrorView::InvalidData(needs_index())),
    }
}

/// Whether a condition that may be missing holds of fields.
pub open spec fn passes(f: Option<FilterView>, fs: Seq<FieldView>) -> Result<bool, ErrorView> {
    match f {
        Some(f) => holds(f, fs),
        None => Ok(true),
    }
}

/// How a field's value stands to another, where they compare.
fn field_order(fields: &[Field], field: &str, value: &Value) -> (r: Option<Order>)
    ensures
        match r {
            Some(o) => {
                let v = first_value(fields_view(fields@), field@);
                v is Some && comparable(v->0, value@) && o == value_order(v->0, value@)
            },
            None => {
                let v = first_value(fields_view(fields@), field@);
                v is None || !comparable(v->0, value@)
            },
        },
{
    match find_first(fields, field) {
        Some(v) => if values_compare(v, value) {
            Some(compare_values(v, value))
        } else {
            None
        },
        None => None,
    }
}

/// Whether a condition holds of fields.
pub fn evaluate(f: &FilterExpr, fields: &[Field]) -> (r: Result<bool, DbError>)
    ensures
        match r {
            Ok(b) => holds(f@, fields_view(fields@)) == Ok::<bool, ErrorView>(b),
            Err(e) => holds(f@, fields_view(fields@)) == Err::<bool, ErrorView>(e@),
        },
    decreases *f,
{
    match f {
        FilterExpr::Eq { field, value } => match find_first(fields, field.as_str()) {
            Some(v) => Ok(v.same(value)),
            None => Ok(false),
        },
        FilterExpr::Gt { field, value } => match field_order(fields, field.as_str(), value) {
            Some(Order::Greater) => Ok(true),
            _ => Ok(false),
        },
        FilterExpr::Ge { field, value } => match field_order(fields, field.as_str(), value) {
            Some(Order::Less) => Ok(false),
            Some(_) => Ok(true),
            None => Ok(false),
        },
        FilterExpr::Lt { field, value } => match field_order(fields, field.as_str(), value) {
            Some(Order::Less) => Ok(true),
            _ => Ok(false),
        },
        FilterExpr::Le { field, value } => match field_order(fields, field.as_str(), value) {
            Some(Order::Greater) => Ok(false),
            Some(_) => Ok(true),
            None => Ok(false),
        },
        FilterExpr::Like { field, pattern } => match find_first(fields, field.as_str()) {
            Some(Value::String(s)) => Ok(like_matches(s.as_str(), pattern.as_str())),
            _ => Ok(false),
        },
        FilterExpr::And(a, b) => match evaluate(a, fields) {
            Ok(true) => evaluate(b, fields),
            other => other,
        },
        FilterExpr::Or(a, b) => match evaluate(a, fields) {
            Ok(false) => evaluate(b, fields),
            other => other,
        },
        FilterExpr::Not(a) => match evaluate(a, fields) {
            Ok(r) => Ok(!r),
            Err(e) => Err(e),
        },
        FilterExpr::Search { field, search } => Err(
            DbError::InvalidData("search filter requires an index".to_owned()),
        ),
    }
}

/// Whether a condition that may be missing holds of fields.
pub fn evaluate_optional(f: &Option<FilterExpr>, fields: &[Field]) -> (r: Result<bool, DbError>)
    ensures
        match r {
            Ok(b) => passes(f.deep_view(), fields_view(fields@)) == Ok::<bool, ErrorView>(b),
            Err(e) => passes(f.deep_view(), fields_view(fields@)) == Err::<bool, ErrorView>(e@),
        },
{
    match f {
        Some(f) => evaluate(f, fields),
        None => Ok(true),
    }
}

/// Two conditions that may be missing, put together.
pub open spec fn combined(a: Option<FilterView>, b: Option<FilterView>) -> Option<FilterView> {
    match (a, b) {
        (Some(x), Some(y)) => Some(FilterView::And(Box::new(x), Box::new(y))),
        (Some(x), None) => Some(x),
        (None, other) => other,
    }
}

/// Puts two conditions together.
pub fn combine_filters(a: Option<FilterExpr>, b: Option<FilterExpr>) -> (r: Option<FilterExpr>)
    ensures
        r.deep_view() == combined(a.deep_view(), b.deep_view()),
{
    match (a, b) {
        (Some(x), Some(y)) => Some(FilterExpr::And(Box::new(x), Box::new(y))),
        (Some(x), None) => Some(x),
        (None, other) => other,
    }
}

/// A condition put together from two lets through only what both let through.
pub proof fn law_combined_is_stricter(a: FilterView, b: FilterView, fs: Seq<FieldView>)
    ensures
        passes(combined(Some(a), Some(b)), fs) == Ok::<bool, ErrorView>(true) <==> (holds(a, fs)
            == Ok::<bool, ErrorView>(true) && holds(b, fs) == Ok::<bool, ErrorView>(true)),
{
}

} // verus!
