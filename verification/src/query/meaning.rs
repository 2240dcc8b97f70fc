//! What orders and conditions mean: by numbers, by letters, and by where values stand.

use vstd::prelude::*;
use vstd::utf8::encode_utf8;

use crate::bytes::{lemma_lex_antisymmetric, lemma_lex_total, lex_lt};
use crate::codec::FieldView;
use crate::error::ErrorView;
use crate::query::ast::{first_value, FilterView};
use crate::query::fetch::bound_of;
use crate::query::filter::{filter_names, holds, law_like_prefix, like};
use crate::storage::btree_index::meets;
use crate::storage::model::Bytes;
use crate::value::{
    bytes_order, comparable, optional_order, value_order, values_equal, Order, ValueView,
};

verus! {

/// Whether a byte string comes before another in a dictionary: it ends where the other
/// goes on, or has the smaller byte where they first differ.
pub open spec fn dictionary_before(a: Seq<u8>, b: Seq<u8>) -> bool {
    exists|n: int|
        #![trigger a.take(n)]
        0 <= n <= a.len() && n < b.len() && a.take(n) == b.take(n) && (n == a.len() || a[n] < b[n])
}

proof fn lemma_dictionary(a: Seq<u8>, b: Seq<u8>)
    ensures
        lex_lt(a, b) <==> dictionary_before(a, b),
    decreases a.len(),
{
    if b.len() == 0 {
    } else if a.len() == 0 {
        assert(a.take(0) =~= b.take(0));
    } else if a[0] != b[0] {
        if a[0] < b[0] {
            assert(a.take(0) =~= b.take(0));
        }
        if dictionary_before(a, b) {
            let n = choose|n: int|
                #![trigger a.take(n)]
                0 <= n <= a.len() && n < b.len() && a.take(n) == b.take(n) && (n == a.len() || a[n]
                    < b[n]);
            if n > 0 {
                assert(a.take(n)[0] == b.take(n)[0]);
            }
        }
    } else {
        let x = a.drop_first();
        let y = b.drop_first();
        lemma_dictionary(x, y);
        if dictionary_before(x, y) {
            let n = choose|n: int|
                #![trigger x.take(n)]
                0 <= n <= x.len() && n < y.len() && x.take(n) == y.take(n) && (n == x.len() || x[n]
                    < y[n]);
            assert(a.take(n + 1) =~= seq![a[0]] + x.take(n));
            assert(b.take(n + 1) =~= seq![b[0]] + y.take(n));
        }
        if dictionary_before(a, b) {
            let n = choose|n: int|
                #![trigger a.take(n)]
                0 <= n <= a.len() && n < b.len() && a.take(n) == b.take(n) && (n == a.len() || a[n]
                    < b[n]);
            assert(n > 0);
            assert(x.take(n - 1) =~= a.take(n).drop_first());
            assert(y.take(n - 1) =~= b.take(n).drop_first());
        }
    }
}

/// Whole numbers, timestamps and truth values are ordered as numbers are, whatever
/// width they have.
pub proof fn law_numbers_are_ordered(a: i32, b: i32, c: i64, d: i64, p: bool, q: bool)
    ensures
        value_order(ValueView::Int32(a), ValueView::Int32(b)) == Order::Less <==> a < b,
        value_order(ValueView::Int32(a), ValueView::Int32(b)) == Order::Equal <==> a == b,
        value_order(ValueView::Int64(c), ValueView::Int64(d)) == Order::Less <==> c < d,
        value_order(ValueView::Int64(c), ValueView::Int64(d)) == Order::Equal <==> c == d,
        value_order(ValueView::Int32(a), ValueView::Int64(d)) == Order::Less <==> a < d,
        value_order(ValueView::Int32(a), ValueView::Int64(d)) == Order::Equal <==> a == d,
        value_order(ValueView::Int64(c), ValueView::Int32(b)) == Order::Less <==> c < b,
        value_order(ValueView::Int64(c), ValueView::Int32(b)) == Order::Equal <==> c == b,
        value_order(ValueView::Timestamp(c), ValueView::Timestamp(d)) == Order::Less <==> c < d,
        value_order(ValueView::Timestamp(c), ValueView::Timestamp(d)) == Order::Equal <==> c == d,
        value_order(ValueView::Bool(p), ValueView::Bool(q)) == Order::Less <==> !p && q,
        value_order(ValueView::Bool(p), ValueView::Bool(q)) == Order::Equal <==> p == q,
{
}

/// The bit that makes a floating-point number negative.
pub open spec fn sign_bit() -> int {
    0x8000_0000_0000_0000
}

/// Floating-point numbers are ordered as numbers are: of two that are not negative the
/// one with the smaller bits is smaller, of two negative ones the one with the greater
/// bits, a negative one is smaller than one that is not, and the two zeros are equal.
/// The width makes no difference.
pub proof fn law_floats_are_ordered(a: u64, b: u64)
    requires
        a as int % sign_bit() <= 0x7ff0_0000_0000_0000,
        b as int % sign_bit() <= 0x7ff0_0000_0000_0000,
    ensures
        ({
            let less = if a < sign_bit() && b < sign_bit() {
                a < b
            } else if a >= sign_bit() && b >= sign_bit() {
                a > b
            } else {
                a >= sign_bit() && !(a == sign_bit() && b == 0)
            };
            let equal = a == b || (a as int % sign_bit() == 0 && b as int % sign_bit() == 0);
            &&& value_order(ValueView::Float64(a), ValueView::Float64(b)) == Order::Less <==> less
            &&& value_order(ValueView::Float64(a), ValueView::Float64(b)) == Order::Equal <==> equal
            &&& value_order(ValueView::Float32(a), ValueView::Float32(b)) == Order::Less <==> less
            &&& value_order(ValueView::Float32(a), ValueView::Float32(b)) == Order::Equal <==> equal
            &&& value_order(ValueView::Float32(a), ValueView::Float64(b)) == Order::Less <==> less
            &&& value_order(ValueView::Float32(a), ValueView::Float64(b)) == Order::Equal <==> equal
            &&& value_order(ValueView::Float64(a), ValueView::Float32(b)) == Order::Less <==> less
            &&& value_order(ValueView::Float64(a), ValueView::Float32(b)) == Order::Equal <==> equal
            &&& comparable(ValueView::Float64(a), ValueView::Float64(b))
            &&& comparable(ValueView::Float32(a), ValueView::Float32(b))
            &&& comparable(ValueView::Float64(a), ValueView::Float32(b))
            &&& comparable(ValueView::Float32(a), ValueView::Float64(b))
            &&& values_equal(ValueView::Float64(a), ValueView::Float64(b)) <==> equal
            &&& values_equal(ValueView::Float32(a), ValueView::Float32(b)) <==> equal
        }),
{
}

/// What is no number neither comes before nor after another, and equals nothing.
pub proof fn law_no_number_is_unordered(a: u64, b: u64)
    requires
        a as int % sign_bit() > 0x7ff0_0000_0000_0000,
    ensures
        !comparable(ValueView::Float64(a), ValueView::Float64(b)),
        !comparable(ValueView::Float64(b), ValueView::Float64(a)),
        !comparable(ValueView::Float32(a), ValueView::Float32(b)),
        !comparable(ValueView::Float32(b), ValueView::Float32(a)),
        !values_equal(ValueView::Float64(a), ValueView::Float64(b)),
        !values_equal(ValueView::Float64(b), ValueView::Float64(a)),
        !values_equal(ValueView::Float32(a), ValueView::Float32(b)),
        !values_equal(ValueView::Float32(b), ValueView::Float32(a)),
{
}

/// Texts, bytes and identifiers are ordered as in a dictionary, texts by the bytes that
/// they are written with.
pub proof fn law_texts_are_ordered(a: Seq<char>, b: Seq<char>, x: Seq<u8>, y: Seq<u8>)
    ensures
        value_order(ValueView::String(a), ValueView::String(b)) == Order::Less
            <==> dictionary_before(encode_utf8(a), encode_utf8(b)),
        value_order(ValueView::String(a), ValueView::String(b)) == Order::Greater
            <==> dictionary_before(encode_utf8(b), encode_utf8(a)),
        value_order(ValueView::Bytes(x), ValueView::Bytes(y)) == Order::Less
            <==> dictionary_before(x, y),
        value_order(ValueView::Bytes(x), ValueView::Bytes(y)) == Order::Greater
            <==> dictionary_before(y, x),
        value_order(ValueView::Uuid(x), ValueView::Uuid(y)) == Order::Less
            <==> dictionary_before(x, y),
        value_order(ValueView::Uuid(x), ValueView::Uuid(y)) == Order::Greater
            <==> dictionary_before(y, x),
{
    lemma_bytes_mean(encode_utf8(a), encode_utf8(b));
    lemma_bytes_mean(x, y);
}

proof fn lemma_bytes_mean(a: Seq<u8>, b: Seq<u8>)
    ensures
        bytes_order(a, b) == Order::Less <==> dictionary_before(a, b),
        bytes_order(a, b) == Order::Greater <==> dictionary_before(b, a),
        bytes_order(a, b) == Order::Equal <==> a == b,
{
    lemma_dictionary(a, b);
    lemma_dictionary(b, a);
    lemma_lex_total(a, b);
    if lex_lt(a, b) {
        lemma_lex_antisymmetric(a, b);
    }
    if lex_lt(b, a) {
        lemma_lex_antisymmetric(b, a);
    }
}

/// What is missing comes before what is null, and that before every value.
pub proof fn law_nothing_comes_first(v: ValueView)
    ensures
        optional_order(None, Some(v)) == Order::Less,
        optional_order(Some(v), None) == Order::Greater,
        optional_order(None, None) == Order::Equal,
        !(v is Null) ==> value_order(ValueView::Null, v) == Order::Less,
        !(v is Null) ==> value_order(v, ValueView::Null) == Order::Greater,
        value_order(ValueView::Null, ValueView::Null) == Order::Equal,
{
}

/// Values compare that are both whole numbers, both timestamps, both truth values, both
/// texts, both bytes or both identifiers, and no others but floating-point numbers.
pub proof fn law_kinds_that_compare(a: ValueView, b: ValueView)
    requires
        !(a is Float32) && !(a is Float64),
    ensures
        comparable(a, b) == (((a is Int32 || a is Int64) && (b is Int32 || b is Int64)) || (
        a is Timestamp && b is Timestamp) || (a is Bool && b is Bool) || (a is String
            && b is String) || (a is Bytes && b is Bytes) || (a is Uuid && b is Uuid)),
{
}

/// Values of other kinds than floating-point numbers are equal where they are the same.
pub proof fn law_equal_is_the_same(a: ValueView, b: ValueView)
    requires
        a is Null || a is Bool || a is Int32 || a is Int64 || a is String || a is Bytes
            || a is Timestamp || a is Uuid || a is BoolArray || a is Int32Array || a is Int64Array
            || a is StringArray || a is UuidArray,
    ensures
        values_equal(a, b) <==> a == b,
        values_equal(b, a) <==> a == b,
{
}

/// Where the first field of a name stands, that is the value that the name has; where
/// none has it, there is none.
pub proof fn law_first_field_counts(fs: Seq<FieldView>, name: Seq<char>, i: int)
    requires
        0 <= i < fs.len(),
        fs[i].0 == name,
        forall|j: int| 0 <= j < i ==> (#[trigger] fs[j]).0 != name,
    ensures
        first_value(fs, name) == Some(fs[i].1),
    decreases fs.len(),
{
    if i > 0 {
        assert(fs[0].0 != name);
        let rest = fs.drop_first();
        assert forall|j: int| 0 <= j < i - 1 implies (#[trigger] rest[j]).0 != name by {
            assert(rest[j] == fs[j + 1]);
        }
        law_first_field_counts(rest, name, i - 1);
    }
}

/// A name that no field has, has no value.
pub proof fn law_no_field_no_value(fs: Seq<FieldView>, name: Seq<char>)
    requires
        forall|j: int| 0 <= j < fs.len() ==> (#[trigger] fs[j]).0 != name,
    ensures
        first_value(fs, name) is None,
    decreases fs.len(),
{
    if fs.len() > 0 {
        assert(fs[0].0 != name);
        let rest = fs.drop_first();
        assert forall|j: int| 0 <= j < rest.len() implies (#[trigger] rest[j]).0 != name by {
            assert(rest[j] == fs[j + 1]);
        }
        law_no_field_no_value(rest, name);
    }
}

/// Whether two values that compare stand for two whole numbers.
pub open spec fn are_numbers(v: ValueView, x: int, w: ValueView, b: int) -> bool {
    match (v, w) {
        (ValueView::Int32(m), ValueView::Int32(n)) => m == x && n == b,
        (ValueView::Int64(m), ValueView::Int64(n)) => m == x && n == b,
        (ValueView::Int32(m), ValueView::Int64(n)) => m == x && n == b,
        (ValueView::Int64(m), ValueView::Int32(n)) => m == x && n == b,
        (ValueView::Timestamp(m), ValueView::Timestamp(n)) => m == x && n == b,
        _ => false,
    }
}

/// A condition on a number holds where the number stands so to the one given.
pub proof fn law_number_conditions(
    fs: Seq<FieldView>,
    field: Seq<char>,
    x: int,
    b: int,
    v: ValueView,
    w: ValueView,
)
    requires
        first_value(fs, field) == Some(v),
        are_numbers(v, x, w, b),
    ensures
        holds(FilterView::Gt(field, w), fs) == Ok::<bool, ErrorView>(x > b),
        holds(FilterView::Ge(field, w), fs) == Ok::<bool, ErrorView>(x >= b),
        holds(FilterView::Lt(field, w), fs) == Ok::<bool, ErrorView>(x < b),
        holds(FilterView::Le(field, w), fs) == Ok::<bool, ErrorView>(x <= b),
{
}

/// A condition on a text holds where the text stands so to the one given.
pub proof fn law_text_conditions(fs: Seq<FieldView>, field: Seq<char>, s: Seq<char>, t: Seq<char>)
    requires
        first_value(fs, field) == Some(ValueView::String(s)),
    ensures
        ({
            let (a, b) = (encode_utf8(s), encode_utf8(t));
            let w = ValueView::String(t);
            &&& holds(FilterView::Eq(field, w), fs) == Ok::<bool, ErrorView>(s == t)
            &&& holds(FilterView::Gt(field, w), fs) == Ok::<bool, ErrorView>(dictionary_before(b, a))
            &&& holds(FilterView::Ge(field, w), fs) == Ok::<bool, ErrorView>(!dictionary_before(a, b))
            &&& holds(FilterView::Lt(field, w), fs) == Ok::<bool, ErrorView>(dictionary_before(a, b))
            &&& holds(FilterView::Le(field, w), fs) == Ok::<bool, ErrorView>(!dictionary_before(b, a))
        }),
{
    law_texts_are_ordered(s, t, encode_utf8(s), encode_utf8(t));
}

/// Four conditions on one field share the values that compare out between them: greater
/// is not less or equal, less is not greater or equal; none holds of a value of another
/// kind, of a null or of a field that is not there.
pub proof fn law_conditions_share_out(fs: Seq<FieldView>, field: Seq<char>, w: ValueView)
    ensures
        ({
            let v = first_value(fs, field);
            let met = v is Some && comparable(v->0, w);
            let gt = holds(FilterView::Gt(field, w), fs);
            let ge = holds(FilterView::Ge(field, w), fs);
            let lt = holds(FilterView::Lt(field, w), fs);
            let le = holds(FilterView::Le(field, w), fs);
            &&& gt is Ok && ge is Ok && lt is Ok && le is Ok
            &&& met ==> gt->Ok_0 == !le->Ok_0 && lt->Ok_0 == !ge->Ok_0 && !(gt->Ok_0 && lt->Ok_0)
            &&& !met ==> !gt->Ok_0 && !ge->Ok_0 && !lt->Ok_0 && !le->Ok_0
            &&& v is None || v == Some(ValueView::Null) ==> !gt->Ok_0 && !ge->Ok_0 && !lt->Ok_0
                && !le->Ok_0
        }),
{
}

/// A condition that a field equals a value holds where the field is there and its value
/// is equal; a field that is not there meets no condition.
pub proof fn law_equality_condition(fs: Seq<FieldView>, field: Seq<char>, w: ValueView, p: Seq<char>)
    ensures
        first_value(fs, field) is None ==> holds(FilterView::Eq(field, w), fs) == Ok::<
            bool,
            ErrorView,
        >(false),
        first_value(fs, field) is None ==> holds(FilterView::Like(field, p), fs) == Ok::<
            bool,
            ErrorView,
        >(false),
        first_value(fs, field) matches Some(v) ==> holds(FilterView::Eq(field, w), fs) == Ok::<
            bool,
            ErrorView,
        >(values_equal(v, w)),
        first_value(fs, field) matches Some(v) && !(v is String) ==> holds(
            FilterView::Like(field, p),
            fs,
        ) == Ok::<bool, ErrorView>(false),
{
}

/// Conditions are joined as the words say: both, one of the two, or not the one. Of two,
/// the second is not looked at where the first decides.
pub proof fn law_joined_conditions(a: FilterView, b: FilterView, fs: Seq<FieldView>)
    ensures
        holds(a, fs) is Ok && holds(b, fs) is Ok ==> {
            let (x, y) = (holds(a, fs)->Ok_0, holds(b, fs)->Ok_0);
            &&& holds(FilterView::And(Box::new(a), Box::new(b)), fs) == Ok::<bool, ErrorView>(x && y)
            &&& holds(FilterView::Or(Box::new(a), Box::new(b)), fs) == Ok::<bool, ErrorView>(x || y)
            &&& holds(FilterView::Not(Box::new(a)), fs) == Ok::<bool, ErrorView>(!x)
        },
        holds(a, fs) == Ok::<bool, ErrorView>(false) ==> holds(
            FilterView::And(Box::new(a), Box::new(b)),
            fs,
        ) == Ok::<bool, ErrorView>(false),
        holds(a, fs) == Ok::<bool, ErrorView>(true) ==> holds(
            FilterView::Or(Box::new(a), Box::new(b)),
            fs,
        ) == Ok::<bool, ErrorView>(true),
{
}

/// A pattern without wildcards matches itself alone; `_` stands for one character, and
/// `%` for any text, at any place of a pattern.
pub proof fn law_like_means(s: Seq<char>, p: Seq<char>, q: Seq<char>)
    ensures
        (forall|i: int| 0 <= i < p.len() ==> #[trigger] p[i] != '%' && p[i] != '_') ==> (like(s, p)
            <==> s == p),
        like(s, seq!['_'] + q) <==> s.len() > 0 && like(s.skip(1), q),
        like(s, seq!['%'] + q) <==> exists|k: int|
            0 <= k <= s.len() && #[trigger] like(s.skip(k), q),
        like(s, p + seq!['%']) <==> exists|k: int|
            0 <= k <= s.len() && #[trigger] like(s.take(k), p),
{
    if forall|i: int| 0 <= i < p.len() ==> #[trigger] p[i] != '%' && p[i] != '_' {
        lemma_like_plain(s, p);
    }
    assert((seq!['_'] + q).drop_first() =~= q);
    if s.len() > 0 {
        assert(s.drop_first() =~= s.skip(1));
    }
    lemma_like_any_then(s, q);
    lemma_like_then_any(s, p);
}

proof fn lemma_like_plain(s: Seq<char>, p: Seq<char>)
    requires
        forall|i: int| 0 <= i < p.len() ==> #[trigger] p[i] != '%' && p[i] != '_',
    ensures
        like(s, p) <==> s == p,
    decreases p.len(),
{
    if p.len() == 0 {
        if s.len() == 0 {
            assert(s =~= p);
        }
    } else {
        assert(p[0] != '%' && p[0] != '_');
        let rest = p.drop_first();
        assert forall|i: int| 0 <= i < rest.len() implies #[trigger] rest[i] != '%' && rest[i] != '_' by {
            assert(rest[i] == p[i + 1]);
        }
        if s.len() > 0 {
            lemma_like_plain(s.drop_first(), rest);
            if s[0] == p[0] && s.drop_first() == rest {
                assert(s =~= seq![s[0]] + s.drop_first());
                assert(p =~= seq![p[0]] + rest);
            }
        }
    }
}

proof fn lemma_like_any_then(s: Seq<char>, q: Seq<char>)
    ensures
        like(s, seq!['%'] + q) <==> exists|k: int|
            0 <= k <= s.len() && #[trigger] like(s.skip(k), q),
    decreases s.len(),
{
    let p = seq!['%'] + q;
    assert(p.drop_first() =~= q);
    assert(p[0] == '%');
    assert(s.skip(0) =~= s);
    assert(like(s.skip(0), q) == like(s, q));
    if s.len() == 0 {
        assert forall|k: int| 0 <= k <= s.len() && #[trigger] like(s.skip(k), q) implies like(
            s,
            q,
        ) by {
            assert(s.skip(k) =~= s);
        }
    }
    if s.len() > 0 {
        let t = s.drop_first();
        lemma_like_any_then(t, q);
        if exists|k: int| 0 <= k <= t.len() && #[trigger] like(t.skip(k), q) {
            let k = choose|k: int| 0 <= k <= t.len() && #[trigger] like(t.skip(k), q);
            assert(t.skip(k) =~= s.skip(k + 1));
            assert(like(s.skip(k + 1), q));
        }
        if exists|k: int| 0 <= k <= s.len() && #[trigger] like(s.skip(k), q) {
            let k = choose|k: int| 0 <= k <= s.len() && #[trigger] like(s.skip(k), q);
            if k > 0 {
                assert(t.skip(k - 1) =~= s.skip(k));
                assert(like(t.skip(k - 1), q));
            }
        }
    }
}

proof fn lemma_like_then_any(s: Seq<char>, p: Seq<char>)
    ensures
        like(s, p + seq!['%']) <==> exists|k: int|
            0 <= k <= s.len() && #[trigger] like(s.take(k), p),
    decreases s.len() + p.len(),
{
    let all = p + seq!['%'];
    if p.len() == 0 {
        assert(all =~= seq!['%'] + p);
        lemma_like_any_then(s, p);
        assert(s.skip(s.len() as int).len() == 0);
        assert(like(s.skip(s.len() as int), p));
        assert(like(s.take(0), p));
    } else {
        let rest = p.drop_first();
        assert(all.drop_first() =~= rest + seq!['%']);
        assert(all[0] == p[0]);
        if p[0] == '%' {
            lemma_like_then_any(s, rest);
            assert forall|k: int| 0 <= k <= s.len() && #[trigger] like(s.take(k), rest) implies like(
                s.take(k),
                p,
            ) by {}
            if s.len() > 0 {
                lemma_like_then_any(s.drop_first(), p);
                if exists|k: int|
                    0 <= k <= s.drop_first().len() && #[trigger] like(s.drop_first().take(k), p) {
                    let k = choose|k: int|
                        0 <= k <= s.drop_first().len() && #[trigger] like(s.drop_first().take(k), p);
                    assert(s.take(k + 1).drop_first() =~= s.drop_first().take(k));
                    assert(like(s.take(k + 1), p));
                }
            }
            if exists|k: int| 0 <= k <= s.len() && #[trigger] like(s.take(k), p) {
                let k = choose|k: int| 0 <= k <= s.len() && #[trigger] like(s.take(k), p);
                if !like(s.take(k), rest) {
                    assert(s.take(k).drop_first() =~= s.drop_first().take(k - 1));
                    assert(like(s.drop_first().take(k - 1), p));
                }
            }
        } else if s.len() > 0 {
            lemma_like_then_any(s.drop_first(), rest);
            if like(s, all) {
                let k = choose|k: int|
                    0 <= k <= s.drop_first().len() && #[trigger] like(s.drop_first().take(k), rest);
                assert(s.take(k + 1).drop_first() =~= s.drop_first().take(k));
                assert(like(s.take(k + 1), p));
            }
            if exists|k: int| 0 <= k <= s.len() && #[trigger] like(s.take(k), p) {
                let k = choose|k: int| 0 <= k <= s.len() && #[trigger] like(s.take(k), p);
                assert(s.take(k).drop_first() =~= s.drop_first().take(k - 1));
                assert(like(s.drop_first().take(k - 1), rest));
            }
        }
    }
}

/// What the ordered index is asked for is what the condition asks of the field: a value
/// meets the bound exactly where a row with that value meets the condition.
pub proof fn law_bound_is_the_condition(f: FilterView, v: ValueView)
    requires
        bound_of(f) is Some,
    ensures
        ({
            let (field, bound) = bound_of(f)->0;
            &&& filter_names(f) == seq![field]
            &&& meets(v, bound) <==> holds(f, seq![(field, v)]) == Ok::<bool, ErrorView>(true)
        }),
{
    let (field, bound) = bound_of(f)->0;
    let fs = seq![(field, v)];
    assert(fs[0].0 == field);
    assert(first_value(fs, field) == Some(v));
    if let FilterView::Like(_, p) = f {
        if let ValueView::String(s) = v {
            law_like_prefix(s, p);
        }
    }
}

/// Each of the four comparisons and each search for a beginning can be put to the
/// ordered index.
pub proof fn law_comparisons_have_bounds(field: Seq<char>, v: ValueView, p: Seq<char>)
    requires
        p.len() > 0,
        forall|i: int| 0 <= i < p.len() ==> #[trigger] p[i] != '%' && p[i] != '_',
    ensures
        bound_of(FilterView::Gt(field, v)) is Some,
        bound_of(FilterView::Ge(field, v)) is Some,
        bound_of(FilterView::Lt(field, v)) is Some,
        bound_of(FilterView::Le(field, v)) is Some,
        bound_of(FilterView::Like(field, p.push('%'))) is Some,
{
    assert(p.push('%').drop_last() =~= p);
}

} // verus!
