//! Values in the notation that clients of the gateway read.

use vstd::prelude::*;

use crate::bytes::EntityId;
use crate::gateway::base64::{base64_encode, base64_of};
use crate::gateway::hex::{hex_of, uuid_to_hex};
use crate::text::str_eq;
use crate::value::{Value, ValueView};

verus! {

/// A value as clients read it.
#[derive(Debug)]
pub enum Json {
    /// Nothing.
    Null,
    /// A truth value.
    Bool(bool),
    /// A whole number.
    Number(i64),
    /// A finite floating-point number, by the bits of the double that equals it.
    Float(u64),
    /// A text.
    Text(String),
    /// A list.
    Array(Vec<Json>),
    /// Values by name. No name comes twice.
    Object(Vec<(String, Json)>),
}

/// A value as clients read it, in mathematical terms.
pub ghost enum JsonView {
    /// See [`Json::Null`].
    Null,
    /// See [`Json::Bool`].
    Bool(bool),
    /// See [`Json::Number`].
    Number(i64),
    /// See [`Json::Float`].
    Float(u64),
    /// See [`Json::Text`].
    Text(Seq<char>),
    /// See [`Json::Array`].
    Array(Seq<JsonView>),
    /// See [`Json::Object`].
    Object(Seq<(Seq<char>, JsonView)>),
}

/// A value as clients read it, in mathematical terms.
pub open spec fn json_view(j: Json) -> JsonView
    decreases j,
{
    match j {
        Json::Null => JsonView::Null,
        Json::Bool(b) => JsonView::Bool(b),
        Json::Number(n) => JsonView::Number(n),
        Json::Float(f) => JsonView::Float(f),
        Json::Text(s) => JsonView::Text(s@),
        Json::Array(a) => JsonView::Array(
            Seq::new(
                a@.len(),
                |i: int|
                    if 0 <= i < a@.len() {
                        json_view(a@[i])
                    } else {
                        JsonView::Null
                    },
            ),
        ),
        Json::Object(m) => JsonView::Object(
            Seq::new(
                m@.len(),
                |i: int|
                    if 0 <= i < m@.len() {
                        (m@[i].0@, json_view(m@[i].1))
                    } else {
                        (Seq::empty(), JsonView::Null)
                    },
            ),
        ),
    }
}

impl View for Json {
    type V = JsonView;

    open spec fn view(&self) -> JsonView {
        json_view(*self)
    }
}

/// Values as clients read them, in mathematical terms.
pub open spec fn jsons_view(list: Seq<Json>) -> Seq<JsonView> {
    list.map_values(|j: Json| j@)
}

/// A list as clients read it.
pub fn array_of(list: Vec<Json>) -> (j: Json)
    ensures
        j@ == JsonView::Array(jsons_view(list@)),
{
    let j = Json::Array(list);
    assert(j@->Array_0 =~= jsons_view(list@));
    j
}

/// Whether the bits are those of a finite number.
pub open spec fn is_finite(bits: u64) -> bool {
    bits % 0x8000_0000_0000_0000 < 0x7ff0_0000_0000_0000
}

/// A floating-point number as clients read it: nothing, where it is not finite.
pub open spec fn float_json(bits: u64) -> JsonView {
    if is_finite(bits) {
        JsonView::Float(bits)
    } else {
        JsonView::Null
    }
}

/// A point on the globe as clients read it.
pub open spec fn point_json(p: (u64, u64)) -> JsonView {
    JsonView::Object(seq![("lat"@, float_json(p.0)), ("lon"@, float_json(p.1))])
}

/// A field value as clients read it.
pub open spec fn value_json(v: ValueView) -> JsonView {
    match v {
        ValueView::Null => JsonView::Null,
        ValueView::Bool(b) => JsonView::Bool(b),
        ValueView::Int32(i) => JsonView::Number(i as i64),
        ValueView::Int64(i) => JsonView::Number(i),
        ValueView::Float32(f) => float_json(f),
        ValueView::Float64(f) => float_json(f),
        ValueView::String(s) => JsonView::Text(s),
        ValueView::Bytes(b) => JsonView::Text(base64_of(b)),
        ValueView::Timestamp(t) => JsonView::Number(t),
        ValueView::Uuid(u) => JsonView::Text(hex_of(u)),
        ValueView::BoolArray(a) => JsonView::Array(a.map_values(|b: bool| JsonView::Bool(b))),
        ValueView::Int32Array(a) => JsonView::Array(
            a.map_values(|i: i32| JsonView::Number(i as i64)),
        ),
        ValueView::Int64Array(a) => JsonView::Array(a.map_values(|i: i64| JsonView::Number(i))),
        ValueView::Float32Array(a) => JsonView::Array(a.map_values(|f: u64| float_json(f))),
        ValueView::Float64Array(a) => JsonView::Array(a.map_values(|f: u64| float_json(f))),
        ValueView::StringArray(a) => JsonView::Array(
            a.map_values(|s: Seq<char>| JsonView::Text(s)),
        ),
        ValueView::UuidArray(a) => JsonView::Array(
            a.map_values(|u: Seq<u8>| JsonView::Text(hex_of(u))),
        ),
        ValueView::Vector(a) => JsonView::Array(a.map_values(|f: u64| float_json(f))),
        ValueView::GeoPoint(lat, lon) => point_json((lat, lon)),
        ValueView::GeoPolygon(a) => JsonView::Array(
            a.map_values(|p: (u64, u64)| point_json(p)),
        ),
    }
}

fn float_of(bits: u64) -> (j: Json)
    ensures
        j@ == float_json(bits),
{
    if bits % 0x8000_0000_0000_0000 < 0x7ff0_0000_0000_0000 {
        Json::Float(bits)
    } else {
        Json::Null
    }
}

fn point_of(lat: u64, lon: u64) -> (j: Json)
    ensures
        j@ == point_json((lat, lon)),
{
    let mut members: Vec<(String, Json)> = Vec::new();
    members.push(("lat".to_owned(), float_of(lat)));
    members.push(("lon".to_owned(), float_of(lon)));
    let j = Json::Object(members);
    assert(j@->Object_0 =~= point_json((lat, lon))->Object_0);
    j
}

/// A list as clients read it, each item in its own way.
fn list_of<T, F: Fn(&T) -> Json>(
    list: &[T],
    each: F,
    Ghost(shown): Ghost<spec_fn(T) -> JsonView>,
) -> (j: Json)
    requires
        forall|x: &T| #[trigger] call_requires(each, (x,)),
        forall|x: &T, j: Json| #[trigger] call_ensures(each, (x,), j) ==> j@ == shown(*x),
    ensures
        j@ == JsonView::Array(list@.map_values(shown)),
{
    let mut out: Vec<Json> = Vec::new();
    let mut i: usize = 0;
    while i < list.len()
        invariant
            i <= list@.len(),
            forall|x: &T| #[trigger] call_requires(each, (x,)),
            forall|x: &T, j: Json| #[trigger] call_ensures(each, (x,), j) ==> j@ == shown(*x),
            out@.len() == i,
            forall|k: int| 0 <= k < i ==> (#[trigger] out@[k])@ == shown(list@[k]),
        decreases list@.len() - i,
    {
        out.push(each(&list[i]));
        i = i + 1;
    }
    assert(jsons_view(out@) =~= list@.map_values(shown));
    array_of(out)
}

fn floats_of(list: &[u64]) -> (j: Json)
    ensures
        j@ == JsonView::Array(list@.map_values(|f: u64| float_json(f))),
{
    let each = |x: &u64| -> (j: Json)
        ensures
            j@ == float_json(*x),
        { float_of(*x) };
    list_of(list, each, Ghost(|f: u64| float_json(f)))
}

/// A field value as clients read it.
pub fn value_to_json(value: &Value) -> (j: Json)
    ensures
        j@ == value_json(value@),
{
    match value {
        Value::Null => Json::Null,
        Value::Bool(b) => Json::Bool(*b),
        Value::Int32(i) => Json::Number(*i as i64),
        Value::Int64(i) => Json::Number(*i),
        Value::Float32(f) => float_of(*f),
        Value::Float64(f) => float_of(*f),
        Value::String(s) => Json::Text(s.clone()),
        Value::Bytes(b) => Json::Text(base64_encode(b.as_slice())),
        Value::Timestamp(t) => Json::Number(*t),
        Value::Uuid(u) => Json::Text(uuid_to_hex(u)),
        Value::BoolArray(a) => {
            let each = |x: &bool| -> (j: Json)
                ensures
                    j@ == JsonView::Bool(*x),
                {
                    Json::Bool(*x)
                };
            let j = list_of(a.as_slice(), each, Ghost(|x: bool| JsonView::Bool(x)));
            assert(j@->Array_0 =~= value_json(value@)->Array_0);
            j
        },
        Value::Int32Array(a) => {
            let each = |x: &i32| -> (j: Json)
                ensures
                    j@ == JsonView::Number(*x as i64),
                {
                    Json::Number(*x as i64)
                };
            let j = list_of(a.as_slice(), each, Ghost(|x: i32| JsonView::Number(x as i64)));
            assert(j@->Array_0 =~= value_json(value@)->Array_0);
            j
        },
        Value::Int64Array(a) => {
            let each = |x: &i64| -> (j: Json)
                ensures
                    j@ == JsonView::Number(*x),
                {
                    Json::Number(*x)
                };
            let j = list_of(a.as_slice(), each, Ghost(|x: i64| JsonView::Number(x)));
            assert(j@->Array_0 =~= value_json(value@)->Array_0);
            j
        },
        Value::Float32Array(a) => floats_of(a.as_slice()),
        Value::Float64Array(a) => floats_of(a.as_slice()),
        Value::StringArray(a) => {
            let each = |x: &String| -> (j: Json)
                ensures
                    j@ == JsonView::Text(x@),
                {
                    Json::Text(x.clone())
                };
            let j = list_of(a.as_slice(), each, Ghost(|x: String| JsonView::Text(x@)));
            assert(j@->Array_0 =~= value_json(value@)->Array_0);
            j
        },
        Value::UuidArray(a) => {
            let each = |x: &EntityId| -> (j: Json)
                ensures
                    j@ == JsonView::Text(hex_of(x@)),
                {
                    Json::Text(uuid_to_hex(x))
                };
            let j = list_of(a.as_slice(), each, Ghost(|x: EntityId| JsonView::Text(hex_of(x@))));
            assert(j@->Array_0 =~= value_json(value@)->Array_0);
            j
        },
        Value::Vector(a) => floats_of(a.as_slice()),
        Value::GeoPoint { lat, lon } => point_of(*lat, *lon),
        Value::GeoPolygon(a) => {
            let each = |x: &(u64, u64)| -> (j: Json)
                ensures
                    j@ == point_json(*x),
                {
                    point_of(x.0, x.1)
                };
            let j = list_of(a.as_slice(), each, Ghost(|x: (u64, u64)| point_json(x)));
            assert(j@->Array_0 =~= value_json(value@)->Array_0);
            j
        },
    }
}

/// Values by name.
pub type Members = Seq<(Seq<char>, JsonView)>;

/// The members with one more: in the place of the one with its name, where there
/// is one, and else at the end.
pub open spec fn with_member(m: Members, name: Seq<char>, value: JsonView) -> Members
    decreases m.len(),
{
    if m.len() == 0 {
        seq![(name, value)]
    } else if m[0].0 == name {
        m.update(0, (name, value))
    } else {
        seq![m[0]] + with_member(m.drop_first(), name, value)
    }
}

/// Members in mathematical terms.
pub open spec fn members_view(m: Seq<(String, Json)>) -> Members {
    m.map_values(|e: (String, Json)| (e.0@, e.1@))
}

/// Members as clients read them.
pub fn object_of(m: Vec<(String, Json)>) -> (j: Json)
    ensures
        j@ == JsonView::Object(members_view(m@)),
{
    let j = Json::Object(m);
    assert(j@->Object_0 =~= members_view(m@));
    j
}

/// Puts a member among others.
pub fn put_member(m: &mut Vec<(String, Json)>, name: String, value: Json)
    ensures
        members_view(final(m)@) == with_member(members_view(old(m)@), name@, value@),
{
    let ghost all = members_view(m@);
    let mut i: usize = 0;
    assert(all.skip(0) =~= all);
    assert(all.take(0) + with_member(all.skip(0), name@, value@) =~= with_member(
        all,
        name@,
        value@,
    ));
    while i < m.len()
        invariant
            i <= m@.len(),
            all == members_view(m@),
            m@ == old(m)@,
            with_member(all, name@, value@) == all.take(i as int) + with_member(
                all.skip(i as int),
                name@,
                value@,
            ),
        decreases m@.len() - i,
    {
        let ghost rest = all.skip(i as int);
        assert(rest[0] == (m@[i as int].0@, m@[i as int].1@));
        if str_eq(m[i].0.as_str(), name.as_str()) {
            let ghost n = name@;
            let ghost v = value@;
            m.set(i, (name, value));
            assert(members_view(m@) =~= all.take(i as int) + rest.update(0, (n, v)));
            return;
        }
        assert(rest.drop_first() =~= all.skip(i + 1));
        assert(all.take(i as int) + (seq![rest[0]] + with_member(all.skip(i + 1), name@, value@))
            =~= all.take(i + 1) + with_member(all.skip(i + 1), name@, value@));
        i = i + 1;
    }
    let ghost n = name@;
    let ghost v = value@;
    m.push((name, value));
    assert(members_view(m@) =~= all.take(i as int) + seq![(n, v)]);
}

/// The value under a name, where there is one.
pub open spec fn member(m: Members, name: Seq<char>) -> Option<JsonView>
    decreases m.len(),
{
    if m.len() == 0 {
        None
    } else if m[0].0 == name {
        Some(m[0].1)
    } else {
        member(m.drop_first(), name)
    }
}

/// What is put under a name is found under it, and nothing else changes.
pub proof fn law_member_is_found(m: Members, name: Seq<char>, value: JsonView, other: Seq<char>)
    ensures
        member(with_member(m, name, value), name) == Some(value),
        other != name ==> member(with_member(m, name, value), other) == member(m, other),
    decreases m.len(),
{
    let w = with_member(m, name, value);
    if m.len() == 0 {
        assert(w.drop_first() =~= m);
    } else if m[0].0 == name {
        assert(w.drop_first() =~= m.drop_first());
    } else {
        law_member_is_found(m.drop_first(), name, value, other);
        assert(w.drop_first() =~= with_member(m.drop_first(), name, value));
    }
}

} // verus!
