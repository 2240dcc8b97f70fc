//! Field values, their equality and their order.
//!
//! A floating-point number is held by the bits of the double that equals it:
//! every single-precision number is exactly some double, so one width serves
//! both variants. The order and the equality of such numbers are read off the
//! bits, as whole numbers.

use vstd::prelude::*;
use vstd::utf8::encode_utf8;

use crate::bytes::{bytes_eq, copy_slice, id_eq, lex_lt, EntityId};
use crate::storage::model::Bytes;
use crate::text::{copy_texts, str_eq};

verus! {

/// A field value.
#[derive(Debug)]
pub enum Value {
    /// No value.
    Null,
    /// A truth value.
    Bool(bool),
    /// A 32-bit integer.
    Int32(i32),
    /// A 64-bit integer.
    Int64(i64),
    /// A single-precision number, by the bits of the double that equals it.
    Float32(u64),
    /// A double-precision number, by its bits.
    Float64(u64),
    /// Text.
    String(String),
    /// Raw bytes.
    Bytes(Vec<u8>),
    /// Microseconds since the epoch.
    Timestamp(i64),
    /// An entity identifier.
    Uuid(EntityId),
    /// An array of truth values.
    BoolArray(Vec<bool>),
    /// An array of 32-bit integers.
    Int32Array(Vec<i32>),
    /// An array of 64-bit integers.
    Int64Array(Vec<i64>),
    /// An array of single-precision numbers, by bits.
    Float32Array(Vec<u64>),
    /// An array of double-precision numbers, by bits.
    Float64Array(Vec<u64>),
    /// An array of texts.
    StringArray(Vec<String>),
    /// An array of identifiers.
    UuidArray(Vec<EntityId>),
    /// An embedding vector, by bits.
    Vector(Vec<u64>),
    /// A point on the globe, by the bits of latitude and longitude.
    GeoPoint {
        /// Latitude.
        lat: u64,
        /// Longitude.
        lon: u64,
    },
    /// A polygon on the globe, by the bits of its vertices.
    GeoPolygon(Vec<(u64, u64)>),
}

/// What a value is, in mathematical terms.
pub ghost enum ValueView {
    /// See [`Value::Null`].
    Null,
    /// See [`Value::Bool`].
    Bool(bool),
    /// See [`Value::Int32`].
    Int32(i32),
    /// See [`Value::Int64`].
    Int64(i64),
    /// See [`Value::Float32`].
    Float32(u64),
    /// See [`Value::Float64`].
    Float64(u64),
    /// See [`Value::String`].
    String(Seq<char>),
    /// See [`Value::Bytes`].
    Bytes(Seq<u8>),
    /// See [`Value::Timestamp`].
    Timestamp(i64),
    /// See [`Value::Uuid`].
    Uuid(Seq<u8>),
    /// See [`Value::BoolArray`].
    BoolArray(Seq<bool>),
    /// See [`Value::Int32Array`].
    Int32Array(Seq<i32>),
    /// See [`Value::Int64Array`].
    Int64Array(Seq<i64>),
    /// See [`Value::Float32Array`].
    Float32Array(Seq<u64>),
    /// See [`Value::Float64Array`].
    Float64Array(Seq<u64>),
    /// See [`Value::StringArray`].
    StringArray(Seq<Seq<char>>),
    /// See [`Value::UuidArray`].
    UuidArray(Seq<Seq<u8>>),
    /// See [`Value::Vector`].
    Vector(Seq<u64>),
    /// See [`Value::GeoPoint`].
    GeoPoint(u64, u64),
    /// See [`Value::GeoPolygon`].
    GeoPolygon(Seq<(u64, u64)>),
}

impl View for Value {
    type V = ValueView;

    open spec fn view(&self) -> ValueView {
        match *self {
            Value::Null => ValueView::Null,
            Value::Bool(b) => ValueView::Bool(b),
            Value::Int32(i) => ValueView::Int32(i),
            Value::Int64(i) => ValueView::Int64(i),
            Value::Float32(f) => ValueView::Float32(f),
            Value::Float64(f) => ValueView::Float64(f),
            Value::String(s) => ValueView::String(s@),
            Value::Bytes(b) => ValueView::Bytes(b@),
            Value::Timestamp(t) => ValueView::Timestamp(t),
            Value::Uuid(u) => ValueView::Uuid(u@),
            Value::BoolArray(a) => ValueView::BoolArray(a@),
            Value::Int32Array(a) => ValueView::Int32Array(a@),
            Value::Int64Array(a) => ValueView::Int64Array(a@),
            Value::Float32Array(a) => ValueView::Float32Array(a@),
            Value::Float64Array(a) => ValueView::Float64Array(a@),
            Value::StringArray(a) => ValueView::StringArray(a@.map_values(|s: String| s@)),
            Value::UuidArray(a) => ValueView::UuidArray(a@.map_values(|u: EntityId| u@)),
            Value::Vector(a) => ValueView::Vector(a@),
            Value::GeoPoint { lat, lon } => ValueView::GeoPoint(lat, lon),
            Value::GeoPolygon(a) => ValueView::GeoPolygon(a@),
        }
    }
}

impl DeepView for Value {
    type V = ValueView;

    open spec fn deep_view(&self) -> ValueView {
        self@
    }
}

/// How one thing stands to another.
#[derive(Debug, Clone, Copy, PartialEq, Eq, Structural)]
pub enum Order {
    /// It comes before.
    Less,
    /// Neither comes before the other.
    Equal,
    /// It comes after.
    Greater,
}

impl Order {
    /// The opposite relation.
    pub open spec fn flipped(self) -> Order {
        match self {
            Order::Less => Order::Greater,
            Order::Equal => Order::Equal,
            Order::Greater => Order::Less,
        }
    }

    /// The opposite relation.
    pub fn reverse(self) -> (r: Order)
        ensures
            r == self.flipped(),
    {
        match self {
            Order::Less => Order::Greater,
            Order::Equal => Order::Equal,
            Order::Greater => Order::Less,
        }
    }
}

/// The order of two whole numbers.
pub open spec fn int_order(a: int, b: int) -> Order {
    if a < b {
        Order::Less
    } else if a == b {
        Order::Equal
    } else {
        Order::Greater
    }
}

/// The dictionary order of two byte strings.
pub open spec fn bytes_order(a: Seq<u8>, b: Seq<u8>) -> Order {
    if a == b {
        Order::Equal
    } else if lex_lt(a, b) {
        Order::Less
    } else {
        Order::Greater
    }
}

/// Whether the bits are those of no number.
pub open spec fn is_nan(bits: u64) -> bool {
    bits % 0x8000_0000_0000_0000 > 0x7ff0_0000_0000_0000
}

/// A whole number that orders the doubles that are numbers: the magnitude's
/// bits, negated for a negative number. Both zeros get 0.
pub open spec fn float_rank(bits: u64) -> int {
    if bits >= 0x8000_0000_0000_0000 {
        0x8000_0000_0000_0000 - bits
    } else {
        bits as int
    }
}

/// The order of two floating-point numbers; what is no number is not ordered.
pub open spec fn float_order(a: u64, b: u64) -> Order {
    if is_nan(a) || is_nan(b) {
        Order::Equal
    } else {
        int_order(float_rank(a), float_rank(b))
    }
}

/// Equality of floating-point numbers: what is no number equals nothing.
pub open spec fn float_eq(a: u64, b: u64) -> bool {
    !is_nan(a) && !is_nan(b) && float_rank(a) == float_rank(b)
}

/// Equality of two sequences of floating-point numbers.
pub open spec fn floats_eq(a: Seq<u64>, b: Seq<u64>) -> bool {
    a.len() == b.len() && forall|i: int| 0 <= i < a.len() ==> float_eq(#[trigger] a[i], b[i])
}

/// Equality of two values: of the same kind, with the same content, where
/// floating-point numbers are compared as numbers.
pub open spec fn values_equal(a: ValueView, b: ValueView) -> bool {
    match (a, b) {
        (ValueView::Float32(x), ValueView::Float32(y)) => float_eq(x, y),
        (ValueView::Float64(x), ValueView::Float64(y)) => float_eq(x, y),
        (ValueView::Float32Array(x), ValueView::Float32Array(y)) => floats_eq(x, y),
        (ValueView::Float64Array(x), ValueView::Float64Array(y)) => floats_eq(x, y),
        (ValueView::Vector(x), ValueView::Vector(y)) => floats_eq(x, y),
        (ValueView::GeoPoint(p, q), ValueView::GeoPoint(r, s)) => float_eq(p, r) && float_eq(q, s),
        (ValueView::GeoPolygon(x), ValueView::GeoPolygon(y)) => x.len() == y.len() && forall|i: int|
            0 <= i < x.len() ==> float_eq((#[trigger] x[i]).0, y[i].0) && float_eq(x[i].1, y[i].1),
        _ => a == b,
    }
}

/// The order of two values for sorting: no value first; values of kinds that
/// do not compare are taken as equal.
pub open spec fn value_order(a: ValueView, b: ValueView) -> Order {
    match (a, b) {
        (ValueView::Null, ValueView::Null) => Order::Equal,
        (ValueView::Null, _) => Order::Less,
        (_, ValueView::Null) => Order::Greater,
        (ValueView::Bool(x), ValueView::Bool(y)) => int_order(
            if x { 1int } else { 0 },
            if y { 1int } else { 0 },
        ),
        (ValueView::Int32(x), ValueView::Int32(y)) => int_order(x as int, y as int),
        (ValueView::Int64(x), ValueView::Int64(y)) => int_order(x as int, y as int),
        (ValueView::Int32(x), ValueView::Int64(y)) => int_order(x as int, y as int),
        (ValueView::Int64(x), ValueView::Int32(y)) => int_order(x as int, y as int),
        (ValueView::Float32(x), ValueView::Float32(y)) => float_order(x, y),
        (ValueView::Float64(x), ValueView::Float64(y)) => float_order(x, y),
        (ValueView::Float32(x), ValueView::Float64(y)) => float_order(x, y),
        (ValueView::Float64(x), ValueView::Float32(y)) => float_order(x, y),
        (ValueView::String(x), ValueView::String(y)) => bytes_order(encode_utf8(x), encode_utf8(y)),
        (ValueView::Timestamp(x), ValueView::Timestamp(y)) => int_order(x as int, y as int),
        (ValueView::Uuid(x), ValueView::Uuid(y)) => bytes_order(x, y),
        (ValueView::Bytes(x), ValueView::Bytes(y)) => bytes_order(x, y),
        _ => Order::Equal,
    }
}

/// The order of two values that may be missing: what is missing comes first.
pub open spec fn optional_order(a: Option<ValueView>, b: Option<ValueView>) -> Order {
    match (a, b) {
        (None, None) => Order::Equal,
        (None, Some(_)) => Order::Less,
        (Some(_), None) => Order::Greater,
        (Some(x), Some(y)) => value_order(x, y),
    }
}

/// Whether two values are of kinds that compare, and are numbers where they
/// are floating-point numbers.
pub open spec fn comparable(a: ValueView, b: ValueView) -> bool {
    match (a, b) {
        (ValueView::Bool(_), ValueView::Bool(_)) => true,
        (ValueView::Int32(_), ValueView::Int32(_)) => true,
        (ValueView::Int64(_), ValueView::Int64(_)) => true,
        (ValueView::Int32(_), ValueView::Int64(_)) => true,
        (ValueView::Int64(_), ValueView::Int32(_)) => true,
        (ValueView::Float32(x), ValueView::Float32(y)) => !is_nan(x) && !is_nan(y),
        (ValueView::Float64(x), ValueView::Float64(y)) => !is_nan(x) && !is_nan(y),
        (ValueView::Float32(x), ValueView::Float64(y)) => !is_nan(x) && !is_nan(y),
        (ValueView::Float64(x), ValueView::Float32(y)) => !is_nan(x) && !is_nan(y),
        (ValueView::String(_), ValueView::String(_)) => true,
        (ValueView::Timestamp(_), ValueView::Timestamp(_)) => true,
        (ValueView::Uuid(_), ValueView::Uuid(_)) => true,
        (ValueView::Bytes(_), ValueView::Bytes(_)) => true,
        _ => false,
    }
}

fn compare_ints(a: i64, b: i64) -> (r: Order)
    ensures
        r == int_order(a as int, b as int),
{
    if a < b {
        Order::Less
    } else if a == b {
        Order::Equal
    } else {
        Order::Greater
    }
}

/// Compares two byte strings in dictionary order.
pub fn compare_bytes(a: &[u8], b: &[u8]) -> (r: Order)
    ensures
        r == bytes_order(a@, b@),
{
    let mut i: usize = 0;
    assert(a@.skip(0) =~= a@);
    assert(b@.skip(0) =~= b@);
    while i < a.len() && i < b.len()
        invariant
            i <= a@.len(),
            i <= b@.len(),
            lex_lt(a@, b@) == lex_lt(a@.skip(i as int), b@.skip(i as int)),
            (a@ == b@) == (a@.skip(i as int) == b@.skip(i as int)),
        decreases a@.len() - i,
    {
        let ghost x = a@.skip(i as int);
        let ghost y = b@.skip(i as int);
        if a[i] != b[i] {
            assert(x[0] != y[0]);
            if a[i] < b[i] {
                return Order::Less;
            }
            return Order::Greater;
        }
        proof {
            assert(x.drop_first() =~= a@.skip(i + 1));
            assert(y.drop_first() =~= b@.skip(i + 1));
            assert(x =~= seq![x[0]] + x.drop_first());
            assert(y =~= seq![y[0]] + y.drop_first());
            if x.drop_first() == y.drop_first() {
                assert(x =~= y);
            }
        }
        i = i + 1;
    }
    if i < b.len() {
        Order::Less
    } else if i < a.len() {
        Order::Greater
    } else {
        assert(a@.skip(i as int) =~= b@.skip(i as int));
        Order::Equal
    }
}

/// Whether the bits are those of no number.
pub fn float_is_nan(bits: u64) -> (r: bool)
    ensures
        r == is_nan(bits),
{
    bits % 0x8000_0000_0000_0000 > 0x7ff0_0000_0000_0000
}

fn float_rank_of(bits: u64) -> (r: i64)
    requires
        !is_nan(bits),
    ensures
        r == float_rank(bits),
{
    if bits >= 0x8000_0000_0000_0000 {
        -((bits - 0x8000_0000_0000_0000) as i64)
    } else {
        bits as i64
    }
}

/// Compares two floating-point numbers, held by their bits.
pub fn compare_floats(a: u64, b: u64) -> (r: Order)
    ensures
        r == float_order(a, b),
{
    if float_is_nan(a) || float_is_nan(b) {
        Order::Equal
    } else {
        compare_ints(float_rank_of(a), float_rank_of(b))
    }
}

/// Whether two floating-point numbers, held by their bits, are equal.
pub fn floats_same(a: u64, b: u64) -> (r: bool)
    ensures
        r == float_eq(a, b),
{
    !float_is_nan(a) && !float_is_nan(b) && float_rank_of(a) == float_rank_of(b)
}

fn float_slices_same(a: &[u64], b: &[u64]) -> (r: bool)
    ensures
        r == floats_eq(a@, b@),
{
    if a.len() != b.len() {
        return false;
    }
    let mut i: usize = 0;
    while i < a.len()
        invariant
            i <= a@.len(),
            a@.len() == b@.len(),
            forall|j: int| 0 <= j < i ==> float_eq(#[trigger] a@[j], b@[j]),
        decreases a@.len() - i,
    {
        if !floats_same(a[i], b[i]) {
            return false;
        }
        i = i + 1;
    }
    true
}

fn polygons_same(a: &[(u64, u64)], b: &[(u64, u64)]) -> (r: bool)
    ensures
        r == values_equal(ValueView::GeoPolygon(a@), ValueView::GeoPolygon(b@)),
{
    if a.len() != b.len() {
        return false;
    }
    let mut i: usize = 0;
    while i < a.len()
        invariant
            i <= a@.len(),
            a@.len() == b@.len(),
            forall|j: int|
                0 <= j < i ==> float_eq((#[trigger] a@[j]).0, b@[j].0) && float_eq(
                    a@[j].1,
                    b@[j].1,
                ),
        decreases a@.len() - i,
    {
        if !(floats_same(a[i].0, b[i].0) && floats_same(a[i].1, b[i].1)) {
            return false;
        }
        i = i + 1;
    }
    true
}

fn bools_same(a: &[bool], b: &[bool]) -> (r: bool)
    ensures
        r == (a@ == b@),
{
    if a.len() != b.len() {
        return false;
    }
    let mut i: usize = 0;
    while i < a.len()
        invariant
            i <= a@.len(),
            a@.len() == b@.len(),
            forall|j: int| 0 <= j < i ==> a@[j] == b@[j],
        decreases a@.len() - i,
    {
        if a[i] != b[i] {
            return false;
        }
        i = i + 1;
    }
    assert(a@ =~= b@);
    true
}

fn i32s_same(a: &[i32], b: &[i32]) -> (r: bool)
    ensures
        r == (a@ == b@),
{
    if a.len() != b.len() {
        return false;
    }
    let mut i: usize = 0;
    while i < a.len()
        invariant
            i <= a@.len(),
            a@.len() == b@.len(),
            forall|j: int| 0 <= j < i ==> a@[j] == b@[j],
        decreases a@.len() - i,
    {
        if a[i] != b[i] {
            return false;
        }
        i = i + 1;
    }
    assert(a@ =~= b@);
    true
}

fn i64s_same(a: &[i64], b: &[i64]) -> (r: bool)
    ensures
        r == (a@ == b@),
{
    if a.len() != b.len() {
        return false;
    }
    let mut i: usize = 0;
    while i < a.len()
        invariant
            i <= a@.len(),
            a@.len() == b@.len(),
            forall|j: int| 0 <= j < i ==> a@[j] == b@[j],
        decreases a@.len() - i,
    {
        if a[i] != b[i] {
            return false;
        }
        i = i + 1;
    }
    assert(a@ =~= b@);
    true
}

fn texts_same(a: &[String], b: &[String]) -> (r: bool)
    ensures
        r == (a@.map_values(|s: String| s@) == b@.map_values(|s: String| s@)),
{
    let ghost x = a@.map_values(|s: String| s@);
    let ghost y = b@.map_values(|s: String| s@);
    if a.len() != b.len() {
        assert(x.len() != y.len());
        return false;
    }
    let mut i: usize = 0;
    while i < a.len()
        invariant
            i <= a@.len(),
            a@.len() == b@.len(),
            x == a@.map_values(|s: String| s@),
            y == b@.map_values(|s: String| s@),
            forall|j: int| 0 <= j < i ==> x[j] == y[j],
        decreases a@.len() - i,
    {
        if !str_eq(a[i].as_str(), b[i].as_str()) {
            assert(x[i as int] != y[i as int]);
            return false;
        }
        i = i + 1;
    }
    assert(x =~= y);
    true
}

fn ids_same(a: &[EntityId], b: &[EntityId]) -> (r: bool)
    ensures
        r == (a@.map_values(|u: EntityId| u@) == b@.map_values(|u: EntityId| u@)),
{
    let ghost x = a@.map_values(|u: EntityId| u@);
    let ghost y = b@.map_values(|u: EntityId| u@);
    if a.len() != b.len() {
        assert(x.len() != y.len());
        return false;
    }
    let mut i: usize = 0;
    while i < a.len()
        invariant
            i <= a@.len(),
            a@.len() == b@.len(),
            x == a@.map_values(|u: EntityId| u@),
            y == b@.map_values(|u: EntityId| u@),
            forall|j: int| 0 <= j < i ==> x[j] == y[j],
        decreases a@.len() - i,
    {
        if !id_eq(&a[i], &b[i]) {
            assert(x[i as int] != y[i as int]);
            return false;
        }
        i = i + 1;
    }
    assert(x =~= y);
    true
}

impl Value {
    /// Whether two values are equal.
    pub fn same(&self, other: &Value) -> (r: bool)
        ensures
            r == values_equal(self@, other@),
    {
        match (self, other) {
            (Value::Null, Value::Null) => true,
            (Value::Bool(a), Value::Bool(b)) => *a == *b,
            (Value::Int32(a), Value::Int32(b)) => *a == *b,
            (Value::Int64(a), Value::Int64(b)) => *a == *b,
            (Value::Float32(a), Value::Float32(b)) => floats_same(*a, *b),
            (Value::Float64(a), Value::Float64(b)) => floats_same(*a, *b),
            (Value::String(a), Value::String(b)) => str_eq(a.as_str(), b.as_str()),
            (Value::Bytes(a), Value::Bytes(b)) => bytes_eq(a.as_slice(), b.as_slice()),
            (Value::Timestamp(a), Value::Timestamp(b)) => *a == *b,
            (Value::Uuid(a), Value::Uuid(b)) => id_eq(a, b),
            (Value::BoolArray(a), Value::BoolArray(b)) => bools_same(a.as_slice(), b.as_slice()),
            (Value::Int32Array(a), Value::Int32Array(b)) => i32s_same(a.as_slice(), b.as_slice()),
            (Value::Int64Array(a), Value::Int64Array(b)) => i64s_same(a.as_slice(), b.as_slice()),
            (Value::Float32Array(a), Value::Float32Array(b)) => float_slices_same(
                a.as_slice(),
                b.as_slice(),
            ),
            (Value::Float64Array(a), Value::Float64Array(b)) => float_slices_same(
                a.as_slice(),
                b.as_slice(),
            ),
            (Value::StringArray(a), Value::StringArray(b)) => texts_same(
                a.as_slice(),
                b.as_slice(),
            ),
            (Value::UuidArray(a), Value::UuidArray(b)) => ids_same(a.as_slice(), b.as_slice()),
            (Value::Vector(a), Value::Vector(b)) => float_slices_same(a.as_slice(), b.as_slice()),
            (Value::GeoPoint { lat: a, lon: b }, Value::GeoPoint { lat: c, lon: d }) => floats_same(
                *a,
                *c,
            ) && floats_same(*b, *d),
            (Value::GeoPolygon(a), Value::GeoPolygon(b)) => polygons_same(
                a.as_slice(),
                b.as_slice(),
            ),
            _ => false,
        }
    }

    /// A copy of the value.
    pub fn copy(&self) -> (r: Value)
        ensures
            r@ == self@,
    {
        match self {
            Value::Null => Value::Null,
            Value::Bool(b) => Value::Bool(*b),
            Value::Int32(i) => Value::Int32(*i),
            Value::Int64(i) => Value::Int64(*i),
            Value::Float32(f) => Value::Float32(*f),
            Value::Float64(f) => Value::Float64(*f),
            Value::String(s) => Value::String(s.clone()),
            Value::Bytes(b) => Value::Bytes(copy_slice(b.as_slice())),
            Value::Timestamp(t) => Value::Timestamp(*t),
            Value::Uuid(u) => Value::Uuid(*u),
            Value::BoolArray(a) => Value::BoolArray(copy_slice(a.as_slice())),
            Value::Int32Array(a) => Value::Int32Array(copy_slice(a.as_slice())),
            Value::Int64Array(a) => Value::Int64Array(copy_slice(a.as_slice())),
            Value::Float32Array(a) => Value::Float32Array(copy_slice(a.as_slice())),
            Value::Float64Array(a) => Value::Float64Array(copy_slice(a.as_slice())),
            Value::StringArray(a) => Value::StringArray(copy_texts(a.as_slice())),
            Value::UuidArray(a) => Value::UuidArray(copy_slice(a.as_slice())),
            Value::Vector(a) => Value::Vector(copy_slice(a.as_slice())),
            Value::GeoPoint { lat, lon } => Value::GeoPoint { lat: *lat, lon: *lon },
            Value::GeoPolygon(a) => Value::GeoPolygon(copy_slice(a.as_slice())),
        }
    }

    /// Whether this is no value.
    pub fn is_null(&self) -> (r: bool)
        ensures
            r == (self@ is Null),
    {
        match self {
            Value::Null => true,
            _ => false,
        }
    }
}

/// Compares two values for sorting.
pub fn compare_values(a: &Value, b: &Value) -> (r: Order)
    ensures
        r == value_order(a@, b@),
{
    match (a, b) {
        (Value::Null, Value::Null) => Order::Equal,
        (Value::Null, _) => Order::Less,
        (_, Value::Null) => Order::Greater,
        (Value::Bool(x), Value::Bool(y)) => compare_ints(
            if *x { 1i64 } else { 0i64 },
            if *y { 1i64 } else { 0i64 },
        ),
        (Value::Int32(x), Value::Int32(y)) => compare_ints(*x as i64, *y as i64),
        (Value::Int64(x), Value::Int64(y)) => compare_ints(*x, *y),
        (Value::Int32(x), Value::Int64(y)) => compare_ints(*x as i64, *y),
        (Value::Int64(x), Value::Int32(y)) => compare_ints(*x, *y as i64),
        (Value::Float32(x), Value::Float32(y)) => compare_floats(*x, *y),
        (Value::Float64(x), Value::Float64(y)) => compare_floats(*x, *y),
        (Value::Float32(x), Value::Float64(y)) => compare_floats(*x, *y),
        (Value::Float64(x), Value::Float32(y)) => compare_floats(*x, *y),
        (Value::String(x), Value::String(y)) => compare_bytes(x.as_str().as_bytes(), y.as_str().as_bytes()),
        (Value::Timestamp(x), Value::Timestamp(y)) => compare_ints(*x, *y),
        (Value::Uuid(x), Value::Uuid(y)) => compare_bytes(x.as_slice(), y.as_slice()),
        (Value::Bytes(x), Value::Bytes(y)) => compare_bytes(x.as_slice(), y.as_slice()),
        _ => Order::Equal,
    }
}

/// Whether two values compare.
pub fn values_compare(a: &Value, b: &Value) -> (r: bool)
    ensures
        r == comparable(a@, b@),
{
    match (a, b) {
        (Value::Bool(_), Value::Bool(_)) => true,
        (Value::Int32(_), Value::Int32(_)) => true,
        (Value::Int64(_), Value::Int64(_)) => true,
        (Value::Int32(_), Value::Int64(_)) => true,
        (Value::Int64(_), Value::Int32(_)) => true,
        (Value::Float32(x), Value::Float32(y)) => !float_is_nan(*x) && !float_is_nan(*y),
        (Value::Float64(x), Value::Float64(y)) => !float_is_nan(*x) && !float_is_nan(*y),
        (Value::Float32(x), Value::Float64(y)) => !float_is_nan(*x) && !float_is_nan(*y),
        (Value::Float64(x), Value::Float32(y)) => !float_is_nan(*x) && !float_is_nan(*y),
        (Value::String(_), Value::String(_)) => true,
        (Value::Timestamp(_), Value::Timestamp(_)) => true,
        (Value::Uuid(_), Value::Uuid(_)) => true,
        (Value::Bytes(_), Value::Bytes(_)) => true,
        _ => false,
    }
}

/// Compares two values that may be missing.
pub fn compare_values_opt(a: Option<&Value>, b: Option<&Value>) -> (r: Order)
    ensures
        r == optional_order(a.deep_view(), b.deep_view()),
{
    match (a, b) {
        (None, None) => Order::Equal,
        (None, Some(_)) => Order::Less,
        (Some(_), None) => Order::Greater,
        (Some(x), Some(y)) => compare_values(x, y),
    }
}

} // verus!
