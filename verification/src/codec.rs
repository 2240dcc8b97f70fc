//! The stored form of entities: field lists as bytes.
//!
//! Everything is a list of chunks. A list of chunks is written as the number of
//! its chunks, then each chunk with its length before it; numbers take eight
//! bytes, most significant first. A value is a tag byte and the chunks of its
//! content; an entity is the list that holds, for each field, its name and its
//! value.

use vstd::prelude::*;
use vstd::utf8::{
    decode_utf8, decode_utf8_encode_utf8, encode_utf8, encode_utf8_decode_utf8,
    encode_utf8_valid_utf8, valid_utf8,
};

use crate::bytes::{
    be_bytes, be_limit, be_value, copy_range, copy_slice, lemma_be_bytes_len, lemma_be_limit_u64,
    lemma_be_round_trip, push_be, push_bytes, read_be, read_id, EntityId,
};
use crate::error::{DbError, ErrorView};
use crate::text::{contains_text, texts};
use crate::value::{Value, ValueView};

verus! {

/// A field: its name and its value.
pub type Field = (String, Value);

/// A field in mathematical terms.
pub type FieldView = (Seq<char>, ValueView);

/// Eight bytes for a number.
pub open spec fn number(n: nat) -> Seq<u8> {
    be_bytes(n, 8)
}

/// Chunks, each with its length before it.
pub open spec fn chunk_bytes(cs: Seq<Seq<u8>>) -> Seq<u8>
    decreases cs.len(),
{
    if cs.len() == 0 {
        Seq::empty()
    } else {
        number(cs[0].len()) + cs[0] + chunk_bytes(cs.drop_first())
    }
}

/// A list of chunks as bytes.
pub open spec fn list_bytes(cs: Seq<Seq<u8>>) -> Seq<u8> {
    number(cs.len()) + chunk_bytes(cs)
}

/// Reads `n` chunks; nothing may be left over.
pub open spec fn parse_chunks(s: Seq<u8>, n: nat) -> Option<Seq<Seq<u8>>>
    decreases n,
{
    if n == 0 {
        if s.len() == 0 {
            Some(Seq::empty())
        } else {
            None
        }
    } else if s.len() < 8 {
        None
    } else {
        let len = be_value(s.take(8));
        if s.len() < 8 + len {
            None
        } else {
            match parse_chunks(s.skip(8 + len as int), (n - 1) as nat) {
                Some(rest) => Some(seq![s.subrange(8, 8 + len as int)] + rest),
                None => None,
            }
        }
    }
}

/// Reads a list of chunks.
pub open spec fn parse_list(s: Seq<u8>) -> Option<Seq<Seq<u8>>> {
    if s.len() < 8 {
        None
    } else {
        parse_chunks(s.skip(8), be_value(s.take(8)))
    }
}

/// Whether chunks are short enough to be held in memory, as all are.
pub open spec fn holdable(cs: Seq<Seq<u8>>) -> bool {
    cs.len() < be_limit(8) && forall|i: int| 0 <= i < cs.len() ==> (#[trigger] cs[i]).len() < be_limit(8)
}

proof fn lemma_parse_chunks(cs: Seq<Seq<u8>>)
    requires
        forall|i: int| 0 <= i < cs.len() ==> (#[trigger] cs[i]).len() < be_limit(8),
    ensures
        parse_chunks(chunk_bytes(cs), cs.len()) == Some(cs),
    decreases cs.len(),
{
    if cs.len() == 0 {
        assert(cs =~= Seq::<Seq<u8>>::empty());
    } else {
        let s = chunk_bytes(cs);
        let rest = cs.drop_first();
        lemma_be_bytes_len(cs[0].len(), 8);
        lemma_be_round_trip(cs[0].len(), 8);
        assert(s.take(8) =~= number(cs[0].len()));
        let len = cs[0].len();
        assert(s.subrange(8, 8 + len as int) =~= cs[0]);
        assert(s.skip(8 + len as int) =~= chunk_bytes(rest));
        lemma_parse_chunks(rest);
        assert(seq![cs[0]] + rest =~= cs);
    }
}

/// Reading back a list of chunks gives the chunks.
pub proof fn lemma_parse_list(cs: Seq<Seq<u8>>)
    requires
        holdable(cs),
    ensures
        parse_list(list_bytes(cs)) == Some(cs),
{
    let s = list_bytes(cs);
    lemma_be_bytes_len(cs.len(), 8);
    lemma_be_round_trip(cs.len(), 8);
    assert(s.take(8) =~= number(cs.len()));
    assert(s.skip(8) =~= chunk_bytes(cs));
    lemma_parse_chunks(cs);
}

/// A signed number moved to where it is not negative.
pub open spec fn lift_i32(i: i32) -> nat {
    (i + 0x8000_0000) as nat
}

/// A signed number moved to where it is not negative.
pub open spec fn lift_i64(i: i64) -> nat {
    (i + 0x8000_0000_0000_0000) as nat
}

/// The tag of a kind of value.
pub open spec fn tag_of(v: ValueView) -> u8 {
    match v {
        ValueView::Null => 0,
        ValueView::Bool(_) => 1,
        ValueView::Int32(_) => 2,
        ValueView::Int64(_) => 3,
        ValueView::Float32(_) => 4,
        ValueView::Float64(_) => 5,
        ValueView::String(_) => 6,
        ValueView::Bytes(_) => 7,
        ValueView::Timestamp(_) => 8,
        ValueView::Uuid(_) => 9,
        ValueView::BoolArray(_) => 10,
        ValueView::Int32Array(_) => 11,
        ValueView::Int64Array(_) => 12,
        ValueView::Float32Array(_) => 13,
        ValueView::Float64Array(_) => 14,
        ValueView::StringArray(_) => 15,
        ValueView::UuidArray(_) => 16,
        ValueView::Vector(_) => 17,
        ValueView::GeoPoint(_, _) => 18,
        ValueView::GeoPolygon(_) => 19,
    }
}

/// A truth value as a number.
pub open spec fn lift_bool(b: bool) -> nat {
    if b {
        1
    } else {
        0
    }
}

/// The chunks of a value's content.
pub open spec fn chunks_of(v: ValueView) -> Seq<Seq<u8>> {
    match v {
        ValueView::Null => seq![],
        ValueView::Bool(b) => seq![number(lift_bool(b))],
        ValueView::Int32(i) => seq![number(lift_i32(i))],
        ValueView::Int64(i) => seq![number(lift_i64(i))],
        ValueView::Float32(f) => seq![number(f as nat)],
        ValueView::Float64(f) => seq![number(f as nat)],
        ValueView::String(s) => seq![encode_utf8(s)],
        ValueView::Bytes(b) => seq![b],
        ValueView::Timestamp(t) => seq![number(lift_i64(t))],
        ValueView::Uuid(u) => seq![u],
        ValueView::BoolArray(a) => a.map_values(|b: bool| number(lift_bool(b))),
        ValueView::Int32Array(a) => a.map_values(|i: i32| number(lift_i32(i))),
        ValueView::Int64Array(a) => a.map_values(|i: i64| number(lift_i64(i))),
        ValueView::Float32Array(a) => a.map_values(|f: u64| number(f as nat)),
        ValueView::Float64Array(a) => a.map_values(|f: u64| number(f as nat)),
        ValueView::StringArray(a) => a.map_values(|s: Seq<char>| encode_utf8(s)),
        ValueView::UuidArray(a) => a,
        ValueView::Vector(a) => a.map_values(|f: u64| number(f as nat)),
        ValueView::GeoPoint(lat, lon) => seq![number(lat as nat), number(lon as nat)],
        ValueView::GeoPolygon(a) => a.map_values(
            |p: (u64, u64)| number(p.0 as nat) + number(p.1 as nat),
        ),
    }
}

/// A value as bytes.
pub open spec fn value_bytes(v: ValueView) -> Seq<u8> {
    seq![tag_of(v)] + list_bytes(chunks_of(v))
}

/// Whether all chunks are numbers below a limit.
pub open spec fn all_numbers(cs: Seq<Seq<u8>>, limit: nat) -> bool {
    forall|i: int| 0 <= i < cs.len() ==> (#[trigger] cs[i]).len() == 8 && be_value(cs[i]) < limit
}

/// The number that a chunk stands for.
pub open spec fn chunk_u64(c: Seq<u8>) -> u64 {
    be_value(c) as u64
}

/// The value with a tag and chunks, where there is one.
pub open spec fn value_from(tag: u8, cs: Seq<Seq<u8>>) -> Option<ValueView> {
    if tag == 0 {
        if cs.len() == 0 { Some(ValueView::Null) } else { None }
    } else if tag == 1 {
        if cs.len() == 1 && all_numbers(cs, 2) {
            Some(ValueView::Bool(be_value(cs[0]) == 1))
        } else { None }
    } else if tag == 2 {
        if cs.len() == 1 && all_numbers(cs, 0x1_0000_0000) {
            Some(ValueView::Int32((be_value(cs[0]) - 0x8000_0000) as i32))
        } else { None }
    } else if tag == 3 || tag == 8 {
        if cs.len() == 1 && all_numbers(cs, be_limit(8)) {
            let i = (be_value(cs[0]) - 0x8000_0000_0000_0000) as i64;
            Some(if tag == 3 { ValueView::Int64(i) } else { ValueView::Timestamp(i) })
        } else { None }
    } else if tag == 4 || tag == 5 {
        if cs.len() == 1 && all_numbers(cs, be_limit(8)) {
            let f = chunk_u64(cs[0]);
            Some(if tag == 4 { ValueView::Float32(f) } else { ValueView::Float64(f) })
        } else { None }
    } else if tag == 6 {
        if cs.len() == 1 && valid_utf8(cs[0]) {
            Some(ValueView::String(decode_utf8(cs[0])))
        } else { None }
    } else if tag == 7 {
        if cs.len() == 1 { Some(ValueView::Bytes(cs[0])) } else { None }
    } else if tag == 9 {
        if cs.len() == 1 && cs[0].len() == 16 { Some(ValueView::Uuid(cs[0])) } else { None }
    } else if tag == 10 {
        if all_numbers(cs, 2) {
            Some(ValueView::BoolArray(cs.map_values(|c: Seq<u8>| be_value(c) == 1)))
        } else { None }
    } else if tag == 11 {
        if all_numbers(cs, 0x1_0000_0000) {
            Some(ValueView::Int32Array(cs.map_values(|c: Seq<u8>| (be_value(c) - 0x8000_0000) as i32)))
        } else { None }
    } else if tag == 12 {
        if all_numbers(cs, be_limit(8)) {
            Some(ValueView::Int64Array(cs.map_values(|c: Seq<u8>| (be_value(c) - 0x8000_0000_0000_0000) as i64)))
        } else { None }
    } else if tag == 13 || tag == 14 || tag == 17 {
        if all_numbers(cs, be_limit(8)) {
            let a = cs.map_values(|c: Seq<u8>| chunk_u64(c));
            Some(
                if tag == 13 {
                    ValueView::Float32Array(a)
                } else if tag == 14 {
                    ValueView::Float64Array(a)
                } else {
                    ValueView::Vector(a)
                },
            )
        } else { None }
    } else if tag == 15 {
        if forall|i: int| 0 <= i < cs.len() ==> valid_utf8(#[trigger] cs[i]) {
            Some(ValueView::StringArray(cs.map_values(|c: Seq<u8>| decode_utf8(c))))
        } else { None }
    } else if tag == 16 {
        if forall|i: int| 0 <= i < cs.len() ==> (#[trigger] cs[i]).len() == 16 {
            Some(ValueView::UuidArray(cs))
        } else { None }
    } else if tag == 18 {
        if cs.len() == 2 && all_numbers(cs, be_limit(8)) {
            Some(ValueView::GeoPoint(chunk_u64(cs[0]), chunk_u64(cs[1])))
        } else { None }
    } else if tag == 19 {
        if forall|i: int| 0 <= i < cs.len() ==> (#[trigger] cs[i]).len() == 16 {
            Some(ValueView::GeoPolygon(cs.map_values(|c: Seq<u8>| (chunk_u64(c.take(8)), chunk_u64(c.skip(8))))))
        } else { None }
    } else {
        None
    }
}

/// Reads a value.
pub open spec fn parse_value(s: Seq<u8>) -> Option<ValueView> {
    if s.len() == 0 {
        None
    } else {
        match parse_list(s.skip(1)) {
            Some(cs) => value_from(s[0], cs),
            None => None,
        }
    }
}

/// The chunks of an entity: the name and the value of each field in turn.
pub open spec fn entity_chunks(fs: Seq<FieldView>) -> Seq<Seq<u8>>
    decreases fs.len(),
{
    if fs.len() == 0 {
        Seq::empty()
    } else {
        entity_chunks(fs.drop_last()).push(encode_utf8(fs.last().0)).push(value_bytes(fs.last().1))
    }
}

/// An entity as bytes.
pub open spec fn entity_bytes(fs: Seq<FieldView>) -> Seq<u8> {
    list_bytes(entity_chunks(fs))
}

/// Reads the fields that pairs of chunks stand for.
pub open spec fn parse_fields(cs: Seq<Seq<u8>>) -> Option<Seq<FieldView>>
    decreases cs.len(),
{
    if cs.len() == 0 {
        Some(Seq::empty())
    } else if cs.len() == 1 {
        None
    } else {
        let n = cs.len() - 2;
        match (parse_fields(cs.take(n)), parse_value(cs[n + 1])) {
            (Some(fs), Some(v)) => if valid_utf8(cs[n]) {
                Some(fs.push((decode_utf8(cs[n]), v)))
            } else {
                None
            },
            _ => None,
        }
    }
}

/// Reads an entity.
pub open spec fn parse_entity(s: Seq<u8>) -> Option<Seq<FieldView>> {
    match parse_list(s) {
        Some(cs) => parse_fields(cs),
        None => None,
    }
}

/// Whether a value has a size that memory can hold.
pub open spec fn value_holdable(v: ValueView) -> bool {
    &&& holdable(chunks_of(v))
    &&& value_bytes(v).len() < be_limit(8)
    &&& v matches ValueView::Uuid(u) ==> u.len() == 16
    &&& v matches ValueView::UuidArray(a) ==> forall|i: int| 0 <= i < a.len() ==> (#[trigger] a[i]).len() == 16
}

/// Whether the fields have sizes that memory can hold.
pub open spec fn fields_holdable(fs: Seq<FieldView>) -> bool {
    &&& 2 * fs.len() < be_limit(8)
    &&& forall|i: int|
        0 <= i < fs.len() ==> value_holdable((#[trigger] fs[i]).1) && encode_utf8(fs[i].0).len()
            < be_limit(8)
}

proof fn lemma_number(n: nat)
    requires
        n < be_limit(8),
    ensures
        number(n).len() == 8,
        be_value(number(n)) == n,
{
    lemma_be_bytes_len(n, 8);
    lemma_be_round_trip(n, 8);
}

proof fn lemma_value_from_chunks(v: ValueView)
    requires
        value_holdable(v),
    ensures
        value_from(tag_of(v), chunks_of(v)) == Some(v),
{
    lemma_be_limit_u64();
    assert forall|n: nat| n < be_limit(8) implies (#[trigger] number(n)).len() == 8 && be_value(number(n)) == n by {
        lemma_number(n);
    }
    let cs = chunks_of(v);
    match v {
        ValueView::String(s) => {
            encode_utf8_valid_utf8(s);
            encode_utf8_decode_utf8(s);
        },
        ValueView::BoolArray(a) => {
            assert(cs.map_values(|c: Seq<u8>| be_value(c) == 1) =~= a);
        },
        ValueView::Int32Array(a) => {
            assert(cs.map_values(|c: Seq<u8>| (be_value(c) - 0x8000_0000) as i32) =~= a);
        },
        ValueView::Int64Array(a) => {
            assert(cs.map_values(|c: Seq<u8>| (be_value(c) - 0x8000_0000_0000_0000) as i64) =~= a);
        },
        ValueView::Float32Array(a) => {
            assert(cs.map_values(|c: Seq<u8>| chunk_u64(c)) =~= a);
        },
        ValueView::Float64Array(a) => {
            assert(cs.map_values(|c: Seq<u8>| chunk_u64(c)) =~= a);
        },
        ValueView::Vector(a) => {
            assert(cs.map_values(|c: Seq<u8>| chunk_u64(c)) =~= a);
        },
        ValueView::StringArray(a) => {
            assert forall|i: int| 0 <= i < a.len() implies valid_utf8(#[trigger] cs[i]) && decode_utf8(cs[i]) == a[i] by {
                encode_utf8_valid_utf8(a[i]);
                encode_utf8_decode_utf8(a[i]);
            }
            assert(cs.map_values(|c: Seq<u8>| decode_utf8(c)) =~= a);
        },
        ValueView::GeoPolygon(a) => {
            assert forall|i: int| 0 <= i < a.len() implies (#[trigger] cs[i]).len() == 16
                && chunk_u64(cs[i].take(8)) == a[i].0 && chunk_u64(cs[i].skip(8)) == a[i].1 by {
                assert(cs[i].take(8) =~= number(a[i].0 as nat));
                assert(cs[i].skip(8) =~= number(a[i].1 as nat));
            }
            assert(cs.map_values(|c: Seq<u8>| (chunk_u64(c.take(8)), chunk_u64(c.skip(8)))) =~= a);
        },
        _ => {},
    }
}

/// Reading back a value gives the value.
pub proof fn lemma_parse_value(v: ValueView)
    requires
        value_holdable(v),
    ensures
        parse_value(value_bytes(v)) == Some(v),
{
    let s = value_bytes(v);
    assert(s.skip(1) =~= list_bytes(chunks_of(v)));
    lemma_parse_list(chunks_of(v));
    lemma_value_from_chunks(v);
}

proof fn lemma_parse_fields(fs: Seq<FieldView>)
    requires
        fields_holdable(fs),
    ensures
        parse_fields(entity_chunks(fs)) == Some(fs),
        entity_chunks(fs).len() == 2 * fs.len(),
        forall|i: int| 0 <= i < entity_chunks(fs).len() ==> (#[trigger] entity_chunks(fs)[i]).len() < be_limit(8),
    decreases fs.len(),
{
    if fs.len() == 0 {
        assert(fs =~= Seq::<FieldView>::empty());
    } else {
        let init = fs.drop_last();
        assert forall|i: int| 0 <= i < init.len() implies value_holdable((#[trigger] init[i]).1)
            && encode_utf8(init[i].0).len() < be_limit(8) by {
            assert(init[i] == fs[i]);
        }
        lemma_parse_fields(init);
        let cs = entity_chunks(fs);
        let n = cs.len() - 2;
        assert(fs.last() == fs[fs.len() - 1]);
        assert(cs.take(n) =~= entity_chunks(init));
        lemma_parse_value(fs.last().1);
        encode_utf8_valid_utf8(fs.last().0);
        encode_utf8_decode_utf8(fs.last().0);
        assert(init.push(fs.last()) =~= fs);
    }
}

/// Reading back an entity gives its fields, in order.
pub proof fn law_entity_round_trip(fs: Seq<FieldView>)
    requires
        fields_holdable(fs),
    ensures
        parse_entity(entity_bytes(fs)) == Some(fs),
{
    lemma_parse_fields(fs);
    lemma_parse_list(entity_chunks(fs));
}

/// Chunks in mathematical terms.
pub open spec fn chunks_view(v: Seq<Vec<u8>>) -> Seq<Seq<u8>> {
    v.map_values(|c: Vec<u8>| c@)
}

/// Fields in mathematical terms.
pub open spec fn fields_view(v: Seq<Field>) -> Seq<FieldView> {
    v.map_values(|f: Field| (f.0@, f.1@))
}

/// Writes a list of chunks.
fn write_list(chunks: &Vec<Vec<u8>>) -> (out: Vec<u8>)
    ensures
        out@ == list_bytes(chunks_view(chunks@)),
        holdable(chunks_view(chunks@)),
{
    let ghost cs = chunks_view(chunks@);
    let mut out: Vec<u8> = Vec::new();
    push_be(&mut out, chunks.len() as u64, 8);
    proof {
        lemma_be_limit_u64();
    }
    let mut i: usize = 0;
    assert(cs.skip(0) =~= cs);
    assert(out@ =~= number(cs.len()));
    while i < chunks.len()
        invariant
            i <= chunks@.len(),
            cs == chunks_view(chunks@),
            be_limit(8) == 0x1_0000_0000_0000_0000,
            forall|j: int| 0 <= j < i ==> (#[trigger] cs[j]).len() < be_limit(8),
            out@ + chunk_bytes(cs.skip(i as int)) == list_bytes(cs),
        decreases chunks@.len() - i,
    {
        let ghost before = out@;
        let ghost rest = cs.skip(i as int);
        let chunk: &Vec<u8> = &chunks[i];
        push_be(&mut out, chunk.len() as u64, 8);
        push_bytes(&mut out, chunk.as_slice());
        proof {
            assert(rest[0] == chunk@);
            assert(rest.drop_first() =~= cs.skip(i + 1));
            assert(out@ + chunk_bytes(cs.skip(i + 1)) =~= before + chunk_bytes(rest));
        }
        i = i + 1;
    }
    assert(out@ + chunk_bytes(cs.skip(i as int)) =~= out@);
    out
}

/// Reads a list of chunks.
fn read_list(s: &[u8], start: usize) -> (r: Option<Vec<Vec<u8>>>)
    requires
        start <= s@.len(),
    ensures
        match r {
            Some(chunks) => parse_list(s@.skip(start as int)) == Some(chunks_view(chunks@)),
            None => parse_list(s@.skip(start as int)) is None,
        },
{
    let total: usize = s.len();
    if total - start < 8 {
        return None;
    }
    let count: u64 = read_be(s, start, 8);
    let ghost body = s@.skip(start + 8);
    proof {
        assert(s@.skip(start as int).take(8) =~= s@.subrange(start as int, start + 8));
        assert(s@.skip(start as int).skip(8) =~= body);
    }
    let mut out: Vec<Vec<u8>> = Vec::new();
    let mut at: usize = start + 8;
    let mut done: u64 = 0;
    assert(chunks_view(out@) =~= Seq::<Seq<u8>>::empty());
    proof {
        let rest = parse_chunks(body, count as nat);
        if rest is Some {
            assert(Seq::<Seq<u8>>::empty() + rest->0 =~= rest->0);
        }
    }
    while done < count
        invariant
            total == s@.len(),
            done <= count,
            at <= total,
            start <= at,
            parse_chunks(body, count as nat) == match parse_chunks(
                s@.skip(at as int),
                (count - done) as nat,
            ) {
                Some(rest) => Some(chunks_view(out@) + rest),
                None => None,
            },
            parse_list(s@.skip(start as int)) == parse_chunks(body, count as nat),
        decreases count - done,
    {
        let ghost here = s@.skip(at as int);
        let ghost before = chunks_view(out@);
        if total - at < 8 {
            return None;
        }
        let len: u64 = read_be(s, at, 8);
        proof {
            assert(here.take(8) =~= s@.subrange(at as int, at + 8));
        }
        if len > (total - at - 8) as u64 {
            return None;
        }
        let len: usize = len as usize;
        let chunk: Vec<u8> = copy_range(s, at + 8, at + 8 + len);
        proof {
            assert(here.subrange(8, 8 + len as int) =~= chunk@);
            assert(here.skip(8 + len as int) =~= s@.skip(at + 8 + len as int));
        }
        out.push(chunk);
        at = at + 8 + len;
        done = done + 1;
        proof {
            assert(chunks_view(out@) =~= before.push(chunk@));
            let rest = parse_chunks(s@.skip(at as int), (count - done) as nat);
            if rest is Some {
                assert(before + (seq![chunk@] + rest->0) =~= before.push(chunk@) + rest->0);
            }
        }
    }
    if at == total {
        proof {
            assert(s@.skip(at as int).len() == 0);
            assert(chunks_view(out@) + Seq::<Seq<u8>>::empty() =~= chunks_view(out@));
        }
        Some(out)
    } else {
        None
    }
}

/// A number as a chunk.
fn number_chunk(n: u64) -> (out: Vec<u8>)
    ensures
        out@ == number(n as nat),
{
    let mut out: Vec<u8> = Vec::new();
    push_be(&mut out, n, 8);
    assert(out@ =~= number(n as nat));
    out
}

fn bool_number(b: bool) -> (n: u64)
    ensures
        n == lift_bool(b),
{
    if b {
        1
    } else {
        0
    }
}

fn i32_number(i: i32) -> (n: u64)
    ensures
        n == lift_i32(i),
{
    (i as i64 + 0x8000_0000) as u64
}

fn i64_number(i: i64) -> (n: u64)
    ensures
        n == lift_i64(i),
{
    (i as i128 + 0x8000_0000_0000_0000) as u64
}

fn pair_chunk(p: (u64, u64)) -> (out: Vec<u8>)
    ensures
        out@ == number(p.0 as nat) + number(p.1 as nat),
{
    let mut out: Vec<u8> = number_chunk(p.0);
    push_be(&mut out, p.1, 8);
    out
}

fn bool_chunks(a: &[bool]) -> (out: Vec<Vec<u8>>)
    ensures
        chunks_view(out@) == a@.map_values(|x: bool| number(lift_bool(x))),
{
    let ghost want = a@.map_values(|x: bool| number(lift_bool(x)));
    let mut out: Vec<Vec<u8>> = Vec::new();
    let mut i: usize = 0;
    assert(chunks_view(out@) =~= want.take(0));
    while i < a.len()
        invariant
            i <= a@.len(),
            want == a@.map_values(|x: bool| number(lift_bool(x))),
            chunks_view(out@) == want.take(i as int),
        decreases a@.len() - i,
    {
        let ghost before = chunks_view(out@);
        let chunk: Vec<u8> = number_chunk(bool_number(a[i]));
        out.push(chunk);
        i = i + 1;
        assert(chunks_view(out@) =~= before.push(chunk@));
        assert(chunks_view(out@) =~= want.take(i as int));
    }
    assert(want.take(a@.len() as int) =~= want);
    out
}

fn i32_chunks(a: &[i32]) -> (out: Vec<Vec<u8>>)
    ensures
        chunks_view(out@) == a@.map_values(|x: i32| number(lift_i32(x))),
{
    let ghost want = a@.map_values(|x: i32| number(lift_i32(x)));
    let mut out: Vec<Vec<u8>> = Vec::new();
    let mut i: usize = 0;
    assert(chunks_view(out@) =~= want.take(0));
    while i < a.len()
        invariant
            i <= a@.len(),
            want == a@.map_values(|x: i32| number(lift_i32(x))),
            chunks_view(out@) == want.take(i as int),
        decreases a@.len() - i,
    {
        let ghost before = chunks_view(out@);
        let chunk: Vec<u8> = number_chunk(i32_number(a[i]));
        out.push(chunk);
        i = i + 1;
        assert(chunks_view(out@) =~= before.push(chunk@));
        assert(chunks_view(out@) =~= want.take(i as int));
    }
    assert(want.take(a@.len() as int) =~= want);
    out
}

fn i64_chunks(a: &[i64]) -> (out: Vec<Vec<u8>>)
    ensures
        chunks_view(out@) == a@.map_values(|x: i64| number(lift_i64(x))),
{
    let ghost want = a@.map_values(|x: i64| number(lift_i64(x)));
    let mut out: Vec<Vec<u8>> = Vec::new();
    let mut i: usize = 0;
    assert(chunks_view(out@) =~= want.take(0));
    while i < a.len()
        invariant
            i <= a@.len(),
            want == a@.map_values(|x: i64| number(lift_i64(x))),
            chunks_view(out@) == want.take(i as int),
        decreases a@.len() - i,
    {
        let ghost before = chunks_view(out@);
        let chunk: Vec<u8> = number_chunk(i64_number(a[i]));
        out.push(chunk);
        i = i + 1;
        assert(chunks_view(out@) =~= before.push(chunk@));
        assert(chunks_view(out@) =~= want.take(i as int));
    }
    assert(want.take(a@.len() as int) =~= want);
    out
}

fn u64_chunks(a: &[u64]) -> (out: Vec<Vec<u8>>)
    ensures
        chunks_view(out@) == a@.map_values(|x: u64| number(x as nat)),
{
    let ghost want = a@.map_values(|x: u64| number(x as nat));
    let mut out: Vec<Vec<u8>> = Vec::new();
    let mut i: usize = 0;
    assert(chunks_view(out@) =~= want.take(0));
    while i < a.len()
        invariant
            i <= a@.len(),
            want == a@.map_values(|x: u64| number(x as nat)),
            chunks_view(out@) == want.take(i as int),
        decreases a@.len() - i,
    {
        let ghost before = chunks_view(out@);
        let chunk: Vec<u8> = number_chunk(a[i]);
        out.push(chunk);
        i = i + 1;
        assert(chunks_view(out@) =~= before.push(chunk@));
        assert(chunks_view(out@) =~= want.take(i as int));
    }
    assert(want.take(a@.len() as int) =~= want);
    out
}

fn string_chunks(a: &[String]) -> (out: Vec<Vec<u8>>)
    ensures
        chunks_view(out@) == a@.map_values(|x: String| encode_utf8(x@)),
{
    let ghost want = a@.map_values(|x: String| encode_utf8(x@));
    let mut out: Vec<Vec<u8>> = Vec::new();
    let mut i: usize = 0;
    assert(chunks_view(out@) =~= want.take(0));
    while i < a.len()
        invariant
            i <= a@.len(),
            want == a@.map_values(|x: String| encode_utf8(x@)),
            chunks_view(out@) == want.take(i as int),
        decreases a@.len() - i,
    {
        let ghost before = chunks_view(out@);
        let chunk: Vec<u8> = copy_slice(a[i].as_str().as_bytes());
        out.push(chunk);
        i = i + 1;
        assert(chunks_view(out@) =~= before.push(chunk@));
        assert(chunks_view(out@) =~= want.take(i as int));
    }
    assert(want.take(a@.len() as int) =~= want);
    out
}

fn id_chunks(a: &[EntityId]) -> (out: Vec<Vec<u8>>)
    ensures
        chunks_view(out@) == a@.map_values(|x: EntityId| x@),
{
    let ghost want = a@.map_values(|x: EntityId| x@);
    let mut out: Vec<Vec<u8>> = Vec::new();
    let mut i: usize = 0;
    assert(chunks_view(out@) =~= want.take(0));
    while i < a.len()
        invariant
            i <= a@.len(),
            want == a@.map_values(|x: EntityId| x@),
            chunks_view(out@) == want.take(i as int),
        decreases a@.len() - i,
    {
        let ghost before = chunks_view(out@);
        let chunk: Vec<u8> = copy_slice(a[i].as_slice());
        out.push(chunk);
        i = i + 1;
        assert(chunks_view(out@) =~= before.push(chunk@));
        assert(chunks_view(out@) =~= want.take(i as int));
    }
    assert(want.take(a@.len() as int) =~= want);
    out
}

fn pair_chunks(a: &[(u64, u64)]) -> (out: Vec<Vec<u8>>)
    ensures
        chunks_view(out@) == a@.map_values(|x: (u64, u64)| number(x.0 as nat) + number(x.1 as nat)),
{
    let ghost want = a@.map_values(|x: (u64, u64)| number(x.0 as nat) + number(x.1 as nat));
    let mut out: Vec<Vec<u8>> = Vec::new();
    let mut i: usize = 0;
    assert(chunks_view(out@) =~= want.take(0));
    while i < a.len()
        invariant
            i <= a@.len(),
            want == a@.map_values(|x: (u64, u64)| number(x.0 as nat) + number(x.1 as nat)),
            chunks_view(out@) == want.take(i as int),
        decreases a@.len() - i,
    {
        let ghost before = chunks_view(out@);
        let chunk: Vec<u8> = pair_chunk(a[i]);
        out.push(chunk);
        i = i + 1;
        assert(chunks_view(out@) =~= before.push(chunk@));
        assert(chunks_view(out@) =~= want.take(i as int));
    }
    assert(want.take(a@.len() as int) =~= want);
    out
}

fn one_chunk(chunk: Vec<u8>) -> (out: Vec<Vec<u8>>)
    ensures
        chunks_view(out@) == seq![chunk@],
{
    let mut out: Vec<Vec<u8>> = Vec::new();
    out.push(chunk);
    assert(chunks_view(out@) =~= seq![chunk@]);
    out
}

fn two_chunks(first: Vec<u8>, second: Vec<u8>) -> (out: Vec<Vec<u8>>)
    ensures
        chunks_view(out@) == seq![first@, second@],
{
    let mut out: Vec<Vec<u8>> = Vec::new();
    out.push(first);
    out.push(second);
    assert(chunks_view(out@) =~= seq![first@, second@]);
    out
}

fn value_chunks(v: &Value) -> (out: (u8, Vec<Vec<u8>>))
    ensures
        out.0 == tag_of(v@),
        chunks_view(out.1@) == chunks_of(v@),
{
    let out: (u8, Vec<Vec<u8>>) = match v {
        Value::Null => (0, Vec::new()),
        Value::Bool(b) => (1, one_chunk(number_chunk(bool_number(*b)))),
        Value::Int32(i) => (2, one_chunk(number_chunk(i32_number(*i)))),
        Value::Int64(i) => (3, one_chunk(number_chunk(i64_number(*i)))),
        Value::Float32(f) => (4, one_chunk(number_chunk(*f))),
        Value::Float64(f) => (5, one_chunk(number_chunk(*f))),
        Value::String(s) => (6, one_chunk(copy_slice(s.as_str().as_bytes()))),
        Value::Bytes(b) => (7, one_chunk(copy_slice(b.as_slice()))),
        Value::Timestamp(t) => (8, one_chunk(number_chunk(i64_number(*t)))),
        Value::Uuid(u) => (9, one_chunk(copy_slice(u.as_slice()))),
        Value::BoolArray(a) => (10, bool_chunks(a.as_slice())),
        Value::Int32Array(a) => (11, i32_chunks(a.as_slice())),
        Value::Int64Array(a) => (12, i64_chunks(a.as_slice())),
        Value::Float32Array(a) => (13, u64_chunks(a.as_slice())),
        Value::Float64Array(a) => (14, u64_chunks(a.as_slice())),
        Value::StringArray(a) => (15, string_chunks(a.as_slice())),
        Value::UuidArray(a) => (16, id_chunks(a.as_slice())),
        Value::Vector(a) => (17, u64_chunks(a.as_slice())),
        Value::GeoPoint { lat, lon } => (18, two_chunks(number_chunk(*lat), number_chunk(*lon))),
        Value::GeoPolygon(a) => (19, pair_chunks(a.as_slice())),
    };
    assert(chunks_view(out.1@) =~= chunks_of(v@));
    out
}

/// Writes a value.
pub fn encode_value(v: &Value) -> (out: Vec<u8>)
    ensures
        out@ == value_bytes(v@),
        value_holdable(v@),
        parse_value(out@) == Some(v@),
{
    let (tag, chunks) = value_chunks(v);
    let list: Vec<u8> = write_list(&chunks);
    let mut out: Vec<u8> = Vec::new();
    out.push(tag);
    push_bytes(&mut out, list.as_slice());
    assert(out@ =~= value_bytes(v@));
    let total: usize = out.len();
    proof {
        lemma_be_limit_u64();
        assert(total < be_limit(8));
        match v {
            Value::UuidArray(a) => {
                let ids = a@.map_values(|u: EntityId| u@);
                assert forall|i: int| 0 <= i < ids.len() implies (#[trigger] ids[i]).len() == 16 by {
                    assert(ids[i] == a@[i]@);
                }
            },
            _ => {},
        }
        lemma_parse_value(v@);
    }
    out
}

/// Writes an entity.
pub fn encode_entity(fields: &[Field]) -> (r: Result<Vec<u8>, DbError>)
    ensures
        r matches Ok(out) && out@ == entity_bytes(fields_view(fields@)) && parse_entity(out@)
            == Some(fields_view(fields@)),
{
    let ghost fs = fields_view(fields@);
    let mut chunks: Vec<Vec<u8>> = Vec::new();
    let mut i: usize = 0;
    assert(chunks_view(chunks@) =~= entity_chunks(fs.take(0)));
    while i < fields.len()
        invariant
            i <= fields@.len(),
            fs == fields_view(fields@),
            chunks@.len() == 2 * i,
            forall|j: int|
                0 <= j < i ==> value_holdable((#[trigger] fs[j]).1) && encode_utf8(fs[j].0).len()
                    < be_limit(8),
            chunks_view(chunks@) == entity_chunks(fs.take(i as int)),
        decreases fields@.len() - i,
    {
        let ghost before = chunks_view(chunks@);
        let name: Vec<u8> = copy_slice(fields[i].0.as_str().as_bytes());
        let value: Vec<u8> = encode_value(&fields[i].1);
        let name_len: usize = name.len();
        proof {
            lemma_be_limit_u64();
            assert(fs[i as int] == (fields@[i as int].0@, fields@[i as int].1@));
            assert(name_len < be_limit(8));
        }
        chunks.push(name);
        chunks.push(value);
        i = i + 1;
        proof {
            assert(chunks_view(chunks@) =~= before.push(name@).push(value@));
            assert(fs.take(i as int).drop_last() =~= fs.take(i - 1));
            assert(fs.take(i as int).last() == fs[i - 1]);
        }
    }
    assert(fs.take(fs.len() as int) =~= fs);
    let count: usize = chunks.len();
    proof {
        lemma_be_limit_u64();
        assert(2 * fs.len() == count);
        law_entity_round_trip(fs);
    }
    Ok(write_list(&chunks))
}

/// Reads a number below a limit from a chunk.
fn chunk_number(c: &Vec<u8>, limit: u128) -> (r: Option<u64>)
    requires
        limit <= be_limit(8),
    ensures
        match r {
            Some(n) => c@.len() == 8 && be_value(c@) == n && n < limit,
            None => !(c@.len() == 8 && be_value(c@) < limit),
        },
{
    if c.len() != 8 {
        return None;
    }
    let n: u64 = read_be(c.as_slice(), 0, 8);
    assert(c@.subrange(0, 8) =~= c@);
    if (n as u128) < limit {
        Some(n)
    } else {
        None
    }
}

const ANY: u128 = 0x1_0000_0000_0000_0000;

/// Reads numbers below a limit from chunks.
fn chunk_numbers(chunks: &Vec<Vec<u8>>, limit: u128) -> (r: Option<Vec<u64>>)
    requires
        limit <= be_limit(8),
    ensures
        match r {
            Some(a) => all_numbers(chunks_view(chunks@), limit as nat) && a@.len() == chunks@.len()
                && forall|i: int| 0 <= i < a@.len() ==> #[trigger] a@[i] == be_value(chunks@[i]@)
                && a@[i] < limit,
            None => !all_numbers(chunks_view(chunks@), limit as nat),
        },
{
    let ghost cs = chunks_view(chunks@);
    let mut out: Vec<u64> = Vec::new();
    let mut i: usize = 0;
    while i < chunks.len()
        invariant
            i <= chunks@.len(),
            limit <= be_limit(8),
            cs == chunks_view(chunks@),
            out@.len() == i,
            forall|j: int|
                0 <= j < i ==> #[trigger] out@[j] == be_value(chunks@[j]@) && out@[j] < limit
                    && chunks@[j]@.len() == 8,
        decreases chunks@.len() - i,
    {
        match chunk_number(&chunks[i], limit) {
            Some(n) => {
                let ghost before = out@;
                out.push(n);
                assert forall|j: int| 0 <= j < i + 1 implies #[trigger] out@[j] == be_value(
                    chunks@[j]@,
                ) && out@[j] < limit && chunks@[j]@.len() == 8 by {
                    if j < i {
                        assert(out@[j] == before[j]);
                    }
                }
            },
            None => {
                assert(cs[i as int] == chunks@[i as int]@);
                return None;
            },
        }
        i = i + 1;
    }
    proof {
        assert forall|j: int| 0 <= j < cs.len() implies (#[trigger] cs[j]).len() == 8 && be_value(cs[j])
            < limit by {
            assert(out@[j] == be_value(chunks@[j]@));
        }
    }
    Some(out)
}

/// Reads texts from chunks.
fn chunk_texts(chunks: &Vec<Vec<u8>>) -> (r: Option<Vec<String>>)
    ensures
        match r {
            Some(a) => (forall|i: int|
                0 <= i < chunks@.len() ==> valid_utf8(#[trigger] chunks_view(chunks@)[i]))
                && a@.map_values(|s: String| s@) == chunks_view(chunks@).map_values(
                |c: Seq<u8>| decode_utf8(c),
            ),
            None => exists|i: int|
                0 <= i < chunks@.len() && !valid_utf8(#[trigger] chunks_view(chunks@)[i]),
        },
{
    let ghost cs = chunks_view(chunks@);
    let mut out: Vec<String> = Vec::new();
    let mut i: usize = 0;
    while i < chunks.len()
        invariant
            i <= chunks@.len(),
            cs == chunks_view(chunks@),
            out@.len() == i,
            forall|j: int|
                0 <= j < i ==> valid_utf8(#[trigger] cs[j]) && out@[j]@ == decode_utf8(cs[j]),
        decreases chunks@.len() - i,
    {
        match crate::text::text_from_utf8(copy_slice(chunks[i].as_slice())) {
            Some(s) => {
                out.push(s);
            },
            None => {
                assert(!valid_utf8(cs[i as int]));
                return None;
            },
        }
        i = i + 1;
    }
    assert(out@.map_values(|s: String| s@) =~= cs.map_values(|c: Seq<u8>| decode_utf8(c)));
    Some(out)
}

/// Reads identifiers from chunks.
fn chunk_ids(chunks: &Vec<Vec<u8>>) -> (r: Option<Vec<EntityId>>)
    ensures
        match r {
            Some(a) => (forall|i: int|
                0 <= i < chunks@.len() ==> (#[trigger] chunks_view(chunks@)[i]).len() == 16)
                && a@.map_values(|u: EntityId| u@) == chunks_view(chunks@),
            None => exists|i: int|
                0 <= i < chunks@.len() && (#[trigger] chunks_view(chunks@)[i]).len() != 16,
        },
{
    let ghost cs = chunks_view(chunks@);
    let mut out: Vec<EntityId> = Vec::new();
    let mut i: usize = 0;
    while i < chunks.len()
        invariant
            i <= chunks@.len(),
            cs == chunks_view(chunks@),
            out@.len() == i,
            forall|j: int| 0 <= j < i ==> (#[trigger] cs[j]).len() == 16 && out@[j]@ == cs[j],
        decreases chunks@.len() - i,
    {
        if chunks[i].len() != 16 {
            assert(cs[i as int].len() != 16);
            return None;
        }
        out.push(read_id(chunks[i].as_slice(), 0));
        assert(cs[i as int].subrange(0, 16) =~= cs[i as int]);
        i = i + 1;
    }
    assert(out@.map_values(|u: EntityId| u@) =~= cs);
    Some(out)
}

fn numbers_to_bools(a: &Vec<u64>) -> (out: Vec<bool>)
    ensures
        out@ == a@.map_values(|n: u64| n == 1),
{
    let mut out: Vec<bool> = Vec::new();
    let mut i: usize = 0;
    while i < a.len()
        invariant
            i <= a@.len(),
            out@.len() == i,
            forall|j: int| 0 <= j < i ==> out@[j] == (a@[j] == 1),
        decreases a@.len() - i,
    {
        out.push(a[i] == 1);
        i = i + 1;
    }
    assert(out@ =~= a@.map_values(|n: u64| n == 1));
    out
}

fn number_i32(n: u64) -> (i: i32)
    requires
        n < 0x1_0000_0000,
    ensures
        i == n - 0x8000_0000,
{
    (n as i64 - 0x8000_0000) as i32
}

fn number_i64(n: u64) -> (i: i64)
    ensures
        i == n - 0x8000_0000_0000_0000,
{
    (n as i128 - 0x8000_0000_0000_0000) as i64
}

fn numbers_to_i32s(a: &Vec<u64>) -> (out: Vec<i32>)
    requires
        forall|i: int| 0 <= i < a@.len() ==> #[trigger] a@[i] < 0x1_0000_0000,
    ensures
        out@ == a@.map_values(|n: u64| (n - 0x8000_0000) as i32),
{
    let mut out: Vec<i32> = Vec::new();
    let mut i: usize = 0;
    while i < a.len()
        invariant
            i <= a@.len(),
            out@.len() == i,
            forall|i: int| 0 <= i < a@.len() ==> #[trigger] a@[i] < 0x1_0000_0000,
            forall|j: int| 0 <= j < i ==> out@[j] == a@[j] - 0x8000_0000,
        decreases a@.len() - i,
    {
        out.push(number_i32(a[i]));
        i = i + 1;
    }
    assert(out@ =~= a@.map_values(|n: u64| (n - 0x8000_0000) as i32));
    out
}

fn numbers_to_i64s(a: &Vec<u64>) -> (out: Vec<i64>)
    ensures
        out@ == a@.map_values(|n: u64| (n - 0x8000_0000_0000_0000) as i64),
{
    let mut out: Vec<i64> = Vec::new();
    let mut i: usize = 0;
    while i < a.len()
        invariant
            i <= a@.len(),
            out@.len() == i,
            forall|j: int| 0 <= j < i ==> out@[j] == a@[j] - 0x8000_0000_0000_0000,
        decreases a@.len() - i,
    {
        out.push(number_i64(a[i]));
        i = i + 1;
    }
    assert(out@ =~= a@.map_values(|n: u64| (n - 0x8000_0000_0000_0000) as i64));
    out
}

/// Reads pairs of numbers from chunks.
fn chunk_pairs(chunks: &Vec<Vec<u8>>) -> (r: Option<Vec<(u64, u64)>>)
    ensures
        match r {
            Some(a) => (forall|i: int|
                0 <= i < chunks@.len() ==> (#[trigger] chunks_view(chunks@)[i]).len() == 16)
                && a@ == chunks_view(chunks@).map_values(
                |c: Seq<u8>| (chunk_u64(c.take(8)), chunk_u64(c.skip(8))),
            ),
            None => exists|i: int|
                0 <= i < chunks@.len() && (#[trigger] chunks_view(chunks@)[i]).len() != 16,
        },
{
    let ghost cs = chunks_view(chunks@);
    let mut out: Vec<(u64, u64)> = Vec::new();
    let mut i: usize = 0;
    while i < chunks.len()
        invariant
            i <= chunks@.len(),
            cs == chunks_view(chunks@),
            out@.len() == i,
            forall|j: int|
                0 <= j < i ==> (#[trigger] cs[j]).len() == 16 && out@[j] == (
                    chunk_u64(cs[j].take(8)),
                    chunk_u64(cs[j].skip(8)),
                ),
        decreases chunks@.len() - i,
    {
        if chunks[i].len() != 16 {
            assert(cs[i as int].len() != 16);
            return None;
        }
        let first: u64 = read_be(chunks[i].as_slice(), 0, 8);
        let second: u64 = read_be(chunks[i].as_slice(), 8, 8);
        proof {
            assert(cs[i as int].subrange(0, 8) =~= cs[i as int].take(8));
            assert(cs[i as int].subrange(8, 16) =~= cs[i as int].skip(8));
        }
        out.push((first, second));
        i = i + 1;
    }
    assert(out@ =~= cs.map_values(|c: Seq<u8>| (chunk_u64(c.take(8)), chunk_u64(c.skip(8)))));
    Some(out)
}

/// The value with a tag and chunks.
#[verifier::rlimit(40)]
fn read_value(tag: u8, chunks: &Vec<Vec<u8>>) -> (r: Option<Value>)
    ensures
        match r {
            Some(v) => value_from(tag, chunks_view(chunks@)) == Some(v@),
            None => value_from(tag, chunks_view(chunks@)) is None,
        },
{
    let ghost cs = chunks_view(chunks@);
    proof {
        lemma_be_limit_u64();
        assert forall|i: int| 0 <= i < cs.len() implies #[trigger] cs[i] == chunks@[i]@ by {}
    }
    if tag == 0 {
        return if chunks.len() == 0 { Some(Value::Null) } else { None };
    }
    if tag == 1 || tag == 10 {
        let a: Vec<u64> = match chunk_numbers(chunks, 2) {
            Some(a) => a,
            None => { return None; },
        };
        if tag == 10 {
            let bools: Vec<bool> = numbers_to_bools(&a);
            assert(bools@ =~= cs.map_values(|c: Seq<u8>| be_value(c) == 1));
            return Some(Value::BoolArray(bools));
        }
        return if a.len() == 1 { Some(Value::Bool(a[0] == 1)) } else { None };
    }
    if tag == 2 || tag == 11 {
        let a: Vec<u64> = match chunk_numbers(chunks, 0x1_0000_0000) {
            Some(a) => a,
            None => { return None; },
        };
        if tag == 11 {
            let ints: Vec<i32> = numbers_to_i32s(&a);
            assert(ints@ =~= cs.map_values(|c: Seq<u8>| (be_value(c) - 0x8000_0000) as i32));
            return Some(Value::Int32Array(ints));
        }
        return if a.len() == 1 { Some(Value::Int32(number_i32(a[0]))) } else { None };
    }
    if tag == 6 || tag == 15 {
        let mut a: Vec<String> = match chunk_texts(chunks) {
            Some(a) => a,
            None => { return None; },
        };
        let ghost texts = a@.map_values(|s: String| s@);
        assert(texts.len() == cs.len());
        if tag == 15 {
            return Some(Value::StringArray(a));
        }
        if a.len() != 1 {
            return None;
        }
        assert(texts[0] == decode_utf8(cs[0]));
        return match a.pop() {
            Some(s) => Some(Value::String(s)),
            None => None,
        };
    }
    if tag == 7 {
        return if chunks.len() == 1 { Some(Value::Bytes(copy_slice(chunks[0].as_slice()))) } else { None };
    }
    if tag == 9 || tag == 16 {
        let a: Vec<EntityId> = match chunk_ids(chunks) {
            Some(a) => a,
            None => { return None; },
        };
        let ghost ids = a@.map_values(|u: EntityId| u@);
        assert(ids.len() == cs.len());
        if tag == 16 {
            return Some(Value::UuidArray(a));
        }
        if a.len() != 1 {
            return None;
        }
        assert(ids[0] == cs[0]);
        return Some(Value::Uuid(a[0]));
    }
    if tag == 19 {
        return match chunk_pairs(chunks) {
            Some(a) => Some(Value::GeoPolygon(a)),
            None => None,
        };
    }
    if tag > 19 {
        return None;
    }
    let a: Vec<u64> = match chunk_numbers(chunks, ANY) {
        Some(a) => a,
        None => { return None; },
    };
    if tag == 12 {
        let ints: Vec<i64> = numbers_to_i64s(&a);
        assert(ints@ =~= cs.map_values(|c: Seq<u8>| (be_value(c) - 0x8000_0000_0000_0000) as i64));
        return Some(Value::Int64Array(ints));
    }
    if tag == 13 || tag == 14 || tag == 17 {
        assert(a@ =~= cs.map_values(|c: Seq<u8>| chunk_u64(c)));
        return Some(
            if tag == 13 {
                Value::Float32Array(a)
            } else if tag == 14 {
                Value::Float64Array(a)
            } else {
                Value::Vector(a)
            },
        );
    }
    if tag == 18 {
        return if a.len() == 2 { Some(Value::GeoPoint { lat: a[0], lon: a[1] }) } else { None };
    }
    if a.len() != 1 {
        return None;
    }
    if tag == 3 {
        Some(Value::Int64(number_i64(a[0])))
    } else if tag == 8 {
        Some(Value::Timestamp(number_i64(a[0])))
    } else if tag == 4 {
        Some(Value::Float32(a[0]))
    } else {
        Some(Value::Float64(a[0]))
    }
}

/// Reads a value.
pub fn decode_value(s: &[u8]) -> (r: Option<Value>)
    ensures
        match r {
            Some(v) => parse_value(s@) == Some(v@),
            None => parse_value(s@) is None,
        },
{
    if s.len() == 0 {
        return None;
    }
    match read_list(s, 1) {
        Some(chunks) => read_value(s[0], &chunks),
        None => None,
    }
}

/// What is said of bytes that are no entity.
pub open spec fn not_an_entity() -> Seq<char> {
    "malformed entity data"@
}

/// The outcome of reading an entity.
pub open spec fn entity_outcome(s: Seq<u8>) -> Result<Seq<FieldView>, ErrorView> {
    match parse_entity(s) {
        Some(fs) => Ok(fs),
        None => Err(ErrorView::InvalidData(not_an_entity())),
    }
}

fn malformed() -> (e: DbError)
    ensures
        e@ == ErrorView::InvalidData(not_an_entity()),
{
    DbError::InvalidData("malformed entity data".to_owned())
}

/// Reads an entity.
pub fn decode_entity(s: &[u8]) -> (r: Result<Vec<Field>, DbError>)
    ensures
        match r {
            Ok(fields) => entity_outcome(s@) == Ok::<Seq<FieldView>, ErrorView>(fields_view(fields@)),
            Err(e) => entity_outcome(s@) == Err::<Seq<FieldView>, ErrorView>(e@),
        },
{
    let chunks: Vec<Vec<u8>> = match read_list(s, 0) {
        Some(chunks) => chunks,
        None => {
            assert(s@.skip(0) =~= s@);
            return Err(malformed());
        },
    };
    let ghost cs = chunks_view(chunks@);
    assert(s@.skip(0) =~= s@);
    let mut fields: Vec<Field> = Vec::new();
    let mut i: usize = 0;
    assert(fields_view(fields@) =~= Seq::<FieldView>::empty());
    assert(cs.take(0) =~= Seq::<Seq<u8>>::empty());
    while chunks.len() - i >= 2
        invariant
            i <= chunks@.len(),
            i % 2 == 0,
            cs == chunks_view(chunks@),
            parse_fields(cs.take(i as int)) == Some(fields_view(fields@)),
            parse_list(s@) == Some(cs),
        decreases chunks@.len() - i,
    {
        let ghost before = fields_view(fields@);
        let ghost part = cs.take(i + 2);
        proof {
            assert(part.take(i as int) =~= cs.take(i as int));
            assert(part[i as int] == chunks@[i as int]@);
            assert(part[i + 1] == chunks@[i + 1]@);
        }
        let value: Value = match decode_value(chunks[i + 1].as_slice()) {
            Some(v) => v,
            None => {
                proof {
                    lemma_parse_fields_fails(cs, i + 2);
                }
                return Err(malformed());
            },
        };
        let name: String = match crate::text::text_from_utf8(copy_slice(chunks[i].as_slice())) {
            Some(s) => s,
            None => {
                proof {
                    lemma_parse_fields_fails(cs, i + 2);
                }
                return Err(malformed());
            },
        };
        fields.push((name, value));
        i = i + 2;
        assert(fields_view(fields@) =~= before.push((name@, value@)));
    }
    if i != chunks.len() {
        proof {
            lemma_parse_fields_odd(cs);
        }
        return Err(malformed());
    }
    assert(cs.take(i as int) =~= cs);
    Ok(fields)
}

/// Where the first chunks do not parse, nor do all.
proof fn lemma_parse_fields_fails(cs: Seq<Seq<u8>>, n: int)
    requires
        0 <= n <= cs.len(),
        n % 2 == 0,
        parse_fields(cs.take(n)) is None,
    ensures
        parse_fields(cs) is None,
    decreases cs.len() - n,
{
    if n == cs.len() {
        assert(cs.take(n) =~= cs);
    } else if n + 1 == cs.len() {
        lemma_parse_fields_odd(cs);
    } else {
        let part = cs.take(n + 2);
        assert(part.take(n) =~= cs.take(n));
        lemma_parse_fields_fails(cs, n + 2);
    }
}

/// An odd number of chunks is no entity.
proof fn lemma_parse_fields_odd(cs: Seq<Seq<u8>>)
    requires
        cs.len() % 2 == 1,
    ensures
        parse_fields(cs) is None,
    decreases cs.len(),
{
    if cs.len() > 1 {
        lemma_parse_fields_odd(cs.take(cs.len() - 2));
    }
}

/// The fields whose names are wanted, in order.
pub open spec fn project(fs: Seq<FieldView>, names: Seq<Seq<char>>) -> Seq<FieldView> {
    fs.filter(|f: FieldView| names.contains(f.0))
}

/// Reads the wanted fields of an entity.
pub fn decode_entity_projected(s: &[u8], names: &[String]) -> (r: Result<Vec<Field>, DbError>)
    ensures
        match r {
            Ok(fields) => parse_entity(s@) is Some && fields_view(fields@) == project(
                parse_entity(s@)->0,
                texts(names@),
            ),
            Err(e) => entity_outcome(s@) == Err::<Seq<FieldView>, ErrorView>(e@),
        },
{
    let all: Vec<Field> = decode_entity(s)?;
    let ghost fs = fields_view(all@);
    let ghost wanted = |f: FieldView| texts(names@).contains(f.0);
    let mut out: Vec<Field> = Vec::new();
    let mut i: usize = 0;
    assert(fs.take(0) =~= Seq::<FieldView>::empty());
    proof {
        reveal(Seq::filter);
    }
    assert(fields_view(out@) =~= fs.take(0).filter(wanted));
    while i < all.len()
        invariant
            i <= all@.len(),
            fs == fields_view(all@),
            wanted == (|f: FieldView| texts(names@).contains(f.0)),
            fields_view(out@) == fs.take(i as int).filter(wanted),
        decreases all@.len() - i,
    {
        let ghost before = fields_view(out@);
        proof {
            reveal(Seq::filter);
            assert(fs.take(i + 1).drop_last() =~= fs.take(i as int));
            assert(fs.take(i + 1).last() == fs[i as int]);
        }
        if contains_text(names, all[i].0.as_str()) {
            out.push((all[i].0.clone(), all[i].1.copy()));
            assert(fields_view(out@) =~= before.push(fs[i as int]));
        }
        i = i + 1;
    }
    assert(fs.take(fs.len() as int) =~= fs);
    Ok(out)
}

/// Copies fields.
pub fn copy_fields(fields: &[Field]) -> (out: Vec<Field>)
    ensures
        fields_view(out@) == fields_view(fields@),
{
    let ghost fs = fields_view(fields@);
    let mut out: Vec<Field> = Vec::new();
    let mut i: usize = 0;
    assert(fields_view(out@) =~= fs.take(0));
    while i < fields.len()
        invariant
            i <= fields@.len(),
            fs == fields_view(fields@),
            fields_view(out@) == fs.take(i as int),
        decreases fields@.len() - i,
    {
        let ghost before = fields_view(out@);
        out.push((fields[i].0.clone(), fields[i].1.copy()));
        i = i + 1;
        assert(fields_view(out@) =~= before.push(fs[i - 1]));
        assert(fields_view(out@) =~= fs.take(i as int));
    }
    assert(fs.take(fs.len() as int) =~= fs);
    out
}

} // verus!
