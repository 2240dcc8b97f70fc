//! Versioned keys: an entity and the time of one of its versions.

use vstd::prelude::*;

use crate::bytes::{
    be_bytes, be_value, copy_slice, lemma_be_bytes_len, lemma_be_bytes_of_value, lemma_be_limit_u64,
    lemma_be_order, lemma_be_round_trip, lemma_lex_between, lemma_lex_common_prefix, lex_le, lex_lt,
    push_be, read_be, read_id, EntityId,
};

verus! {

/// Identifies one version of one entity.
#[derive(Debug, Clone, Copy, PartialEq, Eq)]
pub struct VersionedKey {
    /// The entity.
    pub entity_id: EntityId,
    /// The version's timestamp.
    pub version_ts: u64,
}

/// The bytes of a timestamp, such that byte order is time order.
pub open spec fn ts_bytes(ts: u64) -> Seq<u8> {
    be_bytes(ts as nat, 8)
}

/// The stored form of a versioned key: the entity's bytes, then the timestamp's.
pub open spec fn key_bytes(id: Seq<u8>, ts: u64) -> Seq<u8> {
    id + ts_bytes(ts)
}

/// What a stored key stands for, where it has the form of one.
pub open spec fn parse_key(s: Seq<u8>) -> Option<(Seq<u8>, u64)> {
    if s.len() == 24 {
        Some((s.take(16), be_value(s.skip(16)) as u64))
    } else {
        None
    }
}

/// A timestamp takes eight bytes and can be read back.
pub proof fn lemma_ts_bytes(ts: u64)
    ensures
        ts_bytes(ts).len() == 8,
        be_value(ts_bytes(ts)) == ts,
{
    lemma_be_limit_u64();
    lemma_be_bytes_len(ts as nat, 8);
    lemma_be_round_trip(ts as nat, 8);
}

/// Eight bytes are the bytes of the timestamp that they stand for.
pub proof fn lemma_ts_of_bytes(s: Seq<u8>)
    requires
        s.len() == 8,
    ensures
        be_value(s) <= u64::MAX,
        ts_bytes(be_value(s) as u64) == s,
{
    lemma_be_limit_u64();
    lemma_be_bytes_of_value(s);
}

/// Reading back a stored key gives the key.
pub proof fn law_key_round_trip(id: Seq<u8>, ts: u64)
    requires
        id.len() == 16,
    ensures
        parse_key(key_bytes(id, ts)) == Some((id, ts)),
{
    lemma_ts_bytes(ts);
    assert(key_bytes(id, ts).take(16) =~= id);
    assert(key_bytes(id, ts).skip(16) =~= ts_bytes(ts));
}

/// Every stored key of the right length is that of exactly one version.
pub proof fn law_key_of_bytes(s: Seq<u8>)
    requires
        parse_key(s) is Some,
    ensures
        s == key_bytes(parse_key(s)->Some_0.0, parse_key(s)->Some_0.1),
{
    lemma_ts_of_bytes(s.skip(16));
    assert(s =~= s.take(16) + s.skip(16));
}

/// Stored keys of one entity are ordered as their timestamps are.
pub proof fn law_key_order(id: Seq<u8>, a: u64, b: u64)
    ensures
        lex_lt(key_bytes(id, a), key_bytes(id, b)) == (a < b),
        lex_le(key_bytes(id, a), key_bytes(id, b)) == (a <= b),
{
    lemma_ts_bytes(a);
    lemma_ts_bytes(b);
    lemma_be_order(ts_bytes(a), ts_bytes(b));
    lemma_lex_common_prefix(id, ts_bytes(a), ts_bytes(b));
    if key_bytes(id, a) == key_bytes(id, b) {
        assert(key_bytes(id, a).skip(id.len() as int) =~= ts_bytes(a));
        assert(key_bytes(id, b).skip(id.len() as int) =~= ts_bytes(b));
    }
}

/// A stored key between two versions of an entity is that of a version of the
/// entity, at a time between theirs.
pub proof fn law_key_between(id: Seq<u8>, a: u64, b: u64, s: Seq<u8>)
    requires
        id.len() == 16,
        parse_key(s) is Some,
        lex_le(key_bytes(id, a), s),
        lex_le(s, key_bytes(id, b)),
    ensures
        parse_key(s)->Some_0.0 == id,
        a <= parse_key(s)->Some_0.1 <= b,
{
    lemma_lex_between(id, ts_bytes(a), ts_bytes(b), s);
    law_key_of_bytes(s);
    law_key_order(id, a, parse_key(s)->Some_0.1);
    law_key_order(id, parse_key(s)->Some_0.1, b);
}

/// Calls `std::time::SystemTime::now` and gives the microseconds since the
/// epoch. Nothing is claimed of the result: it is the machine's time.
#[verifier::external_body]
pub(crate) fn current_timestamp() -> (ts: u64) {
    let since = std::time::SystemTime::now().duration_since(std::time::UNIX_EPOCH);
    since.unwrap_or_default().as_micros() as u64
}

impl VersionedKey {
    /// The key of a version.
    pub fn new(entity_id: EntityId, version_ts: u64) -> (k: VersionedKey)
        ensures
            k.entity_id == entity_id,
            k.version_ts == version_ts,
    {
        VersionedKey { entity_id, version_ts }
    }

    /// The key of a version written now.
    pub fn now(entity_id: EntityId) -> (k: VersionedKey)
        ensures
            k.entity_id == entity_id,
    {
        VersionedKey { entity_id, version_ts: current_timestamp() }
    }

    /// The first key that a version of the entity can have.
    pub fn min_for_entity(entity_id: EntityId) -> (k: VersionedKey)
        ensures
            k.entity_id == entity_id,
            k.version_ts == 0,
    {
        VersionedKey { entity_id, version_ts: 0 }
    }

    /// The last key that a version of the entity can have.
    pub fn max_for_entity(entity_id: EntityId) -> (k: VersionedKey)
        ensures
            k.entity_id == entity_id,
            k.version_ts == u64::MAX,
    {
        VersionedKey { entity_id, version_ts: u64::MAX }
    }

    /// The stored form.
    pub fn encode(&self) -> (s: Vec<u8>)
        ensures
            s@ == key_bytes(self.entity_id@, self.version_ts),
    {
        let mut s: Vec<u8> = copy_slice(self.entity_id.as_slice());
        push_be(&mut s, self.version_ts, 8);
        s
    }

    /// Reads a stored key.
    pub fn decode(s: &[u8]) -> (r: Option<VersionedKey>)
        ensures
            match r {
                Some(k) => parse_key(s@) == Some((k.entity_id@, k.version_ts)),
                None => parse_key(s@) is None,
            },
    {
        if s.len() != 24 {
            return None;
        }
        let entity_id: EntityId = read_id(s, 0);
        let version_ts: u64 = read_be(s, 16, 8);
        assert(s@.subrange(0, 16) =~= s@.take(16));
        assert(s@.subrange(16, 24) =~= s@.skip(16));
        Some(VersionedKey { entity_id, version_ts })
    }
}

} // verus!
