//! The keys under which the store keeps what it holds.

use vstd::prelude::*;
use vstd::utf8::encode_utf8;

use crate::bytes::{copy_slice, push_bytes, EntityId};

verus! {

/// What the keys of version pointers begin with: `latest:`.
pub open spec fn latest_prefix() -> Seq<u8> {
    seq![108u8, 97, 116, 101, 115, 116, 58]
}

/// The key of the pointer to an entity's latest version.
pub open spec fn latest_key_bytes(id: Seq<u8>) -> Seq<u8> {
    latest_prefix() + id
}

/// What the keys of entities of a type begin with: the type's name and a zero.
pub open spec fn type_prefix(entity_type: Seq<char>) -> Seq<u8> {
    encode_utf8(entity_type).push(0)
}

/// The key of an entity of a type.
pub open spec fn type_key(entity_type: Seq<char>, id: Seq<u8>) -> Seq<u8> {
    type_prefix(entity_type) + id
}

/// Different entities have different version pointers.
pub proof fn lemma_latest_key_injective(a: Seq<u8>, b: Seq<u8>)
    requires
        latest_key_bytes(a) == latest_key_bytes(b),
    ensures
        a == b,
{
    assert(latest_key_bytes(a).skip(7) =~= a);
    assert(latest_key_bytes(b).skip(7) =~= b);
}

/// The key of the pointer to an entity's latest version.
pub fn latest_key(id: &EntityId) -> (key: Vec<u8>)
    ensures
        key@ == latest_key_bytes(id@),
{
    let mut key: Vec<u8> = vec![108u8, 97, 116, 101, 115, 116, 58];
    assert(key@ =~= latest_prefix());
    push_bytes(&mut key, id.as_slice());
    key
}

/// What the keys of entities of a type begin with.
pub fn type_index_prefix(entity_type: &str) -> (key: Vec<u8>)
    ensures
        key@ == type_prefix(entity_type@),
{
    let mut key: Vec<u8> = copy_slice(entity_type.as_bytes());
    key.push(0);
    key
}

/// The key of an entity of a type.
pub fn type_index_key(entity_type: &str, id: &EntityId) -> (key: Vec<u8>)
    ensures
        key@ == type_key(entity_type@, id@),
{
    let mut key: Vec<u8> = type_index_prefix(entity_type);
    push_bytes(&mut key, id.as_slice());
    key
}

} // verus!
