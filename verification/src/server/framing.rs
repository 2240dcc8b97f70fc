//! Messages on the wire: a length in four bytes, most significant first, and
//! the payload.

use vstd::prelude::*;

use crate::bytes::{
    be_bytes, be_value, copy_range, lemma_be_bytes_len, lemma_be_limit_u32, lemma_be_round_trip,
    push_be, push_bytes, read_be,
};
use crate::server::error::{ServerError, ServerErrorView};

verus! {

/// How long a payload may be.
pub const MAX_MESSAGE_SIZE: usize = 67_108_864;

/// A payload with its length before it.
pub open spec fn frame_of(payload: Seq<u8>) -> Seq<u8> {
    be_bytes(payload.len(), 4) + payload
}

/// The payload of a message, where the message is well-formed: the length is
/// that of what follows, and within bounds.
pub open spec fn payload_of(s: Seq<u8>) -> Option<Seq<u8>> {
    if s.len() >= 4 && be_value(s.take(4)) == s.len() - 4 && s.len() - 4 <= MAX_MESSAGE_SIZE {
        Some(s.skip(4))
    } else {
        None
    }
}

/// What is said of a message that is not well-formed.
pub open spec fn bad_frame() -> ServerErrorView {
    ServerErrorView::Protocol("invalid message frame"@)
}

/// What is said of a payload that is too long.
pub open spec fn oversized() -> ServerErrorView {
    ServerErrorView::Protocol("payload too large"@)
}

/// Puts a payload's length before it.
pub fn encode_frame(payload: &[u8]) -> (r: Result<Vec<u8>, ServerError>)
    ensures
        match r {
            Ok(s) => payload@.len() <= MAX_MESSAGE_SIZE && s@ == frame_of(payload@),
            Err(e) => payload@.len() > MAX_MESSAGE_SIZE && e@ == oversized(),
        },
{
    if payload.len() > MAX_MESSAGE_SIZE {
        return Err(ServerError::Protocol("payload too large".to_owned()));
    }
    let mut out: Vec<u8> = Vec::new();
    push_be(&mut out, payload.len() as u64, 4);
    push_bytes(&mut out, payload);
    assert(out@ =~= frame_of(payload@));
    Ok(out)
}

/// The payload of a message.
pub fn extract_payload(data: &[u8]) -> (r: Result<Vec<u8>, ServerError>)
    ensures
        match r {
            Ok(payload) => payload_of(data@) == Some(payload@),
            Err(e) => payload_of(data@) is None && e@ == bad_frame(),
        },
{
    let total: usize = data.len();
    if total >= 4 {
        let length: u64 = read_be(data, 0, 4);
        assert(data@.subrange(0, 4) =~= data@.take(4));
        if length == (total - 4) as u64 && total - 4 <= MAX_MESSAGE_SIZE {
            let payload: Vec<u8> = copy_range(data, 4, total);
            assert(payload@ =~= data@.skip(4));
            return Ok(payload);
        }
    }
    Err(ServerError::Protocol("invalid message frame".to_owned()))
}

/// What is put into a frame can be taken out of it.
pub proof fn law_frame_round_trip(payload: Seq<u8>)
    requires
        payload.len() <= MAX_MESSAGE_SIZE,
    ensures
        payload_of(frame_of(payload)) == Some(payload),
{
    lemma_be_limit_u32();
    lemma_be_bytes_len(payload.len(), 4);
    lemma_be_round_trip(payload.len(), 4);
    assert(frame_of(payload).take(4) =~= be_bytes(payload.len(), 4));
    assert(frame_of(payload).skip(4) =~= payload);
}

} // verus!
