//! The abort message: a stream id as four big-endian bytes.

use crate::messages::wire::{
    be_u32_bytes, be_u32_value, bytes_as_slice, bytes_contents, bytes_from_vec,
    lemma_be_u32_round_trip, read_u32_be, write_u32_be,
};
use crate::messages::{
    MessageDeserializationError, MessageDeserializationErrorKind, MessageSerializationError,
    RtmpMessage,
};
use bytes::Bytes;
use vstd::prelude::*;

verus! {

/// The number of bytes of an abort message's body.
pub const ABORT_BODY_LEN: usize = 4;

/// The body of the abort message for `stream_id`.
pub open spec fn abort_body(stream_id: u32) -> Seq<u8> {
    be_u32_bytes(stream_id)
}

/// The abort message that `body` starts with, if it is long enough to hold one.
pub open spec fn parse_abort(body: Seq<u8>) -> Result<RtmpMessage, MessageDeserializationError> {
    if body.len() < 4 {
        Err(MessageDeserializationError { kind: MessageDeserializationErrorKind::UnexpectedEof })
    } else {
        Ok(RtmpMessage::Abort { stream_id: be_u32_value(body) as u32 })
    }
}

/// Writes the body of an abort message. Every stream id has one: the result
/// is never an error.
pub fn serialize(stream_id: u32) -> (result: Result<Bytes, MessageSerializationError>)
    ensures
        result matches Ok(body) && bytes_contents(body) == abort_body(stream_id),
{
    let mut buffer: [u8; 4] = [0u8; 4];
    write_u32_be(&mut buffer, stream_id);
    let mut data: Vec<u8> = Vec::with_capacity(ABORT_BODY_LEN);
    let mut i: usize = 0;
    while i < ABORT_BODY_LEN
        invariant
            i <= ABORT_BODY_LEN,
            data@ == buffer@.subrange(0, i as int),
        decreases ABORT_BODY_LEN - i,
    {
        data.push(buffer[i]);
        i += 1;
    }
    assert(data@ == buffer@);
    Ok(bytes_from_vec(data))
}

/// Reads an abort message from the start of `data`. Fewer than four bytes
/// are an error; bytes after the fourth are not looked at.
pub fn deserialize(data: Bytes) -> (result: Result<RtmpMessage, MessageDeserializationError>)
    ensures
        result == parse_abort(bytes_contents(data)),
{
    let body = bytes_as_slice(&data);
    if body.len() < ABORT_BODY_LEN {
        return Err(
            MessageDeserializationError { kind: MessageDeserializationErrorKind::UnexpectedEof },
        );
    }
    let stream_id: u32 = read_u32_be(body);
    Ok(RtmpMessage::Abort { stream_id })
}

/// Reading the body that was written for a stream id gives the abort message
/// of that stream id.
pub proof fn lemma_abort_round_trip(stream_id: u32)
    ensures
        parse_abort(abort_body(stream_id)) == Ok::<RtmpMessage, MessageDeserializationError>(
            RtmpMessage::Abort { stream_id },
        ),
{
    lemma_be_u32_round_trip(stream_id);
}

/// A body of fewer than four bytes is no abort message.
pub proof fn lemma_abort_truncated(body: Seq<u8>)
    requires
        body.len() < 4,
    ensures
        parse_abort(body) == Err::<RtmpMessage, MessageDeserializationError>(
            MessageDeserializationError { kind: MessageDeserializationErrorKind::UnexpectedEof },
        ),
{
}

} // verus!
