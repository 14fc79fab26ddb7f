//! Typed protocol messages and the errors of their codec.

use vstd::prelude::*;

pub mod types;
pub mod wire;

verus! {

/// A protocol control message.
#[derive(Clone, Copy, Debug, PartialEq, Eq, Structural)]
pub enum RtmpMessage {
    /// Tells the peer to discard the partially assembled message of a stream.
    Abort { stream_id: u32 },
}

/// Why a message could not be written.
#[derive(Clone, Copy, Debug, PartialEq, Eq, Structural)]
pub enum MessageSerializationErrorKind {
    /// The output could not take the bytes.
    WriteFailed,
}

/// A message could not be turned into bytes.
#[derive(Clone, Copy, Debug, PartialEq, Eq, Structural)]
pub struct MessageSerializationError {
    pub kind: MessageSerializationErrorKind,
}

/// Why a byte sequence is not a message.
#[derive(Clone, Copy, Debug, PartialEq, Eq, Structural)]
pub enum MessageDeserializationErrorKind {
    /// The input ends before the fixed layout of the message does.
    UnexpectedEof,
    /// A field holds a value that the message does not define.
    InvalidMessageFormat,
}

/// A byte sequence could not be read as a message.
#[derive(Clone, Copy, Debug, PartialEq, Eq, Structural)]
pub struct MessageDeserializationError {
    pub kind: MessageDeserializationErrorKind,
}

} // verus!
