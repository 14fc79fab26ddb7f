//! One codec per message type.

pub mod abort;
