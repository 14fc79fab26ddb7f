//! Protocol core of an RTMP engine: the codec for fixed-layout control
//! messages, the ledger of outstanding transactions of a session, and the
//! translation between stream metadata and generic AMF0 properties.

pub mod amf;
pub mod ieee754;
pub mod messages;
pub mod sessions;
