//! What a request that still waits for its reply was sent for.

use crate::sessions::client::PublishRequestType;
use vstd::prelude::*;

verus! {

/// What a stream is wanted for, once the server has created it.
#[derive(Clone, Debug, PartialEq, Eq)]
pub enum TransactionPurpose {
    PlayRequest { stream_key: String },
    PublishRequest { stream_key: String, request_type: PublishRequestType },
}

/// A request that waits for its reply.
#[derive(Clone, Debug, PartialEq, Eq)]
pub enum OutstandingTransaction {
    /// A connection to the application `app_name` was requested.
    ConnectionRequested { app_name: String },
    /// The creation of a stream was requested, for `purpose`.
    CreateStream { purpose: TransactionPurpose },
}

} // verus!
