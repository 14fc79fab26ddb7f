//! What a client session keeps about the requests it has sent.

use vstd::prelude::*;

pub mod ledger;
pub mod outstanding_transaction;

verus! {

/// How a published stream is stored by the server.
#[derive(Clone, Copy, Debug, PartialEq, Eq, Structural)]
pub enum PublishRequestType {
    Live,
    Record,
    Append,
}

} // verus!
