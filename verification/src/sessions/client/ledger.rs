//! The ledger of outstanding transactions: what each request that waits for
//! its reply was sent for, under the transaction id it was sent with.

use crate::sessions::client::outstanding_transaction::OutstandingTransaction;
use std::collections::HashMap;
use vstd::prelude::*;

verus! {

broadcast use vstd::std_specs::hash::group_hash_axioms;

/// A reply named a transaction that does not wait for one.
#[derive(Clone, Copy, Debug, PartialEq, Eq, Structural)]
pub struct UnknownTransactionError {
    pub transaction_id: u32,
}

/// What taking `transaction_id` out of `pending` gives: its entry, or the
/// error that names the id.
pub open spec fn spec_take(pending: Map<u32, OutstandingTransaction>, transaction_id: u32) -> Result<
    OutstandingTransaction,
    UnknownTransactionError,
> {
    if pending.contains_key(transaction_id) {
        Ok(pending[transaction_id])
    } else {
        Err(UnknownTransactionError { transaction_id })
    }
}

/// The transactions of a session that wait for their replies. A session owns
/// its ledger alone.
pub struct TransactionLedger {
    pending: HashMap<u32, OutstandingTransaction>,
}

impl View for TransactionLedger {
    type V = Map<u32, OutstandingTransaction>;

    /// The entry under each transaction id that waits.
    closed spec fn view(&self) -> Map<u32, OutstandingTransaction> {
        self.pending@
    }
}

impl TransactionLedger {
    /// A ledger in which nothing waits.
    pub fn new() -> (ledger: TransactionLedger)
        ensures
            ledger@ == Map::<u32, OutstandingTransaction>::empty(),
    {
        TransactionLedger { pending: HashMap::new() }
    }

    /// Records that `transaction_id` waits for its reply, and what it was
    /// sent for. An entry that waited under the same id is replaced.
    pub fn register(&mut self, transaction_id: u32, entry: OutstandingTransaction)
        ensures
            final(self)@ == old(self)@.insert(transaction_id, entry),
    {
        self.pending.insert(transaction_id, entry);
    }

    /// Takes the entry of `transaction_id` out of the ledger. An id that
    /// does not wait is an error, and leaves the ledger as it was.
    pub fn take(&mut self, transaction_id: u32) -> (result: Result<
        OutstandingTransaction,
        UnknownTransactionError,
    >)
        ensures
            result == spec_take(old(self)@, transaction_id),
            final(self)@ == old(self)@.remove(transaction_id),
    {
        match self.pending.remove(&transaction_id) {
            Some(entry) => Ok(entry),
            None => {
                assert(self.pending@ =~= old(self).pending@.remove(transaction_id));
                Err(UnknownTransactionError { transaction_id })
            },
        }
    }

    /// Whether `transaction_id` waits for its reply.
    pub fn is_pending(&self, transaction_id: u32) -> (waits: bool)
        ensures
            waits == self@.contains_key(transaction_id),
    {
        self.pending.contains_key(&transaction_id)
    }

    /// The number of transactions that wait.
    pub fn len(&self) -> (count: usize)
        ensures
            count == self@.len(),
    {
        self.pending.len()
    }
}

/// A registered entry is what the next take under its id gives, whatever
/// waited before; after that the id waits no more, so a second take fails.
pub proof fn lemma_register_then_take(
    pending: Map<u32, OutstandingTransaction>,
    transaction_id: u32,
    entry: OutstandingTransaction,
)
    ensures
        spec_take(pending.insert(transaction_id, entry), transaction_id) == Ok::<
            OutstandingTransaction,
            UnknownTransactionError,
        >(entry),
        spec_take(pending.insert(transaction_id, entry).remove(transaction_id), transaction_id)
            == Err::<OutstandingTransaction, UnknownTransactionError>(
            UnknownTransactionError { transaction_id },
        ),
{
}

/// Registering and taking under one id leaves what waits under the other
/// ids as it was.
pub proof fn lemma_take_leaves_others(
    pending: Map<u32, OutstandingTransaction>,
    transaction_id: u32,
    entry: OutstandingTransaction,
    other: u32,
)
    requires
        other != transaction_id,
    ensures
        spec_take(pending.insert(transaction_id, entry).remove(transaction_id), other)
            == spec_take(pending, other),
{
}

} // verus!
