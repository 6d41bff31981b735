//! The records that the ledger consumes.
use crate::currency::Currency;
use crate::error::TransactionError;
use vstd::prelude::*;

verus! {

/// The identifier of a client account.
#[derive(Clone, Copy, Debug, PartialEq, Eq, PartialOrd, Ord, Hash)]
pub struct ClientId(pub u16);

/// The identifier of a transaction, unique over the whole input.
#[derive(Clone, Copy, Debug, PartialEq, Eq, PartialOrd, Ord, Hash)]
pub struct TransactionId(pub u32);

#[derive(Clone, Copy, Debug, PartialEq, Eq)]
pub enum TransactionType {
    Deposit,
    Withdrawal,
    Dispute,
    Resolve,
    Chargeback,
}

/// One input record. `amount` is present on deposits and withdrawals.
#[derive(Clone, Copy, Debug, PartialEq)]
pub struct Transaction {
    pub ttype: TransactionType,
    pub cid: ClientId,
    pub tid: TransactionId,
    pub amount: Option<Currency>,
}

/// A rejected transaction, kept with the reason it was rejected.
#[derive(Clone, Copy, Debug, PartialEq)]
pub struct IgnoredTransaction {
    pub transaction: Transaction,
    pub reason: TransactionError,
}

} // verus!
