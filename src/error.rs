//! The errors of the ledger: rejected transactions, and failures of a run.
use crate::types::{ClientId, TransactionId};
use vstd::prelude::*;

verus! {

/// Why a single transaction was rejected. A rejection never stops a run.
#[derive(Clone, Copy, Debug, PartialEq, Eq)]
pub enum TransactionError {
    AccountBalanceInvariantViolated { cid: ClientId },
    AccountHasInsufficientFundsAvailable { cid: ClientId },
    AccountIsLocked { cid: ClientId },
    /// A deposit or withdrawal without an amount.
    MalformedInputData,
    /// There is no processed transaction with the given `TransactionId` for the
    /// client account with the given `ClientId`.
    NoSuchProcessedTransactionForClient { tid: TransactionId, cid: ClientId },
    /// There is no disputed transaction with the given `TransactionId` for the
    /// client account with the given `ClientId`.
    NoSuchDisputedTransactionForClient { tid: TransactionId, cid: ClientId },
    /// There is no resolved transaction with the given `TransactionId` for the
    /// client account with the given `ClientId`.
    NoSuchResolvedTransactionForClient { tid: TransactionId, cid: ClientId },
    /// A balance would leave the range that an amount can hold.
    AmountOutOfRange { cid: ClientId },
}

/// A failure that ends a run: the input cannot be read as transactions.
#[derive(Clone, Debug, PartialEq, Eq)]
pub enum AppError {
    FailedToParseDecimal { decimal: String },
    NoFileNameCliArgFound,
    TransactionError(TransactionError),
    /// An amount field of the input is not valid UTF-8.
    InvalidUtf8 { line: usize },
    /// The header names a column that is not `type`, `client`, `tx` or `amount`.
    UnknownHeader { line: usize },
    /// The header names one column twice.
    DuplicateHeader { line: usize },
    /// The `type` field is not one of the five transaction types.
    UnknownTransactionType { line: usize },
    /// The `client` or `tx` field is not a number in range.
    InvalidNumber { line: usize },
    /// A row lacks its `type`, `client` or `tx` field.
    MissingField { line: usize },
}

impl From<TransactionError> for AppError {
    fn from(e: TransactionError) -> (r: AppError) {
        AppError::TransactionError(e)
    }
}

impl vstd::std_specs::convert::FromSpecImpl<TransactionError> for AppError {
    open spec fn obeys_from_spec() -> bool {
        true
    }

    open spec fn from_spec(e: TransactionError) -> AppError {
        AppError::TransactionError(e)
    }
}

} // verus!
