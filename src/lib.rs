//! A ledger that replays deposits, withdrawals and the dispute lifecycle
//! (dispute, resolve, chargeback) against per-client accounts, keeping
//! `available + held == total` for every account.
pub mod account;
pub mod csv;
pub mod currency;
pub mod error;
pub mod laws;
pub mod ledger;
pub mod transactor;
pub mod types;

pub use account::Account;
pub use csv::{find, Column, CsvReader, Header, LineBuffer};
pub use currency::Currency;
pub use error::{AppError, TransactionError};
pub use ledger::{IgnoredLedger, TransactionLedger};
pub use transactor::Transactor;
pub use types::{ClientId, IgnoredTransaction, Transaction, TransactionId, TransactionType};
