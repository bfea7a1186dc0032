//! A small ledger engine: it consumes a stream of deposit, withdrawal,
//! dispute, resolve and chargeback events, keyed by client and transaction
//! id, and maintains per-client balances in exact decimal arithmetic.

use vstd::prelude::*;

mod amount;
mod bank;
mod decimal_text;
pub mod laws;
mod records;

pub use amount::Amount;
pub use bank::{
    deposit_record, ledger_wf, step, step_chargeback, step_clients, step_deposit, step_dispute,
    step_resolve, step_withdrawal, tx_record_wf, withdrawal_record, Account, Bank, LedgerMap,
    Transaction,
};
pub use decimal_text::{decimal_chars, parse_amount, parse_amount_spec, plain_decimal};
pub use records::{record_spec, AccountRecord, RecordError, TransactionRecord};
