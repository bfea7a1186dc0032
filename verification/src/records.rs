//! The record shapes exchanged with the delimited-text adapters, and
//! their verified conversions: a raw input record becomes an engine
//! event (or a precise error), and an account becomes an output record
//! of rendered decimal strings.

use vstd::prelude::*;
use vstd::string::StrSliceExecFns;

use crate::amount::Amount;
use crate::bank::{Account, Transaction};
use crate::decimal_text::{decimal_chars, parse_amount, parse_amount_spec};

verus! {

/// One raw input row: an event tag, the two ids, and the amount as
/// written, if any.
#[derive(Clone, Debug)]
pub struct TransactionRecord {
    pub trans_type: String,
    pub client: u16,
    pub tx: u32,
    pub amount: Option<String>,
}

/// Why a raw record is not an event.
#[derive(Clone, Copy, Debug, PartialEq, Eq, Structural)]
pub enum RecordError {
    InvalidTransactionType,
    InvalidAmount,
    MissingAmount,
}

/// What a raw record means: the event it denotes, or the exact error.
pub open spec fn record_spec(rec: TransactionRecord) -> Result<Transaction, RecordError> {
    let t = rec.trans_type@;
    if t == "deposit"@ {
        match rec.amount {
            Some(s) => match parse_amount_spec(s@) {
                Some(a) => Ok(
                    Transaction::Deposit { client: rec.client, tx: rec.tx, amount: a, disputed: false },
                ),
                None => Err(RecordError::InvalidAmount),
            },
            None => Err(RecordError::MissingAmount),
        }
    } else if t == "withdrawal"@ {
        match rec.amount {
            Some(s) => match parse_amount_spec(s@) {
                Some(a) => Ok(
                    Transaction::Withdrawal { client: rec.client, tx: rec.tx, amount: a, disputed: false },
                ),
                None => Err(RecordError::InvalidAmount),
            },
            None => Err(RecordError::MissingAmount),
        }
    } else if t == "dispute"@ {
        Ok(Transaction::Dispute { client: rec.client, referenced_tx: rec.tx })
    } else if t == "resolve"@ {
        Ok(Transaction::Resolve { client: rec.client, referenced_tx: rec.tx })
    } else if t == "chargeback"@ {
        Ok(Transaction::ChargeBack { client: rec.client, referenced_tx: rec.tx })
    } else {
        Err(RecordError::InvalidTransactionType)
    }
}

fn str_eq(a: &str, b: &str) -> (r: bool)
    ensures
        r == (a@ == b@),
{
    let la = a.unicode_len();
    let lb = b.unicode_len();
    if la != lb {
        return false;
    }
    let mut i: usize = 0;
    while i < la
        invariant
            la == a@.len(),
            la == b@.len(),
            i <= la,
            forall|j: int| 0 <= j < i ==> a@[j] == b@[j],
        decreases la - i,
    {
        let ca = a.get_char(i);
        let cb = b.get_char(i);
        if ca != cb {
            return false;
        }
        i = i + 1;
    }
    proof {
        assert(a@ =~= b@);
    }
    true
}

impl Transaction {
    /// Reads a raw record as an event: the tag picks the variant, and a
    /// deposit or withdrawal must carry a well-formed amount.
    pub fn from_record(rec: TransactionRecord) -> (r: Result<Transaction, RecordError>)
        ensures
            r == record_spec(rec),
            r is Ok ==> r->Ok_0.valid(),
    {
        if str_eq(rec.trans_type.as_str(), "deposit") {
            match rec.amount {
                Some(s) => match parse_amount(s.as_str()) {
                    Some(a) => Ok(
                        Transaction::Deposit {
                            client: rec.client,
                            tx: rec.tx,
                            amount: a,
                            disputed: false,
                        },
                    ),
                    None => Err(RecordError::InvalidAmount),
                },
                None => Err(RecordError::MissingAmount),
            }
        } else if str_eq(rec.trans_type.as_str(), "withdrawal") {
            match rec.amount {
                Some(s) => match parse_amount(s.as_str()) {
                    Some(a) => Ok(
                        Transaction::Withdrawal {
                            client: rec.client,
                            tx: rec.tx,
                            amount: a,
                            disputed: false,
                        },
                    ),
                    None => Err(RecordError::InvalidAmount),
                },
                None => Err(RecordError::MissingAmount),
            }
        } else if str_eq(rec.trans_type.as_str(), "dispute") {
            Ok(Transaction::Dispute { client: rec.client, referenced_tx: rec.tx })
        } else if str_eq(rec.trans_type.as_str(), "resolve") {
            Ok(Transaction::Resolve { client: rec.client, referenced_tx: rec.tx })
        } else if str_eq(rec.trans_type.as_str(), "chargeback") {
            Ok(Transaction::ChargeBack { client: rec.client, referenced_tx: rec.tx })
        } else {
            Err(RecordError::InvalidTransactionType)
        }
    }
}

/// One output row: the client and its balances rendered as exact decimal
/// strings, with `total = available + held`.
#[derive(Clone, Debug)]
pub struct AccountRecord {
    pub client: u16,
    pub available: String,
    pub held: String,
    pub total: String,
    pub locked: bool,
}

impl AccountRecord {
    /// Renders an account for output.  `None` only when the total is not
    /// representable at the joined scale of the two balances.
    pub fn from_account(account: &Account) -> (r: Option<AccountRecord>)
        requires
            account.valid(),
        ensures
            match r {
                Some(rec) => {
                    &&& Amount::spec_add(account.available, account.held) is Some
                    &&& rec.client == account.client
                    &&& rec.available@ == decimal_chars(account.available)
                    &&& rec.held@ == decimal_chars(account.held)
                    &&& rec.total@ == decimal_chars(
                        Amount::spec_add(account.available, account.held)->Some_0,
                    )
                    &&& rec.locked == account.locked
                },
                None => Amount::spec_add(account.available, account.held) is None,
            },
    {
        match account.total() {
            Some(t) => Some(
                AccountRecord {
                    client: account.client,
                    available: account.available.to_decimal_string(),
                    held: account.held.to_decimal_string(),
                    total: t.to_decimal_string(),
                    locked: account.locked,
                },
            ),
            None => None,
        }
    }
}

} // verus!
