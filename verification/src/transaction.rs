//! Transaction records and their kinds.

use std::str::FromStr;
use vstd::prelude::*;
use crate::amount::{amount_of_text, parse_amount};
use crate::error::ProcessError;
use crate::text::{lowercase, same_text, to_lowercase};

verus! {

/// One ledger event as it arrives.
///
/// An amount is present on deposits and withdrawals. Disputes, resolves and
/// chargebacks need none: they take the amount of the transaction that
/// `id` refers to.
pub struct Transaction {
    /// The id of a deposit or withdrawal; on the other kinds, the id of
    /// the deposit or withdrawal that is meant.
    pub id: u32,
    /// The tag of the kind, in any letter case.
    pub kind: String,
    /// The amount, in ten-thousandths of a unit.
    pub amount: Option<i64>,
    /// The id of the client whose account the transaction changes.
    pub client_id: u16,
}

impl Transaction {
    /// A transaction from the fields of a record, the amount still written
    /// out in decimal notation. Fails where an amount is written and is
    /// malformed.
    pub fn new(id: u32, kind: String, amount: Option<&str>, client_id: u16) -> (tx: Result<
        Transaction,
        ProcessError,
    >)
        ensures
            match amount {
                Some(text) => match amount_of_text(text@) {
                    Some(value) => tx == Ok::<Transaction, ProcessError>(
                        Transaction { id, kind, amount: Some(value), client_id },
                    ),
                    None => tx == Err::<Transaction, ProcessError>(
                        ProcessError::MalformedTransaction,
                    ),
                },
                None => tx == Ok::<Transaction, ProcessError>(
                    Transaction { id, kind, amount: None, client_id },
                ),
            },
    {
        let amount = match amount {
            Some(text) => match parse_amount(text) {
                Ok(value) => Some(value),
                Err(e) => {
                    return Err(e);
                },
            },
            None => None,
        };
        Ok(Transaction { id, kind, amount, client_id })
    }
}

/// The five kinds of ledger event.
#[derive(Debug, Clone, Copy, PartialEq, Eq, Structural)]
pub enum TransactionType {
    Deposit,
    Withdrawal,
    Dispute,
    Resolve,
    Chargeback,
}

impl TransactionType {
    /// The kind that a lowercase tag names, if it names one.
    pub open spec fn of_tag(tag: Seq<char>) -> Option<TransactionType> {
        if tag == "deposit"@ {
            Some(TransactionType::Deposit)
        } else if tag == "withdrawal"@ {
            Some(TransactionType::Withdrawal)
        } else if tag == "dispute"@ {
            Some(TransactionType::Dispute)
        } else if tag == "resolve"@ {
            Some(TransactionType::Resolve)
        } else if tag == "chargeback"@ {
            Some(TransactionType::Chargeback)
        } else {
            None
        }
    }

    /// The kind that a tag names in any letter case.
    pub open spec fn parse(tag: Seq<char>) -> Option<TransactionType> {
        Self::of_tag(lowercase(tag))
    }

    /// Reads a tag that is already in lower case.
    pub fn from_lowercase(tag: &str) -> (kind: Option<TransactionType>)
        ensures
            kind == Self::of_tag(tag@),
    {
        if same_text(tag, "deposit") {
            Some(TransactionType::Deposit)
        } else if same_text(tag, "withdrawal") {
            Some(TransactionType::Withdrawal)
        } else if same_text(tag, "dispute") {
            Some(TransactionType::Dispute)
        } else if same_text(tag, "resolve") {
            Some(TransactionType::Resolve)
        } else if same_text(tag, "chargeback") {
            Some(TransactionType::Chargeback)
        } else {
            None
        }
    }
}

impl FromStr for TransactionType {
    type Err = ProcessError;

    /// Reads a kind tag without regard to letter case.
    fn from_str(s: &str) -> (kind: Result<TransactionType, ProcessError>)
        ensures
            kind == match TransactionType::parse(s@) {
                Some(k) => Ok::<TransactionType, ProcessError>(k),
                None => Err(ProcessError::UnknownTransactionKind),
            },
    {
        let lowered = to_lowercase(s);
        match TransactionType::from_lowercase(lowered.as_str()) {
            Some(k) => Ok(k),
            None => Err(ProcessError::UnknownTransactionKind),
        }
    }
}

} // verus!
