//! The errors that stop a run.

use vstd::prelude::*;

verus! {

/// Why a transaction record was rejected. Each of these stops a run.
#[derive(Debug, Clone, Copy, PartialEq, Eq, Structural)]
pub enum ProcessError {
    /// A deposit or withdrawal without an amount, or a field that is not a
    /// number of the expected type.
    MalformedTransaction,
    /// The kind tag names none of the five transaction kinds.
    UnknownTransactionKind,
    /// A balance would leave the range of the fixed-point representation.
    BalanceOutOfRange,
}

impl ProcessError {
    /// The text of `message`.
    pub open spec fn message_text(self) -> Seq<char> {
        match self {
            ProcessError::MalformedTransaction => "Malformed transaction"@,
            ProcessError::UnknownTransactionKind => "Invalid transaction type"@,
            ProcessError::BalanceOutOfRange => "Balance out of range"@,
        }
    }

    /// A short description for the user.
    pub fn message(&self) -> (text: &'static str)
        ensures
            text@ == self.message_text(),
    {
        match self {
            ProcessError::MalformedTransaction => "Malformed transaction",
            ProcessError::UnknownTransactionKind => "Invalid transaction type",
            ProcessError::BalanceOutOfRange => "Balance out of range",
        }
    }
}

} // verus!
