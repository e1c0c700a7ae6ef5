use std::str::FromStr;

use ledger_engine::error::ProcessError;
use ledger_engine::transaction::TransactionType;

#[test]
fn kind_tags_are_read_in_any_case() {
    assert_eq!(TransactionType::from_str("deposit"), Ok(TransactionType::Deposit));
    assert_eq!(TransactionType::from_str("WITHDRAWAL"), Ok(TransactionType::Withdrawal));
    assert_eq!(TransactionType::from_str("Dispute"), Ok(TransactionType::Dispute));
    assert_eq!(TransactionType::from_str("reSolve"), Ok(TransactionType::Resolve));
    assert_eq!(TransactionType::from_str("ChargeBack"), Ok(TransactionType::Chargeback));
}

#[test]
fn unknown_kind_tag_is_an_error() {
    assert_eq!(
        TransactionType::from_str("refund"),
        Err(ProcessError::UnknownTransactionKind)
    );
    assert_eq!(TransactionType::from_str(""), Err(ProcessError::UnknownTransactionKind));
    assert_eq!(
        TransactionType::from_str("deposit "),
        Err(ProcessError::UnknownTransactionKind)
    );
}

#[test]
fn lowercase_tags_are_exact() {
    assert_eq!(TransactionType::from_lowercase("deposit"), Some(TransactionType::Deposit));
    assert_eq!(TransactionType::from_lowercase("Deposit"), None);
    assert_eq!(TransactionType::from_lowercase("chargeback"), Some(TransactionType::Chargeback));
    assert_eq!(TransactionType::from_lowercase("chargebacks"), None);
}

#[test]
fn a_kind_can_be_parsed_from_text() {
    assert_eq!("Withdrawal".parse::<TransactionType>(), Ok(TransactionType::Withdrawal));
    assert_eq!("withdraw".parse::<TransactionType>(), Err(ProcessError::UnknownTransactionKind));
}

#[test]
fn letter_case_is_that_of_unicode() {
    assert_eq!(
        TransactionType::from_str("CHARGEBAC\u{212A}"),
        Ok(TransactionType::Chargeback)
    );
    assert_eq!(
        TransactionType::from_lowercase("chargebac\u{212A}"),
        None
    );
    assert_eq!(
        TransactionType::from_str("d\u{0395}posit"),
        Err(ProcessError::UnknownTransactionKind)
    );
}
