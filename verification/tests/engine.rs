use ledger_engine::amount::SCALE;
use ledger_engine::engine::process_transactions;
use ledger_engine::error::ProcessError;
use ledger_engine::transaction::Transaction;

fn record(kind: &str, client_id: u16, id: u32, amount: Option<&str>) -> Transaction {
    Transaction::new(id, kind.to_string(), amount, client_id).unwrap()
}

#[test]
fn no_record_leaves_an_empty_ledger() {
    let ledger = process_transactions(Vec::new()).unwrap();
    assert!(ledger.accounts().is_empty());
}

#[test]
fn records_are_applied_in_order() {
    let ledger = process_transactions(vec![
        record("deposit", 1, 1, Some("1.0")),
        record("deposit", 2, 2, Some("2.0")),
        record("deposit", 1, 3, Some("2.0")),
        record("withdrawal", 1, 4, Some("1.5")),
        record("withdrawal", 2, 5, Some("3.0")),
    ])
    .unwrap();

    assert_eq!(ledger.accounts().len(), 2);
    let first = ledger.account(1).unwrap();
    assert_eq!(first.available_funds, 15_000);
    assert_eq!(first.held_funds, 0);
    assert_eq!(first.total_funds, 15_000);
    assert_eq!(first.locked, false);
    let second = ledger.account(2).unwrap();
    assert_eq!(second.available_funds, 2 * SCALE);
    assert_eq!(second.held_funds, 0);
    assert_eq!(second.total_funds, 2 * SCALE);
    assert_eq!(second.locked, false);
}

#[test]
fn the_order_of_the_records_matters() {
    let early = process_transactions(vec![
        record("dispute", 1, 1, None),
        record("deposit", 1, 1, Some("5.0")),
    ])
    .unwrap();
    assert_eq!(early.account(1).unwrap().available_funds, 5 * SCALE);
    assert_eq!(early.account(1).unwrap().held_funds, 0);

    let late = process_transactions(vec![
        record("deposit", 1, 1, Some("5.0")),
        record("dispute", 1, 1, None),
    ])
    .unwrap();
    assert_eq!(late.account(1).unwrap().available_funds, 0);
    assert_eq!(late.account(1).unwrap().held_funds, 5 * SCALE);
}

#[test]
fn without_disputes_nothing_is_held() {
    let ledger = process_transactions(vec![
        record("deposit", 1, 1, Some("10")),
        record("withdrawal", 1, 2, Some("2.5")),
        record("withdrawal", 2, 3, Some("1")),
        record("deposit", 3, 4, Some("0.0001")),
        record("withdrawal", 1, 5, Some("100")),
        record("deposit", 2, 6, Some("7.77777")),
        record("withdrawal", 2, 7, Some("7.7778")),
    ])
    .unwrap();

    assert_eq!(ledger.accounts().len(), 3);
    for client in ledger.accounts().values() {
        assert_eq!(client.held_funds, 0);
        assert_eq!(client.total_funds, client.available_funds);
        assert_eq!(client.locked, false);
    }
    assert_eq!(ledger.account(1).unwrap().available_funds, 75_000);
    assert_eq!(ledger.account(2).unwrap().available_funds, 0);
    assert_eq!(ledger.account(3).unwrap().available_funds, 1);
}

#[test]
fn a_deposit_is_applied_as_rounded() {
    let ledger = process_transactions(vec![
        record("deposit", 1, 1, Some("1.00005")),
        record("deposit", 2, 2, Some("1.00004")),
        record("dispute", 1, 1, None),
    ])
    .unwrap();

    assert_eq!(ledger.account(1).unwrap().held_funds, 10_001);
    assert_eq!(ledger.account(1).unwrap().total_funds, 10_001);
    assert_eq!(ledger.account(2).unwrap().total_funds, 10_000);
    assert_eq!(ledger.lookup(1).unwrap().amount, Some(10_001));
}

#[test]
fn the_first_rejected_record_ends_the_run() {
    let result = process_transactions(vec![
        record("deposit", 1, 1, Some("1.0")),
        record("transfer", 1, 2, Some("1.0")),
        record("deposit", 1, 3, None),
    ]);
    assert_eq!(result.err(), Some(ProcessError::UnknownTransactionKind));

    let result = process_transactions(vec![
        record("deposit", 1, 1, Some("1.0")),
        record("deposit", 1, 3, None),
        record("transfer", 1, 2, Some("1.0")),
    ]);
    assert_eq!(result.err(), Some(ProcessError::MalformedTransaction));

    let result = process_transactions(vec![
        record("deposit", 1, 1, Some("922337203685477.5807")),
        record("deposit", 1, 2, Some("0.0001")),
        record("transfer", 1, 3, None),
    ]);
    assert_eq!(result.err(), Some(ProcessError::BalanceOutOfRange));
}

#[test]
fn a_chargeback_locks_for_the_rest_of_the_run() {
    let ledger = process_transactions(vec![
        record("deposit", 1, 1, Some("5.0")),
        record("deposit", 2, 2, Some("5.0")),
        record("dispute", 1, 1, None),
        record("chargeback", 1, 1, None),
        record("deposit", 1, 3, Some("1.0")),
        record("resolve", 1, 3, None),
    ])
    .unwrap();

    assert_eq!(ledger.account(1).unwrap().locked, true);
    assert_eq!(ledger.account(1).unwrap().total_funds, SCALE);
    assert_eq!(ledger.account(2).unwrap().locked, false);
}

#[test]
fn a_written_amount_must_be_a_decimal_number() {
    let tx = Transaction::new(1, "deposit".to_string(), Some("1.5"), 2).unwrap();
    assert_eq!(tx.id, 1);
    assert_eq!(tx.kind, "deposit");
    assert_eq!(tx.amount, Some(15_000));
    assert_eq!(tx.client_id, 2);

    let tx = Transaction::new(1, "dispute".to_string(), None, 2).unwrap();
    assert_eq!(tx.amount, None);

    assert_eq!(
        Transaction::new(1, "deposit".to_string(), Some("one"), 2).err(),
        Some(ProcessError::MalformedTransaction)
    );
    assert_eq!(
        Transaction::new(1, "dispute".to_string(), Some(""), 2).err(),
        Some(ProcessError::MalformedTransaction)
    );
}

#[test]
fn every_error_has_its_message() {
    assert_eq!(ProcessError::MalformedTransaction.message(), "Malformed transaction");
    assert_eq!(ProcessError::UnknownTransactionKind.message(), "Invalid transaction type");
    assert_eq!(ProcessError::BalanceOutOfRange.message(), "Balance out of range");
}
