use trx_processor::store::Store;
use trx_processor::transactions::{format_amount, TransactionsEngine};
use trx_processor::types::CsvItem;

#[test]
fn test_deposit_and_withdrawal() {
    let mut engine = TransactionsEngine::new(Store::memory());
    let items = vec![
        CsvItem::Deposit(1, 1, 10000),   // deposit 1.0000
        CsvItem::Withdrawal(1, 2, 4000), // withdraw 0.4000
    ];
    engine.process(items);

    let lines: Vec<String> = engine.as_csv();
    assert_eq!(lines[0], "client,available,held,total,locked");
    assert_eq!(lines[1], "1,0.6000,0.0000,0.6000,false");
}

#[test]
fn test_dispute_and_resolve() {
    let mut engine = TransactionsEngine::new(Store::memory());
    let items = vec![CsvItem::Deposit(1, 1, 10000), CsvItem::Dispute(1, 1)];
    engine.process(items);

    let lines: Vec<String> = engine.as_csv();
    assert_eq!(lines[1], "1,0.0000,1.0000,1.0000,false");

    let resolve_items = vec![CsvItem::Resolve(1, 1)];
    engine.process(resolve_items);

    let lines: Vec<String> = engine.as_csv();
    assert_eq!(lines[1], "1,1.0000,0.0000,1.0000,false");
}

#[test]
fn test_dispute_and_chargeback() {
    let mut engine = TransactionsEngine::new(Store::memory());
    let items = vec![
        CsvItem::Deposit(1, 1, 20000),
        CsvItem::Dispute(1, 1),
        CsvItem::ChargerBack(1, 1),
    ];
    engine.process(items);

    let lines: Vec<String> = engine.as_csv();
    assert_eq!(lines[1], "1,0.0000,0.0000,0.0000,true");

    // Subsequent deposit should be ignored because locked is true
    engine.process(vec![CsvItem::Deposit(1, 2, 50000)]);
    let lines: Vec<String> = engine.as_csv();
    assert_eq!(lines[1], "1,0.0000,0.0000,0.0000,true");
}

#[test]
fn format_amount_writes_four_decimals() {
    assert_eq!(format_amount(0), "0.0000");
    assert_eq!(format_amount(12345), "1.2345");
    assert_eq!(format_amount(7), "0.0007");
    assert_eq!(format_amount(10_000_000), "1000.0000");
    assert_eq!(format_amount(u64::MAX), "1844674407370955.1615");
}

#[test]
fn report_lists_clients_in_order_once() {
    let mut engine = TransactionsEngine::new(Store::memory());
    engine.process(vec![
        CsvItem::Deposit(7, 1, 5),
        CsvItem::Deposit(2, 2, 10000),
        CsvItem::Deposit(7, 3, 5),
        CsvItem::Withdrawal(300, 4, 1),
    ]);
    let lines = engine.as_csv();
    assert_eq!(
        lines,
        vec![
            "client,available,held,total,locked".to_string(),
            "2,1.0000,0.0000,1.0000,false".to_string(),
            "7,0.0010,0.0000,0.0010,false".to_string(),
        ]
    );
}

#[test]
fn empty_engine_reports_header_only() {
    let engine = TransactionsEngine::new(Store::memory());
    assert_eq!(engine.as_csv(), vec!["client,available,held,total,locked".to_string()]);
}

#[test]
fn duplicate_deposit_is_ignored() {
    let mut engine = TransactionsEngine::new(Store::memory());
    engine.process(vec![CsvItem::Deposit(1, 1, 10000), CsvItem::Deposit(1, 1, 30000)]);
    assert_eq!(engine.as_csv()[1], "1,1.0000,0.0000,1.0000,false");
}

#[test]
fn withdrawal_beyond_available_is_refused() {
    let mut engine = TransactionsEngine::new(Store::memory());
    engine.process(vec![CsvItem::Deposit(3, 1, 10000), CsvItem::Withdrawal(3, 2, 10001)]);
    assert_eq!(engine.as_csv()[1], "3,1.0000,0.0000,1.0000,false");
}

#[test]
fn dispute_of_unknown_or_foreign_transaction_is_ignored() {
    let mut engine = TransactionsEngine::new(Store::memory());
    engine.process(vec![
        CsvItem::Deposit(1, 1, 10000),
        CsvItem::Dispute(1, 9),
        CsvItem::Dispute(2, 1),
        CsvItem::Resolve(1, 1),
        CsvItem::ChargerBack(1, 1),
    ]);
    let lines = engine.as_csv();
    assert_eq!(lines[1], "1,1.0000,0.0000,1.0000,false");
    assert_eq!(lines.len(), 2);
}

#[test]
fn dispute_after_withdrawal_saturates_available() {
    let mut engine = TransactionsEngine::new(Store::memory());
    engine.process(vec![
        CsvItem::Deposit(1, 1, 100000),
        CsvItem::Withdrawal(1, 2, 60000),
        CsvItem::Dispute(1, 1),
    ]);
    assert_eq!(engine.as_csv()[1], "1,0.0000,10.0000,4.0000,false");
}

#[test]
fn locked_account_refuses_every_item() {
    let mut engine = TransactionsEngine::new(Store::memory());
    engine.process(vec![
        CsvItem::Deposit(1, 1, 20000),
        CsvItem::Deposit(1, 2, 30000),
        CsvItem::Dispute(1, 1),
        CsvItem::ChargerBack(1, 1),
        CsvItem::Withdrawal(1, 3, 10000),
        CsvItem::Dispute(1, 2),
        CsvItem::Deposit(1, 4, 10000),
    ]);
    assert_eq!(engine.as_csv()[1], "1,3.0000,0.0000,3.0000,true");
}

#[test]
fn try_process_stops_before_overflow() {
    let mut engine = TransactionsEngine::new(Store::memory());
    let r = engine.try_process(vec![
        CsvItem::Deposit(1, 1, u64::MAX - 1),
        CsvItem::Deposit(2, 1, 5),
        CsvItem::Deposit(1, 2, 2),
        CsvItem::Deposit(3, 1, 5),
    ]);
    assert_eq!(r, Err(2));
    let lines = engine.as_csv();
    assert_eq!(lines.len(), 3);
    assert_eq!(lines[2], "2,0.0005,0.0000,0.0005,false");
}

#[test]
fn try_process_applies_a_safe_feed() {
    let mut engine = TransactionsEngine::new(Store::memory());
    assert_eq!(engine.try_process(vec![CsvItem::Deposit(5, 1, 15000)]), Ok(()));
    assert_eq!(engine.as_csv()[1], "5,1.5000,0.0000,1.5000,false");
}

#[test]
fn apply_reports_overflow_and_keeps_state() {
    let mut engine = TransactionsEngine::new(Store::memory());
    assert!(engine.apply(&CsvItem::Deposit(1, 1, u64::MAX)));
    assert!(!engine.apply(&CsvItem::Deposit(1, 2, 1)));
    assert_eq!(engine.as_csv()[1], "1,1844674407370955.1615,0.0000,1844674407370955.1615,false");
}

#[test]
fn held_is_the_sum_of_open_disputes() {
    let mut engine = TransactionsEngine::new(Store::memory());
    engine.process(vec![
        CsvItem::Deposit(4, 1, 10000),
        CsvItem::Deposit(4, 2, 20000),
        CsvItem::Deposit(4, 3, 40000),
        CsvItem::Dispute(4, 1),
        CsvItem::Dispute(4, 3),
    ]);
    assert_eq!(engine.as_csv()[1], "4,2.0000,5.0000,7.0000,false");
    engine.process(vec![CsvItem::Resolve(4, 1)]);
    assert_eq!(engine.as_csv()[1], "4,3.0000,4.0000,7.0000,false");
    engine.process(vec![CsvItem::Dispute(4, 2), CsvItem::ChargerBack(4, 3)]);
    assert_eq!(engine.as_csv()[1], "4,1.0000,2.0000,3.0000,true");
}

#[test]
fn locked_account_keeps_its_disputes() {
    let mut engine = TransactionsEngine::new(Store::memory());
    engine.process(vec![
        CsvItem::Deposit(6, 1, 10000),
        CsvItem::Deposit(6, 2, 30000),
        CsvItem::Dispute(6, 1),
        CsvItem::Dispute(6, 2),
        CsvItem::ChargerBack(6, 1),
    ]);
    assert_eq!(engine.as_csv()[1], "6,0.0000,3.0000,3.0000,true");
    engine.process(vec![CsvItem::Resolve(6, 2), CsvItem::ChargerBack(6, 2)]);
    assert_eq!(engine.as_csv()[1], "6,0.0000,3.0000,3.0000,true");
}

#[test]
fn dispute_then_resolve_leaves_the_report_unchanged() {
    let mut engine = TransactionsEngine::new(Store::memory());
    engine.process(vec![
        CsvItem::Deposit(3, 1, 50000),
        CsvItem::Deposit(3, 4, 20000),
        CsvItem::Deposit(5, 2, 20000),
        CsvItem::Withdrawal(3, 3, 10000),
    ]);
    let before: Vec<String> = engine.as_csv();
    engine.process(vec![CsvItem::Dispute(3, 4)]);
    assert_ne!(engine.as_csv(), before);
    engine.process(vec![CsvItem::Resolve(3, 4)]);
    assert_eq!(engine.as_csv(), before);
    engine.process(vec![CsvItem::Dispute(3, 4), CsvItem::Resolve(3, 4)]);
    assert_eq!(engine.as_csv(), before);
}

#[test]
fn dispute_beyond_available_is_not_undone_by_resolve() {
    let mut engine = TransactionsEngine::new(Store::memory());
    engine.process(vec![CsvItem::Deposit(3, 1, 50000), CsvItem::Withdrawal(3, 3, 10000)]);
    engine.process(vec![CsvItem::Dispute(3, 1), CsvItem::Resolve(3, 1)]);
    assert_eq!(engine.as_csv()[1], "3,5.0000,0.0000,4.0000,false");
}
