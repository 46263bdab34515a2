use trx_processor::types::{Amount, LockStatus, TransactionRecord, TxStatus};

#[test]
fn test_transaction_record_bytes_roundtrip() {
    let record = TransactionRecord {
        client_id: 42,
        tx_id: 1001,
        amount: 50000,
        status: TxStatus::Disputed,
    };

    let bytes = record.to_bytes();
    let parsed = TransactionRecord::try_from(&bytes[..]).unwrap();
    assert_eq!(record, parsed);
}

#[test]
fn test_amount_bytes_roundtrip() {
    let amount = Amount(123456789);
    let bytes: Vec<u8> = amount.to_bytes();
    let parsed = Amount::try_from(&bytes[..]).unwrap();
    assert_eq!(amount, parsed);
}

#[test]
fn test_lock_status_bytes_roundtrip() {
    let lock = LockStatus(true);
    let bytes: Vec<u8> = lock.to_bytes();
    let parsed = LockStatus::try_from(&bytes[..]).unwrap();
    assert_eq!(lock, parsed);
}

#[test]
fn record_bytes_are_big_endian() {
    let record = TransactionRecord {
        client_id: 0x0102,
        tx_id: 0x03040506,
        amount: 0x0708090a0b0c0d0e,
        status: TxStatus::ChargedBack,
    };
    assert_eq!(
        record.to_bytes(),
        [1, 2, 3, 4, 5, 6, 7, 8, 9, 10, 11, 12, 13, 14, 2]
    );
}

#[test]
fn record_rejects_short_input_and_unknown_status() {
    let bytes = [0u8; 14];
    assert!(TransactionRecord::try_from(&bytes[..]).is_err());
    let mut bytes = [0u8; 15];
    bytes[14] = 3;
    assert!(TransactionRecord::try_from(&bytes[..]).is_err());
    bytes[14] = 0;
    let parsed = TransactionRecord::try_from(&bytes[..]).unwrap();
    assert_eq!(parsed.status, TxStatus::Normal);
}

#[test]
fn amount_reads_first_eight_bytes() {
    let bytes = [0u8, 0, 0, 0, 0, 0, 1, 2, 99];
    assert_eq!(Amount::try_from(&bytes[..]).unwrap(), Amount(258));
    assert!(Amount::try_from(&bytes[..7]).is_err());
    assert_eq!(Amount(258).to_bytes(), vec![0, 0, 0, 0, 0, 0, 1, 2]);
}

#[test]
fn lock_status_reads_any_nonzero_byte_as_locked() {
    assert_eq!(LockStatus::try_from(&[7u8][..]).unwrap(), LockStatus(true));
    assert_eq!(LockStatus::try_from(&[0u8, 1][..]).unwrap(), LockStatus(false));
    assert!(LockStatus::try_from(&[][..]).is_err());
    assert_eq!(LockStatus(false).to_bytes(), vec![0]);
}

#[test]
fn conversions_of_amounts_and_locks() {
    assert_eq!(Amount::from(5u64), Amount(5));
    assert_eq!(u64::from(Amount(9)), 9);
    assert_eq!(LockStatus::from(true), LockStatus(true));
    assert!(!bool::from(LockStatus(false)));
}
