use trx_processor::store::{Store, StoreItem};
use trx_processor::types::{Amount, LockStatus};

#[test]
fn store_reads_back_what_was_put() {
    let mut store = Store::memory();
    assert!(!store.contains_key(5));
    store.put(5, Amount(77));
    assert!(store.contains_key(5));
    assert_eq!(store.get::<Amount>(5), Some(Amount(77)));
    assert_eq!(store.get::<Amount>(6), None);
    // one byte decodes as a lock status but not as an amount
    store.put(6, LockStatus(true));
    assert_eq!(store.get::<LockStatus>(6), Some(LockStatus(true)));
    assert_eq!(store.get::<Amount>(6), None);
}

#[test]
fn store_upsert_uses_default_or_current() {
    let mut store = Store::memory();
    store.upsert(9, Amount(10), |a: Amount| Amount(a.0 + 1));
    assert_eq!(store.get::<Amount>(9), Some(Amount(11)));
    store.upsert(9, Amount(10), |a: Amount| Amount(a.0 * 3));
    assert_eq!(store.get::<Amount>(9), Some(Amount(33)));
    // a value that does not decode is replaced from the default
    store.put(9, LockStatus(true));
    store.upsert(9, Amount(4), |a: Amount| Amount(a.0 + 1));
    assert_eq!(store.get::<Amount>(9), Some(Amount(5)));
}

#[test]
fn store_iter_is_in_key_order() {
    let mut store = Store::memory();
    store.put(30, Amount(3));
    store.put(10, Amount(1));
    store.put(20, LockStatus(false));
    let entries = store.iter();
    let keys: Vec<u64> = entries.iter().map(|e| e.0).collect();
    assert_eq!(keys, vec![10, 20, 30]);
    let item: &StoreItem = &entries[1].1;
    assert_eq!(item.as_bytes(), &[0u8][..]);
}

#[test]
fn store_item_conversions() {
    let item = StoreItem::from_u64(0x0102);
    assert_eq!(item.as_bytes(), &[0u8, 0, 0, 0, 0, 0, 1, 2][..]);
    assert_eq!(u64::from(StoreItem::from_u64(77)), 77);
    assert_eq!(u64::from(StoreItem(vec![1, 2, 3])), 0);
    assert_eq!(Vec::<u8>::from(StoreItem(vec![4, 5])), vec![4, 5]);
}
