use mailstore::assign::ID_ASSIGNMENT_EXPIRY;
use mailstore::keys::{BitmapKey, IndexKey};
use mailstore::store::MemoryStore;

#[test]
fn allocate_reuse_release() {
    let mut store = MemoryStore::new();
    let t0: u64 = 100_000;
    assert_eq!(store.assign_document_id(1, 0x01, t0), 0);
    assert_eq!(store.assign_document_id(1, 0x01, t0 + 1000), 1);
    assert_eq!(store.assign_document_id(1, 0x01, t0 + ID_ASSIGNMENT_EXPIRY), 0);
    let reservation = IndexKey { account_id: 1, collection: 1, document_id: 0, field: 0xFF, key: vec![] }.serialize();
    assert_eq!(store.get(&reservation), Some((t0 + ID_ASSIGNMENT_EXPIRY).to_be_bytes().to_vec()));
}

#[test]
fn live_reservations_give_distinct_ids() {
    let mut store = MemoryStore::new();
    let mut ids = Vec::new();
    for _ in 0..5 {
        ids.push(store.assign_document_id(9, 3, 50_000));
    }
    assert_eq!(ids, vec![0, 1, 2, 3, 4]);
}

#[test]
fn allocation_follows_the_document_bitmap() {
    let mut store = MemoryStore::new();
    let mut block = vec![0u8; 128];
    block[0] = 0b0000_0111;
    let key = BitmapKey { account_id: 2, collection: 1, family: 0, field: 0xFF, block_num: 0, key: vec![] }.serialize();
    store.set(key, block);
    assert_eq!(store.assign_document_id(2, 1, 10_000), 3);
    assert_eq!(store.assign_document_id(2, 1, 10_000), 4);
}

#[test]
fn allocation_per_collection() {
    let mut store = MemoryStore::new();
    assert_eq!(store.assign_document_id(1, 1, 10_000), 0);
    assert_eq!(store.assign_document_id(1, 2, 10_000), 0);
    assert_eq!(store.assign_document_id(2, 1, 10_000), 0);
}

#[test]
fn one_of_several_expired_ids() {
    let mut store = MemoryStore::new();
    assert_eq!(store.assign_document_id(1, 1, 10_000), 0);
    assert_eq!(store.assign_document_id(1, 1, 10_000), 1);
    assert_eq!(store.assign_document_id(1, 1, 10_000), 2);
    let id = store.assign_document_id(1, 1, 10_000 + ID_ASSIGNMENT_EXPIRY);
    assert!(id <= 2);
}
