use mailstore::assign::{encode_u64, next_change_id};
use mailstore::bitmap::{next_available_index, DenseBitmap, BITS_PER_BLOCK};
use mailstore::keys::{AclKey, BitmapKey, IndexKey, LogKey, ValueKey};
use mailstore::store::MemoryStore;
use mailstore::write::{should_retry, AssertValue, Batch, Operation, StoreError};

fn value_key(account_id: u32, collection: u8, document_id: u32) -> Vec<u8> {
    ValueKey { account_id, collection, document_id, family: 0, field: 1 }.serialize()
}

#[test]
fn assert_value_rollback() {
    let mut store = MemoryStore::new();
    let batch = Batch {
        ops: vec![
            Operation::DocumentId { document_id: 1 },
            Operation::Value { family: 0, field: 1, set: Some(b"a".to_vec()) },
            Operation::AssertValue { field: 1, family: 0, assert_value: AssertValue::Bytes(b"z".to_vec()) },
            Operation::Value { family: 0, field: 1, set: Some(b"b".to_vec()) },
        ],
    };
    assert_eq!(store.write(&batch), Err(StoreError::AssertValueFailed));
    assert_eq!(store.get(&value_key(u32::MAX, u8::MAX, 1)), None);
    assert!(store.entries().is_empty());
}

#[test]
fn assert_value_sees_earlier_writes_of_the_batch() {
    let mut store = MemoryStore::new();
    let batch = Batch {
        ops: vec![
            Operation::AccountId { account_id: 1 },
            Operation::Collection { collection: 2 },
            Operation::DocumentId { document_id: 3 },
            Operation::Value { family: 0, field: 1, set: Some(vec![0, 0, 0, 0, 0, 0, 0, 9]) },
            Operation::AssertValue { field: 1, family: 0, assert_value: AssertValue::U64(9) },
        ],
    };
    assert_eq!(store.write(&batch), Ok(()));
    assert_eq!(store.get(&value_key(1, 2, 3)), Some(vec![0, 0, 0, 0, 0, 0, 0, 9]));
}

#[test]
fn assert_on_missing_value_fails() {
    let mut store = MemoryStore::new();
    let batch = Batch {
        ops: vec![
            Operation::Value { family: 0, field: 2, set: Some(vec![1]) },
            Operation::AssertValue { field: 1, family: 0, assert_value: AssertValue::Bytes(vec![]) },
        ],
    };
    assert_eq!(store.write(&batch), Err(StoreError::AssertValueFailed));
    assert!(store.entries().is_empty());
}

#[test]
fn scope_threads_through_the_batch() {
    let mut store = MemoryStore::new();
    let batch = Batch {
        ops: vec![
            Operation::AccountId { account_id: 4 },
            Operation::Collection { collection: 5 },
            Operation::DocumentId { document_id: 6 },
            Operation::Index { field: 2, key: b"k".to_vec(), set: true },
            Operation::Acl { grant_account_id: 8, set: Some(vec![1]) },
            Operation::Log { collection: 9, change_id: 10, set: vec![2] },
            Operation::DocumentId { document_id: 7 },
            Operation::Value { family: 0, field: 1, set: Some(vec![3]) },
        ],
    };
    assert_eq!(store.write(&batch), Ok(()));
    let index = IndexKey { account_id: 4, collection: 5, document_id: 6, field: 2, key: b"k".to_vec() }.serialize();
    assert_eq!(store.get(&index), Some(vec![]));
    let acl = AclKey { grant_account_id: 8, to_account_id: 4, to_collection: 5, to_document_id: 6 }.serialize();
    assert_eq!(store.get(&acl), Some(vec![1]));
    let log = LogKey { account_id: 4, collection: 9, change_id: 10 }.serialize();
    assert_eq!(store.get(&log), Some(vec![2]));
    assert_eq!(store.get(&value_key(4, 5, 7)), Some(vec![3]));
    assert_eq!(store.get(&value_key(4, 5, 6)), None);

    let clear = Batch {
        ops: vec![
            Operation::AccountId { account_id: 4 },
            Operation::Collection { collection: 5 },
            Operation::DocumentId { document_id: 6 },
            Operation::Index { field: 2, key: b"k".to_vec(), set: false },
            Operation::Acl { grant_account_id: 8, set: None },
        ],
    };
    assert_eq!(store.write(&clear), Ok(()));
    assert_eq!(store.get(&index), None);
    assert_eq!(store.get(&acl), None);
}

fn bitmap_op(document_id: u32, set: bool) -> Vec<Operation> {
    vec![
        Operation::AccountId { account_id: 1 },
        Operation::Collection { collection: 1 },
        Operation::DocumentId { document_id },
        Operation::Bitmap { family: 3, field: 4, key: vec![], set },
    ]
}

fn block_key(block_num: u32) -> Vec<u8> {
    BitmapKey { account_id: 1, collection: 1, family: 3, field: 4, block_num, key: vec![] }.serialize()
}

#[test]
fn bitmap_set_then_clear_leaves_bit_clear() {
    let mut store = MemoryStore::new();
    let mut ops = bitmap_op(10, true);
    ops.extend(bitmap_op(10, false));
    assert_eq!(store.write(&Batch { ops }), Ok(()));
    let block = store.get(&block_key(0)).unwrap();
    assert_eq!(block.len(), 128);
    assert_eq!(block[1] & (1 << 2), 0);
}

#[test]
fn bitmap_set_twice_is_set_once() {
    let mut once = MemoryStore::new();
    let mut twice = MemoryStore::new();
    assert_eq!(once.write(&Batch { ops: bitmap_op(1025, true) }), Ok(()));
    let mut ops = bitmap_op(1025, true);
    ops.extend(bitmap_op(1025, true));
    assert_eq!(twice.write(&Batch { ops }), Ok(()));
    assert_eq!(once.get(&block_key(1)), twice.get(&block_key(1)));
    let block = once.get(&block_key(1)).unwrap();
    assert_eq!(block[0], 2);
}

#[test]
fn bitmap_merges_across_batches() {
    let mut store = MemoryStore::new();
    assert_eq!(store.write(&Batch { ops: bitmap_op(0, true) }), Ok(()));
    assert_eq!(store.write(&Batch { ops: bitmap_op(3, true) }), Ok(()));
    assert_eq!(store.get(&block_key(0)).unwrap()[0], 0b1001);
    assert_eq!(store.write(&Batch { ops: bitmap_op(0, false) }), Ok(()));
    assert_eq!(store.get(&block_key(0)).unwrap()[0], 0b1000);
}

#[test]
fn dense_bitmap_basics() {
    let mut b = DenseBitmap::empty();
    assert_eq!(b.bitmap, vec![0u8; 128]);
    b.set(1024 + 9);
    assert_eq!(b.bitmap[1], 2);
    assert_eq!(DenseBitmap::block_num(2047), 1);
    assert_eq!(DenseBitmap::block_num(2048), 2);
    assert_eq!(BITS_PER_BLOCK, 1024);
}

#[test]
fn next_available_index_skips_set_and_reserved() {
    let mut bytes = vec![0xFFu8; 128];
    bytes[2] = 0b1111_0111;
    let mut reserved = ahash::AHashSet::new();
    assert_eq!(next_available_index(&bytes, 1, &reserved), Some(1024 + 19));
    reserved.insert(1024 + 19);
    assert_eq!(next_available_index(&bytes, 1, &reserved), None);
    assert_eq!(next_available_index(&vec![0u8; 128], 0, &ahash::AHashSet::new()), Some(0));
}

#[test]
fn change_ids_count_up_per_account() {
    let mut store = MemoryStore::new();
    assert_eq!(store.assign_change_id(1), Ok(0));
    assert_eq!(store.assign_change_id(1), Ok(1));
    assert_eq!(store.assign_change_id(2), Ok(0));
    assert_eq!(store.assign_change_id(1), Ok(2));
    assert_eq!(store.get(&mailstore::keys::counter_key(1)), Some(vec![0, 0, 0, 0, 0, 0, 0, 2]));
}

#[test]
fn change_id_on_a_bad_counter() {
    let mut store = MemoryStore::new();
    store.set(mailstore::keys::counter_key(3), vec![1, 2]);
    assert_eq!(store.assign_change_id(3), Err(StoreError::InvalidValue));
    store.set(mailstore::keys::counter_key(3), vec![0xFF; 8]);
    assert_eq!(store.assign_change_id(3), Err(StoreError::InvalidValue));
}

#[test]
fn retry_budget() {
    assert!(should_retry(0, 0));
    assert!(should_retry(9, 9_999));
    assert!(!should_retry(10, 0));
    assert!(!should_retry(0, 10_000));
}

#[test]
fn destroy_empties_the_store() {
    let mut store = MemoryStore::new();
    store.set(vec![1], vec![2]);
    store.destroy();
    assert!(store.entries().is_empty());
}

#[test]
fn plan_replays_like_write() {
    let ops = || {
        let mut ops = bitmap_op(5, true);
        ops.push(Operation::Value { family: 0, field: 1, set: Some(vec![4]) });
        ops.push(Operation::AssertValue { field: 1, family: 0, assert_value: AssertValue::Bytes(vec![4]) });
        ops
    };
    let plan = mailstore::write::plan_batch(&Batch { ops: ops() });
    assert_eq!(plan.len(), 3);
    assert!(matches!(plan[2], mailstore::write::Mutation::BitOr { .. }));
    let mut planned = MemoryStore::new();
    assert_eq!(planned.apply_plan(&plan), Ok(()));
    let mut written = MemoryStore::new();
    assert_eq!(written.write(&Batch { ops: ops() }), Ok(()));
    assert_eq!(planned.entries().len(), 2);
    assert_eq!(planned.get(&block_key(0)), written.get(&block_key(0)));
    assert_eq!(planned.get(&value_key(1, 1, 5)), Some(vec![4]));
}

#[test]
fn next_change_id_rule() {
    assert_eq!(next_change_id(&None), Ok(0));
    assert_eq!(next_change_id(&Some(encode_u64(41))), Ok(42));
    assert_eq!(next_change_id(&Some(vec![1])), Err(StoreError::InvalidValue));
    assert_eq!(encode_u64(0x0102), vec![0, 0, 0, 0, 0, 0, 1, 2]);
}

#[test]
fn bitmap_merge_keeps_unnamed_bits() {
    let mut store = MemoryStore::new();
    let mut old = vec![0u8; 128];
    old[0] = 0b1010_0000;
    store.set(block_key(0), old);
    let mut ops = bitmap_op(0, true);
    ops.extend(bitmap_op(0, false));
    ops.extend(bitmap_op(1, true));
    ops.extend(bitmap_op(1, true));
    assert_eq!(store.write(&Batch { ops }), Ok(()));
    assert_eq!(store.get(&block_key(0)).unwrap()[0], 0b1010_0010);
}
