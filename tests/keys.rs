use mailstore::keys::{AclKey, BitmapKey, IndexKey, Key, LogKey, ValueKey};

fn round_trip(k: Key) {
    let bytes = k.serialize();
    assert_eq!(Key::deserialize(&bytes), Some(k));
}

#[test]
fn value_key_layout() {
    let k = ValueKey { account_id: 1, collection: 2, document_id: 3, family: 4, field: 5 };
    assert_eq!(k.serialize(), vec![118, 0, 0, 0, 1, 2, 0, 0, 0, 3, 4, 5]);
}

#[test]
fn index_key_layout() {
    let k = IndexKey { account_id: 0x01020304, collection: 9, document_id: 0xAABBCCDD, field: 0xFF, key: vec![7, 8] };
    assert_eq!(k.serialize(), vec![105, 1, 2, 3, 4, 9, 0xFF, 0xAA, 0xBB, 0xCC, 0xDD, 7, 8]);
}

#[test]
fn every_kind_round_trips() {
    round_trip(Key::Value(ValueKey { account_id: 7, collection: 1, document_id: 99, family: 0, field: 3 }));
    round_trip(Key::Index(IndexKey { account_id: 7, collection: 1, document_id: 99, field: 3, key: vec![1, 2, 3] }));
    round_trip(Key::Index(IndexKey { account_id: 7, collection: 1, document_id: 99, field: 3, key: vec![] }));
    round_trip(Key::Bitmap(BitmapKey { account_id: u32::MAX, collection: 1, family: 2, field: 3, block_num: 4, key: vec![9] }));
    round_trip(Key::Acl(AclKey { grant_account_id: 20, to_account_id: 30, to_collection: 2, to_document_id: 5 }));
    round_trip(Key::Log(LogKey { account_id: 1, collection: 2, change_id: u64::MAX - 1 }));
    round_trip(Key::Counter(12345));
}

#[test]
fn bytes_that_are_no_key() {
    assert_eq!(Key::deserialize(&vec![]), None);
    assert_eq!(Key::deserialize(&vec![118, 0, 0]), None);
    assert_eq!(Key::deserialize(&vec![0, 1, 2, 3, 4]), None);
    assert_eq!(Key::deserialize(&vec![97; 13]), None);
}

#[test]
fn byte_order_follows_field_order() {
    let a = ValueKey { account_id: 1, collection: 9, document_id: 9, family: 9, field: 9 }.serialize();
    let b = ValueKey { account_id: 2, collection: 0, document_id: 0, family: 0, field: 0 }.serialize();
    assert!(a < b);
    let c = ValueKey { account_id: 1, collection: 9, document_id: 256, family: 0, field: 0 }.serialize();
    let d = ValueKey { account_id: 1, collection: 9, document_id: 255, family: 9, field: 9 }.serialize();
    assert!(d < c);
    let e = LogKey { account_id: 5, collection: 1, change_id: 1 << 40 }.serialize();
    let f = LogKey { account_id: 5, collection: 1, change_id: (1 << 40) + 1 }.serialize();
    assert!(e < f);
    let g = IndexKey { account_id: 1, collection: 1, document_id: 1, field: 1, key: vec![1, 2] }.serialize();
    let h = IndexKey { account_id: 1, collection: 1, document_id: 1, field: 1, key: vec![1, 2, 0] }.serialize();
    assert!(g < h);
}

#[test]
fn counter_key_is_a_prefix_of_the_account_values() {
    let counter = mailstore::keys::counter_key(7);
    assert_eq!(counter, vec![118, 0, 0, 0, 7]);
}
