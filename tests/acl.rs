use mailstore::acl::{acl_get, effective_acl, AccessToken, Acl, AclGrant};
use mailstore::acl_update::{
    acl_set, map_acl_patch, map_acl_set, refresh_acls, AclChanges, AclValue, Lookup, SetError,
};
use mailstore::keys::BitmapKey;
use mailstore::members::{COLLECTION_EMAIL, COLLECTION_MAILBOX, MAILBOX_IDS_FIELD, TAG_FAMILY};
use mailstore::store::MemoryStore;
use mailstore::write::{Batch, Operation};

const READ: u64 = 1;
const MODIFY: u64 = 2;
const ADMINISTER: u64 = 256;

fn token(primary_id: u32, member_of: Vec<u32>) -> AccessToken {
    AccessToken { primary_id, member_of }
}

fn grant_ops(grant: u32, to_account: u32, to_collection: u8, doc: u32, grants: u64) -> Vec<Operation> {
    vec![
        Operation::AccountId { account_id: to_account },
        Operation::Collection { collection: to_collection },
        Operation::DocumentId { document_id: doc },
        Operation::Acl { grant_account_id: grant, set: Some(grants.to_be_bytes().to_vec()) },
    ]
}

fn shared_store() -> MemoryStore {
    let mut store = MemoryStore::new();
    let mut ops = grant_ops(20, 30, 0x02, 5, READ | MODIFY);
    ops.extend(grant_ops(20, 30, 0x02, 7, MODIFY));
    assert_eq!(store.write(&Batch { ops }), Ok(()));
    store
}

#[test]
fn shared_intersection() {
    let store = shared_store();
    let t = token(10, vec![20]);
    assert_eq!(store.shared_documents(&t, 30, 0x02, READ), vec![5]);
    let mut both = store.shared_documents(&t, 30, 0x02, MODIFY);
    both.sort();
    assert_eq!(both, vec![5, 7]);
    assert!(store.shared_documents(&token(10, vec![]), 30, 0x02, READ).is_empty());
    assert!(store.shared_documents(&t, 31, 0x02, READ).is_empty());
}

#[test]
fn access_to_one_document() {
    let store = shared_store();
    let t = token(10, vec![20]);
    assert!(store.has_access_to_document(&t, 30, 0x02, 5, READ));
    assert!(!store.has_access_to_document(&t, 30, 0x02, 7, READ));
    assert!(store.has_access_to_document(&t, 30, 0x02, 7, MODIFY));
    assert!(!store.has_access_to_document(&token(20, vec![]), 30, 0x02, 8, MODIFY));
    assert!(store.has_access_to_document(&token(20, vec![]), 30, 0x02, 5, READ));
}

#[test]
fn effective_acl_of_an_object() {
    let acl = vec![
        AclGrant { account_id: 20, grants: READ | MODIFY },
        AclGrant { account_id: 99, grants: ADMINISTER },
    ];
    assert_eq!(effective_acl(&acl, &token(1, vec![20])), READ | MODIFY);
    assert_eq!(effective_acl(&acl, &token(1, vec![99])), ADMINISTER);
    assert_eq!(effective_acl(&acl, &token(99, vec![20])), READ | MODIFY | ADMINISTER);
    assert_eq!(effective_acl(&acl, &token(1, vec![])), 0);
}

fn patch(name: &str, grants: u64, op: Option<bool>) -> AclChanges {
    let mut v = vec![AclValue::Text(name.to_string()), AclValue::UnsignedInt(grants)];
    if let Some(op) = op {
        v.push(AclValue::Bool(op));
    }
    AclChanges::Patch(v)
}

#[test]
fn patch_add_then_remove() {
    let mut changes: Option<Vec<AclGrant>> = None;
    let alice = vec![Lookup::Found(20)];
    assert_eq!(acl_set(&mut changes, None, &patch("alice", READ, Some(true)), &alice), Ok(()));
    assert_eq!(changes, Some(vec![AclGrant { account_id: 20, grants: READ }]));
    assert_eq!(acl_set(&mut changes, None, &patch("alice", READ, Some(false)), &alice), Ok(()));
    assert_eq!(changes, Some(vec![]));
}

#[test]
fn patch_operations() {
    let current = vec![AclGrant { account_id: 20, grants: READ }, AclGrant { account_id: 21, grants: MODIFY }];
    let bob = vec![Lookup::Found(21)];
    let mut changes: Option<Vec<AclGrant>> = None;
    assert_eq!(acl_set(&mut changes, Some(&current), &patch("bob", READ, Some(true)), &bob), Ok(()));
    assert_eq!(changes, Some(vec![AclGrant { account_id: 20, grants: READ }, AclGrant { account_id: 21, grants: MODIFY | READ }]));
    assert_eq!(acl_set(&mut changes, Some(&current), &patch("bob", ADMINISTER, None), &bob), Ok(()));
    assert_eq!(changes, Some(vec![AclGrant { account_id: 20, grants: READ }, AclGrant { account_id: 21, grants: ADMINISTER }]));
    assert_eq!(acl_set(&mut changes, Some(&current), &patch("bob", 0, None), &bob), Ok(()));
    assert_eq!(changes, Some(vec![AclGrant { account_id: 20, grants: READ }]));
    assert_eq!(acl_set(&mut changes, Some(&current), &patch("bob", MODIFY, Some(false)), &bob), Ok(()));
    assert_eq!(changes, Some(vec![AclGrant { account_id: 20, grants: READ }]));
}

#[test]
fn patch_and_set_agree_on_an_empty_acl() {
    let alice = vec![Lookup::Found(20)];
    let mut patched: Option<Vec<AclGrant>> = None;
    assert_eq!(acl_set(&mut patched, None, &patch("alice", READ | MODIFY, Some(true)), &alice), Ok(()));
    let mut set: Option<Vec<AclGrant>> = None;
    let values = vec![AclValue::Text("alice".to_string()), AclValue::UnsignedInt(READ | MODIFY)];
    assert_eq!(acl_set(&mut set, None, &AclChanges::Replace(values), &alice), Ok(()));
    assert_eq!(patched, set);
}

#[test]
fn set_errors() {
    let values = vec![
        AclValue::Text("alice".to_string()),
        AclValue::UnsignedInt(READ),
        AclValue::Text("ghost".to_string()),
        AclValue::UnsignedInt(READ),
    ];
    assert_eq!(map_acl_set(&values, &vec![Lookup::Found(20), Lookup::Missing]), Err(SetError::InvalidProperties));
    assert_eq!(map_acl_set(&values, &vec![Lookup::Found(20), Lookup::Failed]), Err(SetError::Forbidden));
    assert_eq!(
        map_acl_set(&values, &vec![Lookup::Found(20), Lookup::Found(21)]),
        Ok(vec![AclGrant { account_id: 20, grants: READ }, AclGrant { account_id: 21, grants: READ }])
    );
    let bad = vec![AclValue::UnsignedInt(READ), AclValue::Text("alice".to_string())];
    assert_eq!(map_acl_set(&bad, &vec![Lookup::Found(20)]), Err(SetError::InvalidProperties));
    let mut changes: Option<Vec<AclGrant>> = None;
    assert_eq!(acl_set(&mut changes, None, &AclChanges::Invalid, &vec![]), Err(SetError::InvalidProperties));
    assert_eq!(changes, None);
}

#[test]
fn patch_errors_and_op() {
    let short = vec![AclValue::Text("alice".to_string())];
    assert_eq!(map_acl_patch(&short, Lookup::Found(20)), Err(SetError::InvalidProperties));
    let p = vec![AclValue::Text("alice".to_string()), AclValue::UnsignedInt(READ), AclValue::Null];
    assert_eq!(map_acl_patch(&p, Lookup::Found(20)), Ok((AclGrant { account_id: 20, grants: READ }, Some(false))));
    assert_eq!(map_acl_patch(&p, Lookup::Missing), Err(SetError::InvalidProperties));
    assert_eq!(map_acl_patch(&p, Lookup::Failed), Err(SetError::Forbidden));
}

#[test]
fn refresh_signals_changed_grants() {
    let old = vec![
        AclGrant { account_id: 1, grants: READ },
        AclGrant { account_id: 2, grants: READ },
        AclGrant { account_id: 3, grants: READ },
    ];
    let new = vec![
        AclGrant { account_id: 1, grants: READ },
        AclGrant { account_id: 2, grants: MODIFY },
        AclGrant { account_id: 4, grants: READ },
    ];
    let mut signalled = refresh_acls(Some(&new), Some(&old));
    signalled.sort();
    assert_eq!(signalled, vec![2, 3, 4]);
    let mut all = refresh_acls(Some(&new), None);
    all.sort();
    assert_eq!(all, vec![1, 2, 4]);
    assert!(refresh_acls(None, Some(&old)).is_empty());
}

#[test]
fn acl_listing_only_for_owner_or_administrator() {
    let acl = vec![AclGrant { account_id: 20, grants: READ | ADMINISTER }, AclGrant { account_id: 21, grants: MODIFY }];
    let names = vec![Some("alice".to_string()), None];
    let listing = acl_get(&acl, &token(5, vec![]), 5, &names).unwrap();
    assert_eq!(listing, vec![("alice".to_string(), vec![Acl::Read, Acl::Administer])]);
    assert!(acl_get(&acl, &token(20, vec![]), 5, &names).is_some());
    assert!(acl_get(&acl, &token(21, vec![]), 5, &names).is_none());
}

fn live_ids_op(account: u32, collection: u8, ids: &[u32]) -> Vec<Operation> {
    let mut ops = vec![Operation::AccountId { account_id: account }, Operation::Collection { collection }];
    for id in ids {
        ops.push(Operation::DocumentId { document_id: *id });
        ops.push(Operation::Bitmap { family: 0, field: 0xFF, key: vec![], set: true });
    }
    ops
}

#[test]
fn owned_or_shared() {
    let mut store = shared_store();
    assert_eq!(store.write(&Batch { ops: live_ids_op(30, 0x02, &[5, 6, 7, 2000]) }), Ok(()));
    let mut ids = store.document_ids(30, 0x02);
    ids.sort();
    assert_eq!(ids, vec![5, 6, 7, 2000]);
    let mut own = store.owned_or_shared_documents(&token(30, vec![]), 30, 0x02, READ);
    own.sort();
    assert_eq!(own, vec![5, 6, 7, 2000]);
    assert_eq!(store.owned_or_shared_documents(&token(10, vec![20]), 30, 0x02, READ), vec![5]);
    assert!(store.owned_or_shared_documents(&token(10, vec![]), 30, 0x02, READ).is_empty());
}

#[test]
fn shared_messages_through_mailboxes() {
    let mut store = MemoryStore::new();
    let mut ops = grant_ops(10, 30, COLLECTION_MAILBOX, 1, READ);
    ops.extend(live_ids_op(30, COLLECTION_EMAIL, &[100, 101, 102]));
    for (mailbox, message) in [(1u32, 100u32), (1, 101), (2, 102)] {
        ops.push(Operation::DocumentId { document_id: message });
        ops.push(Operation::Bitmap { family: TAG_FAMILY, field: MAILBOX_IDS_FIELD, key: mailbox.to_be_bytes().to_vec(), set: true });
    }
    assert_eq!(store.write(&Batch { ops }), Ok(()));
    let t = token(10, vec![]);
    let mut shared = store.shared_messages(&t, 30, READ);
    shared.sort();
    assert_eq!(shared, vec![100, 101]);
    let mut visible = store.owned_or_shared_messages(&t, 30, READ);
    visible.sort();
    assert_eq!(visible, vec![100, 101]);
    assert_eq!(store.owned_or_shared_messages(&token(30, vec![]), 30, READ).len(), 3);
    let key = BitmapKey { account_id: 30, collection: COLLECTION_EMAIL, family: TAG_FAMILY, field: MAILBOX_IDS_FIELD, block_num: 0, key: 2u32.to_be_bytes().to_vec() }.serialize();
    assert!(store.get(&key).is_some());
}
