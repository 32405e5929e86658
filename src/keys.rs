//! Typed keys of the ordered key-value store and their binary layout.
//!
//! Every key is `subspace ‖ integer fields (big-endian, in declaration order) ‖
//! variable-length suffix`, so that byte order on keys of one subspace is the
//! order of their field tuples. Index and bitmap keys therefore put their
//! document id or block number before their key bytes, not after them: with
//! the suffix last, a range over the integers of one key is contiguous and
//! every field is read from a fixed offset.
use vstd::prelude::*;
use crate::codec::{be, from_be, lex_lt, pow256, push_be, read_be, lemma_be_len,
    lemma_from_be_be, lemma_be_from_be, lemma_be_order, lemma_lex_append, lemma_pow_widths};

verus! {

pub const SUBSPACE_ACLS: u8 = 97;
pub const SUBSPACE_BITMAPS: u8 = 98;
pub const SUBSPACE_INDEXES: u8 = 105;
pub const SUBSPACE_LOGS: u8 = 108;
pub const SUBSPACE_BLOBS: u8 = 116;
pub const SUBSPACE_VALUES: u8 = 118;

/// Length of a value key: prefix, account, collection, document, family, field.
pub const VALUE_KEY_LEN: usize = 12;
/// Length of an index key without its suffix.
pub const INDEX_KEY_LEN: usize = 11;
/// Length of a bitmap key without its suffix.
pub const BITMAP_KEY_LEN: usize = 12;
/// Length of an ACL key.
pub const ACL_KEY_LEN: usize = 14;
/// Length of a log key.
pub const LOG_KEY_LEN: usize = 14;
/// Length of an account's change counter key.
pub const COUNTER_KEY_LEN: usize = 5;

/// The mathematical content of a key.
pub ghost enum KeyView {
    Value { account_id: u32, collection: u8, document_id: u32, family: u8, field: u8 },
    Index { account_id: u32, collection: u8, field: u8, document_id: u32, key: Seq<u8> },
    Bitmap { account_id: u32, collection: u8, family: u8, field: u8, block_num: u32, key: Seq<u8> },
    Acl { grant_account_id: u32, to_account_id: u32, to_collection: u8, to_document_id: u32 },
    Log { account_id: u32, collection: u8, change_id: u64 },
    Counter { account_id: u32 },
}

#[derive(Debug, Clone, PartialEq, Eq)]
pub struct ValueKey {
    pub account_id: u32,
    pub collection: u8,
    pub document_id: u32,
    pub family: u8,
    pub field: u8,
}

#[derive(Debug, Clone, PartialEq, Eq)]
pub struct IndexKey {
    pub account_id: u32,
    pub collection: u8,
    pub document_id: u32,
    pub field: u8,
    pub key: Vec<u8>,
}

#[derive(Debug, Clone, PartialEq, Eq)]
pub struct BitmapKey {
    pub account_id: u32,
    pub collection: u8,
    pub family: u8,
    pub field: u8,
    pub block_num: u32,
    pub key: Vec<u8>,
}

#[derive(Debug, Clone, PartialEq, Eq)]
pub struct AclKey {
    pub grant_account_id: u32,
    pub to_account_id: u32,
    pub to_collection: u8,
    pub to_document_id: u32,
}

#[derive(Debug, Clone, PartialEq, Eq)]
pub struct LogKey {
    pub account_id: u32,
    pub collection: u8,
    pub change_id: u64,
}

/// A key of any subspace.
#[derive(Debug, Clone, PartialEq, Eq)]
pub enum Key {
    Value(ValueKey),
    Index(IndexKey),
    Bitmap(BitmapKey),
    Acl(AclKey),
    Log(LogKey),
    Counter(u32),
}

impl View for ValueKey {
    type V = KeyView;

    open spec fn view(&self) -> KeyView {
        KeyView::Value {
            account_id: self.account_id,
            collection: self.collection,
            document_id: self.document_id,
            family: self.family,
            field: self.field,
        }
    }
}

impl View for IndexKey {
    type V = KeyView;

    open spec fn view(&self) -> KeyView {
        KeyView::Index {
            account_id: self.account_id,
            collection: self.collection,
            field: self.field,
            document_id: self.document_id,
            key: self.key@,
        }
    }
}

impl View for BitmapKey {
    type V = KeyView;

    open spec fn view(&self) -> KeyView {
        KeyView::Bitmap {
            account_id: self.account_id,
            collection: self.collection,
            family: self.family,
            field: self.field,
            block_num: self.block_num,
            key: self.key@,
        }
    }
}

impl View for AclKey {
    type V = KeyView;

    open spec fn view(&self) -> KeyView {
        KeyView::Acl {
            grant_account_id: self.grant_account_id,
            to_account_id: self.to_account_id,
            to_collection: self.to_collection,
            to_document_id: self.to_document_id,
        }
    }
}

impl View for LogKey {
    type V = KeyView;

    open spec fn view(&self) -> KeyView {
        KeyView::Log { account_id: self.account_id, collection: self.collection, change_id: self.change_id }
    }
}

impl View for Key {
    type V = KeyView;

    open spec fn view(&self) -> KeyView {
        match self {
            Key::Value(k) => k@,
            Key::Index(k) => k@,
            Key::Bitmap(k) => k@,
            Key::Acl(k) => k@,
            Key::Log(k) => k@,
            Key::Counter(a) => KeyView::Counter { account_id: *a },
        }
    }
}

pub open spec fn be32(x: u32) -> Seq<u8> {
    be(x as nat, 4)
}

pub open spec fn be8(x: u8) -> Seq<u8> {
    be(x as nat, 1)
}

pub open spec fn be64(x: u64) -> Seq<u8> {
    be(x as nat, 8)
}

/// The bytes of a key.
pub open spec fn serialize_key(k: KeyView) -> Seq<u8> {
    match k {
        KeyView::Value { account_id, collection, document_id, family, field } =>
            seq![SUBSPACE_VALUES] + (be32(account_id) + (be8(collection) + (be32(document_id) + (
            be8(family) + be8(field))))),
        KeyView::Index { account_id, collection, field, document_id, key } =>
            seq![SUBSPACE_INDEXES] + (be32(account_id) + (be8(collection) + (be8(field) + (
            be32(document_id) + key)))),
        KeyView::Bitmap { account_id, collection, family, field, block_num, key } =>
            seq![SUBSPACE_BITMAPS] + (be32(account_id) + (be8(collection) + (be8(family) + (
            be8(field) + (be32(block_num) + key))))),
        KeyView::Acl { grant_account_id, to_account_id, to_collection, to_document_id } =>
            seq![SUBSPACE_ACLS] + (be32(grant_account_id) + (be32(to_account_id) + (be8(
            to_collection) + be32(to_document_id)))),
        KeyView::Log { account_id, collection, change_id } =>
            seq![SUBSPACE_LOGS] + (be32(account_id) + (be8(collection) + be64(change_id))),
        KeyView::Counter { account_id } => seq![SUBSPACE_VALUES] + be32(account_id),
    }
}

pub open spec fn get32(b: Seq<u8>, at: int) -> u32 {
    from_be(b.subrange(at, at + 4)) as u32
}

pub open spec fn get8(b: Seq<u8>, at: int) -> u8 {
    b[at]
}

pub open spec fn get64(b: Seq<u8>, at: int) -> u64 {
    from_be(b.subrange(at, at + 8)) as u64
}

/// The key that some bytes encode, if any.
pub open spec fn deserialize_key(b: Seq<u8>) -> Option<KeyView> {
    if b.len() == 0 {
        None
    } else if b[0] == SUBSPACE_VALUES && b.len() == VALUE_KEY_LEN {
        Some(
            KeyView::Value {
                account_id: get32(b, 1),
                collection: get8(b, 5),
                document_id: get32(b, 6),
                family: get8(b, 10),
                field: get8(b, 11),
            },
        )
    } else if b[0] == SUBSPACE_VALUES && b.len() == COUNTER_KEY_LEN {
        Some(KeyView::Counter { account_id: get32(b, 1) })
    } else if b[0] == SUBSPACE_INDEXES && b.len() >= INDEX_KEY_LEN {
        Some(
            KeyView::Index {
                account_id: get32(b, 1),
                collection: get8(b, 5),
                field: get8(b, 6),
                document_id: get32(b, 7),
                key: b.subrange(INDEX_KEY_LEN as int, b.len() as int),
            },
        )
    } else if b[0] == SUBSPACE_BITMAPS && b.len() >= BITMAP_KEY_LEN {
        Some(
            KeyView::Bitmap {
                account_id: get32(b, 1),
                collection: get8(b, 5),
                family: get8(b, 6),
                field: get8(b, 7),
                block_num: get32(b, 8),
                key: b.subrange(BITMAP_KEY_LEN as int, b.len() as int),
            },
        )
    } else if b[0] == SUBSPACE_ACLS && b.len() == ACL_KEY_LEN {
        Some(
            KeyView::Acl {
                grant_account_id: get32(b, 1),
                to_account_id: get32(b, 5),
                to_collection: get8(b, 9),
                to_document_id: get32(b, 10),
            },
        )
    } else if b[0] == SUBSPACE_LOGS && b.len() == LOG_KEY_LEN {
        Some(KeyView::Log { account_id: get32(b, 1), collection: get8(b, 5), change_id: get64(b, 6) })
    } else {
        None
    }
}


broadcast use lemma_be_len;

proof fn lemma_get32(x: u32, pre: Seq<u8>, rest: Seq<u8>)
    ensures
        get32(pre + (be32(x) + rest), pre.len() as int) == x,
{
    let s = pre + (be32(x) + rest);
    assert(s.subrange(pre.len() as int, pre.len() as int + 4) =~= be32(x));
    lemma_pow_widths();
    lemma_from_be_be(x as nat, 4);
}

proof fn lemma_get64(x: u64, pre: Seq<u8>, rest: Seq<u8>)
    ensures
        get64(pre + (be64(x) + rest), pre.len() as int) == x,
{
    let s = pre + (be64(x) + rest);
    assert(s.subrange(pre.len() as int, pre.len() as int + 8) =~= be64(x));
    lemma_pow_widths();
    lemma_from_be_be(x as nat, 8);
}

proof fn lemma_be8(x: u8)
    ensures
        be8(x) == seq![x],
{
    assert(be(x as nat / 256, 0) =~= Seq::<u8>::empty());
    assert(be8(x) =~= seq![x]);
}

proof fn lemma_be32_of(s: Seq<u8>)
    requires
        s.len() == 4,
    ensures
        be32(from_be(s) as u32) == s,
{
    lemma_be_from_be(s);
    lemma_pow_widths();
}

proof fn lemma_be64_of(s: Seq<u8>)
    requires
        s.len() == 8,
    ensures
        be64(from_be(s) as u64) == s,
{
    lemma_be_from_be(s);
    lemma_pow_widths();
}

/// Every key reads back as itself from its bytes.
pub proof fn lemma_key_round_trip(k: KeyView)
    ensures
        deserialize_key(serialize_key(k)) == Some(k),
{
    let s = serialize_key(k);
    match k {
        KeyView::Value { account_id, collection, document_id, family, field } => {
            lemma_be8(collection);
            lemma_be8(family);
            lemma_be8(field);
            let p = seq![SUBSPACE_VALUES];
            assert(s =~= p + (be32(account_id) + (be8(collection) + (be32(document_id) + (be8(family) + be8(field))))));
            lemma_get32(account_id, p, be8(collection) + (be32(document_id) + (be8(family) + be8(field))));
            lemma_get32(document_id, s.subrange(0, 6), be8(family) + be8(field));
            assert(s =~= s.subrange(0, 6) + (be32(document_id) + (be8(family) + be8(field))));
        },
        KeyView::Index { account_id, collection, field, document_id, key } => {
            lemma_be8(collection);
            lemma_be8(field);
            let p = seq![SUBSPACE_INDEXES];
            lemma_get32(account_id, p, be8(collection) + (be8(field) + (be32(document_id) + key)));
            assert(s =~= s.subrange(0, 7) + (be32(document_id) + key));
            lemma_get32(document_id, s.subrange(0, 7), key);
            assert(s.subrange(11, s.len() as int) =~= key);
        },
        KeyView::Bitmap { account_id, collection, family, field, block_num, key } => {
            lemma_be8(collection);
            lemma_be8(family);
            lemma_be8(field);
            let p = seq![SUBSPACE_BITMAPS];
            lemma_get32(account_id, p, be8(collection) + (be8(family) + (be8(field) + (be32(block_num) + key))));
            assert(s =~= s.subrange(0, 8) + (be32(block_num) + key));
            lemma_get32(block_num, s.subrange(0, 8), key);
            assert(s.subrange(12, s.len() as int) =~= key);
        },
        KeyView::Acl { grant_account_id, to_account_id, to_collection, to_document_id } => {
            lemma_be8(to_collection);
            let p = seq![SUBSPACE_ACLS];
            lemma_get32(grant_account_id, p, be32(to_account_id) + (be8(to_collection) + be32(to_document_id)));
            assert(s =~= s.subrange(0, 5) + (be32(to_account_id) + (be8(to_collection) + be32(to_document_id))));
            lemma_get32(to_account_id, s.subrange(0, 5), be8(to_collection) + be32(to_document_id));
            assert(s =~= s.subrange(0, 10) + (be32(to_document_id) + Seq::<u8>::empty()));
            lemma_get32(to_document_id, s.subrange(0, 10), Seq::<u8>::empty());
        },
        KeyView::Log { account_id, collection, change_id } => {
            lemma_be8(collection);
            let p = seq![SUBSPACE_LOGS];
            lemma_get32(account_id, p, be8(collection) + be64(change_id));
            assert(s =~= s.subrange(0, 6) + (be64(change_id) + Seq::<u8>::empty()));
            lemma_get64(change_id, s.subrange(0, 6), Seq::<u8>::empty());
        },
        KeyView::Counter { account_id } => {
            let p = seq![SUBSPACE_VALUES];
            assert(s =~= p + (be32(account_id) + Seq::<u8>::empty()));
            lemma_get32(account_id, p, Seq::<u8>::empty());
        },
    }
}

/// Bytes that read as a key are exactly that key's bytes.
pub proof fn lemma_key_bytes_unique(b: Seq<u8>)
    ensures
        deserialize_key(b) matches Some(k) ==> serialize_key(k) == b,
{
    if let Some(k) = deserialize_key(b) {
        let s = serialize_key(k);
        match k {
            KeyView::Value { account_id, collection, document_id, family, field } => {
                lemma_be32_of(b.subrange(1, 5));
                lemma_be32_of(b.subrange(6, 10));
                lemma_be8(collection);
                lemma_be8(family);
                lemma_be8(field);
            },
            KeyView::Index { account_id, collection, field, document_id, key } => {
                lemma_be32_of(b.subrange(1, 5));
                lemma_be32_of(b.subrange(7, 11));
                lemma_be8(collection);
                lemma_be8(field);
            },
            KeyView::Bitmap { account_id, collection, family, field, block_num, key } => {
                lemma_be32_of(b.subrange(1, 5));
                lemma_be32_of(b.subrange(8, 12));
                lemma_be8(collection);
                lemma_be8(family);
                lemma_be8(field);
            },
            KeyView::Acl { grant_account_id, to_account_id, to_collection, to_document_id } => {
                lemma_be32_of(b.subrange(1, 5));
                lemma_be32_of(b.subrange(5, 9));
                lemma_be32_of(b.subrange(10, 14));
                lemma_be8(to_collection);
            },
            KeyView::Log { account_id, collection, change_id } => {
                lemma_be32_of(b.subrange(1, 5));
                lemma_be64_of(b.subrange(6, 14));
                lemma_be8(collection);
            },
            KeyView::Counter { account_id } => {
                lemma_be32_of(b.subrange(1, 5));
            },
        }
        assert(s =~= b);
    }
}


/// Whether two keys have the same layout (the same kind).
pub open spec fn same_layout(k1: KeyView, k2: KeyView) -> bool {
    match (k1, k2) {
        (KeyView::Value { .. }, KeyView::Value { .. }) => true,
        (KeyView::Index { .. }, KeyView::Index { .. }) => true,
        (KeyView::Bitmap { .. }, KeyView::Bitmap { .. }) => true,
        (KeyView::Acl { .. }, KeyView::Acl { .. }) => true,
        (KeyView::Log { .. }, KeyView::Log { .. }) => true,
        (KeyView::Counter { .. }, KeyView::Counter { .. }) => true,
        _ => false,
    }
}

/// Tuple order on the fields of two keys of the same kind, in declaration
/// order, with the variable suffix compared last.
pub open spec fn fields_lt(k1: KeyView, k2: KeyView) -> bool {
    match (k1, k2) {
        (
            KeyView::Value { account_id: a1, collection: c1, document_id: d1, family: f1, field: g1 },
            KeyView::Value { account_id: a2, collection: c2, document_id: d2, family: f2, field: g2 },
        ) => a1 < a2 || (a1 == a2 && (c1 < c2 || (c1 == c2 && (d1 < d2 || (d1 == d2 && (f1 < f2
            || (f1 == f2 && g1 < g2))))))),
        (
            KeyView::Index { account_id: a1, collection: c1, field: g1, document_id: d1, key: k1 },
            KeyView::Index { account_id: a2, collection: c2, field: g2, document_id: d2, key: k2 },
        ) => a1 < a2 || (a1 == a2 && (c1 < c2 || (c1 == c2 && (g1 < g2 || (g1 == g2 && (d1 < d2
            || (d1 == d2 && lex_lt(k1, k2)))))))),
        (
            KeyView::Bitmap {
                account_id: a1,
                collection: c1,
                family: f1,
                field: g1,
                block_num: b1,
                key: k1,
            },
            KeyView::Bitmap {
                account_id: a2,
                collection: c2,
                family: f2,
                field: g2,
                block_num: b2,
                key: k2,
            },
        ) => a1 < a2 || (a1 == a2 && (c1 < c2 || (c1 == c2 && (f1 < f2 || (f1 == f2 && (g1 < g2
            || (g1 == g2 && (b1 < b2 || (b1 == b2 && lex_lt(k1, k2)))))))))),
        (
            KeyView::Acl { grant_account_id: g1, to_account_id: a1, to_collection: c1, to_document_id: d1 },
            KeyView::Acl { grant_account_id: g2, to_account_id: a2, to_collection: c2, to_document_id: d2 },
        ) => g1 < g2 || (g1 == g2 && (a1 < a2 || (a1 == a2 && (c1 < c2 || (c1 == c2 && d1 < d2))))),
        (
            KeyView::Log { account_id: a1, collection: c1, change_id: i1 },
            KeyView::Log { account_id: a2, collection: c2, change_id: i2 },
        ) => a1 < a2 || (a1 == a2 && (c1 < c2 || (c1 == c2 && i1 < i2))),
        (KeyView::Counter { account_id: a1 }, KeyView::Counter { account_id: a2 }) => a1 < a2,
        _ => false,
    }
}

proof fn lemma_be_cons(x: nat, y: nat, n: nat, r1: Seq<u8>, r2: Seq<u8>)
    requires
        x < pow256(n),
        y < pow256(n),
    ensures
        lex_lt(be(x, n) + r1, be(y, n) + r2) == (x < y || (x == y && lex_lt(r1, r2))),
{
    lemma_lex_append(be(x, n), be(y, n), r1, r2);
    lemma_be_order(x, y, n);
}

proof fn lemma_prefix_cons(p: u8, r1: Seq<u8>, r2: Seq<u8>)
    ensures
        lex_lt(seq![p] + r1, seq![p] + r2) == lex_lt(r1, r2),
{
    lemma_lex_append(seq![p], seq![p], r1, r2);
    crate::codec::lemma_lex_irreflexive(seq![p]);
}

/// Within one kind, the byte order of keys is the tuple order of their fields.
pub proof fn lemma_key_order(k1: KeyView, k2: KeyView)
    requires
        same_layout(k1, k2),
    ensures
        lex_lt(serialize_key(k1), serialize_key(k2)) == fields_lt(k1, k2),
{
    lemma_pow_widths();
    match (k1, k2) {
        (
            KeyView::Value { account_id: a1, collection: c1, document_id: d1, family: f1, field: g1 },
            KeyView::Value { account_id: a2, collection: c2, document_id: d2, family: f2, field: g2 },
        ) => {
            lemma_be_cons(f1 as nat, f2 as nat, 1, be8(g1), be8(g2));
            lemma_be_order(g1 as nat, g2 as nat, 1);
            lemma_be_cons(d1 as nat, d2 as nat, 4, be8(f1) + be8(g1), be8(f2) + be8(g2));
            lemma_be_cons(c1 as nat, c2 as nat, 1, be32(d1) + (be8(f1) + be8(g1)), be32(d2) + (be8(f2) + be8(g2)));
            lemma_be_cons(a1 as nat, a2 as nat, 4, be8(c1) + (be32(d1) + (be8(f1) + be8(g1))), be8(c2) + (be32(d2) + (be8(f2) + be8(g2))));
            lemma_prefix_cons(SUBSPACE_VALUES, be32(a1) + (be8(c1) + (be32(d1) + (be8(f1) + be8(g1)))), be32(a2) + (be8(c2) + (be32(d2) + (be8(f2) + be8(g2)))));
        },
        (
            KeyView::Index { account_id: a1, collection: c1, field: g1, document_id: d1, key: k1 },
            KeyView::Index { account_id: a2, collection: c2, field: g2, document_id: d2, key: k2 },
        ) => {
            lemma_be_cons(d1 as nat, d2 as nat, 4, k1, k2);
            lemma_be_cons(g1 as nat, g2 as nat, 1, be32(d1) + k1, be32(d2) + k2);
            lemma_be_cons(c1 as nat, c2 as nat, 1, be8(g1) + (be32(d1) + k1), be8(g2) + (be32(d2) + k2));
            lemma_be_cons(a1 as nat, a2 as nat, 4, be8(c1) + (be8(g1) + (be32(d1) + k1)), be8(c2) + (be8(g2) + (be32(d2) + k2)));
            lemma_prefix_cons(SUBSPACE_INDEXES, be32(a1) + (be8(c1) + (be8(g1) + (be32(d1) + k1))), be32(a2) + (be8(c2) + (be8(g2) + (be32(d2) + k2))));
        },
        (
            KeyView::Bitmap { account_id: a1, collection: c1, family: f1, field: g1, block_num: b1, key: k1 },
            KeyView::Bitmap { account_id: a2, collection: c2, family: f2, field: g2, block_num: b2, key: k2 },
        ) => {
            lemma_be_cons(b1 as nat, b2 as nat, 4, k1, k2);
            lemma_be_cons(g1 as nat, g2 as nat, 1, be32(b1) + k1, be32(b2) + k2);
            lemma_be_cons(f1 as nat, f2 as nat, 1, be8(g1) + (be32(b1) + k1), be8(g2) + (be32(b2) + k2));
            lemma_be_cons(c1 as nat, c2 as nat, 1, be8(f1) + (be8(g1) + (be32(b1) + k1)), be8(f2) + (be8(g2) + (be32(b2) + k2)));
            lemma_be_cons(a1 as nat, a2 as nat, 4, be8(c1) + (be8(f1) + (be8(g1) + (be32(b1) + k1))), be8(c2) + (be8(f2) + (be8(g2) + (be32(b2) + k2))));
            lemma_prefix_cons(SUBSPACE_BITMAPS, be32(a1) + (be8(c1) + (be8(f1) + (be8(g1) + (be32(b1) + k1)))), be32(a2) + (be8(c2) + (be8(f2) + (be8(g2) + (be32(b2) + k2)))));
        },
        (
            KeyView::Acl { grant_account_id: g1, to_account_id: a1, to_collection: c1, to_document_id: d1 },
            KeyView::Acl { grant_account_id: g2, to_account_id: a2, to_collection: c2, to_document_id: d2 },
        ) => {
            lemma_be_order(d1 as nat, d2 as nat, 4);
            lemma_be_cons(c1 as nat, c2 as nat, 1, be32(d1), be32(d2));
            lemma_be_cons(a1 as nat, a2 as nat, 4, be8(c1) + be32(d1), be8(c2) + be32(d2));
            lemma_be_cons(g1 as nat, g2 as nat, 4, be32(a1) + (be8(c1) + be32(d1)), be32(a2) + (be8(c2) + be32(d2)));
            lemma_prefix_cons(SUBSPACE_ACLS, be32(g1) + (be32(a1) + (be8(c1) + be32(d1))), be32(g2) + (be32(a2) + (be8(c2) + be32(d2))));
        },
        (
            KeyView::Log { account_id: a1, collection: c1, change_id: i1 },
            KeyView::Log { account_id: a2, collection: c2, change_id: i2 },
        ) => {
            lemma_be_order(i1 as nat, i2 as nat, 8);
            lemma_be_cons(c1 as nat, c2 as nat, 1, be64(i1), be64(i2));
            lemma_be_cons(a1 as nat, a2 as nat, 4, be8(c1) + be64(i1), be8(c2) + be64(i2));
            lemma_prefix_cons(SUBSPACE_LOGS, be32(a1) + (be8(c1) + be64(i1)), be32(a2) + (be8(c2) + be64(i2)));
        },
        (KeyView::Counter { account_id: a1 }, KeyView::Counter { account_id: a2 }) => {
            lemma_be_order(a1 as nat, a2 as nat, 4);
            lemma_prefix_cons(SUBSPACE_VALUES, be32(a1), be32(a2));
        },
        _ => {},
    }
}


fn push_u32(out: &mut Vec<u8>, x: u32)
    ensures
        final(out)@ == old(out)@ + be32(x),
{
    push_be(out, x as u64, 4);
}

fn push_u8(out: &mut Vec<u8>, x: u8)
    ensures
        final(out)@ == old(out)@ + be8(x),
{
    push_be(out, x as u64, 1);
}

fn get_u32(b: &Vec<u8>, at: usize) -> (r: u32)
    requires
        at + 4 <= b@.len(),
    ensures
        r == get32(b@, at as int),
{
    let v = read_be(b, at, 4);
    proof {
        lemma_be_from_be(b@.subrange(at as int, at + 4));
        lemma_pow_widths();
    }
    v as u32
}

impl ValueKey {
    pub fn serialize(&self) -> (r: Vec<u8>)
        ensures
            r@ == serialize_key(self@),
    {
        let mut out: Vec<u8> = Vec::new();
        out.push(SUBSPACE_VALUES);
        push_u32(&mut out, self.account_id);
        push_u8(&mut out, self.collection);
        push_u32(&mut out, self.document_id);
        push_u8(&mut out, self.family);
        push_u8(&mut out, self.field);
        assert(out@ =~= serialize_key(self@));
        out
    }
}

impl IndexKey {
    pub fn serialize(&self) -> (r: Vec<u8>)
        ensures
            r@ == serialize_key(self@),
    {
        let mut out: Vec<u8> = Vec::new();
        out.push(SUBSPACE_INDEXES);
        push_u32(&mut out, self.account_id);
        push_u8(&mut out, self.collection);
        push_u8(&mut out, self.field);
        push_u32(&mut out, self.document_id);
        crate::codec::append_bytes(&mut out, &self.key);
        assert(out@ =~= serialize_key(self@));
        out
    }
}

impl BitmapKey {
    pub fn serialize(&self) -> (r: Vec<u8>)
        ensures
            r@ == serialize_key(self@),
    {
        let mut out: Vec<u8> = Vec::new();
        out.push(SUBSPACE_BITMAPS);
        push_u32(&mut out, self.account_id);
        push_u8(&mut out, self.collection);
        push_u8(&mut out, self.family);
        push_u8(&mut out, self.field);
        push_u32(&mut out, self.block_num);
        crate::codec::append_bytes(&mut out, &self.key);
        assert(out@ =~= serialize_key(self@));
        out
    }
}

impl AclKey {
    pub fn serialize(&self) -> (r: Vec<u8>)
        ensures
            r@ == serialize_key(self@),
    {
        let mut out: Vec<u8> = Vec::new();
        out.push(SUBSPACE_ACLS);
        push_u32(&mut out, self.grant_account_id);
        push_u32(&mut out, self.to_account_id);
        push_u8(&mut out, self.to_collection);
        push_u32(&mut out, self.to_document_id);
        assert(out@ =~= serialize_key(self@));
        out
    }
}

impl LogKey {
    pub fn serialize(&self) -> (r: Vec<u8>)
        ensures
            r@ == serialize_key(self@),
    {
        let mut out: Vec<u8> = Vec::new();
        out.push(SUBSPACE_LOGS);
        push_u32(&mut out, self.account_id);
        push_u8(&mut out, self.collection);
        push_be(&mut out, self.change_id, 8);
        assert(out@ =~= serialize_key(self@));
        out
    }
}

/// The key of an account's change counter.
pub fn counter_key(account_id: u32) -> (r: Vec<u8>)
    ensures
        r@ == serialize_key(KeyView::Counter { account_id }),
{
    let mut out: Vec<u8> = Vec::new();
    out.push(SUBSPACE_VALUES);
    push_u32(&mut out, account_id);
    assert(out@ =~= serialize_key(KeyView::Counter { account_id }));
    out
}

pub open spec fn option_key_view(k: Option<Key>) -> Option<KeyView> {
    match k {
        Some(k) => Some(k@),
        None => None,
    }
}

impl Key {
    pub fn serialize(&self) -> (r: Vec<u8>)
        ensures
            r@ == serialize_key(self@),
    {
        match self {
            Key::Value(k) => k.serialize(),
            Key::Index(k) => k.serialize(),
            Key::Bitmap(k) => k.serialize(),
            Key::Acl(k) => k.serialize(),
            Key::Log(k) => k.serialize(),
            Key::Counter(a) => counter_key(*a),
        }
    }

    /// Reads a key from its bytes; `None` where the bytes are no key.
    pub fn deserialize(b: &Vec<u8>) -> (r: Option<Key>)
        ensures
            option_key_view(r) == deserialize_key(b@),
    {
        let len = b.len();
        if len == 0 {
            return None;
        }
        let p = b[0];
        if p == SUBSPACE_VALUES && len == VALUE_KEY_LEN {
            Some(
                Key::Value(
                    ValueKey {
                        account_id: get_u32(b, 1),
                        collection: b[5],
                        document_id: get_u32(b, 6),
                        family: b[10],
                        field: b[11],
                    },
                ),
            )
        } else if p == SUBSPACE_VALUES && len == COUNTER_KEY_LEN {
            Some(Key::Counter(get_u32(b, 1)))
        } else if p == SUBSPACE_INDEXES && len >= INDEX_KEY_LEN {
            Some(
                Key::Index(
                    IndexKey {
                        account_id: get_u32(b, 1),
                        collection: b[5],
                        field: b[6],
                        document_id: get_u32(b, 7),
                        key: crate::codec::copy_range(b, INDEX_KEY_LEN, len),
                    },
                ),
            )
        } else if p == SUBSPACE_BITMAPS && len >= BITMAP_KEY_LEN {
            Some(
                Key::Bitmap(
                    BitmapKey {
                        account_id: get_u32(b, 1),
                        collection: b[5],
                        family: b[6],
                        field: b[7],
                        block_num: get_u32(b, 8),
                        key: crate::codec::copy_range(b, BITMAP_KEY_LEN, len),
                    },
                ),
            )
        } else if p == SUBSPACE_ACLS && len == ACL_KEY_LEN {
            Some(
                Key::Acl(
                    AclKey {
                        grant_account_id: get_u32(b, 1),
                        to_account_id: get_u32(b, 5),
                        to_collection: b[9],
                        to_document_id: get_u32(b, 10),
                    },
                ),
            )
        } else if p == SUBSPACE_LOGS && len == LOG_KEY_LEN {
            let change_id = read_be(b, 6, 8);
            Some(Key::Log(LogKey { account_id: get_u32(b, 1), collection: b[5], change_id }))
        } else {
            None
        }
    }
}

} // verus!
