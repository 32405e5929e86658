//! Batches of typed operations and their atomic application to a store.
use vstd::prelude::*;
use crate::bitmap::{block_bit, set_bit, spec_block_num, zero_block, DenseBitmap};
use crate::codec::{copy_bytes, bytes_eq, read_be, lemma_be_from_be, lemma_from_be_be,
    lemma_pow_widths};
use crate::hashed::{byte_map_contents, byte_map_entries, byte_map_get, byte_map_insert,
    byte_map_new, ByteMap};
use crate::keys::{be64, serialize_key, AclKey, BitmapKey, IndexKey, KeyView, LogKey, ValueKey};
use crate::store::{or_bytes, stored, xor_bytes, MemoryStore};

verus! {

/// Attempts before a conflicting commit is given up.
pub const MAX_COMMIT_ATTEMPTS: u32 = 10;
/// Time, in milliseconds, after which a conflicting commit is given up.
pub const MAX_COMMIT_TIME_MS: u64 = 10_000;

/// Why a write did not commit.
#[derive(Debug, PartialEq, Eq, Structural)]
pub enum StoreError {
    /// An `AssertValue` operation found another value; nothing was written.
    AssertValueFailed,
    /// The backend failed, with this error code, and the retry budget is
    /// spent.
    Backend(i32),
    /// A stored value does not have the shape its key calls for.
    InvalidValue,
}

/// What the value under a key must be for a batch to commit.
pub enum AssertValue {
    /// Exactly these bytes.
    Bytes(Vec<u8>),
    /// The eight-byte big-endian encoding of this number.
    U64(u64),
}

impl AssertValue {
    pub open spec fn spec_matches(&self, v: Seq<u8>) -> bool {
        match self {
            AssertValue::Bytes(e) => v == e@,
            AssertValue::U64(x) => v == be64(*x),
        }
    }

    pub fn matches(&self, v: &Vec<u8>) -> (r: bool)
        ensures
            r == self.spec_matches(v@),
    {
        match self {
            AssertValue::Bytes(e) => bytes_eq(v, e),
            AssertValue::U64(x) => {
                if v.len() != 8 {
                    proof {
                        crate::codec::lemma_be_len(*x as nat, 8);
                    }
                    return false;
                }
                let y = read_be(v, 0, 8);
                proof {
                    assert(v@.subrange(0, 8) =~= v@);
                    lemma_be_from_be(v@);
                    lemma_pow_widths();
                    lemma_from_be_be(*x as nat, 8);
                    crate::codec::lemma_be_len(*x as nat, 8);
                }
                y == *x
            },
        }
    }
}

/// One operation of a batch. `AccountId`, `Collection` and `DocumentId` set
/// the scope that the operations after them act in.
#[allow(inconsistent_fields)]
pub enum Operation {
    AccountId { account_id: u32 },
    Collection { collection: u8 },
    DocumentId { document_id: u32 },
    Value { family: u8, field: u8, set: Option<Vec<u8>> },
    Index { field: u8, key: Vec<u8>, set: bool },
    Bitmap { family: u8, field: u8, key: Vec<u8>, set: bool },
    Acl { grant_account_id: u32, set: Option<Vec<u8>> },
    Log { collection: u8, change_id: u64, set: Vec<u8> },
    AssertValue { field: u8, family: u8, assert_value: AssertValue },
}

/// An ordered sequence of operations that commits as one transaction.
pub struct Batch {
    pub ops: Vec<Operation>,
}

/// The contents of a store.
pub type StoreMap = Map<Seq<u8>, Seq<u8>>;

/// The scope (account, collection, document) in force after the first `i`
/// operations; each part is all ones until set.
pub open spec fn scope_after(ops: Seq<Operation>, i: int) -> (u32, u8, u32)
    decreases i,
{
    if i <= 0 {
        (u32::MAX, u8::MAX, u32::MAX)
    } else {
        let s = scope_after(ops, i - 1);
        match ops[i - 1] {
            Operation::AccountId { account_id } => (account_id, s.1, s.2),
            Operation::Collection { collection } => (s.0, collection, s.2),
            Operation::DocumentId { document_id } => (s.0, s.1, document_id),
            _ => s,
        }
    }
}

pub open spec fn value_key_of(s: (u32, u8, u32), family: u8, field: u8) -> Seq<u8> {
    serialize_key(
        KeyView::Value { account_id: s.0, collection: s.1, document_id: s.2, family, field },
    )
}

pub open spec fn bitmap_key_of(s: (u32, u8, u32), family: u8, field: u8, key: Seq<u8>) -> Seq<u8> {
    serialize_key(
        KeyView::Bitmap {
            account_id: s.0,
            collection: s.1,
            family,
            field,
            block_num: spec_block_num(s.2),
            key,
        },
    )
}

/// What one non-bitmap operation does to the transaction's view of the
/// store, in scope `s`; `None` where an assertion fails.
pub open spec fn step(op: Operation, s: (u32, u8, u32), w: StoreMap) -> Option<StoreMap> {
    match op {
        Operation::Value { family, field, set } => {
            let k = value_key_of(s, family, field);
            match set {
                Some(v) => Some(w.insert(k, v@)),
                None => Some(w.remove(k)),
            }
        },
        Operation::Index { field, key, set } => {
            let k = serialize_key(
                KeyView::Index {
                    account_id: s.0,
                    collection: s.1,
                    field,
                    document_id: s.2,
                    key: key@,
                },
            );
            if set {
                Some(w.insert(k, Seq::empty()))
            } else {
                Some(w.remove(k))
            }
        },
        Operation::Acl { grant_account_id, set } => {
            let k = serialize_key(
                KeyView::Acl {
                    grant_account_id,
                    to_account_id: s.0,
                    to_collection: s.1,
                    to_document_id: s.2,
                },
            );
            match set {
                Some(v) => Some(w.insert(k, v@)),
                None => Some(w.remove(k)),
            }
        },
        Operation::Log { collection, change_id, set } => {
            let k = serialize_key(KeyView::Log { account_id: s.0, collection, change_id });
            Some(w.insert(k, set@))
        },
        Operation::AssertValue { field, family, assert_value } => {
            let k = value_key_of(s, family, field);
            if w.contains_key(k) && assert_value.spec_matches(w[k]) {
                Some(w)
            } else {
                None
            }
        },
        _ => Some(w),
    }
}

/// The transaction's view of the store after the first `i` operations,
/// bitmap merges aside; `None` once an assertion has failed.
pub open spec fn replay(ops: Seq<Operation>, i: int, m: StoreMap) -> Option<StoreMap>
    decreases i,
{
    if i <= 0 {
        Some(m)
    } else {
        match replay(ops, i - 1, m) {
            None => None,
            Some(w) => step(ops[i - 1], scope_after(ops, i - 1), w),
        }
    }
}

/// The bitmap blocks that the first `i` operations set (`set`) or clear
/// (`!set`), by serialized bitmap key.
pub open spec fn bitmap_acc(ops: Seq<Operation>, i: int, set: bool) -> StoreMap
    decreases i,
{
    if i <= 0 {
        Map::empty()
    } else {
        let a = bitmap_acc(ops, i - 1, set);
        match ops[i - 1] {
            Operation::Bitmap { family, field, key, set: is_set } => {
                if is_set == set {
                    let s = scope_after(ops, i - 1);
                    let k = bitmap_key_of(s, family, field, key@);
                    let prev = if a.contains_key(k) {
                        a[k]
                    } else {
                        zero_block()
                    };
                    a.insert(k, set_bit(prev, block_bit(s.2)))
                } else {
                    a
                }
            },
            _ => a,
        }
    }
}

/// `w` after an atomic OR of each block of `a` into its key.
pub open spec fn or_into(w: StoreMap, a: StoreMap) -> StoreMap {
    Map::new(
        |k: Seq<u8>| w.contains_key(k) || a.contains_key(k),
        |k: Seq<u8>|
            if a.contains_key(k) {
                or_bytes(stored(w, k), a[k])
            } else {
                w[k]
            },
    )
}

/// `w` after an atomic XOR of each block of `a` into its key.
pub open spec fn xor_into(w: StoreMap, a: StoreMap) -> StoreMap {
    Map::new(
        |k: Seq<u8>| w.contains_key(k) || a.contains_key(k),
        |k: Seq<u8>|
            if a.contains_key(k) {
                xor_bytes(stored(w, k), a[k])
            } else {
                w[k]
            },
    )
}

/// The store after committing `ops` on `m`, or `None` where an assertion of
/// the batch fails.
pub open spec fn commit_of(ops: Seq<Operation>, m: StoreMap) -> Option<StoreMap> {
    match replay(ops, ops.len() as int, m) {
        None => None,
        Some(w) => Some(
            xor_into(
                or_into(w, bitmap_acc(ops, ops.len() as int, true)),
                bitmap_acc(ops, ops.len() as int, false),
            ),
        ),
    }
}


/// Adds a document id to the block under `key` of an accumulator.
fn accumulate(acc: &mut ByteMap, key: Vec<u8>, document_id: u32)
    requires
        forall|k: Seq<u8>| #[trigger]
            byte_map_contents(*old(acc)).contains_key(k) ==> byte_map_contents(*old(acc))[k].len()
                == 128,
    ensures
        byte_map_contents(*final(acc)) == byte_map_contents(*old(acc)).insert(
            key@,
            set_bit(
                (if byte_map_contents(*old(acc)).contains_key(key@) {
                    byte_map_contents(*old(acc))[key@]
                } else {
                    zero_block()
                }),
                block_bit(document_id),
            ),
        ),
        forall|k: Seq<u8>| #[trigger]
            byte_map_contents(*final(acc)).contains_key(k) ==> byte_map_contents(*final(acc))[k].len()
                == 128,
{
    let mut block = match byte_map_get(acc, &key) {
        Some(bytes) => DenseBitmap { bitmap: bytes },
        None => DenseBitmap::empty(),
    };
    block.set(document_id);
    byte_map_insert(acc, key, block.bitmap);
}


proof fn lemma_bit_or_keeps(x: u8, y: u8, s: u8)
    requires
        s < 8,
        x & (1u8 << s) != 0,
    ensures
        (x | y) & (1u8 << s) != 0,
{
    assert((x & (1u8 << s) != 0) ==> ((x | y) & (1u8 << s) != 0)) by (bit_vector)
        requires
            s < 8,
    ;
}

proof fn lemma_bit_or_sets(x: u8, s: u8)
    requires
        s < 8,
    ensures
        (x | (1u8 << s)) & (1u8 << s) != 0,
        (x | (1u8 << s)) | (1u8 << s) == x | (1u8 << s),
{
    assert((x | (1u8 << s)) & (1u8 << s) != 0) by (bit_vector)
        requires
            s < 8,
    ;
    assert((x | (1u8 << s)) | (1u8 << s) == x | (1u8 << s)) by (bit_vector);
}

proof fn lemma_bit_or_xor_clears(x: u8, a: u8, c: u8, s: u8)
    requires
        s < 8,
        a & (1u8 << s) != 0,
        c & (1u8 << s) != 0,
    ensures
        ((x | a) ^ c) & (1u8 << s) == 0,
{
    assert((a & (1u8 << s) != 0 && c & (1u8 << s) != 0) ==> ((x | a) ^ c) & (1u8 << s) == 0)
        by (bit_vector)
        requires
            s < 8,
    ;
}

/// Setting a bit leaves it set, and leaves every set bit set.
proof fn lemma_set_bit_has(b: Seq<u8>, j: int, q: int)
    requires
        b.len() == 128,
        0 <= j < 1024,
        q == j || crate::bitmap::has_bit(b, q),
    ensures
        crate::bitmap::has_bit(set_bit(b, j), q),
        set_bit(b, j).len() == 128,
{
    let s = set_bit(b, j);
    assert(0 <= j / 8 < 128);
    lemma_bit_or_sets(b[j / 8], (j % 8) as u8);
    if q != j && q / 8 == j / 8 {
        lemma_bit_or_keeps(b[q / 8], 1u8 << ((j % 8) as u8), (q % 8) as u8);
    }
}

/// Blocks of an accumulator are full blocks.
proof fn lemma_acc_len(ops: Seq<Operation>, i: int, set: bool)
    ensures
        forall|k: Seq<u8>| #[trigger]
            bitmap_acc(ops, i, set).contains_key(k) ==> bitmap_acc(ops, i, set)[k].len() == 128,
    decreases i,
{
    if i > 0 {
        lemma_acc_len(ops, i - 1, set);
        let a = bitmap_acc(ops, i - 1, set);
        if let Operation::Bitmap { family, field, key, set: is_set } = ops[i - 1] {
            if is_set == set {
                let s = scope_after(ops, i - 1);
                let k = bitmap_key_of(s, family, field, key@);
                let prev = if a.contains_key(k) {
                    a[k]
                } else {
                    zero_block()
                };
                assert(prev.len() == 128);
                assert(set_bit(prev, block_bit(s.2)).len() == 128);
            }
        }
    }
}

/// A bit once in an accumulator stays there.
proof fn lemma_acc_keeps(ops: Seq<Operation>, i: int, n: int, set: bool, k: Seq<u8>, q: int)
    requires
        0 <= i <= n,
        bitmap_acc(ops, i, set).contains_key(k),
        crate::bitmap::has_bit(bitmap_acc(ops, i, set)[k], q),
    ensures
        bitmap_acc(ops, n, set).contains_key(k),
        crate::bitmap::has_bit(bitmap_acc(ops, n, set)[k], q),
    decreases n - i,
{
    if i < n {
        lemma_acc_keeps(ops, i, n - 1, set, k, q);
        lemma_acc_len(ops, n - 1, set);
        let a = bitmap_acc(ops, n - 1, set);
        if let Operation::Bitmap { family, field, key, set: is_set } = ops[n - 1] {
            if is_set == set {
                let s = scope_after(ops, n - 1);
                let k2 = bitmap_key_of(s, family, field, key@);
                if k2 == k {
                    lemma_set_bit_has(a[k], block_bit(s.2), q);
                }
            }
        }
    }
}

/// The bit of a bitmap operation is in its accumulator once it has been read.
proof fn lemma_acc_has(ops: Seq<Operation>, i: int, n: int)
    requires
        0 <= i < n,
        ops[i] is Bitmap,
    ensures
        ({
            let s = scope_after(ops, i);
            let k = bitmap_key_of(s, ops[i]->Bitmap_family, ops[i]->Bitmap_field, ops[i]->Bitmap_key@);
            let acc = bitmap_acc(ops, n, ops[i]->Bitmap_set);
            acc.contains_key(k) && crate::bitmap::has_bit(acc[k], block_bit(s.2))
        }),
{
    let set = ops[i]->Bitmap_set;
    let s = scope_after(ops, i);
    let k = bitmap_key_of(s, ops[i]->Bitmap_family, ops[i]->Bitmap_field, ops[i]->Bitmap_key@);
    lemma_acc_len(ops, i, set);
    let a = bitmap_acc(ops, i, set);
    let prev = if a.contains_key(k) {
        a[k]
    } else {
        zero_block()
    };
    lemma_set_bit_has(prev, block_bit(s.2), block_bit(s.2));
    lemma_acc_keeps(ops, i + 1, n, set, k, block_bit(s.2));
}

/// A batch that sets and clears the same document id under the same bitmap
/// key commits with that bit clear: the set is merged by OR, then the clear
/// by XOR.
pub proof fn lemma_set_then_clear(ops: Seq<Operation>, m: StoreMap, i: int, j: int)
    requires
        0 <= i < ops.len(),
        0 <= j < ops.len(),
        ops[i] matches Operation::Bitmap { set: true, .. },
        ops[j] matches Operation::Bitmap { set: false, .. },
        ops[i]->Bitmap_family == ops[j]->Bitmap_family,
        ops[i]->Bitmap_field == ops[j]->Bitmap_field,
        ops[i]->Bitmap_key@ == ops[j]->Bitmap_key@,
        scope_after(ops, i) == scope_after(ops, j),
        commit_of(ops, m) is Some,
    ensures
        ({
            let s = scope_after(ops, i);
            let k = bitmap_key_of(s, ops[i]->Bitmap_family, ops[i]->Bitmap_field, ops[i]->Bitmap_key@);
            let c = commit_of(ops, m)->Some_0;
            c.contains_key(k) && !crate::bitmap::has_bit(c[k], block_bit(s.2))
        }),
{
    let n = ops.len() as int;
    let s = scope_after(ops, i);
    let k = bitmap_key_of(s, ops[i]->Bitmap_family, ops[i]->Bitmap_field, ops[i]->Bitmap_key@);
    lemma_acc_has(ops, i, n);
    lemma_acc_has(ops, j, n);
    lemma_acc_len(ops, n, true);
    lemma_acc_len(ops, n, false);
    let w = replay(ops, n, m)->Some_0;
    let a = bitmap_acc(ops, n, true);
    let cl = bitmap_acc(ops, n, false);
    let o = or_into(w, a);
    let c = xor_into(o, cl);
    assert(c == commit_of(ops, m)->Some_0);
    let q = block_bit(s.2);
    assert(0 <= q / 8 < 128);
    let x = crate::store::byte_at(stored(w, k), q / 8);
    assert(o[k][q / 8] == x | a[k][q / 8]);
    assert(c[k][q / 8] == (x | a[k][q / 8]) ^ cl[k][q / 8]);
    lemma_bit_or_xor_clears(x, a[k][q / 8], cl[k][q / 8], (q % 8) as u8);
}


/// Whether a commit that failed on a conflict is tried again, after
/// `retry_count` retries and `elapsed_ms` milliseconds.
pub fn should_retry(retry_count: u32, elapsed_ms: u64) -> (r: bool)
    ensures
        r == (retry_count < MAX_COMMIT_ATTEMPTS && elapsed_ms < MAX_COMMIT_TIME_MS),
{
    retry_count < MAX_COMMIT_ATTEMPTS && elapsed_ms < MAX_COMMIT_TIME_MS
}

impl MemoryStore {
    /// Removes every key.
    pub fn destroy(&mut self)
        ensures
            final(self).wf(),
            final(self)@ == Map::<Seq<u8>, Seq<u8>>::empty(),
    {
        *self = MemoryStore::new();
    }
}


/// One step of a transaction on the store.
pub enum Mutation {
    Put { key: Vec<u8>, value: Vec<u8> },
    Clear { key: Vec<u8> },
    /// The transaction is cancelled unless the value under `key` matches.
    AssertValue { key: Vec<u8>, assert_value: AssertValue },
    /// Atomic bitwise OR of `param` into the value under `key`.
    BitOr { key: Vec<u8>, param: Vec<u8> },
    /// Atomic bitwise XOR of `param` into the value under `key`.
    BitXor { key: Vec<u8>, param: Vec<u8> },
}

/// What one mutation does to the transaction's view of the store; `None`
/// where an assertion fails.
pub open spec fn apply_mutation(w: StoreMap, mu: Mutation) -> Option<StoreMap> {
    match mu {
        Mutation::Put { key, value } => Some(w.insert(key@, value@)),
        Mutation::Clear { key } => Some(w.remove(key@)),
        Mutation::AssertValue { key, assert_value } => if w.contains_key(key@) && assert_value.spec_matches(
            w[key@],
        ) {
            Some(w)
        } else {
            None
        },
        Mutation::BitOr { key, param } => Some(w.insert(key@, or_bytes(stored(w, key@), param@))),
        Mutation::BitXor { key, param } => Some(w.insert(key@, xor_bytes(stored(w, key@), param@))),
    }
}

/// The store after the mutations in order, or `None` once one fails.
pub open spec fn apply_mutations(m: StoreMap, s: Seq<Mutation>) -> Option<StoreMap>
    decreases s.len(),
{
    if s.len() == 0 {
        Some(m)
    } else {
        match apply_mutations(m, s.drop_last()) {
            None => None,
            Some(w) => apply_mutation(w, s.last()),
        }
    }
}

proof fn lemma_apply_push(m: StoreMap, s: Seq<Mutation>, mu: Mutation)
    ensures
        apply_mutations(m, s.push(mu)) == match apply_mutations(m, s) {
            None => None,
            Some(w) => apply_mutation(w, mu),
        },
{
    assert(s.push(mu).drop_last() =~= s);
}

fn copy_assert(a: &AssertValue) -> (r: AssertValue)
    ensures
        forall|v: Seq<u8>| r.spec_matches(v) == a.spec_matches(v),
{
    match a {
        AssertValue::Bytes(e) => AssertValue::Bytes(copy_bytes(e)),
        AssertValue::U64(x) => AssertValue::U64(*x),
    }
}

/// Appends an atomic merge of each block of `acc`.
fn push_merges(out: &mut Vec<Mutation>, acc: &ByteMap, xor: bool)
    ensures
        forall|m: StoreMap|
            #![trigger apply_mutations(m, final(out)@)]
            apply_mutations(m, final(out)@) == match apply_mutations(m, old(out)@) {
                None => None,
                Some(w) => Some(
                    if xor {
                        xor_into(w, byte_map_contents(*acc))
                    } else {
                        or_into(w, byte_map_contents(*acc))
                    },
                ),
            },
{
    let ghost a = byte_map_contents(*acc);
    let ghost start = out@;
    let entries = byte_map_entries(acc);
    let n = entries.len();
    let mut i: usize = 0;
    let ghost mut done: Set<Seq<u8>> = Set::empty();
    while i < n
        invariant
            n == entries@.len(),
            i <= n,
            a == byte_map_contents(*acc),
            start == old(out)@,
            forall|x: int, y: int| 0 <= x < y < entries@.len() ==> entries@[x].0@ != entries@[y].0@,
            forall|x: int|
                0 <= x < entries@.len() ==> a.contains_key(#[trigger] entries@[x].0@) && a[entries@[x].0@]
                    == entries@[x].1@,
            forall|k: Seq<u8>| done.contains(k) <==> exists|x: int| 0 <= x < i && entries@[x].0@ == k,
            forall|m: StoreMap|
                #![trigger apply_mutations(m, out@)]
                apply_mutations(m, out@) == match apply_mutations(m, start) {
                    None => None,
                    Some(w) => Some(
                        Map::new(
                            |k: Seq<u8>| w.contains_key(k) || done.contains(k),
                            |k: Seq<u8>|
                                if done.contains(k) {
                                    if xor {
                                        xor_bytes(stored(w, k), a[k])
                                    } else {
                                        or_bytes(stored(w, k), a[k])
                                    }
                                } else {
                                    w[k]
                                },
                        ),
                    ),
                },
        decreases n - i,
    {
        let ghost k = entries@[i as int].0@;
        assert(!done.contains(k)) by {
            if done.contains(k) {
                let x = choose|x: int| 0 <= x < i && entries@[x].0@ == k;
                assert(entries@[x].0@ != entries@[i as int].0@);
            }
        }
        let ghost before = out@;
        let ghost old_done = done;
        let key = copy_bytes(&entries[i].0);
        let param = copy_bytes(&entries[i].1);
        let mu = if xor {
            Mutation::BitXor { key, param }
        } else {
            Mutation::BitOr { key, param }
        };
        out.push(mu);
        proof {
            done = done.insert(k);
            assert forall|q: Seq<u8>| done.contains(q) <==> exists|x: int|
                0 <= x < i + 1 && entries@[x].0@ == q by {
                if q == k {
                    assert(entries@[i as int].0@ == q);
                }
            }
            assert forall|m: StoreMap| #![trigger apply_mutations(m, out@)]
                apply_mutations(m, out@) == match apply_mutations(m, start) {
                    None => None,
                    Some(w) => Some(
                        Map::new(
                            |k: Seq<u8>| w.contains_key(k) || done.contains(k),
                            |k: Seq<u8>|
                                if done.contains(k) {
                                    if xor {
                                        xor_bytes(stored(w, k), a[k])
                                    } else {
                                        or_bytes(stored(w, k), a[k])
                                    }
                                } else {
                                    w[k]
                                },
                        ),
                    ),
                } by {
                lemma_apply_push(m, before, out@.last());
                assert(out@ == before.push(out@.last()));
                assert(apply_mutations(m, before) == apply_mutations(m, before));
                if let Some(w) = apply_mutations(m, start) {
                    let p = Map::new(
                        |k: Seq<u8>| w.contains_key(k) || old_done.contains(k),
                        |k: Seq<u8>|
                            if old_done.contains(k) {
                                if xor {
                                    xor_bytes(stored(w, k), a[k])
                                } else {
                                    or_bytes(stored(w, k), a[k])
                                }
                            } else {
                                w[k]
                            },
                    );
                    assert(apply_mutations(m, before) == Some(p));
                    assert(stored(p, k) == stored(w, k));
                    let next = apply_mutation(p, out@.last())->Some_0;
                    assert(next =~= Map::new(
                        |k: Seq<u8>| w.contains_key(k) || done.contains(k),
                        |k: Seq<u8>|
                            if done.contains(k) {
                                if xor {
                                    xor_bytes(stored(w, k), a[k])
                                } else {
                                    or_bytes(stored(w, k), a[k])
                                }
                            } else {
                                w[k]
                            },
                    ));
                }
            }
        }
        i = i + 1;
    }
    assert forall|k: Seq<u8>| done.contains(k) <==> a.contains_key(k) by {
        if a.contains_key(k) {
            let x = choose|x: int| 0 <= x < entries@.len() && entries@[x].0@ == k;
        }
    }
    assert forall|m: StoreMap| #![trigger apply_mutations(m, out@)]
        apply_mutations(m, out@) == match apply_mutations(m, start) {
            None => None,
            Some(w) => Some(
                if xor {
                    xor_into(w, a)
                } else {
                    or_into(w, a)
                },
            ),
        } by {
        if let Some(w) = apply_mutations(m, start) {
            if xor {
                assert(apply_mutations(m, out@)->Some_0 =~= xor_into(w, a));
            } else {
                assert(apply_mutations(m, out@)->Some_0 =~= or_into(w, a));
            }
        }
    }
}


/// The mutations that commit a batch: the operations in order, then one
/// atomic OR per block of ids set and one atomic XOR per block of ids
/// cleared. Applied to any store, they do what the batch means; a backend
/// replays them on each attempt of its transaction.
pub fn plan_batch(batch: &Batch) -> (r: Vec<Mutation>)
    ensures
        forall|m: StoreMap| #[trigger] apply_mutations(m, r@) == commit_of(batch.ops@, m),
{
    let ghost ops = batch.ops@;
    let mut set_bitmaps = byte_map_new();
    let mut clear_bitmaps = byte_map_new();
    let mut account_id: u32 = u32::MAX;
    let mut collection: u8 = u8::MAX;
    let mut document_id: u32 = u32::MAX;
    let mut out: Vec<Mutation> = Vec::new();
    let n = batch.ops.len();
    let mut i: usize = 0;
    while i < n
        invariant
            ops == batch.ops@,
            n == ops.len(),
            i <= n,
            (account_id, collection, document_id) == scope_after(ops, i as int),
            forall|m: StoreMap| #[trigger] apply_mutations(m, out@) == replay(ops, i as int, m),
            byte_map_contents(set_bitmaps) == bitmap_acc(ops, i as int, true),
            byte_map_contents(clear_bitmaps) == bitmap_acc(ops, i as int, false),
            forall|k: Seq<u8>| #[trigger]
                byte_map_contents(set_bitmaps).contains_key(k) ==> byte_map_contents(set_bitmaps)[k].len()
                    == 128,
            forall|k: Seq<u8>| #[trigger]
                byte_map_contents(clear_bitmaps).contains_key(k) ==> byte_map_contents(
                    clear_bitmaps,
                )[k].len() == 128,
        decreases n - i,
    {
        let ghost s = (account_id, collection, document_id);
        let ghost before = out@;
        let mut pushed: Option<Mutation> = None;
        match &batch.ops[i] {
            Operation::AccountId { account_id: a } => {
                account_id = *a;
            },
            Operation::Collection { collection: c } => {
                collection = *c;
            },
            Operation::DocumentId { document_id: d } => {
                document_id = *d;
            },
            Operation::Value { family, field, set } => {
                let key = ValueKey {
                    account_id,
                    collection,
                    document_id,
                    family: *family,
                    field: *field,
                }.serialize();
                pushed = Some(
                    match set {
                        Some(v) => Mutation::Put { key, value: copy_bytes(v) },
                        None => Mutation::Clear { key },
                    },
                );
            },
            Operation::Index { field, key, set } => {
                let k = IndexKey {
                    account_id,
                    collection,
                    document_id,
                    field: *field,
                    key: copy_bytes(key),
                }.serialize();
                pushed = Some(
                    if *set {
                        Mutation::Put { key: k, value: Vec::new() }
                    } else {
                        Mutation::Clear { key: k }
                    },
                );
            },
            Operation::Bitmap { family, field, key, set } => {
                let k = BitmapKey {
                    account_id,
                    collection,
                    family: *family,
                    field: *field,
                    block_num: DenseBitmap::block_num(document_id),
                    key: copy_bytes(key),
                }.serialize();
                if *set {
                    accumulate(&mut set_bitmaps, k, document_id);
                } else {
                    accumulate(&mut clear_bitmaps, k, document_id);
                }
            },
            Operation::Acl { grant_account_id, set } => {
                let key = AclKey {
                    grant_account_id: *grant_account_id,
                    to_account_id: account_id,
                    to_collection: collection,
                    to_document_id: document_id,
                }.serialize();
                pushed = Some(
                    match set {
                        Some(v) => Mutation::Put { key, value: copy_bytes(v) },
                        None => Mutation::Clear { key },
                    },
                );
            },
            Operation::Log { collection: c, change_id, set } => {
                let key = LogKey { account_id, collection: *c, change_id: *change_id }.serialize();
                pushed = Some(Mutation::Put { key, value: copy_bytes(set) });
            },
            Operation::AssertValue { field, family, assert_value } => {
                let key = ValueKey {
                    account_id,
                    collection,
                    document_id,
                    family: *family,
                    field: *field,
                }.serialize();
                pushed = Some(Mutation::AssertValue { key, assert_value: copy_assert(assert_value) });
            },
        }
        proof {
            assert forall|w: StoreMap| step(ops[i as int], s, w) == match pushed {
                None => Some(w),
                Some(mu) => apply_mutation(w, mu),
            } by {
                if let Some(mu) = pushed {
                    if let Mutation::Put { key, value } = mu {
                        if let Operation::Index { field, key: ik, set } = ops[i as int] {
                            assert(value@ =~= Seq::<u8>::empty());
                        }
                    }
                }
            }
        }
        match pushed {
            Some(mu) => {
                out.push(mu);
            },
            None => {},
        }
        proof {
            assert forall|m: StoreMap| #[trigger] apply_mutations(m, out@) == replay(ops, i + 1, m) by {
                assert(apply_mutations(m, before) == replay(ops, i as int, m));
                if out@.len() > before.len() {
                    lemma_apply_push(m, before, out@.last());
                    assert(out@ == before.push(out@.last()));
                }
            }
        }
        i = i + 1;
    }
    push_merges(&mut out, &set_bitmaps, false);
    let ghost middle = out@;
    push_merges(&mut out, &clear_bitmaps, true);
    proof {
        assert forall|m: StoreMap| #[trigger] apply_mutations(m, out@) == commit_of(ops, m) by {
            assert(apply_mutations(m, middle) == apply_mutations(m, middle));
        }
    }
    out
}


proof fn lemma_apply_stays_failed(m: StoreMap, s: Seq<Mutation>, i: int)
    requires
        0 <= i <= s.len(),
        apply_mutations(m, s.subrange(0, i)) is None,
    ensures
        apply_mutations(m, s) is None,
    decreases s.len() - i,
{
    if i < s.len() {
        lemma_apply_push(m, s.subrange(0, i), s[i]);
        assert(s.subrange(0, i).push(s[i]) =~= s.subrange(0, i + 1));
        lemma_apply_stays_failed(m, s, i + 1);
    } else {
        assert(s.subrange(0, i) =~= s);
    }
}

impl MemoryStore {
    /// Applies mutations as one transaction: all of them, or, where an
    /// assertion fails, none.
    pub fn apply_plan(&mut self, plan: &Vec<Mutation>) -> (r: Result<(), StoreError>)
        requires
            old(self).wf(),
        ensures
            final(self).wf(),
            match apply_mutations(old(self)@, plan@) {
                Some(m) => r == Ok::<(), StoreError>(()) && final(self)@ == m,
                None => r == Err::<(), StoreError>(StoreError::AssertValueFailed) && final(self)@
                    == old(self)@,
            },
    {
        let ghost m = self@;
        let mut trx = self.snapshot();
        let n = plan.len();
        let mut i: usize = 0;
        while i < n
            invariant
                trx.wf(),
                self.wf(),
                self@ == m,
                n == plan@.len(),
                i <= n,
                apply_mutations(m, plan@.subrange(0, i as int)) == Some(trx@),
            decreases n - i,
        {
            let ghost w = trx@;
            proof {
                lemma_apply_push(m, plan@.subrange(0, i as int), plan@[i as int]);
                assert(plan@.subrange(0, i as int).push(plan@[i as int]) =~= plan@.subrange(0, i + 1));
            }
            match &plan[i] {
                Mutation::Put { key, value } => trx.set(copy_bytes(key), copy_bytes(value)),
                Mutation::Clear { key } => trx.clear(key),
                Mutation::AssertValue { key, assert_value } => {
                    let ok = match trx.get(key) {
                        Some(v) => assert_value.matches(&v),
                        None => false,
                    };
                    if !ok {
                        proof {
                            lemma_apply_stays_failed(m, plan@, i + 1);
                        }
                        return Err(StoreError::AssertValueFailed);
                    }
                },
                Mutation::BitOr { key, param } => trx.atomic_or(copy_bytes(key), param),
                Mutation::BitXor { key, param } => trx.atomic_xor(copy_bytes(key), param),
            }
            i = i + 1;
        }
        assert(plan@.subrange(0, n as int) =~= plan@);
        *self = trx;
        Ok(())
    }

    /// Applies a batch as one transaction: either every operation takes
    /// effect, or, where an assertion fails, none does.
    pub fn write(&mut self, batch: &Batch) -> (r: Result<(), StoreError>)
        requires
            old(self).wf(),
        ensures
            final(self).wf(),
            match commit_of(batch.ops@, old(self)@) {
                Some(m) => r == Ok::<(), StoreError>(()) && final(self)@ == m,
                None => r == Err::<(), StoreError>(StoreError::AssertValueFailed) && final(self)@
                    == old(self)@,
            },
    {
        let plan = plan_batch(batch);
        assert(apply_mutations(self@, plan@) == commit_of(batch.ops@, self@));
        self.apply_plan(&plan)
    }
}

proof fn lemma_key_subspace(k: KeyView)
    ensures
        serialize_key(k).len() > 0,
        serialize_key(k)[0] == match k {
            KeyView::Value { .. } => crate::keys::SUBSPACE_VALUES,
            KeyView::Index { .. } => crate::keys::SUBSPACE_INDEXES,
            KeyView::Bitmap { .. } => crate::keys::SUBSPACE_BITMAPS,
            KeyView::Acl { .. } => crate::keys::SUBSPACE_ACLS,
            KeyView::Log { .. } => crate::keys::SUBSPACE_LOGS,
            KeyView::Counter { .. } => crate::keys::SUBSPACE_VALUES,
        },
{
}

/// The operations of a batch other than bitmap ones leave the bitmap
/// subspace alone.
proof fn lemma_replay_keeps_bitmaps(ops: Seq<Operation>, i: int, m: StoreMap, k: Seq<u8>)
    requires
        0 <= i,
        k.len() > 0,
        k[0] == crate::keys::SUBSPACE_BITMAPS,
        replay(ops, i, m) is Some,
    ensures
        stored(replay(ops, i, m)->Some_0, k) == stored(m, k),
    decreases i,
{
    if i > 0 {
        lemma_replay_keeps_bitmaps(ops, i - 1, m, k);
        let s = scope_after(ops, i - 1);
        match ops[i - 1] {
            Operation::Value { family, field, .. } => {
                lemma_key_subspace(KeyView::Value { account_id: s.0, collection: s.1, document_id: s.2, family, field });
            },
            Operation::AssertValue { family, field, .. } => {
                lemma_key_subspace(KeyView::Value { account_id: s.0, collection: s.1, document_id: s.2, family, field });
            },
            Operation::Index { field, key, .. } => {
                lemma_key_subspace(KeyView::Index { account_id: s.0, collection: s.1, field, document_id: s.2, key: key@ });
            },
            Operation::Acl { grant_account_id, .. } => {
                lemma_key_subspace(KeyView::Acl { grant_account_id, to_account_id: s.0, to_collection: s.1, to_document_id: s.2 });
            },
            Operation::Log { collection, change_id, .. } => {
                lemma_key_subspace(KeyView::Log { account_id: s.0, collection, change_id });
            },
            _ => {},
        }
    }
}

proof fn lemma_bit_or_other(x: u8, t: u8, s: u8)
    requires
        s < 8,
        t < 8,
        t != s,
        x & (1u8 << s) == 0,
    ensures
        (x | (1u8 << t)) & (1u8 << s) == 0,
{
    assert((t < 8 && s < 8 && t != s && x & (1u8 << s) == 0) ==> (x | (1u8 << t)) & (1u8 << s) == 0)
        by (bit_vector);
}

/// An accumulator holds no bit that no bitmap operation of its kind names.
proof fn lemma_acc_lacks(ops: Seq<Operation>, n: int, set: bool, k: Seq<u8>, q: int)
    requires
        0 <= q < 1024,
        forall|i: int|
            #![trigger ops[i]]
            0 <= i < n && ops[i] is Bitmap && ops[i]->Bitmap_set == set && bitmap_key_of(
                scope_after(ops, i),
                ops[i]->Bitmap_family,
                ops[i]->Bitmap_field,
                ops[i]->Bitmap_key@,
            ) == k ==> block_bit(scope_after(ops, i).2) != q,
    ensures
        bitmap_acc(ops, n, set).contains_key(k) ==> !crate::bitmap::has_bit(bitmap_acc(ops, n, set)[k], q),
    decreases n,
{
    if n > 0 {
        lemma_acc_lacks(ops, n - 1, set, k, q);
        lemma_acc_len(ops, n - 1, set);
        let a = bitmap_acc(ops, n - 1, set);
        if let Operation::Bitmap { family, field, key, set: is_set } = ops[n - 1] {
            let s = scope_after(ops, n - 1);
            if is_set == set && bitmap_key_of(s, family, field, key@) == k {
                let prev = if a.contains_key(k) {
                    a[k]
                } else {
                    zero_block()
                };
                let j = block_bit(s.2);
                assert(ops[n - 1] == ops[n - 1]);
                assert(j != q);
                assert(0 <= q / 8 < 128);
                assert(!crate::bitmap::has_bit(prev, q)) by {
                    if !a.contains_key(k) {
                        assert(0u8 & (1u8 << ((q % 8) as u8)) == 0) by (bit_vector);
                    }
                }
                if q / 8 == j / 8 {
                    lemma_bit_or_other(prev[q / 8], (j % 8) as u8, (q % 8) as u8);
                }
            }
        }
    }
}

proof fn lemma_merge_keeps_bit(x: u8, a: u8, c: u8, s: u8)
    requires
        s < 8,
        a & (1u8 << s) == 0,
        c & (1u8 << s) == 0,
    ensures
        ((x | a) ^ c) & (1u8 << s) == x & (1u8 << s),
        (x | a) & (1u8 << s) == x & (1u8 << s),
        (x ^ c) & (1u8 << s) == x & (1u8 << s),
{
    assert((s < 8 && a & (1u8 << s) == 0 && c & (1u8 << s) == 0) ==> (((x | a) ^ c) & (1u8 << s) == x & (1u8
        << s) && (x | a) & (1u8 << s) == x & (1u8 << s) && (x ^ c) & (1u8 << s) == x & (1u8 << s)))
        by (bit_vector);
}

/// A bit of a bitmap block that no bitmap operation of the batch names keeps
/// its value: the merges by OR and XOR touch only the bits the batch sets and
/// clears.
pub proof fn lemma_other_bits_kept(ops: Seq<Operation>, m: StoreMap, k: Seq<u8>, q: int)
    requires
        commit_of(ops, m) is Some,
        k.len() > 0,
        k[0] == crate::keys::SUBSPACE_BITMAPS,
        0 <= q < 1024,
        forall|i: int|
            #![trigger ops[i]]
            0 <= i < ops.len() && ops[i] is Bitmap && bitmap_key_of(
                scope_after(ops, i),
                ops[i]->Bitmap_family,
                ops[i]->Bitmap_field,
                ops[i]->Bitmap_key@,
            ) == k ==> block_bit(scope_after(ops, i).2) != q,
    ensures
        crate::store::byte_at(stored(commit_of(ops, m)->Some_0, k), q / 8) & (1u8 << ((q % 8) as u8))
            == crate::store::byte_at(stored(m, k), q / 8) & (1u8 << ((q % 8) as u8)),
{
    let n = ops.len() as int;
    lemma_replay_keeps_bitmaps(ops, n, m, k);
    lemma_acc_lacks(ops, n, true, k, q);
    lemma_acc_lacks(ops, n, false, k, q);
    lemma_acc_len(ops, n, true);
    lemma_acc_len(ops, n, false);
    let w = replay(ops, n, m)->Some_0;
    let a = bitmap_acc(ops, n, true);
    let cl = bitmap_acc(ops, n, false);
    let o = or_into(w, a);
    let c = xor_into(o, cl);
    let x = crate::store::byte_at(stored(w, k), q / 8);
    let s = (q % 8) as u8;
    assert(0 <= q / 8 < 128);
    let ab: u8 = if a.contains_key(k) { a[k][q / 8] } else { 0 };
    let cb: u8 = if cl.contains_key(k) { cl[k][q / 8] } else { 0 };
    assert(0u8 & (1u8 << s) == 0) by (bit_vector);
    lemma_merge_keeps_bit(x, ab, cb, s);
    if a.contains_key(k) {
        assert(crate::store::byte_at(stored(o, k), q / 8) == x | ab);
    } else {
        assert(stored(o, k) == stored(w, k));
    }
}

/// A batch and its copy up to `i`, where the copy repeats op `i`.
proof fn lemma_agree_upto(p: Seq<Operation>, q: Seq<Operation>, i: int, m: StoreMap)
    requires
        0 <= i <= p.len(),
        i <= q.len(),
        forall|x: int| 0 <= x < i ==> p[x] == q[x],
    ensures
        scope_after(p, i) == scope_after(q, i),
        replay(p, i, m) == replay(q, i, m),
        bitmap_acc(p, i, true) == bitmap_acc(q, i, true),
        bitmap_acc(p, i, false) == bitmap_acc(q, i, false),
    decreases i,
{
    if i > 0 {
        lemma_agree_upto(p, q, i - 1, m);
    }
}

proof fn lemma_dup_agrees(ops: Seq<Operation>, i: int, j: int, m: StoreMap)
    requires
        0 <= i < ops.len(),
        ops[i] is Bitmap,
        i + 1 <= j <= ops.len(),
    ensures
        ({
            let dup = ops.insert(i + 1, ops[i]);
            &&& scope_after(dup, j + 1) == scope_after(ops, j)
            &&& replay(dup, j + 1, m) == replay(ops, j, m)
            &&& bitmap_acc(dup, j + 1, true) == bitmap_acc(ops, j, true)
            &&& bitmap_acc(dup, j + 1, false) == bitmap_acc(ops, j, false)
        }),
    decreases j,
{
    let dup = ops.insert(i + 1, ops[i]);
    if j == i + 1 {
        lemma_agree_upto(ops, dup, i + 1, m);
        assert(dup[i + 1] == ops[i]);
        let b = ops[i];
        let set = b->Bitmap_set;
        let s = scope_after(ops, i);
        let k = bitmap_key_of(s, b->Bitmap_family, b->Bitmap_field, b->Bitmap_key@);
        lemma_acc_has(ops, i, i + 1);
        lemma_acc_len(ops, i + 1, set);
        let a = bitmap_acc(ops, i + 1, set);
        let q = block_bit(s.2);
        assert(0 <= q / 8 < 128);
        lemma_bit_or_sets(a[k][q / 8], (q % 8) as u8);
        assert(set_bit(a[k], q) =~= a[k]) by {
            let a0 = bitmap_acc(ops, i, set);
            let prev = if a0.contains_key(k) { a0[k] } else { zero_block() };
            lemma_acc_len(ops, i, set);
            assert(a[k] == set_bit(prev, q));
            lemma_bit_or_sets(prev[q / 8], (q % 8) as u8);
        }
        assert(bitmap_acc(dup, i + 2, set) =~= a);
    } else {
        lemma_dup_agrees(ops, i, j - 1, m);
        assert(dup[j] == ops[j - 1]);
    }
}

/// Setting a bit twice is setting it once: repeating a bitmap operation
/// anywhere in a batch commits as the batch does.
pub proof fn lemma_repeat_bitmap_op(ops: Seq<Operation>, i: int, m: StoreMap)
    requires
        0 <= i < ops.len(),
        ops[i] is Bitmap,
    ensures
        commit_of(ops.insert(i + 1, ops[i]), m) == commit_of(ops, m),
{
    lemma_dup_agrees(ops, i, ops.len() as int, m);
}

} // verus!
