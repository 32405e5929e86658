//! Document-id allocation with expiring reservations, and per-account change
//! ids.
use vstd::prelude::*;
use ahash::AHashSet;
use crate::bitmap::{free_bit, global_id, next_available_index, BITS_PER_BLOCK};
use crate::codec::{from_be, push_be, read_be, lemma_from_be_be, lemma_pow_widths};
use crate::hashed::{id_set_contains, id_set_contents, id_set_insert, id_set_new};
use crate::keys::{be64, deserialize_key, lemma_key_bytes_unique, lemma_key_round_trip,
    serialize_key, IndexKey, Key, KeyView};
use crate::store::{stored, MemoryStore};
use rand::Rng;

verus! {

/// Seconds after which a reservation may be handed out again.
pub const ID_ASSIGNMENT_EXPIRY: u64 = 3600;
/// The index field under which reservations are kept.
pub const RESERVATION_FIELD: u8 = 255;
/// The bitmap family and field of the set of live document ids.
pub const DOCUMENT_IDS_FAMILY: u8 = 0;
pub const DOCUMENT_IDS_FIELD: u8 = 255;

pub open spec fn reservation_key(account_id: u32, collection: u8, document_id: u32) -> Seq<u8> {
    serialize_key(
        KeyView::Index {
            account_id,
            collection,
            field: RESERVATION_FIELD,
            document_id,
            key: Seq::empty(),
        },
    )
}

pub open spec fn document_ids_key(account_id: u32, collection: u8, block_num: u32) -> Seq<u8> {
    serialize_key(
        KeyView::Bitmap {
            account_id,
            collection,
            family: DOCUMENT_IDS_FAMILY,
            field: DOCUMENT_IDS_FIELD,
            block_num,
            key: Seq::empty(),
        },
    )
}

/// A reservation value is an eight-byte timestamp; it has expired once
/// `ID_ASSIGNMENT_EXPIRY` seconds have passed. Any other value is live.
pub open spec fn is_expired(v: Seq<u8>, now: u64) -> bool {
    v.len() == 8 && from_be(v) + ID_ASSIGNMENT_EXPIRY <= now
}

/// Ids whose reservation has expired.
pub open spec fn expired_ids(m: Map<Seq<u8>, Seq<u8>>, a: u32, c: u8, now: u64) -> Set<u32> {
    Set::new(
        |d: u32|
            m.contains_key(reservation_key(a, c, d)) && is_expired(m[reservation_key(a, c, d)], now),
    )
}

/// Ids under a live reservation.
pub open spec fn reserved_ids(m: Map<Seq<u8>, Seq<u8>>, a: u32, c: u8, now: u64) -> Set<u32> {
    Set::new(
        |d: u32|
            m.contains_key(reservation_key(a, c, d)) && !is_expired(m[reservation_key(a, c, d)], now),
    )
}

/// Ids that a stored block of live document ids has clear and that no live
/// reservation holds.
pub open spec fn free_ids(m: Map<Seq<u8>, Seq<u8>>, a: u32, c: u8, reserved: Set<u32>) -> Set<u32> {
    Set::new(
        |d: u32|
            exists|b: u32, j: int|
                m.contains_key(document_ids_key(a, c, b)) && free_bit(m[document_ids_key(a, c, b)], b, reserved, j)
                    && d == global_id(b, j),
    )
}

/// The id that the last resort gives: the lowest of the first block that is
/// not reserved, else `BITS_PER_BLOCK`.
pub open spec fn fallback_ok(reserved: Set<u32>, d: u32) -> bool {
    ||| (d < BITS_PER_BLOCK && !reserved.contains(d) && forall|x: u32| x < d ==> reserved.contains(x))
    ||| (d == BITS_PER_BLOCK && forall|x: u32| x < BITS_PER_BLOCK ==> reserved.contains(x))
}

/// The id that an allocation may hand out: an expired reservation if there is
/// one; else the lowest free id of the stored blocks; else the last resort.
pub open spec fn allocation_ok(m: Map<Seq<u8>, Seq<u8>>, a: u32, c: u8, now: u64, d: u32) -> bool {
    let expired = expired_ids(m, a, c, now);
    let reserved = reserved_ids(m, a, c, now);
    let free = free_ids(m, a, c, reserved);
    if !expired.is_empty() {
        expired.contains(d)
    } else if !free.is_empty() {
        free.contains(d) && forall|x: u32| free.contains(x) ==> d <= x
    } else {
        fallback_ok(reserved, d)
    }
}


/// Relies on `rand::Rng::gen_range` on the thread-local generator: a number
/// in `0..n` (it panics on an empty range, hence `n > 0`).
#[verifier::external_body]
fn random_index(n: usize) -> (r: usize)
    requires
        n > 0,
    ensures
        r < n,
{
    rand::thread_rng().gen_range(0..n)
}

/// The reservation whose key is `k`, if `k` is one of account `a` and
/// collection `c`.
proof fn lemma_reservation_key(k: Seq<u8>, a: u32, c: u8)
    ensures
        forall|d: u32|
            #![trigger reservation_key(a, c, d)]
            k == reservation_key(a, c, d) <==> deserialize_key(k) == Some(
                KeyView::Index {
                    account_id: a,
                    collection: c,
                    field: RESERVATION_FIELD,
                    document_id: d,
                    key: Seq::empty(),
                },
            ),
{
    lemma_key_bytes_unique(k);
    assert forall|d: u32| #![trigger reservation_key(a, c, d)] k == reservation_key(a, c, d) implies deserialize_key(k)
        == Some(
        KeyView::Index {
            account_id: a,
            collection: c,
            field: RESERVATION_FIELD,
            document_id: d,
            key: Seq::empty(),
        },
    ) by {
        lemma_key_round_trip(
            KeyView::Index {
                account_id: a,
                collection: c,
                field: RESERVATION_FIELD,
                document_id: d,
                key: Seq::empty(),
            },
        );
    }
}

proof fn lemma_document_ids_key(k: Seq<u8>, a: u32, c: u8)
    ensures
        forall|b: u32|
            #![trigger document_ids_key(a, c, b)]
            k == document_ids_key(a, c, b) <==> deserialize_key(k) == Some(
                KeyView::Bitmap {
                    account_id: a,
                    collection: c,
                    family: DOCUMENT_IDS_FAMILY,
                    field: DOCUMENT_IDS_FIELD,
                    block_num: b,
                    key: Seq::empty(),
                },
            ),
{
    lemma_key_bytes_unique(k);
    assert forall|b: u32| #![trigger document_ids_key(a, c, b)] k == document_ids_key(a, c, b) implies deserialize_key(k)
        == Some(
        KeyView::Bitmap {
            account_id: a,
            collection: c,
            family: DOCUMENT_IDS_FAMILY,
            field: DOCUMENT_IDS_FIELD,
            block_num: b,
            key: Seq::empty(),
        },
    ) by {
        lemma_key_round_trip(
            KeyView::Bitmap {
                account_id: a,
                collection: c,
                family: DOCUMENT_IDS_FAMILY,
                field: DOCUMENT_IDS_FIELD,
                block_num: b,
                key: Seq::empty(),
            },
        );
    }
}

fn check_expired(v: &Vec<u8>, now: u64) -> (r: bool)
    ensures
        r == is_expired(v@, now),
{
    if v.len() != 8 {
        return false;
    }
    let ts = read_be(v, 0, 8);
    proof {
        assert(v@.subrange(0, 8) =~= v@);
    }
    now >= ID_ASSIGNMENT_EXPIRY && ts <= now - ID_ASSIGNMENT_EXPIRY
}

impl MemoryStore {
    /// Splits the reservations of an account's collection into expired and
    /// live ones.
    fn scan_reservations(&self, a: u32, c: u8, now: u64) -> (r: (Vec<u32>, AHashSet<u32>))
        requires
            self.wf(),
        ensures
            forall|d: u32| r.0@.contains(d) <==> expired_ids(self@, a, c, now).contains(d),
            id_set_contents(r.1) == reserved_ids(self@, a, c, now),
    {
        let entries = self.entries();
        let n = entries.len();
        let mut expired: Vec<u32> = Vec::new();
        let mut reserved = id_set_new();
        let mut i: usize = 0;
        while i < n
            invariant
                self.wf(),
                n == entries@.len(),
                i <= n,
                forall|x: int|
                    0 <= x < entries@.len() ==> self@.contains_key(#[trigger] entries@[x].0@) && self@[entries@[x].0@]
                        == entries@[x].1@,
                forall|d: u32|
                    expired@.contains(d) <==> exists|x: int|
                        0 <= x < i && #[trigger] entries@[x].0@ == reservation_key(a, c, d) && is_expired(
                            entries@[x].1@,
                            now,
                        ),
                forall|d: u32|
                    id_set_contents(reserved).contains(d) <==> exists|x: int|
                        0 <= x < i && #[trigger] entries@[x].0@ == reservation_key(a, c, d) && !is_expired(
                            entries@[x].1@,
                            now,
                        ),
            decreases n - i,
        {
            let ghost k = entries@[i as int].0@;
            let ghost v = entries@[i as int].1@;
            proof {
                lemma_reservation_key(k, a, c);
            }
            let ghost old_expired = expired@;
            let ghost old_reserved = id_set_contents(reserved);
            let mut hit: Option<u32> = None;
            match Key::deserialize(&entries[i].0) {
                Some(Key::Index(ik)) => {
                    if ik.account_id == a && ik.collection == c && ik.field == RESERVATION_FIELD
                        && ik.key.len() == 0 {
                        assert(ik.key@ =~= Seq::<u8>::empty());
                        hit = Some(ik.document_id);
                    }
                },
                _ => {},
            }
            match hit {
                Some(d) => {
                    assert(k == reservation_key(a, c, d));
                    if check_expired(&entries[i].1, now) {
                        expired.push(d);
                    } else {
                        id_set_insert(&mut reserved, d);
                    }
                },
                None => {
                    assert(forall|d: u32| k != reservation_key(a, c, d));
                },
            }
            assert forall|d: u32| expired@.contains(d) <==> exists|x: int|
                0 <= x < i + 1 && #[trigger] entries@[x].0@ == reservation_key(a, c, d) && is_expired(
                    entries@[x].1@,
                    now,
                ) by {
                if expired@.contains(d) && !old_expired.contains(d) {
                    assert(expired@.last() == d);
                    assert(entries@[i as int].0@ == reservation_key(a, c, d));
                }
                if old_expired.contains(d) {
                    let y = choose|y: int| 0 <= y < old_expired.len() && old_expired[y] == d;
                    assert(expired@[y] == d);
                }
                if exists|x: int|
                    0 <= x < i + 1 && #[trigger] entries@[x].0@ == reservation_key(a, c, d) && is_expired(
                        entries@[x].1@,
                        now,
                    ) {
                    let x = choose|x: int|
                        0 <= x < i + 1 && #[trigger] entries@[x].0@ == reservation_key(a, c, d) && is_expired(
                            entries@[x].1@,
                            now,
                        );
                    if x == i {
                        assert(expired@.last() == d);
                        assert(expired@[expired@.len() - 1] == d);
                    }
                }
            }
            assert forall|d: u32| id_set_contents(reserved).contains(d) <==> exists|x: int|
                0 <= x < i + 1 && #[trigger] entries@[x].0@ == reservation_key(a, c, d) && !is_expired(
                    entries@[x].1@,
                    now,
                ) by {
                if exists|x: int|
                    0 <= x < i + 1 && #[trigger] entries@[x].0@ == reservation_key(a, c, d) && !is_expired(
                        entries@[x].1@,
                        now,
                    ) {
                    let x = choose|x: int|
                        0 <= x < i + 1 && #[trigger] entries@[x].0@ == reservation_key(a, c, d) && !is_expired(
                            entries@[x].1@,
                            now,
                        );
                }
            }
            i = i + 1;
        }
        assert forall|d: u32| expired@.contains(d) <==> expired_ids(self@, a, c, now).contains(d) by {
            if self@.contains_key(reservation_key(a, c, d)) {
                let x = choose|x: int| 0 <= x < entries@.len() && entries@[x].0@ == reservation_key(a, c, d);
            }
        }
        assert forall|d: u32| id_set_contents(reserved).contains(d) <==> reserved_ids(self@, a, c, now).contains(d) by {
            if self@.contains_key(reservation_key(a, c, d)) {
                let x = choose|x: int| 0 <= x < entries@.len() && entries@[x].0@ == reservation_key(a, c, d);
            }
        }
        assert(id_set_contents(reserved) =~= reserved_ids(self@, a, c, now));
        (expired, reserved)
    }
}


/// Ids free in the first `i` entries.
pub open spec fn free_in(entries: Seq<(Vec<u8>, Vec<u8>)>, i: int, a: u32, c: u8, reserved: Set<u32>, d: u32) -> bool {
    exists|x: int, b: u32, j: int|
        #![trigger entries[x], free_bit(entries[x].1@, b, reserved, j)]
        0 <= x < i && entries[x].0@ == document_ids_key(a, c, b) && free_bit(entries[x].1@, b, reserved, j)
            && d == global_id(b, j)
}

fn fallback_id(reserved: &AHashSet<u32>) -> (r: u32)
    ensures
        fallback_ok(id_set_contents(*reserved), r),
{
    let mut d: u32 = 0;
    while d < BITS_PER_BLOCK
        invariant
            d <= BITS_PER_BLOCK,
            forall|x: u32| x < d ==> id_set_contents(*reserved).contains(x),
        decreases BITS_PER_BLOCK - d,
    {
        if !id_set_contains(reserved, d) {
            return d;
        }
        d = d + 1;
    }
    BITS_PER_BLOCK
}

/// `best` is the lowest id free in the first `i` entries, if there is one.
pub open spec fn best_ok(entries: Seq<(Vec<u8>, Vec<u8>)>, i: int, a: u32, c: u8, res: Set<u32>, best: Option<u32>) -> bool {
    match best {
        Some(d) => free_in(entries, i, a, c, res, d) && forall|x: u32|
            #[trigger] free_in(entries, i, a, c, res, x) ==> d <= x,
        None => forall|x: u32| !#[trigger] free_in(entries, i, a, c, res, x),
    }
}

impl MemoryStore {
    /// The lowest id that a stored block of live ids has clear and that is not
    /// reserved.
    fn lowest_free_id(&self, a: u32, c: u8, reserved: &AHashSet<u32>) -> (r: Option<u32>)
        requires
            self.wf(),
        ensures
            match r {
                Some(d) => free_ids(self@, a, c, id_set_contents(*reserved)).contains(d) && forall|x: u32|
                    free_ids(self@, a, c, id_set_contents(*reserved)).contains(x) ==> d <= x,
                None => free_ids(self@, a, c, id_set_contents(*reserved)).is_empty(),
            },
    {
        let ghost res = id_set_contents(*reserved);
        let entries = self.entries();
        let n = entries.len();
        let mut best: Option<u32> = None;
        let mut i: usize = 0;
        while i < n
            invariant
                self.wf(),
                res == id_set_contents(*reserved),
                n == entries@.len(),
                i <= n,
                forall|x: int|
                    0 <= x < entries@.len() ==> self@.contains_key(#[trigger] entries@[x].0@) && self@[entries@[x].0@]
                        == entries@[x].1@,
                best_ok(entries@, i as int, a, c, res, best),
            decreases n - i,
        {
            let ghost k = entries@[i as int].0@;
            let ghost v = entries@[i as int].1@;
            proof {
                lemma_document_ids_key(k, a, c);
                assert forall|x: u32| #[trigger] free_in(entries@, i as int, a, c, res, x) implies free_in(
                    entries@, i + 1, a, c, res, x) by {
                    let (y, b2, j2) = choose|y: int, b2: u32, j2: int|
                        #![trigger entries@[y], free_bit(entries@[y].1@, b2, res, j2)]
                        0 <= y < i && entries@[y].0@ == document_ids_key(a, c, b2)
                            && free_bit(entries@[y].1@, b2, res, j2) && x == global_id(b2, j2);
                    assert(0 <= y < i + 1);
                }
            }
            let mut block: Option<u32> = None;
            match Key::deserialize(&entries[i].0) {
                Some(Key::Bitmap(bk)) => {
                    if bk.account_id == a && bk.collection == c && bk.family == DOCUMENT_IDS_FAMILY
                        && bk.field == DOCUMENT_IDS_FIELD && bk.key.len() == 0 {
                        assert(bk.key@ =~= Seq::<u8>::empty());
                        block = Some(bk.block_num);
                    }
                },
                _ => {},
            }
            let ghost old_best = best;
            let mut found: Option<u32> = None;
            if let Some(b) = block {
                found = next_available_index(&entries[i].1, b, reserved);
            }
            proof {
                // what entry `i` adds: nothing, or `found` and ids above it
                assert forall|x: u32| #[trigger] free_in(entries@, i + 1, a, c, res, x) && !free_in(
                    entries@, i as int, a, c, res, x) implies found is Some && found->Some_0 <= x by {
                    let (y, b2, j2) = choose|y: int, b2: u32, j2: int|
                        #![trigger entries@[y], free_bit(entries@[y].1@, b2, res, j2)]
                        0 <= y < i + 1 && entries@[y].0@ == document_ids_key(a, c, b2)
                            && free_bit(entries@[y].1@, b2, res, j2) && x == global_id(b2, j2);
                    if y < i {
                        assert(free_in(entries@, i as int, a, c, res, x));
                    } else {
                        assert(k == document_ids_key(a, c, b2));
                        assert(block == Some(b2));
                        if found is None {
                            assert(!free_bit(v, b2, res, j2));
                        } else {
                            let id = found->Some_0;
                            let j = choose|j: int| free_bit(v, b2, res, j) && id == global_id(b2, j)
                                && forall|q: int| 0 <= q < j ==> !free_bit(v, b2, res, q);
                            if j2 < j {
                                assert(!free_bit(v, b2, res, j2));
                            }
                        }
                    }
                }
                if let Some(id) = found {
                    let b = block->Some_0;
                    assert(k == document_ids_key(a, c, b));
                    let j = choose|j: int| free_bit(v, b, res, j) && id == global_id(b, j)
                        && forall|q: int| 0 <= q < j ==> !free_bit(v, b, res, q);
                    assert(free_in(entries@, i + 1, a, c, res, id));
                }
            }
            if let Some(id) = found {
                let better = match best {
                    Some(d) => id < d,
                    None => true,
                };
                if better {
                    best = Some(id);
                }
            }
            proof {
                if let Some(bd) = best {
                    assert(free_in(entries@, i + 1, a, c, res, bd));
                    assert forall|x: u32| #[trigger] free_in(entries@, i + 1, a, c, res, x) implies bd <= x by {
                        if free_in(entries@, i as int, a, c, res, x) {
                            if let Some(d) = old_best {
                                assert(d <= x);
                            }
                        }
                    }
                } else {
                    assert forall|x: u32| !#[trigger] free_in(entries@, i + 1, a, c, res, x) by {
                        if free_in(entries@, i + 1, a, c, res, x) {
                            assert(!free_in(entries@, i as int, a, c, res, x));
                        }
                    }
                }
            }
            i = i + 1;
        }
        assert forall|x: u32| free_in(entries@, n as int, a, c, res, x) <==> free_ids(self@, a, c, res).contains(
            x,
        ) by {
            if free_ids(self@, a, c, res).contains(x) {
                let (b, j) = choose|b: u32, j: int|
                    self@.contains_key(document_ids_key(a, c, b)) && free_bit(self@[document_ids_key(a, c, b)], b, res, j)
                        && x == global_id(b, j);
                let y = choose|y: int| 0 <= y < entries@.len() && entries@[y].0@ == document_ids_key(a, c, b);
                assert(free_in(entries@, n as int, a, c, res, x));
            }
        }
        if best.is_none() {
            assert(free_ids(self@, a, c, res) =~= Set::empty());
        }
        best
    }
}


impl MemoryStore {
    /// Hands out a document id of an account's collection and reserves it at
    /// time `now` (seconds). An expired reservation is reused first, picked at
    /// random among them; else the lowest clear, unreserved id of the stored
    /// blocks of live ids; else the lowest unreserved id of the first block.
    pub fn assign_document_id(&mut self, account_id: u32, collection: u8, now: u64) -> (r: u32)
        requires
            old(self).wf(),
        ensures
            final(self).wf(),
            allocation_ok(old(self)@, account_id, collection, now, r),
            final(self)@ == old(self)@.insert(reservation_key(account_id, collection, r), be64(now)),
    {
        let (expired, reserved) = self.scan_reservations(account_id, collection, now);
        let ghost ex = expired_ids(self@, account_id, collection, now);
        let document_id: u32 = if expired.len() > 0 {
            let pick: usize = if expired.len() > 1 {
                random_index(expired.len())
            } else {
                0
            };
            assert(expired@.contains(expired@[pick as int]));
            expired[pick]
        } else {
            assert(ex =~= Set::empty()) by {
                assert forall|d: u32| !ex.contains(d) by {
                    if ex.contains(d) {
                        assert(expired@.contains(d));
                    }
                }
            }
            match self.lowest_free_id(account_id, collection, &reserved) {
                Some(d) => d,
                None => fallback_id(&reserved),
            }
        };
        let no_suffix: Vec<u8> = Vec::new();
        assert(no_suffix@ =~= Seq::<u8>::empty());
        let key = IndexKey {
            account_id,
            collection,
            document_id,
            field: RESERVATION_FIELD,
            key: no_suffix,
        }.serialize();
        self.set(key, encode_u64(now));
        document_id
    }

    /// The next change id of an account: one more than the last, `0` for the
    /// first. A counter that is not an eight-byte number, or that is spent,
    /// gives `InvalidValue` and is left as it is.
    pub fn assign_change_id(&mut self, account_id: u32) -> (r: Result<u64, crate::write::StoreError>)
        requires
            old(self).wf(),
        ensures
            final(self).wf(),
            match stored(old(self)@, serialize_key(KeyView::Counter { account_id })) {
                None => r == Ok::<u64, crate::write::StoreError>(0) && final(self)@ == old(self)@.insert(
                    serialize_key(KeyView::Counter { account_id }),
                    be64(0),
                ),
                Some(v) => if v.len() == 8 && from_be(v) < u64::MAX {
                    r == Ok::<u64, crate::write::StoreError>((from_be(v) + 1) as u64) && final(self)@
                        == old(self)@.insert(
                        serialize_key(KeyView::Counter { account_id }),
                        be64((from_be(v) + 1) as u64),
                    )
                } else {
                    r == Err::<u64, crate::write::StoreError>(crate::write::StoreError::InvalidValue)
                        && final(self)@ == old(self)@
                },
            },
    {
        let counter = crate::keys::counter_key(account_id);
        let current = self.get(&counter);
        assert(crate::store::opt_view(current) == stored(self@, serialize_key(KeyView::Counter { account_id })));
        let id = next_change_id(&current)?;
        let value = encode_u64(id);
        self.set(counter, value);
        Ok(id)
    }
}

/// The change id that follows a stored counter: `0` where there is none,
/// one more than it where it is an eight-byte number below the largest,
/// else `InvalidValue`.
pub open spec fn spec_next_change_id(current: Option<Seq<u8>>) -> Result<u64, crate::write::StoreError> {
    match current {
        None => Ok(0),
        Some(v) => if v.len() == 8 && from_be(v) < u64::MAX {
            Ok((from_be(v) + 1) as u64)
        } else {
            Err(crate::write::StoreError::InvalidValue)
        },
    }
}

pub fn next_change_id(current: &Option<Vec<u8>>) -> (r: Result<u64, crate::write::StoreError>)
    ensures
        r == spec_next_change_id(crate::store::opt_view(*current)),
{
    match current {
        Some(bytes) => {
            if bytes.len() != 8 {
                return Err(crate::write::StoreError::InvalidValue);
            }
            let last = read_be(bytes, 0, 8);
            proof {
                assert(bytes@.subrange(0, 8) =~= bytes@);
            }
            if last == u64::MAX {
                return Err(crate::write::StoreError::InvalidValue);
            }
            Ok(last + 1)
        },
        None => Ok(0),
    }
}

/// The eight-byte big-endian encoding of a number.
pub fn encode_u64(x: u64) -> (r: Vec<u8>)
    ensures
        r@ == be64(x),
{
    let mut value: Vec<u8> = Vec::new();
    push_be(&mut value, x, 8);
    assert(value@ =~= be64(x));
    value
}

/// A fresh reservation is live until `ID_ASSIGNMENT_EXPIRY` seconds have
/// passed: until then no allocation hands its id out again, unless every id
/// of the first block and the last resort itself are reserved.
pub proof fn lemma_reservation_blocks_reuse(m: Map<Seq<u8>, Seq<u8>>, a: u32, c: u8, d: u32, t: u64, later: u64, r: u32)
    requires
        m.contains_key(reservation_key(a, c, d)),
        m[reservation_key(a, c, d)] == be64(t),
        later < t + ID_ASSIGNMENT_EXPIRY,
        allocation_ok(m, a, c, later, r),
    ensures
        reserved_ids(m, a, c, later).contains(d),
        r == d ==> r == BITS_PER_BLOCK && forall|x: u32| x <= BITS_PER_BLOCK ==> reserved_ids(m, a, c, later).contains(x),
{
    lemma_pow_widths();
    lemma_from_be_be(t as nat, 8);
    crate::codec::lemma_be_len(t as nat, 8);
    let reserved = reserved_ids(m, a, c, later);
    let expired = expired_ids(m, a, c, later);
    let free = free_ids(m, a, c, reserved);
    assert(reserved.contains(d));
    if r == d {
        if !expired.is_empty() {
            assert(!expired.contains(d));
        } else if !free.is_empty() {
            let (b, j) = choose|b: u32, j: int|
                m.contains_key(document_ids_key(a, c, b)) && free_bit(m[document_ids_key(a, c, b)], b, reserved, j)
                    && r == global_id(b, j);
            assert(!reserved.contains(r));
        }
    }
}

/// Once its reservation is older than `ID_ASSIGNMENT_EXPIRY` seconds, an id
/// counts as expired, and an allocation hands out one of the expired ids.
pub proof fn lemma_expired_reuse(m: Map<Seq<u8>, Seq<u8>>, a: u32, c: u8, d: u32, t: u64, later: u64, r: u32)
    requires
        m.contains_key(reservation_key(a, c, d)),
        m[reservation_key(a, c, d)] == be64(t),
        t + ID_ASSIGNMENT_EXPIRY <= later,
        allocation_ok(m, a, c, later, r),
    ensures
        expired_ids(m, a, c, later).contains(d),
        expired_ids(m, a, c, later).contains(r),
{
    lemma_pow_widths();
    lemma_from_be_be(t as nat, 8);
    crate::codec::lemma_be_len(t as nat, 8);
    assert(expired_ids(m, a, c, later).contains(d));
}

/// Where one id's reservation has expired and every other reservation is
/// still live, an allocation hands out that id.
pub proof fn lemma_only_expired_reused(m: Map<Seq<u8>, Seq<u8>>, a: u32, c: u8, d: u32, now: u64, r: u32)
    requires
        m.contains_key(reservation_key(a, c, d)),
        is_expired(m[reservation_key(a, c, d)], now),
        forall|x: u32|
            x != d && #[trigger] m.contains_key(reservation_key(a, c, x)) ==> !is_expired(
                m[reservation_key(a, c, x)],
                now,
            ),
        allocation_ok(m, a, c, now, r),
    ensures
        r == d,
{
    assert(expired_ids(m, a, c, now).contains(d));
    assert(expired_ids(m, a, c, now).contains(r));
}

} // verus!
