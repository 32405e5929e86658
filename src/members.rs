//! The document ids that the bitmaps of a store hold, and the documents a
//! token may see through them.
use vstd::prelude::*;
use crate::acl::{push_unique, shared_with, AccessToken};
use crate::bitmap::{global_id, has_bit};
use crate::codec::bytes_eq;
use crate::keys::{deserialize_key, lemma_key_bytes_unique, lemma_key_round_trip, serialize_key, Key,
    KeyView};
use crate::store::MemoryStore;

verus! {

/// The collection of mailboxes.
pub const COLLECTION_MAILBOX: u8 = 3;
/// The collection of messages.
pub const COLLECTION_EMAIL: u8 = 2;
/// The bitmap family of tags: one bitmap per property value.
pub const TAG_FAMILY: u8 = 1;
/// The property of a message that lists its mailboxes.
pub const MAILBOX_IDS_FIELD: u8 = 7;

pub open spec fn bitmap_key(a: u32, c: u8, family: u8, field: u8, key: Seq<u8>, b: u32) -> Seq<u8> {
    serialize_key(KeyView::Bitmap { account_id: a, collection: c, family, field, block_num: b, key })
}

/// The ids that the blocks of one bitmap hold.
pub open spec fn bitmap_members(m: Map<Seq<u8>, Seq<u8>>, a: u32, c: u8, family: u8, field: u8, key: Seq<u8>) -> Set<u32> {
    Set::new(
        |d: u32|
            exists|b: u32, j: int|
                #![trigger bitmap_key(a, c, family, field, key, b), global_id(b, j)]
                m.contains_key(bitmap_key(a, c, family, field, key, b)) && has_bit(m[bitmap_key(a, c, family, field, key, b)], j)
                    && d == global_id(b, j),
    )
}

/// Adds the ids of the set bits of block `b` to `out`.
fn push_block_ids(out: &mut Vec<u32>, bytes: &Vec<u8>, b: u32)
    ensures
        forall|d: u32| final(out)@.contains(d) <==> old(out)@.contains(d) || exists|j: int|
            has_bit(bytes@, j) && d == #[trigger] global_id(b, j),
{
    let n = bytes.len();
    assert(b as u64 * 1024 <= 0x3ff_ffff_fc00) by (nonlinear_arith)
        requires
            b <= u32::MAX,
    ;
    let base: u64 = b as u64 * 1024;
    let mut pos: usize = 0;
    while pos < n
        invariant
            n == bytes@.len(),
            pos <= n,
            base == b * 1024,
            forall|d: u32| out@.contains(d) <==> old(out)@.contains(d) || exists|j: int|
                0 <= j < 8 * pos && has_bit(bytes@, j) && d == #[trigger] global_id(b, j),
        decreases n - pos,
    {
        if pos >= 0x2000_0000 {
            assert forall|d: u32| out@.contains(d) <==> old(out)@.contains(d) || exists|j: int|
                has_bit(bytes@, j) && d == #[trigger] global_id(b, j) by {
                if exists|j: int| has_bit(bytes@, j) && d == #[trigger] global_id(b, j) {
                    let j = choose|j: int| has_bit(bytes@, j) && d == #[trigger] global_id(b, j);
                    assert(j < 8 * pos);
                }
            }
            return;
        }
        let byte = bytes[pos];
        let mut bit: u8 = 0;
        while bit < 8
            invariant
                n == bytes@.len(),
                pos < n,
                pos < 0x2000_0000,
                bit <= 8,
                byte == bytes@[pos as int],
                base == b * 1024,
                forall|d: u32| out@.contains(d) <==> old(out)@.contains(d) || exists|j: int|
                    0 <= j < 8 * pos + bit && has_bit(bytes@, j) && d == #[trigger] global_id(b, j),
            decreases 8 - bit,
        {
            let ghost j: int = 8 * pos + bit;
            assert(j / 8 == pos && j % 8 == bit) by (nonlinear_arith)
                requires
                    j == 8 * pos + bit,
                    bit < 8,
            ;
            let ghost before = out@;
            let index: u64 = base + (pos as u64 * 8 + bit as u64);
            if byte & (1u8 << bit) != 0 && index <= u32::MAX as u64 {
                out.push(index as u32);
            }
            assert forall|d: u32| out@.contains(d) <==> old(out)@.contains(d) || exists|q: int|
                0 <= q < 8 * pos + bit + 1 && has_bit(bytes@, q) && d == #[trigger] global_id(b, q) by {
                if out@.contains(d) && !before.contains(d) {
                    assert(out@.last() == d);
                    assert(has_bit(bytes@, j) && d == global_id(b, j));
                }
                if before.contains(d) {
                    let y = choose|y: int| 0 <= y < before.len() && before[y] == d;
                    assert(out@[y] == d);
                }
                if exists|q: int| 0 <= q < 8 * pos + bit + 1 && has_bit(bytes@, q) && d == #[trigger] global_id(b, q) {
                    let q = choose|q: int| 0 <= q < 8 * pos + bit + 1 && has_bit(bytes@, q) && d == #[trigger] global_id(b, q);
                    if q == j {
                        assert(out@[out@.len() - 1] == d);
                    }
                }
            }
            bit = bit + 1;
        }
        pos = pos + 1;
    }
    assert forall|d: u32| out@.contains(d) <==> old(out)@.contains(d) || exists|j: int|
        has_bit(bytes@, j) && d == #[trigger] global_id(b, j) by {
        if exists|j: int| has_bit(bytes@, j) && d == #[trigger] global_id(b, j) {
            let j = choose|j: int| has_bit(bytes@, j) && d == #[trigger] global_id(b, j);
            assert(0 <= j < 8 * n);
        }
    }
}

proof fn lemma_bitmap_key(k: Seq<u8>, a: u32, c: u8, family: u8, field: u8, key: Seq<u8>)
    ensures
        forall|b: u32|
            #![trigger bitmap_key(a, c, family, field, key, b)]
            k == bitmap_key(a, c, family, field, key, b) <==> deserialize_key(k) == Some(
                KeyView::Bitmap { account_id: a, collection: c, family, field, block_num: b, key },
            ),
{
    lemma_key_bytes_unique(k);
    assert forall|b: u32| #![trigger bitmap_key(a, c, family, field, key, b)] k == bitmap_key(a, c, family, field, key, b) implies deserialize_key(k)
        == Some(KeyView::Bitmap { account_id: a, collection: c, family, field, block_num: b, key }) by {
        lemma_key_round_trip(KeyView::Bitmap { account_id: a, collection: c, family, field, block_num: b, key });
    }
}

impl MemoryStore {
    /// The ids that the blocks of one bitmap hold.
    pub fn bitmap_ids(&self, a: u32, c: u8, family: u8, field: u8, key: &Vec<u8>) -> (r: Vec<u32>)
        requires
            self.wf(),
        ensures
            forall|d: u32| r@.contains(d) <==> bitmap_members(self@, a, c, family, field, key@).contains(d),
    {
        let entries = self.entries();
        let n = entries.len();
        let mut out: Vec<u32> = Vec::new();
        let mut i: usize = 0;
        while i < n
            invariant
                self.wf(),
                n == entries@.len(),
                i <= n,
                forall|x: int|
                    0 <= x < entries@.len() ==> self@.contains_key(#[trigger] entries@[x].0@) && self@[entries@[x].0@]
                        == entries@[x].1@,
                forall|d: u32| out@.contains(d) <==> exists|x: int, b: u32, j: int|
                    #![trigger entries@[x], global_id(b, j)]
                    0 <= x < i && entries@[x].0@ == bitmap_key(a, c, family, field, key@, b) && has_bit(entries@[x].1@, j)
                        && d == global_id(b, j),
            decreases n - i,
        {
            let ghost k = entries@[i as int].0@;
            proof {
                lemma_bitmap_key(k, a, c, family, field, key@);
            }
            let ghost before = out@;
            let mut block: Option<u32> = None;
            if let Some(Key::Bitmap(bk)) = Key::deserialize(&entries[i].0) {
                if bk.account_id == a && bk.collection == c && bk.family == family && bk.field == field
                    && bytes_eq(&bk.key, key) {
                    block = Some(bk.block_num);
                }
            }
            if let Some(b) = block {
                assert(k == bitmap_key(a, c, family, field, key@, b));
                push_block_ids(&mut out, &entries[i].1, b);
            }
            assert forall|d: u32| out@.contains(d) <==> exists|x: int, b: u32, j: int|
                #![trigger entries@[x], global_id(b, j)]
                0 <= x < i + 1 && entries@[x].0@ == bitmap_key(a, c, family, field, key@, b) && has_bit(entries@[x].1@, j)
                    && d == global_id(b, j) by {
                if exists|x: int, b: u32, j: int|
                    #![trigger entries@[x], global_id(b, j)]
                    0 <= x < i + 1 && entries@[x].0@ == bitmap_key(a, c, family, field, key@, b) && has_bit(entries@[x].1@, j)
                        && d == global_id(b, j) {
                    let (x, b, j) = choose|x: int, b: u32, j: int|
                        #![trigger entries@[x], global_id(b, j)]
                        0 <= x < i + 1 && entries@[x].0@ == bitmap_key(a, c, family, field, key@, b) && has_bit(entries@[x].1@, j)
                            && d == global_id(b, j);
                    if x == i {
                        assert(block == Some(b));
                    } else {
                        assert(before.contains(d));
                    }
                }
                if out@.contains(d) && !before.contains(d) {
                    let b = block->Some_0;
                    let j = choose|j: int| has_bit(entries@[i as int].1@, j) && d == #[trigger] global_id(b, j);
                    assert(entries@[i as int] == entries@[i as int]);
                }
            }
            i = i + 1;
        }
        assert forall|d: u32| out@.contains(d) <==> bitmap_members(self@, a, c, family, field, key@).contains(d) by {
            if bitmap_members(self@, a, c, family, field, key@).contains(d) {
                let (b, j) = choose|b: u32, j: int|
                    #![trigger bitmap_key(a, c, family, field, key@, b), global_id(b, j)]
                    self@.contains_key(bitmap_key(a, c, family, field, key@, b)) && has_bit(self@[bitmap_key(a, c, family, field, key@, b)], j)
                        && d == global_id(b, j);
                let x = choose|x: int| 0 <= x < entries@.len() && entries@[x].0@ == bitmap_key(a, c, family, field, key@, b);
                assert(entries@[x] == entries@[x]);
            }
            if out@.contains(d) {
                let (x, b, j) = choose|x: int, b: u32, j: int|
                    #![trigger entries@[x], global_id(b, j)]
                    0 <= x < n && entries@[x].0@ == bitmap_key(a, c, family, field, key@, b) && has_bit(entries@[x].1@, j)
                        && d == global_id(b, j);
                assert(self@.contains_key(bitmap_key(a, c, family, field, key@, b)));
            }
        }
        out
    }
}


/// The ids of `ids` that `keep` holds too.
pub fn intersect(ids: &Vec<u32>, keep: &Vec<u32>) -> (r: Vec<u32>)
    ensures
        forall|d: u32| r@.contains(d) <==> ids@.contains(d) && keep@.contains(d),
{
    let n = ids.len();
    let mut r: Vec<u32> = Vec::new();
    let mut i: usize = 0;
    while i < n
        invariant
            n == ids@.len(),
            i <= n,
            forall|d: u32| r@.contains(d) <==> (exists|q: int| 0 <= q < i && #[trigger] ids@[q] == d) && keep@.contains(d),
        decreases n - i,
    {
        let d = ids[i];
        let ghost before = r@;
        let mut found = false;
        let m = keep.len();
        let mut j: usize = 0;
        while j < m
            invariant
                m == keep@.len(),
                j <= m,
                found == exists|q: int| 0 <= q < j && #[trigger] keep@[q] == d,
            decreases m - j,
        {
            if keep[j] == d {
                found = true;
            }
            j = j + 1;
        }
        assert(found == keep@.contains(d));
        if found {
            r.push(d);
        }
        assert forall|x: u32| r@.contains(x) <==> (exists|q: int| 0 <= q < i + 1 && #[trigger] ids@[q] == x) && keep@.contains(x) by {
            if before.contains(x) {
                let q = choose|q: int| 0 <= q < before.len() && before[q] == x;
                assert(r@[q] == x);
            }
            if r@.contains(x) && !before.contains(x) {
                assert(x == d);
                assert(ids@[i as int] == x);
            }
            if x == d && found {
                assert(r@[r@.len() - 1] == x);
            }
            if (exists|q: int| 0 <= q < i + 1 && #[trigger] ids@[q] == x) && keep@.contains(x) {
                let q = choose|q: int| 0 <= q < i + 1 && #[trigger] ids@[q] == x;
                if q < i {
                    assert(before.contains(x));
                }
            }
        }
        i = i + 1;
    }
    r
}

/// Adds to `out` the ids of `more` that it does not hold yet.
pub fn union_into(out: &mut Vec<u32>, more: &Vec<u32>)
    ensures
        forall|d: u32| final(out)@.contains(d) <==> old(out)@.contains(d) || more@.contains(d),
{
    let m = more.len();
    let mut j: usize = 0;
    while j < m
        invariant
            m == more@.len(),
            j <= m,
            forall|d: u32| out@.contains(d) <==> old(out)@.contains(d) || exists|q: int| 0 <= q < j && #[trigger] more@[q] == d,
        decreases m - j,
    {
        let ghost prev = out@;
        push_unique(out, more[j]);
        assert forall|d: u32| out@.contains(d) <==> old(out)@.contains(d) || exists|q: int| 0 <= q < j + 1 && #[trigger] more@[q] == d by {
            if exists|q: int| 0 <= q < j + 1 && #[trigger] more@[q] == d {
                let q = choose|q: int| 0 <= q < j + 1 && #[trigger] more@[q] == d;
                if q < j {
                    assert(prev.contains(d));
                }
            }
            if prev.contains(d) && !old(out)@.contains(d) {
                let q = choose|q: int| 0 <= q < j && #[trigger] more@[q] == d;
                assert(0 <= q < j + 1);
            }
            if d == more@[j as int] {
                assert(0 <= j < j + 1);
            }
        }
        j = j + 1;
    }
}

/// The ids of the live documents of a collection.
pub open spec fn live_documents(m: Map<Seq<u8>, Seq<u8>>, a: u32, c: u8) -> Set<u32> {
    bitmap_members(
        m,
        a,
        c,
        crate::assign::DOCUMENT_IDS_FAMILY,
        crate::assign::DOCUMENT_IDS_FIELD,
        Seq::empty(),
    )
}

/// The messages in the mailboxes of an account that are shared with the
/// token with one of the rights `check`.
pub open spec fn shared_message_ids(m: Map<Seq<u8>, Seq<u8>>, token: AccessToken, a: u32, check: u64) -> Set<u32> {
    Set::new(
        |d: u32|
            exists|mb: u32|
                shared_with(m, token, a, COLLECTION_MAILBOX, check).contains(mb) && #[trigger] bitmap_members(
                    m,
                    a,
                    COLLECTION_EMAIL,
                    TAG_FAMILY,
                    MAILBOX_IDS_FIELD,
                    crate::keys::be32(mb),
                ).contains(d),
    )
}

impl MemoryStore {
    /// The ids of the live documents of a collection.
    pub fn document_ids(&self, account_id: u32, collection: u8) -> (r: Vec<u32>)
        requires
            self.wf(),
        ensures
            forall|d: u32| r@.contains(d) <==> live_documents(self@, account_id, collection).contains(d),
    {
        let no_suffix: Vec<u8> = Vec::new();
        assert(no_suffix@ =~= Seq::<u8>::empty());
        self.bitmap_ids(
            account_id,
            collection,
            crate::assign::DOCUMENT_IDS_FAMILY,
            crate::assign::DOCUMENT_IDS_FIELD,
            &no_suffix,
        )
    }

    /// The live documents of a collection that the token sees: all of them
    /// in its own accounts, else those shared with it with one of the rights
    /// `check_acls`.
    pub fn owned_or_shared_documents(&self, token: &AccessToken, account_id: u32, collection: u8, check_acls: u64) -> (r: Vec<u32>)
        requires
            self.wf(),
        ensures
            forall|d: u32|
                r@.contains(d) <==> live_documents(self@, account_id, collection).contains(d) && (token.spec_is_member(
                    account_id,
                ) || shared_with(self@, *token, account_id, collection, check_acls).contains(d)),
    {
        let ids = self.document_ids(account_id, collection);
        if ids.len() > 0 && !token.is_member(account_id) {
            let shared = self.shared_documents(token, account_id, collection, check_acls);
            intersect(&ids, &shared)
        } else {
            proof {
                if ids.len() == 0 {
                    assert forall|d: u32| !live_documents(self@, account_id, collection).contains(d) by {
                        if live_documents(self@, account_id, collection).contains(d) {
                            assert(ids@.contains(d));
                        }
                    }
                }
            }
            ids
        }
    }

    /// The messages of an account in mailboxes shared with the token with one
    /// of the rights `check_acls`.
    pub fn shared_messages(&self, token: &AccessToken, to_account_id: u32, check_acls: u64) -> (r: Vec<u32>)
        requires
            self.wf(),
        ensures
            forall|d: u32| r@.contains(d) <==> shared_message_ids(self@, *token, to_account_id, check_acls).contains(d),
    {
        let mailboxes = self.shared_documents(token, to_account_id, COLLECTION_MAILBOX, check_acls);
        let n = mailboxes.len();
        let mut out: Vec<u32> = Vec::new();
        let mut i: usize = 0;
        while i < n
            invariant
                self.wf(),
                n == mailboxes@.len(),
                i <= n,
                forall|mb: u32| mailboxes@.contains(mb) <==> shared_with(self@, *token, to_account_id, COLLECTION_MAILBOX, check_acls).contains(mb),
                forall|d: u32| out@.contains(d) <==> exists|x: int|
                    0 <= x < i && #[trigger] bitmap_members(
                        self@,
                        to_account_id,
                        COLLECTION_EMAIL,
                        TAG_FAMILY,
                        MAILBOX_IDS_FIELD,
                        crate::keys::be32(mailboxes@[x]),
                    ).contains(d),
            decreases n - i,
        {
            let mb = mailboxes[i];
            let mut tag: Vec<u8> = Vec::new();
            crate::codec::push_be(&mut tag, mb as u64, 4);
            assert(tag@ =~= crate::keys::be32(mb));
            let messages = self.bitmap_ids(to_account_id, COLLECTION_EMAIL, TAG_FAMILY, MAILBOX_IDS_FIELD, &tag);
            let ghost before = out@;
            union_into(&mut out, &messages);
            assert forall|d: u32| out@.contains(d) <==> exists|x: int|
                0 <= x < i + 1 && #[trigger] bitmap_members(
                    self@,
                    to_account_id,
                    COLLECTION_EMAIL,
                    TAG_FAMILY,
                    MAILBOX_IDS_FIELD,
                    crate::keys::be32(mailboxes@[x]),
                ).contains(d) by {
                if exists|x: int|
                    0 <= x < i + 1 && #[trigger] bitmap_members(
                        self@,
                        to_account_id,
                        COLLECTION_EMAIL,
                        TAG_FAMILY,
                        MAILBOX_IDS_FIELD,
                        crate::keys::be32(mailboxes@[x]),
                    ).contains(d) {
                    let x = choose|x: int|
                        0 <= x < i + 1 && #[trigger] bitmap_members(
                            self@,
                            to_account_id,
                            COLLECTION_EMAIL,
                            TAG_FAMILY,
                            MAILBOX_IDS_FIELD,
                            crate::keys::be32(mailboxes@[x]),
                        ).contains(d);
                    if x < i {
                        assert(before.contains(d));
                    }
                }
                if messages@.contains(d) {
                    assert(bitmap_members(self@, to_account_id, COLLECTION_EMAIL, TAG_FAMILY, MAILBOX_IDS_FIELD, crate::keys::be32(mailboxes@[i as int])).contains(d));
                }
                if before.contains(d) {
                    let x = choose|x: int|
                        0 <= x < i && #[trigger] bitmap_members(
                            self@,
                            to_account_id,
                            COLLECTION_EMAIL,
                            TAG_FAMILY,
                            MAILBOX_IDS_FIELD,
                            crate::keys::be32(mailboxes@[x]),
                        ).contains(d);
                    assert(0 <= x < i + 1);
                }
            }
            i = i + 1;
        }
        assert forall|d: u32| out@.contains(d) <==> shared_message_ids(self@, *token, to_account_id, check_acls).contains(d) by {
            if shared_message_ids(self@, *token, to_account_id, check_acls).contains(d) {
                let mb = choose|mb: u32|
                    shared_with(self@, *token, to_account_id, COLLECTION_MAILBOX, check_acls).contains(mb) && #[trigger] bitmap_members(
                        self@,
                        to_account_id,
                        COLLECTION_EMAIL,
                        TAG_FAMILY,
                        MAILBOX_IDS_FIELD,
                        crate::keys::be32(mb),
                    ).contains(d);
                assert(mailboxes@.contains(mb));
                let x = choose|x: int| 0 <= x < n && mailboxes@[x] == mb;
                assert(bitmap_members(self@, to_account_id, COLLECTION_EMAIL, TAG_FAMILY, MAILBOX_IDS_FIELD, crate::keys::be32(mailboxes@[x])).contains(d));
            }
            if out@.contains(d) {
                let x = choose|x: int|
                    0 <= x < n && #[trigger] bitmap_members(
                        self@,
                        to_account_id,
                        COLLECTION_EMAIL,
                        TAG_FAMILY,
                        MAILBOX_IDS_FIELD,
                        crate::keys::be32(mailboxes@[x]),
                    ).contains(d);
                assert(mailboxes@.contains(mailboxes@[x]));
            }
        }
        out
    }

    /// The messages of an account that the token sees: all of them in its own
    /// accounts, else those in mailboxes shared with it.
    pub fn owned_or_shared_messages(&self, token: &AccessToken, account_id: u32, check_acls: u64) -> (r: Vec<u32>)
        requires
            self.wf(),
        ensures
            forall|d: u32|
                r@.contains(d) <==> live_documents(self@, account_id, COLLECTION_EMAIL).contains(d) && (token.spec_is_member(
                    account_id,
                ) || shared_message_ids(self@, *token, account_id, check_acls).contains(d)),
    {
        let ids = self.document_ids(account_id, COLLECTION_EMAIL);
        if ids.len() > 0 && !token.is_member(account_id) {
            let shared = self.shared_messages(token, account_id, check_acls);
            intersect(&ids, &shared)
        } else {
            proof {
                if ids.len() == 0 {
                    assert forall|d: u32| !live_documents(self@, account_id, COLLECTION_EMAIL).contains(d) by {
                        if live_documents(self@, account_id, COLLECTION_EMAIL).contains(d) {
                            assert(ids@.contains(d));
                        }
                    }
                }
            }
            ids
        }
    }
}

} // verus!
