//! Access control: the rights a token holds on shared documents, effective
//! ACLs, and updates of an object's grant list.
use vstd::prelude::*;
use crate::codec::{from_be, read_be};
use crate::keys::{deserialize_key, lemma_key_bytes_unique, lemma_key_round_trip, serialize_key,
    AclKey, Key, KeyView};
use crate::store::{stored, MemoryStore};

verus! {

/// A right that a grant can hold.
#[derive(Debug, PartialEq, Eq, Structural, Clone, Copy)]
pub enum Acl {
    Read,
    Modify,
    Delete,
    ReadItems,
    AddItems,
    ModifyItems,
    RemoveItems,
    CreateChild,
    Administer,
    Submit,
}

impl Acl {
    pub open spec fn spec_bit(&self) -> u64 {
        match self {
            Acl::Read => 1,
            Acl::Modify => 2,
            Acl::Delete => 4,
            Acl::ReadItems => 8,
            Acl::AddItems => 16,
            Acl::ModifyItems => 32,
            Acl::RemoveItems => 64,
            Acl::CreateChild => 128,
            Acl::Administer => 256,
            Acl::Submit => 512,
        }
    }

    /// The bit of this right in a grant bitmap.
    pub fn bit(&self) -> (r: u64)
        ensures
            r == self.spec_bit(),
    {
        match self {
            Acl::Read => 1,
            Acl::Modify => 2,
            Acl::Delete => 4,
            Acl::ReadItems => 8,
            Acl::AddItems => 16,
            Acl::ModifyItems => 32,
            Acl::RemoveItems => 64,
            Acl::CreateChild => 128,
            Acl::Administer => 256,
            Acl::Submit => 512,
        }
    }
}

/// A principal's identity: its own account and the groups it belongs to.
pub struct AccessToken {
    pub primary_id: u32,
    pub member_of: Vec<u32>,
}

impl AccessToken {
    /// Whether the token acts for `account_id`.
    pub open spec fn spec_is_member(&self, account_id: u32) -> bool {
        self.primary_id == account_id || self.member_of@.contains(account_id)
    }

    pub fn is_member(&self, account_id: u32) -> (r: bool)
        ensures
            r == self.spec_is_member(account_id),
    {
        if self.primary_id == account_id {
            return true;
        }
        let n = self.member_of.len();
        let mut i: usize = 0;
        while i < n
            invariant
                n == self.member_of@.len(),
                i <= n,
                forall|j: int| 0 <= j < i ==> self.member_of@[j] != account_id,
            decreases n - i,
        {
            if self.member_of[i] == account_id {
                return true;
            }
            i = i + 1;
        }
        false
    }
}

/// The rights granted to one account.
#[derive(Debug, PartialEq, Eq, Structural, Clone, Copy)]
pub struct AclGrant {
    pub account_id: u32,
    pub grants: u64,
}

/// The grant bitmap that a stored ACL value holds; a value that is not eight
/// bytes grants nothing.
pub open spec fn acl_bits(v: Seq<u8>) -> u64 {
    if v.len() == 8 {
        from_be(v) as u64
    } else {
        0
    }
}

fn read_acl_bits(v: &Vec<u8>) -> (r: u64)
    ensures
        r == acl_bits(v@),
{
    if v.len() != 8 {
        return 0;
    }
    let r = read_be(v, 0, 8);
    assert(v@.subrange(0, 8) =~= v@);
    r
}

pub open spec fn acl_key_of(grant: u32, to_account: u32, to_collection: u8, to_document: u32) -> Seq<u8> {
    serialize_key(
        KeyView::Acl {
            grant_account_id: grant,
            to_account_id: to_account,
            to_collection,
            to_document_id: to_document,
        },
    )
}

/// Whether account `grant` holds one of the rights `check` on a document.
pub open spec fn grants_any(m: Map<Seq<u8>, Seq<u8>>, grant: u32, to_account: u32, to_collection: u8, to_document: u32, check: u64) -> bool {
    m.contains_key(acl_key_of(grant, to_account, to_collection, to_document)) && acl_bits(
        m[acl_key_of(grant, to_account, to_collection, to_document)],
    ) & check != 0
}

/// The documents of a collection that the token, or one of its groups, holds
/// one of the rights `check` on.
pub open spec fn shared_with(m: Map<Seq<u8>, Seq<u8>>, token: AccessToken, to_account: u32, to_collection: u8, check: u64) -> Set<u32> {
    Set::new(
        |d: u32|
            exists|g: u32|
                token.spec_is_member(g) && #[trigger] grants_any(m, g, to_account, to_collection, d, check),
    )
}

/// Union of the grants of the entries that the token is a member of, over the
/// first `n` entries.
pub open spec fn effective_grants(acl: Seq<AclGrant>, token: AccessToken, n: int) -> u64
    decreases n,
{
    if n <= 0 {
        0
    } else if token.spec_is_member(acl[n - 1].account_id) {
        effective_grants(acl, token, n - 1) | acl[n - 1].grants
    } else {
        effective_grants(acl, token, n - 1)
    }
}

/// The rights the token holds through an ACL: the union of the grants of the
/// entries whose account it is a member of.
pub fn effective_acl(acl: &Vec<AclGrant>, token: &AccessToken) -> (r: u64)
    ensures
        r == effective_grants(acl@, *token, acl@.len() as int),
{
    let n = acl.len();
    let mut r: u64 = 0;
    let mut i: usize = 0;
    while i < n
        invariant
            n == acl@.len(),
            i <= n,
            r == effective_grants(acl@, *token, i as int),
        decreases n - i,
    {
        let item = acl[i];
        if token.is_member(item.account_id) {
            r = r | item.grants;
        }
        i = i + 1;
    }
    r
}

impl MemoryStore {
    /// Whether the token, or one of its groups, holds one of the rights
    /// `check` on a document.
    pub fn has_access_to_document(&self, token: &AccessToken, to_account_id: u32, to_collection: u8, to_document_id: u32, check_acls: u64) -> (r: bool)
        requires
            self.wf(),
        ensures
            r == exists|g: u32|
                token.spec_is_member(g) && #[trigger] grants_any(
                    self@,
                    g,
                    to_account_id,
                    to_collection,
                    to_document_id,
                    check_acls,
                ),
    {
        let key = AclKey {
            grant_account_id: token.primary_id,
            to_account_id,
            to_collection,
            to_document_id,
        }.serialize();
        if let Some(v) = self.get(&key) {
            if read_acl_bits(&v) & check_acls != 0 {
                assert(grants_any(self@, token.primary_id, to_account_id, to_collection, to_document_id, check_acls));
                return true;
            }
        }
        let n = token.member_of.len();
        let mut i: usize = 0;
        while i < n
            invariant
                self.wf(),
                n == token.member_of@.len(),
                i <= n,
                !grants_any(self@, token.primary_id, to_account_id, to_collection, to_document_id, check_acls),
                forall|j: int|
                    0 <= j < i ==> !#[trigger] grants_any(
                        self@,
                        token.member_of@[j],
                        to_account_id,
                        to_collection,
                        to_document_id,
                        check_acls,
                    ),
            decreases n - i,
        {
            let g = token.member_of[i];
            let key = AclKey {
                grant_account_id: g,
                to_account_id,
                to_collection,
                to_document_id,
            }.serialize();
            if let Some(v) = self.get(&key) {
                if read_acl_bits(&v) & check_acls != 0 {
                    assert(grants_any(self@, g, to_account_id, to_collection, to_document_id, check_acls));
                    return true;
                }
            }
            i = i + 1;
        }
        assert forall|g: u32| token.spec_is_member(g) implies !#[trigger] grants_any(
            self@,
            g,
            to_account_id,
            to_collection,
            to_document_id,
            check_acls,
        ) by {
            if g != token.primary_id {
                let j = choose|j: int| 0 <= j < token.member_of@.len() && token.member_of@[j] == g;
            }
        }
        false
    }
}


proof fn lemma_acl_key(k: Seq<u8>)
    ensures
        forall|g: u32, a: u32, c: u8, d: u32|
            #![trigger acl_key_of(g, a, c, d)]
            k == acl_key_of(g, a, c, d) <==> deserialize_key(k) == Some(
                KeyView::Acl { grant_account_id: g, to_account_id: a, to_collection: c, to_document_id: d },
            ),
{
    lemma_key_bytes_unique(k);
    assert forall|g: u32, a: u32, c: u8, d: u32| #![trigger acl_key_of(g, a, c, d)] k == acl_key_of(g, a, c, d) implies deserialize_key(k)
        == Some(KeyView::Acl { grant_account_id: g, to_account_id: a, to_collection: c, to_document_id: d }) by {
        lemma_key_round_trip(KeyView::Acl { grant_account_id: g, to_account_id: a, to_collection: c, to_document_id: d });
    }
}

/// Appends `x` unless it is there already.
pub fn push_unique(v: &mut Vec<u32>, x: u32)
    ensures
        forall|y: u32| final(v)@.contains(y) <==> old(v)@.contains(y) || y == x,
        (forall|i: int, j: int| 0 <= i < j < old(v)@.len() ==> old(v)@[i] != old(v)@[j]) ==> (forall|i: int, j: int|
            0 <= i < j < final(v)@.len() ==> final(v)@[i] != final(v)@[j]),
{
    let n = v.len();
    let mut i: usize = 0;
    while i < n
        invariant
            n == v@.len(),
            i <= n,
            forall|j: int| 0 <= j < i ==> v@[j] != x,
        decreases n - i,
    {
        if v[i] == x {
            return;
        }
        i = i + 1;
    }
    v.push(x);
    assert forall|y: u32| v@.contains(y) <==> old(v)@.contains(y) || y == x by {
        if old(v)@.contains(y) {
            let j = choose|j: int| 0 <= j < old(v)@.len() && old(v)@[j] == y;
            assert(v@[j] == y);
        }
        if y == x {
            assert(v@[n as int] == y);
        }
    }
}

impl MemoryStore {
    /// The documents of a collection shared with the token, or with one of
    /// its groups, with one of the rights `check_acls`; each once.
    pub fn shared_documents(&self, token: &AccessToken, to_account_id: u32, to_collection: u8, check_acls: u64) -> (r: Vec<u32>)
        requires
            self.wf(),
        ensures
            forall|d: u32| r@.contains(d) <==> shared_with(self@, *token, to_account_id, to_collection, check_acls).contains(d),
            forall|i: int, j: int| 0 <= i < j < r@.len() ==> r@[i] != r@[j],
    {
        let entries = self.entries();
        let n = entries.len();
        let mut r: Vec<u32> = Vec::new();
        let mut i: usize = 0;
        while i < n
            invariant
                self.wf(),
                n == entries@.len(),
                i <= n,
                forall|x: int|
                    0 <= x < entries@.len() ==> self@.contains_key(#[trigger] entries@[x].0@) && self@[entries@[x].0@]
                        == entries@[x].1@,
                forall|a: int, b: int| 0 <= a < b < r@.len() ==> r@[a] != r@[b],
                forall|d: u32|
                    r@.contains(d) <==> exists|x: int, g: u32|
                        #![trigger entries@[x], acl_key_of(g, to_account_id, to_collection, d)]
                        0 <= x < i && token.spec_is_member(g) && entries@[x].0@ == acl_key_of(g, to_account_id, to_collection, d)
                            && acl_bits(entries@[x].1@) & check_acls != 0,
            decreases n - i,
        {
            let ghost k = entries@[i as int].0@;
            proof {
                lemma_acl_key(k);
            }
            let ghost old_r = r@;
            let mut hit: Option<u32> = None;
            if let Some(Key::Acl(ak)) = Key::deserialize(&entries[i].0) {
                if ak.to_account_id == to_account_id && ak.to_collection == to_collection && token.is_member(
                    ak.grant_account_id,
                ) && read_acl_bits(&entries[i].1) & check_acls != 0 {
                    assert(k == acl_key_of(ak.grant_account_id, to_account_id, to_collection, ak.to_document_id));
                    hit = Some(ak.to_document_id);
                }
            }
            if let Some(d) = hit {
                push_unique(&mut r, d);
            }
            assert forall|d: u32| r@.contains(d) <==> exists|x: int, g: u32|
                #![trigger entries@[x], acl_key_of(g, to_account_id, to_collection, d)]
                0 <= x < i + 1 && token.spec_is_member(g) && entries@[x].0@ == acl_key_of(g, to_account_id, to_collection, d)
                    && acl_bits(entries@[x].1@) & check_acls != 0 by {
                if exists|x: int, g: u32|
                    #![trigger entries@[x], acl_key_of(g, to_account_id, to_collection, d)]
                    0 <= x < i + 1 && token.spec_is_member(g) && entries@[x].0@ == acl_key_of(g, to_account_id, to_collection, d)
                        && acl_bits(entries@[x].1@) & check_acls != 0 {
                    let (x, g) = choose|x: int, g: u32|
                        #![trigger entries@[x], acl_key_of(g, to_account_id, to_collection, d)]
                        0 <= x < i + 1 && token.spec_is_member(g) && entries@[x].0@ == acl_key_of(g, to_account_id, to_collection, d)
                            && acl_bits(entries@[x].1@) & check_acls != 0;
                    if x == i {
                        assert(hit == Some(d));
                    } else {
                        assert(old_r.contains(d));
                    }
                }
                if r@.contains(d) && !old_r.contains(d) {
                    let ak_d = hit->Some_0;
                    assert(ak_d == d);
                }
            }
            i = i + 1;
        }
        assert forall|d: u32| r@.contains(d) <==> shared_with(self@, *token, to_account_id, to_collection, check_acls).contains(d) by {
            if shared_with(self@, *token, to_account_id, to_collection, check_acls).contains(d) {
                let g = choose|g: u32| token.spec_is_member(g) && #[trigger] grants_any(self@, g, to_account_id, to_collection, d, check_acls);
                let x = choose|x: int| 0 <= x < entries@.len() && entries@[x].0@ == acl_key_of(g, to_account_id, to_collection, d);
                assert(entries@[x].0@ == acl_key_of(g, to_account_id, to_collection, d));
            }
            if r@.contains(d) {
                let (x, g) = choose|x: int, g: u32|
                    #![trigger entries@[x], acl_key_of(g, to_account_id, to_collection, d)]
                    0 <= x < n && token.spec_is_member(g) && entries@[x].0@ == acl_key_of(g, to_account_id, to_collection, d)
                        && acl_bits(entries@[x].1@) & check_acls != 0;
                assert(grants_any(self@, g, to_account_id, to_collection, d, check_acls));
            }
        }
        r
    }
}


/// Every right, in bit order.
pub open spec fn all_rights() -> Seq<Acl> {
    seq![
        Acl::Read,
        Acl::Modify,
        Acl::Delete,
        Acl::ReadItems,
        Acl::AddItems,
        Acl::ModifyItems,
        Acl::RemoveItems,
        Acl::CreateChild,
        Acl::Administer,
        Acl::Submit,
    ]
}

/// The rights among the first `n` of `all_rights` that `grants` holds.
pub open spec fn rights_upto(grants: u64, n: int) -> Seq<Acl>
    decreases n,
{
    if n <= 0 {
        Seq::empty()
    } else if grants & all_rights()[n - 1].spec_bit() != 0 {
        rights_upto(grants, n - 1).push(all_rights()[n - 1])
    } else {
        rights_upto(grants, n - 1)
    }
}

/// The rights that a grant bitmap holds, in bit order.
pub fn rights_of(grants: u64) -> (r: Vec<Acl>)
    ensures
        r@ == rights_upto(grants, 10),
{
    let all: Vec<Acl> = vec![
        Acl::Read,
        Acl::Modify,
        Acl::Delete,
        Acl::ReadItems,
        Acl::AddItems,
        Acl::ModifyItems,
        Acl::RemoveItems,
        Acl::CreateChild,
        Acl::Administer,
        Acl::Submit,
    ];
    assert(all@ =~= all_rights());
    let mut r: Vec<Acl> = Vec::new();
    let mut i: usize = 0;
    while i < 10
        invariant
            all@ == all_rights(),
            i <= 10,
            r@ == rights_upto(grants, i as int),
        decreases 10 - i,
    {
        let right = all[i];
        if grants & right.bit() != 0 {
            r.push(right);
        }
        i = i + 1;
    }
    r
}

/// Whether the token may read an object's ACL: it owns the account, or it is
/// a member of an entry that holds `Administer`.
pub open spec fn may_read_acl(acl: Seq<AclGrant>, token: AccessToken, account_id: u32) -> bool {
    token.spec_is_member(account_id) || exists|i: int|
        0 <= i < acl.len() && token.spec_is_member(acl[i].account_id) && #[trigger] acl[i].grants
            & Acl::Administer.spec_bit() != 0
}

/// The listing of the first `n` entries: each entry whose principal has a
/// name, with that name and its rights.
pub open spec fn acl_listing(acl: Seq<AclGrant>, names: Seq<Option<String>>, n: int) -> Seq<(Seq<char>, Seq<Acl>)>
    decreases n,
{
    if n <= 0 {
        Seq::empty()
    } else {
        let prev = acl_listing(acl, names, n - 1);
        if n - 1 < names.len() && names[n - 1] is Some {
            prev.push((names[n - 1]->Some_0@, rights_upto(acl[n - 1].grants, 10)))
        } else {
            prev
        }
    }
}

pub open spec fn listing_view(l: Seq<(String, Vec<Acl>)>) -> Seq<(Seq<char>, Seq<Acl>)> {
    l.map_values(|p: (String, Vec<Acl>)| (p.0@, p.1@))
}

/// An object's ACL as the token may see it: each grantee by name with its
/// rights, or `None` where the token may not read it. `names[i]` is the name
/// of the principal of entry `i`, where the directory knows it.
pub fn acl_get(acl: &Vec<AclGrant>, token: &AccessToken, account_id: u32, names: &Vec<Option<String>>) -> (r: Option<Vec<(String, Vec<Acl>)>>)
    ensures
        may_read_acl(acl@, *token, account_id) ==> r is Some && listing_view(r->Some_0@) == acl_listing(acl@, names@, acl@.len() as int),
        !may_read_acl(acl@, *token, account_id) ==> r is None,
{
    let n = acl.len();
    let mut visible = token.is_member(account_id);
    let mut i: usize = 0;
    while i < n && !visible
        invariant
            n == acl@.len(),
            i <= n,
            visible ==> may_read_acl(acl@, *token, account_id),
            !visible ==> !token.spec_is_member(account_id) && forall|j: int|
                0 <= j < i ==> !(token.spec_is_member(acl@[j].account_id) && #[trigger] acl@[j].grants
                    & Acl::Administer.spec_bit() != 0),
        decreases n - i,
    {
        let item = acl[i];
        if token.is_member(item.account_id) && item.grants & Acl::Administer.bit() != 0 {
            visible = true;
        }
        i = i + 1;
    }
    if !visible {
        return None;
    }
    let mut out: Vec<(String, Vec<Acl>)> = Vec::new();
    let mut i: usize = 0;
    while i < n
        invariant
            n == acl@.len(),
            i <= n,
            listing_view(out@) == acl_listing(acl@, names@, i as int),
        decreases n - i,
    {
        if i < names.len() {
            if let Some(name) = &names[i] {
                let ghost before = out@;
                out.push((name.clone(), rights_of(acl[i].grants)));
                assert(listing_view(out@) =~= listing_view(before).push(
                    (names@[i as int]->Some_0@, rights_upto(acl@[i as int].grants, 10)),
                ));
            }
        }
        i = i + 1;
    }
    Some(out)
}

} // verus!
