//! Updates of an object's grant list, from a full list or a patch, and the
//! principals whose cached rights an update invalidates.
use vstd::prelude::*;
use crate::acl::AclGrant;

verus! {

/// A value of an ACL property update.
pub enum AclValue {
    Text(String),
    UnsignedInt(u64),
    Bool(bool),
    Null,
}

/// What the directory said of a principal's name.
#[derive(Debug, PartialEq, Eq, Structural, Clone, Copy)]
pub enum Lookup {
    /// The principal exists and has this account id.
    Found(u32),
    /// No principal has the name.
    Missing,
    /// The directory could not be asked.
    Failed,
}

/// Why an ACL update was refused.
#[derive(Debug, PartialEq, Eq, Structural, Clone, Copy)]
pub enum SetError {
    /// The update is malformed or names an unknown principal.
    InvalidProperties,
    /// The directory failed while names were resolved.
    Forbidden,
}

/// An update of the ACL property.
pub enum AclChanges {
    /// A full list `[name, grants, name, grants, ...]`.
    Replace(Vec<AclValue>),
    /// One change `[name, grants]` or `[name, grants, op]`.
    Patch(Vec<AclValue>),
    /// A value of any other shape.
    Invalid,
}

/// The lookup of the `i`-th name; a missing one counts as a failed directory.
pub open spec fn lookup_at(lookups: Seq<Lookup>, i: int) -> Lookup {
    if 0 <= i < lookups.len() {
        lookups[i]
    } else {
        Lookup::Failed
    }
}

/// The grant that one `[name, grants]` pair gives.
pub open spec fn pair_result(name: AclValue, grants: AclValue, lookup: Lookup) -> Result<AclGrant, SetError> {
    match (name, grants) {
        (AclValue::Text(_), AclValue::UnsignedInt(g)) => match lookup {
            Lookup::Found(id) => Ok(AclGrant { account_id: id, grants: g }),
            Lookup::Missing => Err(SetError::InvalidProperties),
            Lookup::Failed => Err(SetError::Forbidden),
        },
        _ => Err(SetError::InvalidProperties),
    }
}

/// The grant list of the first `n` pairs of `values`, or the error of the
/// first pair that fails.
pub open spec fn set_result(values: Seq<AclValue>, lookups: Seq<Lookup>, n: int) -> Result<Seq<AclGrant>, SetError>
    decreases n,
{
    if n <= 0 {
        Ok(Seq::empty())
    } else {
        match set_result(values, lookups, n - 1) {
            Err(e) => Err(e),
            Ok(acc) => match pair_result(values[2 * (n - 1)], values[2 * (n - 1) + 1], lookup_at(lookups, n - 1)) {
                Ok(g) => Ok(acc.push(g)),
                Err(e) => Err(e),
            },
        }
    }
}

/// Builds a grant list from `[name, grants, ...]` pairs; `lookups[i]` is what
/// the directory said of the `i`-th name. A trailing odd value is ignored.
pub fn map_acl_set(values: &Vec<AclValue>, lookups: &Vec<Lookup>) -> (r: Result<Vec<AclGrant>, SetError>)
    ensures
        match set_result(values@, lookups@, values@.len() as int / 2) {
            Ok(l) => r is Ok && r->Ok_0@ == l,
            Err(e) => r == Err::<Vec<AclGrant>, SetError>(e),
        },
{
    let n_values = values.len();
    let pairs = n_values / 2;
    let mut acls: Vec<AclGrant> = Vec::new();
    let mut i: usize = 0;
    while i < pairs
        invariant
            n_values == values@.len(),
            pairs == values@.len() / 2,
            i <= pairs,
            set_result(values@, lookups@, i as int) == Ok::<Seq<AclGrant>, SetError>(acls@),
        decreases pairs - i,
    {
        let lookup = if i < lookups.len() {
            lookups[i]
        } else {
            Lookup::Failed
        };
        let grants: Option<u64> = match (&values[2 * i], &values[2 * i + 1]) {
            (AclValue::Text(_), AclValue::UnsignedInt(g)) => Some(*g),
            _ => None,
        };
        match grants {
            Some(g) => match lookup {
                Lookup::Found(id) => {
                    acls.push(AclGrant { account_id: id, grants: g });
                },
                Lookup::Missing => {
                    proof { lemma_set_result_stays_err(values@, lookups@, i as int + 1, pairs as int); }
                    return Err(SetError::InvalidProperties);
                },
                Lookup::Failed => {
                    proof { lemma_set_result_stays_err(values@, lookups@, i as int + 1, pairs as int); }
                    return Err(SetError::Forbidden);
                },
            },
            None => {
                proof { lemma_set_result_stays_err(values@, lookups@, i as int + 1, pairs as int); }
                return Err(SetError::InvalidProperties);
            },
        }
        i = i + 1;
    }
    Ok(acls)
}

proof fn lemma_set_result_stays_err(values: Seq<AclValue>, lookups: Seq<Lookup>, i: int, n: int)
    requires
        0 <= i <= n,
        set_result(values, lookups, i) is Err,
    ensures
        set_result(values, lookups, n) == set_result(values, lookups, i),
    decreases n - i,
{
    if i < n {
        lemma_set_result_stays_err(values, lookups, i, n - 1);
    }
}

/// The grant and the operation that a patch `[name, grants, op?]` asks for.
pub open spec fn patch_result(values: Seq<AclValue>, lookup: Lookup) -> Result<(AclGrant, Option<bool>), SetError> {
    if values.len() < 2 {
        Err(SetError::InvalidProperties)
    } else {
        match pair_result(values[0], values[1], lookup) {
            Err(e) => Err(e),
            Ok(g) => Ok(
                (
                    g,
                    if values.len() > 2 {
                        Some(values[2] == AclValue::Bool(true))
                    } else {
                        None
                    },
                ),
            ),
        }
    }
}

/// Reads a patch `[name, grants, op?]`; `lookup` is what the directory said
/// of the name. An `op` that is not a boolean counts as `false`.
pub fn map_acl_patch(values: &Vec<AclValue>, lookup: Lookup) -> (r: Result<(AclGrant, Option<bool>), SetError>)
    ensures
        r == patch_result(values@, lookup),
{
    if values.len() < 2 {
        return Err(SetError::InvalidProperties);
    }
    let grants: u64 = match (&values[0], &values[1]) {
        (AclValue::Text(_), AclValue::UnsignedInt(g)) => *g,
        _ => {
            return Err(SetError::InvalidProperties);
        },
    };
    let account_id = match lookup {
        Lookup::Found(id) => id,
        Lookup::Missing => {
            return Err(SetError::InvalidProperties);
        },
        Lookup::Failed => {
            return Err(SetError::Forbidden);
        },
    };
    let op: Option<bool> = if values.len() > 2 {
        Some(
            match &values[2] {
                AclValue::Bool(b) => *b,
                _ => false,
            },
        )
    } else {
        None
    };
    Ok((AclGrant { account_id, grants }, op))
}


/// Whether some entry of the list is for `a`.
pub open spec fn has_account(acl: Seq<AclGrant>, a: u32) -> bool {
    exists|i: int| 0 <= i < acl.len() && acl[i].account_id == a
}

/// The first entry for `a`.
pub open spec fn first_index(acl: Seq<AclGrant>, a: u32) -> int {
    choose|i: int| 0 <= i < acl.len() && acl[i].account_id == a && forall|j: int| 0 <= j < i ==> acl[j].account_id != a
}

/// The grants of `a`, from its first entry.
pub open spec fn grants_of(acl: Seq<AclGrant>, a: u32) -> Option<u64> {
    if has_account(acl, a) {
        Some(acl[first_index(acl, a)].grants)
    } else {
        None
    }
}

/// Each account has at most one entry.
pub open spec fn unique_accounts(acl: Seq<AclGrant>) -> bool {
    forall|i: int, j: int| 0 <= i < j < acl.len() ==> acl[i].account_id != acl[j].account_id
}

/// The list without the entries for `a`.
pub open spec fn without(acl: Seq<AclGrant>, a: u32) -> Seq<AclGrant>
    decreases acl.len(),
{
    if acl.len() == 0 {
        acl
    } else if acl.last().account_id == a {
        without(acl.drop_last(), a)
    } else {
        without(acl.drop_last(), a).push(acl.last())
    }
}

/// The list after a patch: `op == Some(true)` adds the grants to the
/// account's entry (or adds an entry), `Some(false)` takes them away (and drops
/// an entry left empty), `None` replaces the entry's grants, or drops the
/// entry where the grants are empty.
pub open spec fn patch_acl(acl: Seq<AclGrant>, patch: AclGrant, op: Option<bool>) -> Seq<AclGrant> {
    let a = patch.account_id;
    let g = patch.grants;
    let i = first_index(acl, a);
    match op {
        Some(is_set) => if g == 0 {
            acl
        } else if has_account(acl, a) {
            if is_set {
                acl.update(i, AclGrant { account_id: a, grants: acl[i].grants | g })
            } else if acl[i].grants & !g == 0 {
                without(acl, a)
            } else {
                acl.update(i, AclGrant { account_id: a, grants: acl[i].grants & !g })
            }
        } else if is_set {
            acl.push(patch)
        } else {
            acl
        },
        None => if g != 0 {
            if has_account(acl, a) {
                acl.update(i, patch)
            } else {
                acl.push(patch)
            }
        } else {
            without(acl, a)
        },
    }
}

/// The first entry for `a`, if any.
pub fn find_grant(acl: &Vec<AclGrant>, a: u32) -> (r: Option<usize>)
    ensures
        match r {
            Some(i) => has_account(acl@, a) && i == first_index(acl@, a) && i < acl@.len(),
            None => !has_account(acl@, a),
        },
{
    let n = acl.len();
    let mut i: usize = 0;
    while i < n
        invariant
            n == acl@.len(),
            i <= n,
            forall|j: int| 0 <= j < i ==> acl@[j].account_id != a,
        decreases n - i,
    {
        if acl[i].account_id == a {
            proof {
                let f = first_index(acl@, a);
                assert(acl@[i as int].account_id == a);
                if f != i {
                    if f < i {
                    } else {
                        assert(acl@[i as int].account_id != a);
                    }
                }
            }
            return Some(i);
        }
        i = i + 1;
    }
    None
}

/// The list without the entries for `a`.
pub fn retain_others(acl: &Vec<AclGrant>, a: u32) -> (r: Vec<AclGrant>)
    ensures
        r@ == without(acl@, a),
{
    let n = acl.len();
    let mut r: Vec<AclGrant> = Vec::new();
    let mut i: usize = 0;
    while i < n
        invariant
            n == acl@.len(),
            i <= n,
            r@ == without(acl@.subrange(0, i as int), a),
        decreases n - i,
    {
        let item = acl[i];
        assert(acl@.subrange(0, i + 1).drop_last() =~= acl@.subrange(0, i as int));
        if item.account_id != a {
            r.push(item);
        }
        i = i + 1;
    }
    assert(acl@.subrange(0, n as int) =~= acl@);
    r
}

/// Applies a patch to a grant list.
pub fn apply_acl_patch(acl: &mut Vec<AclGrant>, patch: AclGrant, op: Option<bool>)
    ensures
        final(acl)@ == patch_acl(old(acl)@, patch, op),
{
    let a = patch.account_id;
    let g = patch.grants;
    match op {
        Some(is_set) => {
            if g != 0 {
                match find_grant(acl, a) {
                    Some(i) => {
                        let cur = acl[i].grants;
                        if is_set {
                            acl.set(i, AclGrant { account_id: a, grants: cur | g });
                        } else if cur & !g == 0 {
                            *acl = retain_others(acl, a);
                        } else {
                            acl.set(i, AclGrant { account_id: a, grants: cur & !g });
                        }
                    },
                    None => {
                        if is_set {
                            acl.push(patch);
                        }
                    },
                }
            }
        },
        None => {
            if g != 0 {
                match find_grant(acl, a) {
                    Some(i) => {
                        acl.set(i, patch);
                    },
                    None => {
                        acl.push(patch);
                    },
                }
            } else {
                *acl = retain_others(acl, a);
            }
        },
    }
}

/// The ACL property after an update, from the pending changes or else the
/// stored object; `lookups` holds what the directory said of each name.
pub fn acl_set(changes: &mut Option<Vec<AclGrant>>, current: Option<&Vec<AclGrant>>, acl_changes: &AclChanges, lookups: &Vec<Lookup>) -> (r: Result<(), SetError>)
    ensures
        match acl_changes {
            AclChanges::Replace(values) => match set_result(values@, lookups@, values@.len() as int / 2) {
                Ok(l) => r is Ok && (*final(changes)) is Some && (*final(changes))->Some_0@ == l,
                Err(e) => r == Err::<(), SetError>(e) && *final(changes) == *old(changes),
            },
            AclChanges::Patch(values) => match patch_result(values@, lookup_at(lookups@, 0)) {
                Ok((p, op)) => r is Ok && (*final(changes)) is Some && (*final(changes))->Some_0@ == patch_acl(
                    match *old(changes) {
                        Some(c) => c@,
                        None => match current {
                            Some(c) => c@,
                            None => Seq::empty(),
                        },
                    },
                    p,
                    op,
                ),
                Err(e) => r == Err::<(), SetError>(e) && *final(changes) == *old(changes),
            },
            AclChanges::Invalid => r == Err::<(), SetError>(SetError::InvalidProperties) && *final(changes)
                == *old(changes),
        },
{
    match acl_changes {
        AclChanges::Replace(values) => {
            let acl = map_acl_set(values, lookups)?;
            *changes = Some(acl);
            Ok(())
        },
        AclChanges::Patch(values) => {
            let lookup = if lookups.len() > 0 {
                lookups[0]
            } else {
                Lookup::Failed
            };
            let (patch, op) = map_acl_patch(values, lookup)?;
            let mut acl: Vec<AclGrant> = match changes {
                Some(c) => copy_grants(c),
                None => match current {
                    Some(c) => copy_grants(c),
                    None => Vec::new(),
                },
            };
            apply_acl_patch(&mut acl, patch, op);
            *changes = Some(acl);
            Ok(())
        },
        AclChanges::Invalid => Err(SetError::InvalidProperties),
    }
}

/// A copy of a grant list.
pub fn copy_grants(acl: &Vec<AclGrant>) -> (r: Vec<AclGrant>)
    ensures
        r@ == acl@,
{
    let n = acl.len();
    let mut r: Vec<AclGrant> = Vec::new();
    let mut i: usize = 0;
    while i < n
        invariant
            n == acl@.len(),
            i <= n,
            r@ == acl@.subrange(0, i as int),
        decreases n - i,
    {
        r.push(acl[i]);
        i = i + 1;
        assert(r@ =~= acl@.subrange(0, i as int));
    }
    assert(acl@.subrange(0, n as int) =~= acl@);
    r
}


/// Whether `list` has the same grants for `item`'s account as `item`.
pub open spec fn matched(list: Seq<AclGrant>, item: AclGrant) -> bool {
    has_account(list, item.account_id) && list[first_index(list, item.account_id)].grants == item.grants
}

/// Whether an update from `current` to `changes` signals account `a`: an
/// entry for it on either side has no equal entry on the other.
pub open spec fn signalled(current: Seq<AclGrant>, changes: Seq<AclGrant>, a: u32) -> bool {
    ||| exists|i: int| 0 <= i < current.len() && current[i].account_id == a && !matched(changes, #[trigger] current[i])
    ||| exists|j: int| 0 <= j < changes.len() && changes[j].account_id == a && !matched(current, #[trigger] changes[j])
}

/// Adds to `out` the accounts of `from` that have no equal entry in `other`.
fn signal_unmatched(out: &mut Vec<u32>, from: &Vec<AclGrant>, other: &Vec<AclGrant>)
    requires
        forall|i: int, j: int| 0 <= i < j < old(out)@.len() ==> old(out)@[i] != old(out)@[j],
    ensures
        forall|i: int, j: int| 0 <= i < j < final(out)@.len() ==> final(out)@[i] != final(out)@[j],
        forall|a: u32| final(out)@.contains(a) <==> old(out)@.contains(a) || exists|i: int|
            0 <= i < from@.len() && from@[i].account_id == a && !matched(other@, #[trigger] from@[i]),
{
    let n = from.len();
    let mut i: usize = 0;
    while i < n
        invariant
            n == from@.len(),
            i <= n,
            forall|x: int, y: int| 0 <= x < y < out@.len() ==> out@[x] != out@[y],
            forall|a: u32| out@.contains(a) <==> old(out)@.contains(a) || exists|x: int|
                0 <= x < i && from@[x].account_id == a && !matched(other@, #[trigger] from@[x]),
        decreases n - i,
    {
        let item = from[i];
        let invalidate = match find_grant(other, item.account_id) {
            Some(k) => other[k].grants != item.grants,
            None => true,
        };
        if invalidate {
            crate::acl::push_unique(out, item.account_id);
        }
        assert forall|a: u32| out@.contains(a) <==> old(out)@.contains(a) || exists|x: int|
            0 <= x < i + 1 && from@[x].account_id == a && !matched(other@, #[trigger] from@[x]) by {
            if exists|x: int| 0 <= x < i + 1 && from@[x].account_id == a && !matched(other@, #[trigger] from@[x]) {
                let x = choose|x: int| 0 <= x < i + 1 && from@[x].account_id == a && !matched(other@, #[trigger] from@[x]);
                if x == i {
                    assert(invalidate);
                }
            }
        }
        i = i + 1;
    }
}

/// The accounts whose cached rights an update of the ACL property
/// invalidates, each once; none where the update leaves the property alone.
pub fn refresh_acls(changes: Option<&Vec<AclGrant>>, current: Option<&Vec<AclGrant>>) -> (r: Vec<u32>)
    ensures
        forall|i: int, j: int| 0 <= i < j < r@.len() ==> r@[i] != r@[j],
        forall|a: u32|
            r@.contains(a) <==> match changes {
                Some(c) => signalled(
                    match current {
                        Some(cur) => cur@,
                        None => Seq::empty(),
                    },
                    c@,
                    a,
                ),
                None => false,
            },
{
    let mut out: Vec<u32> = Vec::new();
    match changes {
        Some(c) => {
            let empty: Vec<AclGrant> = Vec::new();
            let cur: &Vec<AclGrant> = match current {
                Some(cur) => cur,
                None => &empty,
            };
            signal_unmatched(&mut out, cur, c);
            signal_unmatched(&mut out, c, cur);
        },
        None => {},
    }
    out
}

proof fn lemma_first_index(acl: Seq<AclGrant>, i: int)
    requires
        unique_accounts(acl),
        0 <= i < acl.len(),
    ensures
        has_account(acl, acl[i].account_id),
        first_index(acl, acl[i].account_id) == i,
{
    let a = acl[i].account_id;
    assert(has_account(acl, a));
    let f = first_index(acl, a);
    assert(acl[i].account_id == a && forall|j: int| 0 <= j < i ==> acl[j].account_id != a);
}

/// Where each side has one entry per account, an update signals exactly the
/// accounts whose grants differ, entries added or removed included.
pub proof fn lemma_refresh_symmetry(current: Seq<AclGrant>, changes: Seq<AclGrant>, a: u32)
    requires
        unique_accounts(current),
        unique_accounts(changes),
    ensures
        signalled(current, changes, a) <==> grants_of(current, a) != grants_of(changes, a),
{
    if has_account(current, a) {
        let i = first_index(current, a);
        lemma_first_index(current, i);
        if !matched(changes, current[i]) {
            assert(grants_of(current, a) != grants_of(changes, a));
        }
        if grants_of(current, a) != grants_of(changes, a) {
            assert(!matched(changes, current[i]));
        }
        if has_account(changes, a) {
            let j = first_index(changes, a);
            lemma_first_index(changes, j);
            if exists|x: int| 0 <= x < changes.len() && changes[x].account_id == a && !matched(current, #[trigger] changes[x]) {
                let x = choose|x: int| 0 <= x < changes.len() && changes[x].account_id == a && !matched(current, #[trigger] changes[x]);
                lemma_first_index(changes, x);
            }
        }
        if exists|x: int| 0 <= x < current.len() && current[x].account_id == a && !matched(changes, #[trigger] current[x]) {
            let x = choose|x: int| 0 <= x < current.len() && current[x].account_id == a && !matched(changes, #[trigger] current[x]);
            lemma_first_index(current, x);
        }
    } else {
        assert(!exists|x: int| 0 <= x < current.len() && current[x].account_id == a);
        if has_account(changes, a) {
            let j = first_index(changes, a);
            assert(!matched(current, changes[j]));
        }
    }
}

/// Adding grants through a patch to an empty list gives what a full list of
/// that one grant gives, for non-empty grants.
pub proof fn lemma_patch_set_equivalence(name: String, grants: u64, lookup: Lookup)
    requires
        grants != 0,
    ensures
        ({
            let set = set_result(seq![AclValue::Text(name), AclValue::UnsignedInt(grants)], seq![lookup], 1);
            let patch = patch_result(seq![AclValue::Text(name), AclValue::UnsignedInt(grants), AclValue::Bool(true)], lookup);
            match (set, patch) {
                (Ok(l), Ok((p, op))) => patch_acl(Seq::empty(), p, op) == l,
                (Err(e1), Err(e2)) => e1 == e2,
                _ => false,
            }
        }),
{
    let pair = seq![AclValue::Text(name), AclValue::UnsignedInt(grants)];
    assert(set_result(pair, seq![lookup], 0) == Ok::<Seq<AclGrant>, SetError>(Seq::empty()));
    if let Lookup::Found(id) = lookup {
        let p = AclGrant { account_id: id, grants };
        assert(!has_account(Seq::<AclGrant>::empty(), id));
        assert(Seq::<AclGrant>::empty().push(p) =~= seq![p]);
    }
}

} // verus!
