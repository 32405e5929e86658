//! A key-value store held in memory, with the atomic mutators of the
//! transactional store: plain set and clear, and bitwise merges. Its entries
//! are kept in insertion order; byte order between keys matters only to the
//! key layout, not to this store.
use vstd::prelude::*;
use crate::codec::{bytes_eq, copy_bytes};

verus! {

/// The byte at `i` of an optional stored value, zero past its end.
pub open spec fn byte_at(v: Option<Seq<u8>>, i: int) -> u8 {
    match v {
        Some(s) => if 0 <= i < s.len() { s[i] } else { 0 },
        None => 0,
    }
}

/// The value left by an atomic bitwise OR of `p` into the stored value `v`:
/// `v` is zero-extended or truncated to the length of `p` first.
pub open spec fn or_bytes(v: Option<Seq<u8>>, p: Seq<u8>) -> Seq<u8> {
    Seq::new(p.len(), |i: int| byte_at(v, i) | p[i])
}

/// The value left by an atomic bitwise XOR of `p` into the stored value `v`.
pub open spec fn xor_bytes(v: Option<Seq<u8>>, p: Seq<u8>) -> Seq<u8> {
    Seq::new(p.len(), |i: int| byte_at(v, i) ^ p[i])
}

/// The value stored at `k`, if any.
pub open spec fn stored(m: Map<Seq<u8>, Seq<u8>>, k: Seq<u8>) -> Option<Seq<u8>> {
    if m.contains_key(k) {
        Some(m[k])
    } else {
        None
    }
}

/// Merges `p` into the stored value `cur` byte by byte, by XOR where `xor`
/// holds, else by OR.
fn merge_bytes(cur: &Option<Vec<u8>>, p: &Vec<u8>, xor: bool) -> (r: Vec<u8>)
    ensures
        r@ == (if xor {
            xor_bytes(opt_view(*cur), p@)
        } else {
            or_bytes(opt_view(*cur), p@)
        }),
{
    let n = p.len();
    let mut r: Vec<u8> = Vec::new();
    let mut i: usize = 0;
    while i < n
        invariant
            n == p@.len(),
            i <= n,
            r@.len() == i,
            forall|j: int|
                0 <= j < i ==> #[trigger] r@[j] == (if xor {
                    byte_at(opt_view(*cur), j) ^ p@[j]
                } else {
                    byte_at(opt_view(*cur), j) | p@[j]
                }),
        decreases n - i,
    {
        let old_byte: u8 = match cur {
            Some(v) => if i < v.len() {
                v[i]
            } else {
                0
            },
            None => 0,
        };
        if xor {
            r.push(old_byte ^ p[i]);
        } else {
            r.push(old_byte | p[i]);
        }
        i = i + 1;
    }
    proof {
        if xor {
            assert(r@ =~= xor_bytes(opt_view(*cur), p@));
        } else {
            assert(r@ =~= or_bytes(opt_view(*cur), p@));
        }
    }
    r
}

/// The bytes of an optional byte vector.
pub open spec fn opt_view(v: Option<Vec<u8>>) -> Option<Seq<u8>> {
    match v {
        Some(v) => Some(v@),
        None => None,
    }
}

/// A key-value store held in memory.
pub struct MemoryStore {
    entries: Vec<(Vec<u8>, Vec<u8>)>,
    contents: Ghost<Map<Seq<u8>, Seq<u8>>>,
}

impl View for MemoryStore {
    type V = Map<Seq<u8>, Seq<u8>>;

    closed spec fn view(&self) -> Map<Seq<u8>, Seq<u8>> {
        self.contents@
    }
}

impl MemoryStore {
    /// The entries are the contents, each key once.
    pub closed spec fn wf(&self) -> bool {
        &&& forall|i: int, j: int|
            0 <= i < j < self.entries@.len() ==> self.entries@[i].0@ != self.entries@[j].0@
        &&& forall|i: int|
            0 <= i < self.entries@.len() ==> self.contents@.contains_key(#[trigger] self.entries@[i].0@)
                && self.contents@[self.entries@[i].0@] == self.entries@[i].1@
        &&& forall|k: Seq<u8>|
            #[trigger] self.contents@.contains_key(k) ==> exists|i: int|
                0 <= i < self.entries@.len() && self.entries@[i].0@ == k
    }

    pub fn new() -> (r: MemoryStore)
        ensures
            r.wf(),
            r@ == Map::<Seq<u8>, Seq<u8>>::empty(),
    {
        MemoryStore { entries: Vec::new(), contents: Ghost(Map::empty()) }
    }

    fn find(&self, key: &Vec<u8>) -> (r: Option<usize>)
        requires
            self.wf(),
        ensures
            match r {
                Some(i) => i < self.entries@.len() && self.entries@[i as int].0@ == key@,
                None => !self@.contains_key(key@),
            },
    {
        let n = self.entries.len();
        let mut i: usize = 0;
        while i < n
            invariant
                n == self.entries@.len(),
                i <= n,
                forall|j: int| 0 <= j < i ==> self.entries@[j].0@ != key@,
            decreases n - i,
        {
            if bytes_eq(&self.entries[i].0, key) {
                return Some(i);
            }
            i = i + 1;
        }
        None
    }

    /// The value stored at `key`.
    pub fn get(&self, key: &Vec<u8>) -> (r: Option<Vec<u8>>)
        requires
            self.wf(),
        ensures
            match r {
                Some(v) => self@.contains_key(key@) && self@[key@] == v@,
                None => !self@.contains_key(key@),
            },
    {
        match self.find(key) {
            Some(i) => Some(copy_bytes(&self.entries[i].1)),
            None => None,
        }
    }

    /// Stores `value` at `key`.
    pub fn set(&mut self, key: Vec<u8>, value: Vec<u8>)
        requires
            old(self).wf(),
        ensures
            final(self).wf(),
            final(self)@ == old(self)@.insert(key@, value@),
    {
        let ghost k = key@;
        let ghost v = value@;
        let ghost m = self.contents@.insert(k, v);
        let ghost mut at: int = 0;
        match self.find(&key) {
            Some(i) => {
                self.entries.set(i, (key, value));
                proof {
                    at = i as int;
                }
            },
            None => {
                proof {
                    at = self.entries@.len() as int;
                }
                self.entries.push((key, value));
            },
        }
        assert(self.entries@[at].0@ == k);
        self.contents = Ghost(m);
        assert forall|q: Seq<u8>| #[trigger] self.contents@.contains_key(q) implies exists|i: int|
            0 <= i < self.entries@.len() && self.entries@[i].0@ == q by {
            if q == k {
                assert(self.entries@[at].0@ == q);
            } else {
                assert(old(self).contents@.contains_key(q));
                let i = choose|i: int| 0 <= i < old(self).entries@.len() && old(self).entries@[i].0@ == q;
                assert(self.entries@[i].0@ == q);
            }
        }
    }

    /// Removes `key`.
    pub fn clear(&mut self, key: &Vec<u8>)
        requires
            old(self).wf(),
        ensures
            final(self).wf(),
            final(self)@ == old(self)@.remove(key@),
    {
        let ghost m = self.contents@.remove(key@);
        match self.find(key) {
            Some(i) => {
                self.entries.remove(i);
                self.contents = Ghost(m);
                assert forall|a: int, b: int|
                    0 <= a < b < self.entries@.len() implies self.entries@[a].0@ != self.entries@[b].0@ by {
                    let oa = if a < i { a } else { a + 1 };
                    let ob = if b < i { b } else { b + 1 };
                    assert(self.entries@[a] == old(self).entries@[oa]);
                    assert(self.entries@[b] == old(self).entries@[ob]);
                }
                assert forall|j: int| 0 <= j < self.entries@.len() implies self.contents@.contains_key(
                    #[trigger] self.entries@[j].0@) && self.contents@[self.entries@[j].0@]
                    == self.entries@[j].1@ by {
                    let oj = if j < i { j } else { j + 1 };
                    assert(self.entries@[j] == old(self).entries@[oj]);
                }
                assert forall|q: Seq<u8>| #[trigger] self.contents@.contains_key(q) implies exists|j: int|
                    0 <= j < self.entries@.len() && self.entries@[j].0@ == q by {
                    assert(old(self).contents@.contains_key(q));
                    let oj = choose|j: int| 0 <= j < old(self).entries@.len() && old(self).entries@[j].0@ == q;
                    let j = if oj < i { oj } else { oj - 1 };
                    assert(self.entries@[j].0@ == q);
                }
            },
            None => {
                assert(m =~= self.contents@);
            },
        }
    }

    /// Atomic bitwise OR of `param` into the value at `key`.
    pub fn atomic_or(&mut self, key: Vec<u8>, param: &Vec<u8>)
        requires
            old(self).wf(),
        ensures
            final(self).wf(),
            final(self)@ == old(self)@.insert(key@, or_bytes(stored(old(self)@, key@), param@)),
    {
        let cur = self.get(&key);
        assert(opt_view(cur) == stored(self@, key@));
        let v = merge_bytes(&cur, param, false);
        self.set(key, v);
    }

    /// Atomic bitwise XOR of `param` into the value at `key`.
    pub fn atomic_xor(&mut self, key: Vec<u8>, param: &Vec<u8>)
        requires
            old(self).wf(),
        ensures
            final(self).wf(),
            final(self)@ == old(self)@.insert(key@, xor_bytes(stored(old(self)@, key@), param@)),
    {
        let cur = self.get(&key);
        assert(opt_view(cur) == stored(self@, key@));
        let v = merge_bytes(&cur, param, true);
        self.set(key, v);
    }

    /// A copy of the store, to work on in a transaction.
    pub fn snapshot(&self) -> (r: MemoryStore)
        requires
            self.wf(),
        ensures
            r.wf(),
            r@ == self@,
    {
        let n = self.entries.len();
        let mut entries: Vec<(Vec<u8>, Vec<u8>)> = Vec::new();
        let mut i: usize = 0;
        while i < n
            invariant
                n == self.entries@.len(),
                i <= n,
                entries@.len() == i,
                forall|j: int|
                    0 <= j < i ==> #[trigger] entries@[j].0@ == self.entries@[j].0@ && entries@[j].1@
                        == self.entries@[j].1@,
            decreases n - i,
        {
            entries.push((copy_bytes(&self.entries[i].0), copy_bytes(&self.entries[i].1)));
            i = i + 1;
        }
        let r = MemoryStore { entries, contents: Ghost(self.contents@) };
        assert forall|k: Seq<u8>| #[trigger] r.contents@.contains_key(k) implies exists|j: int|
            0 <= j < r.entries@.len() && r.entries@[j].0@ == k by {
            let j = choose|j: int| 0 <= j < self.entries@.len() && self.entries@[j].0@ == k;
            assert(r.entries@[j].0@ == k);
        }
        assert forall|a: int, b: int| 0 <= a < b < r.entries@.len() implies r.entries@[a].0@
            != r.entries@[b].0@ by {
            assert(r.entries@[a].0@ == self.entries@[a].0@);
            assert(r.entries@[b].0@ == self.entries@[b].0@);
        }
        assert forall|a: int| 0 <= a < r.entries@.len() implies r.contents@.contains_key(
            #[trigger] r.entries@[a].0@) && r.contents@[r.entries@[a].0@] == r.entries@[a].1@ by {
            assert(r.entries@[a].0@ == self.entries@[a].0@);
            assert(self.contents@.contains_key(self.entries@[a].0@));
        }
        r
    }

    /// All entries, each key once.
    pub fn entries(&self) -> (r: Vec<(Vec<u8>, Vec<u8>)>)
        requires
            self.wf(),
        ensures
            forall|i: int, j: int| 0 <= i < j < r@.len() ==> r@[i].0@ != r@[j].0@,
            forall|i: int|
                0 <= i < r@.len() ==> self@.contains_key(#[trigger] r@[i].0@) && self@[r@[i].0@]
                    == r@[i].1@,
            forall|k: Seq<u8>|
                #[trigger] self@.contains_key(k) ==> exists|i: int| 0 <= i < r@.len() && r@[i].0@ == k,
    {
        let n = self.entries.len();
        let mut r: Vec<(Vec<u8>, Vec<u8>)> = Vec::new();
        let mut i: usize = 0;
        while i < n
            invariant
                n == self.entries@.len(),
                i <= n,
                r@.len() == i,
                forall|j: int| 0 <= j < i ==> r@[j].0@ == self.entries@[j].0@ && r@[j].1@ == self.entries@[j].1@,
            decreases n - i,
        {
            let k = copy_bytes(&self.entries[i].0);
            let v = copy_bytes(&self.entries[i].1);
            r.push((k, v));
            i = i + 1;
        }
        assert forall|k: Seq<u8>| #[trigger] self@.contains_key(k) implies exists|i: int|
            0 <= i < r@.len() && r@[i].0@ == k by {
            let j = choose|j: int| 0 <= j < self.entries@.len() && self.entries@[j].0@ == k;
            assert(r@[j].0@ == k);
        }
        assert forall|a: int| 0 <= a < r@.len() implies self@.contains_key(#[trigger] r@[a].0@) && self@[r@[a].0@]
            == r@[a].1@ by {
            assert(self.contents@.contains_key(self.entries@[a].0@));
        }
        r
    }
}

} // verus!
