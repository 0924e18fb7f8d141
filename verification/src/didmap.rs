//! The identifier map: external identifier (as bytes) to subscriber id, keys
//! unique, inserts last-writer-wins.  Mention lookups go through it.  The
//! caller wraps it in its reader–writer lock; the map itself is a plain
//! association list with verified operations.

use vstd::prelude::*;

verus! {

/// A mapping from external identifier to subscriber id with unique keys.
pub struct DidMap {
    pub entries: Vec<(Vec<u8>, u64)>,
}

impl DidMap {
    /// Keys are unique.
    pub open spec fn wf(self) -> bool {
        forall|i: int, j: int|
            0 <= i < j < self.entries@.len() ==> (#[trigger] self.entries@[i]).0@ != (
            #[trigger] self.entries@[j]).0@
    }

    /// Some entry carries the key `k`.
    pub open spec fn has_key(self, k: Seq<u8>) -> bool {
        exists|i: int| 0 <= i < self.entries@.len() && (#[trigger] self.entries@[i]).0@ == k
    }

    /// The subscriber id bound to `k`, if any.
    pub open spec fn spec_get(self, k: Seq<u8>) -> Option<u64> {
        if self.has_key(k) {
            let i = choose|i: int|
                0 <= i < self.entries@.len() && (#[trigger] self.entries@[i]).0@ == k;
            Some(self.entries@[i].1)
        } else {
            None
        }
    }

    /// Creates the empty map.
    pub fn new() -> (r: Self)
        ensures
            r.wf(),
            forall|k: Seq<u8>| #[trigger] r.spec_get(k) is None,
    {
        let r = DidMap { entries: Vec::new() };
        proof {
            assert forall|k: Seq<u8>| #[trigger] r.spec_get(k) is None by {
                assert(!r.has_key(k));
            }
        }
        r
    }

    /// Finds the index of the entry with key `did`, if any.
    fn find_key(&self, did: &[u8]) -> (r: Option<usize>)
        ensures
            match r {
                Some(i) => (i as int) < self.entries@.len() && self.entries@[i as int].0@ == did@,
                None => !self.has_key(did@),
            },
    {
        let mut i: usize = 0;
        while i < self.entries.len()
            invariant
                i <= self.entries@.len(),
                forall|m: int| 0 <= m < i ==> (#[trigger] self.entries@[m]).0@ != did@,
            decreases self.entries@.len() - i,
        {
            if bytes_eq(&self.entries[i].0, did) {
                return Some(i);
            }
            i += 1;
        }
        None
    }

    /// Looks a subscriber id up by identifier.
    pub fn get(&self, did: &[u8]) -> (r: Option<u64>)
        requires
            self.wf(),
        ensures
            r == self.spec_get(did@),
    {
        match self.find_key(did) {
            Some(i) => {
                proof {
                    lemma_get_at(*self, did@, i as int);
                }
                Some(self.entries[i].1)
            },
            None => None,
        }
    }

    /// Binds `did` to `user_id`, replacing any existing binding
    /// (last-writer-wins).
    pub fn insert(&mut self, did: &[u8], user_id: u64)
        requires
            old(self).wf(),
        ensures
            final(self).wf(),
            forall|k: Seq<u8>|
                #[trigger] final(self).spec_get(k) == (if k == did@ {
                    Some(user_id)
                } else {
                    old(self).spec_get(k)
                }),
    {
        let ghost old_m = *self;
        match self.find_key(did) {
            Some(i) => {
                let e = &mut self.entries[i];
                e.1 = user_id;
                proof {
                    assert(self.entries@[i as int].0 == old_m.entries@[i as int].0);
                    assert forall|a: int, b: int|
                        0 <= a < b < self.entries@.len() implies (#[trigger] self.entries@[a]).0@
                        != (#[trigger] self.entries@[b]).0@ by {
                        assert(self.entries@[a].0 == old_m.entries@[a].0);
                        assert(self.entries@[b].0 == old_m.entries@[b].0);
                    }
                    assert forall|k: Seq<u8>|
                        #[trigger] self.spec_get(k) == (if k == did@ {
                            Some(user_id)
                        } else {
                            old_m.spec_get(k)
                        }) by {
                        assert forall|m: int|
                            0 <= m < self.entries@.len() implies (#[trigger] self.entries@[m]).0
                            == old_m.entries@[m].0 by {}
                        if k == did@ {
                            lemma_get_at(*self, k, i as int);
                        } else {
                            if self.has_key(k) {
                                let m = choose|m: int|
                                    0 <= m < self.entries@.len() && (
                                    #[trigger] self.entries@[m]).0@ == k;
                                assert(m != i);
                                assert(self.entries@[m] == old_m.entries@[m]);
                                lemma_get_at(*self, k, m);
                                lemma_get_at(old_m, k, m);
                            }
                            if old_m.has_key(k) {
                                let m = choose|m: int|
                                    0 <= m < old_m.entries@.len() && (
                                    #[trigger] old_m.entries@[m]).0@ == k;
                                assert(self.entries@[m].0@ == k);
                                assert(self.has_key(k));
                            }
                        }
                    }
                }
            },
            None => {
                let key: Vec<u8> = vstd::slice::slice_to_vec(did);
                self.entries.push((key, user_id));
                proof {
                    let n = old_m.entries@.len() as int;
                    assert(self.entries@[n].0@ == did@);
                    assert forall|a: int, b: int|
                        0 <= a < b < self.entries@.len() implies (#[trigger] self.entries@[a]).0@
                        != (#[trigger] self.entries@[b]).0@ by {
                        if b < n {
                            assert(self.entries@[a] == old_m.entries@[a]);
                            assert(self.entries@[b] == old_m.entries@[b]);
                        } else {
                            assert(self.entries@[a] == old_m.entries@[a]);
                            assert(old_m.entries@[a].0@ != did@);
                        }
                    }
                    assert forall|k: Seq<u8>|
                        #[trigger] self.spec_get(k) == (if k == did@ {
                            Some(user_id)
                        } else {
                            old_m.spec_get(k)
                        }) by {
                        if k == did@ {
                            lemma_get_at(*self, k, n);
                        } else {
                            if self.has_key(k) {
                                let m = choose|m: int|
                                    0 <= m < self.entries@.len() && (
                                    #[trigger] self.entries@[m]).0@ == k;
                                assert(m != n);
                                assert(self.entries@[m] == old_m.entries@[m]);
                                lemma_get_at(*self, k, m);
                                lemma_get_at(old_m, k, m);
                            }
                            if old_m.has_key(k) {
                                let m = choose|m: int|
                                    0 <= m < old_m.entries@.len() && (
                                    #[trigger] old_m.entries@[m]).0@ == k;
                                assert(self.entries@[m].0@ == k);
                                assert(self.has_key(k));
                            }
                        }
                    }
                }
            },
        }
    }

    /// Unbinds `did`.  Returns true iff a binding existed.
    pub fn remove(&mut self, did: &[u8]) -> (r: bool)
        requires
            old(self).wf(),
        ensures
            final(self).wf(),
            r == old(self).has_key(did@),
            forall|k: Seq<u8>|
                #[trigger] final(self).spec_get(k) == (if k == did@ {
                    None
                } else {
                    old(self).spec_get(k)
                }),
    {
        let ghost old_m = *self;
        match self.find_key(did) {
            Some(i) => {
                self.entries.remove(i);
                proof {
                    let n = self.entries@.len() as int;
                    assert forall|m: int|
                        0 <= m < n implies (#[trigger] self.entries@[m]) == (if m < i as int {
                        old_m.entries@[m]
                    } else {
                        old_m.entries@[m + 1]
                    }) by {}
                    assert forall|a: int, b: int|
                        0 <= a < b < n implies (#[trigger] self.entries@[a]).0@ != (
                    #[trigger] self.entries@[b]).0@ by {}
                    assert forall|k: Seq<u8>|
                        #[trigger] self.spec_get(k) == (if k == did@ {
                            None
                        } else {
                            old_m.spec_get(k)
                        }) by {
                        if self.has_key(k) {
                            let m = choose|m: int|
                                0 <= m < self.entries@.len() && (#[trigger] self.entries@[m]).0@
                                    == k;
                            let ghost mo: int = if m < i as int {
                                m
                            } else {
                                m + 1
                            };
                            assert(old_m.entries@[mo].0@ == k);
                            if k == did@ {
                                lemma_key_unique(old_m, k, mo, i as int);
                            } else {
                                lemma_get_at(*self, k, m);
                                lemma_get_at(old_m, k, mo);
                            }
                        } else {
                            if k != did@ && old_m.has_key(k) {
                                let m = choose|m: int|
                                    0 <= m < old_m.entries@.len() && (
                                    #[trigger] old_m.entries@[m]).0@ == k;
                                lemma_key_unique(old_m, did@, i as int, i as int);
                                assert(m != i);
                                if m < i as int {
                                    assert(self.entries@[m].0@ == k);
                                } else {
                                    assert(self.entries@[m - 1].0@ == k);
                                }
                                assert(self.has_key(k));
                            }
                        }
                    }
                }
                true
            },
            None => false,
        }
    }
}

/// With unique keys, an entry whose key is `k` determines the lookup.
pub proof fn lemma_get_at(m: DidMap, k: Seq<u8>, i: int)
    requires
        m.wf(),
        0 <= i < m.entries@.len(),
        m.entries@[i].0@ == k,
    ensures
        m.spec_get(k) == Some(m.entries@[i].1),
{
    assert(m.has_key(k));
    let j = choose|j: int| 0 <= j < m.entries@.len() && (#[trigger] m.entries@[j]).0@ == k;
    lemma_key_unique(m, k, i, j);
}

/// With unique keys, at most one entry carries `k`.
pub proof fn lemma_key_unique(m: DidMap, k: Seq<u8>, i: int, j: int)
    requires
        m.wf(),
        0 <= i < m.entries@.len(),
        0 <= j < m.entries@.len(),
        m.entries@[i].0@ == k,
        m.entries@[j].0@ == k,
    ensures
        i == j,
{
}

/// Returns `a@ == b@`.
pub fn bytes_eq(a: &Vec<u8>, b: &[u8]) -> (r: bool)
    ensures
        r == (a@ == b@),
{
    if a.len() != b.len() {
        proof {
            assert(a@ != b@);
        }
        return false;
    }
    let mut i: usize = 0;
    while i < a.len()
        invariant
            i <= a@.len(),
            a@.len() == b@.len(),
            forall|m: int| 0 <= m < i ==> a@[m] == b@[m],
        decreases a@.len() - i,
    {
        if a[i] != b[i] {
            return false;
        }
        i += 1;
    }
    proof {
        assert(a@ =~= b@);
    }
    true
}

} // verus!
