//! A bounded best-N collection of keyed entries.
//!
//! Entries carry an integer sort key; the collection keeps at most
//! `capacity` entries, always the ones with the smallest keys, and rejects
//! an entry whose key is already present.  A single sorted vector serves
//! as both the order structure and the duplicate check, and its shape is
//! captured exactly in the contracts below.

use vstd::prelude::*;

verus! {

/// `s` is strictly ascending in its key component (hence keys are unique).
pub open spec fn keys_sorted<T>(s: Seq<(u128, T)>) -> bool {
    forall|i: int, j: int| 0 <= i < j < s.len() ==> s[i].0 < s[j].0
}

/// Some entry of `s` carries `key`.
pub open spec fn has_key<T>(s: Seq<(u128, T)>, key: u128) -> bool {
    exists|i: int| 0 <= i < s.len() && s[i].0 == key
}

/// Index at which `key` belongs to keep `s` ascending.
pub open spec fn key_pos<T>(s: Seq<(u128, T)>, key: u128) -> int
    decreases s.len(),
{
    if s.len() == 0 {
        0
    } else if s[0].0 < key {
        1 + key_pos(s.drop_first(), key)
    } else {
        0
    }
}

/// `s` with `(key, value)` inserted at its sorted position.
pub open spec fn kv_insert<T>(s: Seq<(u128, T)>, key: u128, value: T) -> Seq<(u128, T)> {
    s.insert(key_pos(s, key), (key, value))
}

/// Keeps `s` when it fits within `cap`, else drops its last (worst) entry.
pub open spec fn clip<T>(s: Seq<(u128, T)>, cap: nat) -> Seq<(u128, T)> {
    if s.len() <= cap {
        s
    } else {
        s.drop_last()
    }
}

/// `key_pos` splits a sorted sequence into keys below `key` and keys at or
/// above it.
pub proof fn lemma_key_pos_brackets<T>(s: Seq<(u128, T)>, key: u128)
    requires
        keys_sorted(s),
    ensures
        0 <= key_pos(s, key) <= s.len(),
        forall|j: int| 0 <= j < key_pos(s, key) ==> s[j].0 < key,
        forall|j: int| key_pos(s, key) <= j < s.len() ==> s[j].0 >= key,
    decreases s.len(),
{
    if s.len() > 0 {
        let t = s.drop_first();
        assert forall|i: int, j: int| 0 <= i < j < t.len() implies t[i].0 < t[j].0 by {
            assert(t[i] == s[i + 1]);
            assert(t[j] == s[j + 1]);
        }
        lemma_key_pos_brackets(t, key);
        let p = key_pos(s, key);
        if s[0].0 < key {
            assert forall|j: int| 0 <= j < p implies s[j].0 < key by {
                if j > 0 {
                    assert(t[j - 1] == s[j]);
                }
            }
            assert forall|j: int| p <= j < s.len() implies s[j].0 >= key by {
                assert(t[j - 1] == s[j]);
            }
        } else {
            assert forall|j: int| 0 <= j < s.len() implies s[j].0 >= key by {
                if j > 0 {
                    assert(s[0].0 < s[j].0);
                }
            }
        }
    }
}

/// A bounded collection of keyed entries that retains the best
/// (smallest-keyed) `capacity` entries seen, one entry per key.
pub struct HashHeap<T> {
    entries: Vec<(u128, T)>,
    capacity: usize,
}

impl<T: Copy> HashHeap<T> {
    /// The retained entries, ascending by key (best first).
    pub closed spec fn contents(&self) -> Seq<(u128, T)> {
        self.entries@
    }

    /// The bound on how many entries are retained.
    pub closed spec fn cap(&self) -> nat {
        self.capacity as nat
    }

    /// The collection is sorted, duplicate-free and within capacity.
    pub open spec fn wf(&self) -> bool {
        keys_sorted(self.contents()) && self.contents().len() <= self.cap()
    }

    /// An empty collection that will retain at most `capacity` entries.
    pub fn with_capacity(capacity: usize) -> (h: Self)
        ensures
            h.wf(),
            h.cap() == capacity,
            h.contents() == Seq::<(u128, T)>::empty(),
    {
        HashHeap { entries: Vec::new(), capacity }
    }

    /// How many entries are currently retained.
    pub fn len(&self) -> (n: usize)
        ensures
            n == self.contents().len(),
    {
        self.entries.len()
    }

    /// Offers `(key, value)`.  A duplicate key is rejected; otherwise the
    /// entry is inserted at its sorted position and, if the collection then
    /// exceeds its capacity, the worst (largest-keyed) entry is dropped.
    pub fn insert(&mut self, key: u128, value: T) -> (added: bool)
        requires
            old(self).wf(),
        ensures
            final(self).wf(),
            final(self).cap() == old(self).cap(),
            has_key(old(self).contents(), key) ==> !added && final(self).contents() == old(
                self,
            ).contents(),
            !has_key(old(self).contents(), key) ==> added && final(self).contents() == clip(
                kv_insert(old(self).contents(), key, value),
                old(self).cap(),
            ),
    {
        let ghost s = self.entries@;
        let n = self.entries.len();
        let mut i: usize = 0;
        while i < n && self.entries[i].0 < key
            invariant
                self.entries@ == s,
                n == s.len(),
                0 <= i <= n,
                forall|j: int| 0 <= j < i ==> s[j].0 < key,
            decreases n - i,
        {
            i = i + 1;
        }
        proof {
            lemma_key_pos_brackets(s, key);
            let p = key_pos(s, key);
            if i < p {
                assert(s[i as int].0 < key);
                assert(false);
            }
            if p < i {
                assert(s[p].0 < key);
                assert(false);
            }
        }
        if i < n && self.entries[i].0 == key {
            proof {
                assert(has_key(s, key));
            }
            return false;
        }
        proof {
            assert forall|j: int| 0 <= j < s.len() implies s[j].0 != key by {
                if j >= i {
                    if j > i {
                        assert(s[i as int].0 < s[j].0);
                    }
                }
            }
            assert(!has_key(s, key));
        }
        self.entries.insert(i, (key, value));
        proof {
            s.insert_ensures(i as int, (key, value));
            let s2 = self.entries@;
            assert(keys_sorted(s2)) by {
                assert forall|a: int, b: int| 0 <= a < b < s2.len() implies s2[a].0 < s2[b].0 by {
                    if a < i {
                        assert(s2[a] == s[a]);
                    } else if a == i {
                        assert(s2[a] == (key, value));
                    } else {
                        assert(s2[a] == s[a - 1]);
                    }
                    if b < i {
                        assert(s2[b] == s[b]);
                    } else if b == i {
                        assert(s2[b] == (key, value));
                    } else {
                        assert(s2[b] == s[b - 1]);
                    }
                }
            }
        }
        if self.entries.len() > self.capacity {
            self.entries.pop();
        }
        true
    }

    /// The retained values, best first.
    pub fn into_sorted_vec(&self) -> (v: Vec<T>)
        ensures
            v@.len() == self.contents().len(),
            forall|i: int| 0 <= i < v@.len() ==> v@[i] == self.contents()[i].1,
    {
        let mut out: Vec<T> = Vec::new();
        let n = self.entries.len();
        let mut i: usize = 0;
        while i < n
            invariant
                n == self.contents().len(),
                self.entries@ == self.contents(),
                0 <= i <= n,
                out@.len() == i,
                forall|j: int| 0 <= j < i ==> out@[j] == self.contents()[j].1,
            decreases n - i,
        {
            let e = self.entries[i];
            out.push(e.1);
            i = i + 1;
        }
        out
    }
}

} // verus!
