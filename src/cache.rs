//! The embedding cache: a bounded map from text fingerprints to vectors, evicted
//! in insertion order.

use vstd::prelude::*;
use vstd::std_specs::hash::DefaultHasherAdditionalSpecFns;
use vstd::utf8::encode_utf8;
use std::collections::{HashMap, VecDeque};
use std::collections::hash_map::DefaultHasher;
use std::hash::Hasher;

verus! {

/// The 64-bit fingerprint of a text: the standard library's default hasher over
/// its UTF-8 bytes.
pub open spec fn fingerprint(s: Seq<char>) -> u64 {
    DefaultHasher::spec_finish(seq![encode_utf8(s)])
}

/// Fingerprint of a chunk text, the key of the embedding cache.
pub fn hash_text(text: &str) -> (r: u64)
    ensures
        r == fingerprint(text@),
{
    let mut hasher = DefaultHasher::new();
    hasher.write(text.as_bytes());
    hasher.finish()
}

/// The insertion queue after key `k` is stored: a new key joins the back.
pub open spec fn enqueued(order: Seq<u64>, k: u64) -> Seq<u64> {
    if order.contains(k) {
        order
    } else {
        order.push(k)
    }
}

/// The queue after eviction from its head down to `max` keys.
pub open spec fn evicted(order: Seq<u64>, max: nat) -> Seq<u64> {
    if order.len() > max {
        order.subrange(order.len() - max, order.len() as int)
    } else {
        order
    }
}

/// A bounded cache of embedding vectors, each vector held as the bit patterns of
/// its 32-bit floats. Keys leave in the order in which they first came (FIFO); a
/// lookup does not change that order.
pub struct EmbeddingCache {
    max_entries: usize,
    order: VecDeque<u64>,
    values: HashMap<u64, Vec<u32>>,
}

impl EmbeddingCache {
    /// The capacity the cache was made with.
    pub closed spec fn capacity(&self) -> nat {
        self.max_entries as nat
    }

    /// Stored keys, oldest first.
    pub closed spec fn queue(&self) -> Seq<u64> {
        self.order@
    }

    /// The vector stored under a key.
    pub closed spec fn stored(&self) -> Map<u64, Seq<u32>> {
        self.values@.map_values(|v: Vec<u32>| v@)
    }

    pub closed spec fn wf(&self) -> bool {
        &&& self.order@.no_duplicates()
        &&& forall|k: u64| #[trigger] self.values@.contains_key(k) <==> self.order@.contains(k)
        &&& self.order@.len() <= self.max_entries
    }

    /// Stored keys are exactly the queued ones, each queued once, and no more of
    /// them than the capacity.
    pub open spec fn coherent(&self) -> bool {
        &&& self.queue().no_duplicates()
        &&& self.queue().len() <= self.capacity()
        &&& forall|k: u64| #[trigger] self.stored().contains_key(k) <==> self.queue().contains(k)
    }

    /// The vector cached for a text, if any.
    pub open spec fn lookup(&self, text: Seq<char>) -> Option<Seq<u32>> {
        if self.stored().contains_key(fingerprint(text)) {
            Some(self.stored()[fingerprint(text)])
        } else {
            None
        }
    }

    /// An empty cache that holds at most `max_entries` vectors.
    pub fn new(max_entries: usize) -> (r: Self)
        ensures
            r.wf(),
            r.coherent(),
            r.capacity() == max_entries,
            r.queue() == Seq::<u64>::empty(),
            r.stored() == Map::<u64, Seq<u32>>::empty(),
    {
        let r = EmbeddingCache { max_entries, order: VecDeque::new(), values: HashMap::new() };
        assert(r.stored() =~= Map::<u64, Seq<u32>>::empty());
        r
    }

    /// The vector cached under the fingerprint of `text`.
    pub fn get(&self, text: &str) -> (r: Option<Vec<u32>>)
        requires
            self.wf(),
        ensures
            r matches Some(v) ==> self.lookup(text@) == Some(v@),
            r is None ==> self.lookup(text@) is None,
    {
        let key = hash_text(text);
        match self.values.get(&key) {
            Some(v) => Some(v.clone()),
            None => None,
        }
    }

    /// Stores `vector` under the fingerprint of `text`. A new key joins the back of
    /// the queue; then keys leave from its head while more than the capacity remain.
    pub fn insert(&mut self, text: &str, vector: Vec<u32>)
        requires
            old(self).wf(),
        ensures
            final(self).wf(),
            final(self).coherent(),
            final(self).capacity() == old(self).capacity(),
            final(self).queue() == evicted(
                enqueued(old(self).queue(), fingerprint(text@)),
                old(self).capacity(),
            ),
            forall|k: u64|
                #[trigger] final(self).stored().contains_key(k) ==> final(self).stored()[k] == if k
                    == fingerprint(text@) {
                    vector@
                } else {
                    old(self).stored()[k]
                },
            old(self).capacity() >= 1 ==> final(self).lookup(text@) == Some(vector@),
    {
        let key = hash_text(text);
        let ghost order0 = self.order@;
        let ghost values0 = self.values@;
        if !self.values.contains_key(&key) {
            self.order.push_back(key);
            proof {
                assert forall|i: int, j: int|
                    0 <= i < j < self.order@.len() implies self.order@[i] != self.order@[j] by {
                    if j == self.order@.len() - 1 {
                        assert(order0.contains(self.order@[i]) ==> values0.contains_key(self.order@[i]));
                    }
                }
            }
        }
        self.values.insert(key, vector);
        let ghost order1 = self.order@;
        assert(order1 == enqueued(order0, key));
        assert forall|k: u64| #[trigger] self.values@.contains_key(k) <==> self.order@.contains(k) by {
            if k == key {
                assert(order1.contains(key)) by {
                    if !order0.contains(key) {
                        assert(order1[order1.len() - 1] == key);
                    }
                }
            } else if order0.contains(k) {
                let i = choose|i: int| 0 <= i < order0.len() && order0[i] == k;
                assert(order1[i] == k);
            } else if order1.contains(k) {
                let i = choose|i: int| 0 <= i < order1.len() && order1[i] == k;
                assert(i < order0.len() ==> order0[i] == k);
            }
        }
        let mut dropped: usize = 0;
        let ghost max0 = self.max_entries;
        let n1 = self.order.len();
        assert(order1.len() == n1);
        while self.order.len() > self.max_entries
            invariant
                self.max_entries == max0,
                self.order@ == order1.subrange(dropped as int, order1.len() as int),
                dropped <= order1.len() <= usize::MAX,
                dropped == 0 || order1.len() - dropped >= max0,
                order1.no_duplicates(),
                forall|k: u64| #[trigger] self.values@.contains_key(k) <==> self.order@.contains(k),
                forall|k: u64|
                    #[trigger] self.values@.contains_key(k) ==> self.values@[k] == if k == key {
                        vector
                    } else {
                        values0[k]
                    },
            decreases self.order.len(),
        {
            let gone = self.order.pop_front().unwrap();
            proof {
                assert(self.order@ =~= order1.subrange(dropped + 1, order1.len() as int));
            }
            self.values.remove(&gone);
            dropped = dropped + 1;
            proof {
                assert forall|k: u64| #[trigger] self.values@.contains_key(k) <==> self.order@.contains(k) by {
                    if k == gone {
                        if self.order@.contains(k) {
                            let i = choose|i: int| 0 <= i < self.order@.len() && self.order@[i] == k;
                            assert(order1[dropped + i] == k && order1[dropped - 1] == k);
                        }
                    } else {
                        let prev = order1.subrange(dropped - 1, order1.len() as int);
                        if prev.contains(k) {
                            let i = choose|i: int| 0 <= i < prev.len() && prev[i] == k;
                            assert(i != 0);
                            assert(self.order@[i - 1] == k);
                        }
                        if self.order@.contains(k) {
                            let i = choose|i: int| 0 <= i < self.order@.len() && self.order@[i] == k;
                            assert(prev[i + 1] == k);
                        }
                    }
                }
            }
        }
        proof {
            assert(self.order@ =~= evicted(order1, self.max_entries as nat));
            if self.max_entries >= 1 {
                lemma_lookup_after_insert(order0, key, self.max_entries as nat);
                assert(self.values@.contains_key(key));
            }
        }
    }
}

/// Storing a vector and then looking up the same text finds it, in a cache of
/// capacity at least one.
pub proof fn lemma_lookup_after_insert(order: Seq<u64>, k: u64, max: nat)
    requires
        order.len() <= max,
        max >= 1,
    ensures
        evicted(enqueued(order, k), max).contains(k),
{
    let o1 = enqueued(order, k);
    if order.contains(k) {
        assert(evicted(o1, max) == order);
    } else {
        let e = evicted(o1, max);
        assert(e[e.len() - 1] == k);
    }
}

} // verus!
