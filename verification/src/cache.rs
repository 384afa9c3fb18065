//! The chunk cache: a bounded in-memory map from digest to chunk
//! bytes, least-recently-used entry evicted on overflow. It is purely
//! an optimization — never a source of truth — so its contract says
//! only that whatever it returns was put into it unchanged.

use vstd::prelude::*;
use crate::hashing::{digest_eq, Digest};
use crate::storage::{distinct_keys, store_map};

verus! {

/// Removing an entry removes exactly its key from the map view.
proof fn lemma_store_map_remove(s: Seq<(Digest, Vec<u8>)>, i: int)
    requires
        distinct_keys(s),
        0 <= i < s.len(),
    ensures
        store_map(s.remove(i)) == store_map(s).remove(s[i].0@),
    decreases s.len(),
{
    if i == s.len() - 1 {
        crate::storage::lemma_store_map_props(s.drop_last());
        assert(s.remove(i) =~= s.drop_last());
        assert(!store_map(s.drop_last()).contains_key(s[i].0@));
        assert(store_map(s.drop_last()).insert(s[i].0@, s[i].1@).remove(s[i].0@) =~= store_map(
            s.drop_last(),
        ));
    } else {
        assert(s.remove(i).drop_last() =~= s.drop_last().remove(i));
        assert(s.drop_last()[i] == s[i]);
        lemma_store_map_remove(s.drop_last(), i);
        assert(s.remove(i).last() == s.last());
        assert(s[i].0@ != s.last().0@);
        assert(store_map(s.drop_last()).remove(s[i].0@).insert(s.last().0@, s.last().1@)
            =~= store_map(s.drop_last()).insert(s.last().0@, s.last().1@).remove(s[i].0@));
    }
}

/// Moving an entry to the end — the recency bump — leaves the map
/// view unchanged.
proof fn lemma_store_map_bump(s: Seq<(Digest, Vec<u8>)>, i: int)
    requires
        distinct_keys(s),
        0 <= i < s.len(),
    ensures
        store_map(s.remove(i).push(s[i])) == store_map(s),
{
    crate::storage::lemma_store_map_props(s);
    lemma_store_map_remove(s, i);
    assert(s.remove(i).push(s[i]).drop_last() =~= s.remove(i));
    assert(store_map(s.remove(i).push(s[i])) == store_map(s).remove(s[i].0@).insert(
        s[i].0@,
        s[i].1@,
    ));
    assert(store_map(s).remove(s[i].0@).insert(s[i].0@, s[i].1@) =~= store_map(s));
}

/// The bounded read cache.
pub struct ChunkCache {
    entries: Vec<(Digest, Vec<u8>)>,
    capacity: usize,
}

impl ChunkCache {
    /// What the cache holds, by digest.
    pub closed spec fn cache_map(&self) -> Map<Seq<u8>, Seq<u8>> {
        store_map(self.entries@)
    }

    /// The bound the cache was created with.
    pub closed spec fn cap(&self) -> nat {
        self.capacity as nat
    }

    pub closed spec fn wf(&self) -> bool {
        &&& distinct_keys(self.entries@)
        &&& self.entries@.len() <= self.capacity
        &&& self.capacity >= 1
    }

    pub fn new(capacity: usize) -> (r: ChunkCache)
        requires
            capacity >= 1,
        ensures
            r.wf(),
            r.cap() == capacity,
            r.cache_map() == Map::<Seq<u8>, Seq<u8>>::empty(),
    {
        ChunkCache { entries: Vec::new(), capacity }
    }

    fn find(&self, hash: &Digest) -> (r: Option<usize>)
        ensures
            match r {
                Some(i) => i < self.entries@.len() && self.entries@[i as int].0@ == hash@,
                None => forall|i: int|
                    0 <= i < self.entries@.len() ==> self.entries@[i].0@ != hash@,
            },
    {
        let mut i: usize = 0;
        while i < self.entries.len()
            invariant
                i <= self.entries@.len(),
                forall|j: int| 0 <= j < i ==> self.entries@[j].0@ != hash@,
            decreases self.entries@.len() - i,
        {
            if digest_eq(&self.entries[i].0, hash) {
                return Some(i);
            }
            i += 1;
        }
        None
    }

    /// Look a chunk up; a hit also marks the entry most recently
    /// used. What the cache holds does not change.
    pub fn get(&mut self, hash: &Digest) -> (r: Option<Vec<u8>>)
        requires
            old(self).wf(),
        ensures
            final(self).wf(),
            final(self).cache_map() == old(self).cache_map(),
            final(self).cap() == old(self).cap(),
            match r {
                Some(d) => old(self).cache_map().contains_key(hash@) && d@ == old(
                    self,
                ).cache_map()[hash@],
                None => !old(self).cache_map().contains_key(hash@),
            },
    {
        proof {
            crate::storage::lemma_store_map_props(self.entries@);
        }
        match self.find(hash) {
            None => None,
            Some(i) => {
                let ghost s = self.entries@;
                let entry = self.entries.remove(i);
                let data = vstd::slice::slice_to_vec(entry.1.as_slice());
                self.entries.push(entry);
                proof {
                    assert(self.entries@ =~= s.remove(i as int).push(s[i as int]));
                    lemma_store_map_bump(s, i as int);
                    assert forall|p: int, q: int|
                        0 <= p < q < self.entries@.len() implies self.entries@[p].0@
                        != self.entries@[q].0@ by {
                        let n = self.entries@.len();
                        let orig_p: int = if p < i { p } else { p + 1 };
                        if q < n - 1 {
                            let orig_q: int = if q < i { q } else { q + 1 };
                            assert(s[orig_p].0@ != s[orig_q].0@);
                        } else {
                            if orig_p < i {
                                assert(s[orig_p].0@ != s[i as int].0@);
                            } else {
                                assert(s[i as int].0@ != s[orig_p].0@);
                            }
                        }
                    }
                }
                Some(data)
            },
        }
    }

    /// Insert a chunk, write-through style: the key becomes present
    /// with exactly these bytes, and when the cache is full the least
    /// recently used entry makes room. Everything it holds afterwards
    /// was put in by some caller.
    pub fn put(&mut self, hash: Digest, data: Vec<u8>)
        requires
            old(self).wf(),
        ensures
            final(self).wf(),
            final(self).cap() == old(self).cap(),
            final(self).cache_map().contains_key(hash@) && final(self).cache_map()[hash@]
                == data@,
            forall|k: Seq<u8>|
                #[trigger] final(self).cache_map().contains_key(k) ==> k == hash@ || (old(
                    self,
                ).cache_map().contains_key(k) && final(self).cache_map()[k] == old(
                    self,
                ).cache_map()[k]),
    {
        proof {
            crate::storage::lemma_store_map_props(self.entries@);
        }
        let ghost s0 = self.entries@;
        match self.find(&hash) {
            Some(i) => {
                let ghost s = self.entries@;
                let _ = self.entries.remove(i);
                proof {
                    lemma_store_map_remove(s, i as int);
                    assert forall|p: int, q: int|
                        0 <= p < q < self.entries@.len() implies self.entries@[p].0@
                        != self.entries@[q].0@ by {
                        let orig_p: int = if p < i { p } else { p + 1 };
                        let orig_q: int = if q < i { q } else { q + 1 };
                        assert(s[orig_p].0@ != s[orig_q].0@);
                    }
                }
            },
            None => (),
        }
        let ghost s1 = self.entries@;
        proof {
            crate::storage::lemma_store_map_props(s1);
        }
        self.entries.push((hash, data));
        proof {
            assert(self.entries@.drop_last() =~= s1);
            assert(store_map(self.entries@) == store_map(s1).insert(hash@, data@));
        }
        let ghost s2 = self.entries@;
        proof {
            crate::storage::lemma_store_map_props(s2);
        }
        if self.entries.len() > self.capacity {
            let ghost s = self.entries@;
            let _ = self.entries.remove(0);
            proof {
                lemma_store_map_remove(s, 0);
                assert forall|p: int, q: int|
                    0 <= p < q < self.entries@.len() implies self.entries@[p].0@
                    != self.entries@[q].0@ by {
                    assert(s[p + 1].0@ != s[q + 1].0@);
                }
                assert(s[0].0@ != hash@);
                crate::storage::lemma_store_map_props(self.entries@);
            }
        }
    }

    /// How many chunks the cache holds.
    pub fn len(&self) -> (r: usize)
        requires
            self.wf(),
        ensures
            r == self.cache_map().dom().len(),
    {
        proof {
            crate::storage::lemma_store_map_len(self.entries@);
        }
        self.entries.len()
    }
}

} // verus!
