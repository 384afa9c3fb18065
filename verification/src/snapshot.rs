//! The snapshot index: an append-only ledger mapping snapshot ids to
//! root digests. History is immutable; ids are strictly increasing and
//! never reused.

use vstd::prelude::*;
use crate::hashing::Digest;

verus! {

/// One snapshot: an immutable, timestamped pointer to a root digest,
/// optionally naming the snapshot it was built on.
#[derive(Clone, Copy, Debug)]
pub struct Snapshot {
    pub id: u64,
    pub timestamp: u64,
    pub root_hash: Digest,
    pub parent: Option<u64>,
}

/// Ids strictly increase along the ledger.
pub open spec fn ids_increasing(s: Seq<Snapshot>) -> bool {
    forall|i: int, j: int| 0 <= i < j < s.len() ==> s[i].id < s[j].id
}

/// The id the next commit will be assigned.
pub open spec fn next_id(s: Seq<Snapshot>) -> u64
    recommends
        s.len() == 0 || s.last().id < u64::MAX,
{
    if s.len() == 0 {
        1u64
    } else {
        (s.last().id + 1) as u64
    }
}

/// The append-only snapshot ledger.
pub struct SnapIndex {
    snaps: Vec<Snapshot>,
}

impl SnapIndex {
    /// The ledger so far, oldest first.
    pub closed spec fn ledger(&self) -> Seq<Snapshot> {
        self.snaps@
    }

    pub open spec fn wf(&self) -> bool {
        ids_increasing(self.ledger())
    }

    pub fn new() -> (r: SnapIndex)
        ensures
            r.wf(),
            r.ledger() == Seq::<Snapshot>::empty(),
    {
        SnapIndex { snaps: Vec::new() }
    }

    /// How many snapshots have been committed.
    pub fn len(&self) -> (r: usize)
        ensures
            r == self.ledger().len(),
    {
        self.snaps.len()
    }

    /// Append a new snapshot pointing at `root_hash`; the assigned id
    /// is the next value of the monotonic sequence.
    pub fn append(&mut self, root_hash: Digest, parent: Option<u64>, timestamp: u64) -> (id: u64)
        requires
            old(self).wf(),
            old(self).ledger().len() == 0 || old(self).ledger().last().id < u64::MAX,
        ensures
            final(self).wf(),
            id == next_id(old(self).ledger()),
            final(self).ledger() == old(self).ledger().push(
                Snapshot { id, timestamp, root_hash, parent },
            ),
    {
        let n = self.snaps.len();
        let id: u64 = if n == 0 {
            1
        } else {
            self.snaps[n - 1].id + 1
        };
        let snap = Snapshot { id, timestamp, root_hash, parent };
        self.snaps.push(snap);
        proof {
            assert forall|i: int, j: int|
                0 <= i < j < self.snaps@.len() implies self.snaps@[i].id < self.snaps@[j].id by {
                if j < self.snaps@.len() - 1 {
                    assert(old(self).snaps@[i].id < old(self).snaps@[j].id);
                } else if i < self.snaps@.len() - 1 {
                    if i < old(self).snaps@.len() - 1 {
                        assert(old(self).snaps@[i].id < old(self).snaps@[old(
                            self,
                        ).snaps@.len() - 1].id);
                    }
                }
            }
        }
        id
    }

    /// Put back a snapshot read from a durable record, keeping ids
    /// strictly increasing. Used by log replay, where the id is the
    /// recorded one rather than freshly assigned.
    pub fn restore(&mut self, snap: Snapshot)
        requires
            old(self).wf(),
            old(self).ledger().len() == 0 || old(self).ledger().last().id < snap.id,
        ensures
            final(self).wf(),
            final(self).ledger() == old(self).ledger().push(snap),
    {
        self.snaps.push(snap);
        proof {
            assert forall|i: int, j: int|
                0 <= i < j < self.snaps@.len() implies self.snaps@[i].id < self.snaps@[j].id by {
                if j < self.snaps@.len() - 1 {
                    assert(old(self).snaps@[i].id < old(self).snaps@[j].id);
                } else if i < self.snaps@.len() - 1 {
                    if i < old(self).snaps@.len() - 1 {
                        assert(old(self).snaps@[i].id < old(self).snaps@[old(
                            self,
                        ).snaps@.len() - 1].id);
                    }
                }
            }
        }
    }

    /// Look a snapshot up by id.
    pub fn lookup(&self, id: u64) -> (r: Option<Snapshot>)
        ensures
            match r {
                Some(s) => s.id == id && exists|i: int|
                    0 <= i < self.ledger().len() && #[trigger] self.ledger()[i] == s,
                None => forall|i: int|
                    0 <= i < self.ledger().len() ==> #[trigger] self.ledger()[i].id != id,
            },
    {
        let mut i: usize = 0;
        while i < self.snaps.len()
            invariant
                i <= self.snaps@.len(),
                forall|j: int| 0 <= j < i ==> #[trigger] self.snaps@[j].id != id,
            decreases self.snaps@.len() - i,
        {
            if self.snaps[i].id == id {
                return Some(self.snaps[i]);
            }
            i += 1;
        }
        None
    }

    /// The most recent snapshot: the one with the highest id.
    pub fn latest(&self) -> (r: Option<Snapshot>)
        ensures
            match r {
                Some(s) => self.ledger().len() > 0 && s == self.ledger().last(),
                None => self.ledger().len() == 0,
            },
    {
        let n = self.snaps.len();
        if n == 0 {
            None
        } else {
            Some(self.snaps[n - 1])
        }
    }
}

/// Snapshot monotonicity: along any well-formed ledger, later commits
/// carry strictly greater ids; no id is ever reused.
pub proof fn lemma_snapshot_ids_monotonic(s: &SnapIndex)
    requires
        s.wf(),
    ensures
        forall|i: int, j: int|
            0 <= i < j < s.ledger().len() ==> s.ledger()[i].id < s.ledger()[j].id,
{
}

} // verus!
