//! The write-ahead log: an append-only durability journal. Every
//! mutation is recorded here, under a strictly increasing sequence
//! number, before the corresponding content-store write or snapshot
//! append counts as durable.
//!
//! A record's durable form is length-delimited and ends in a wrapping
//! additive checksum; a record that fails its checksum on decode is
//! surfaced as a replay error, never silently applied.

use vstd::prelude::*;
use crate::codec::{le_bytes, sum64, u64_from_le};
use crate::errors::EngineError;
use crate::hashing::{hash_of, Digest};
use crate::snapshot::{SnapIndex, Snapshot};
use crate::storage::{MemStore, Storage};

verus! {

/// What a log record announces: a chunk write, a node write, or a
/// snapshot commit.
#[derive(Clone, Copy, Debug, PartialEq, Eq, Structural)]
pub enum WalKind {
    ChunkPut,
    NodePut,
    SnapshotCommit,
}

/// The tag byte a kind is stored as.
pub open spec fn kind_byte(k: WalKind) -> u8 {
    match k {
        WalKind::ChunkPut => 0u8,
        WalKind::NodePut => 1u8,
        WalKind::SnapshotCommit => 2u8,
    }
}

/// One journal entry: its sequence number, what it announces, the
/// digest it concerns, and the bytes needed to re-apply it.
#[derive(Debug, Clone)]
pub struct WalRecord {
    pub seq: u64,
    pub kind: WalKind,
    pub hash: Digest,
    pub payload: Vec<u8>,
}

/// The durable form of a record: sequence, kind tag, digest, payload
/// length, payload, then the checksum of everything before it.
pub open spec fn enc_record(seq: u64, kind: WalKind, hash: Seq<u8>, payload: Seq<u8>) -> Seq<u8> {
    let body = le_bytes(seq) + seq![kind_byte(kind)] + hash + le_bytes(payload.len() as u64)
        + payload;
    body + le_bytes(sum64(body))
}

/// The frame of a record is intact: lengths and tag are consistent.
/// The checksum is judged separately.
pub open spec fn record_shape_ok(b: Seq<u8>) -> bool {
    &&& b.len() >= 57
    &&& (b[8] == 0 || b[8] == 1 || b[8] == 2)
    &&& b.len() == 57 + u64_from_le(b.subrange(41, 49))
}

/// The stored checksum matches the bytes it covers.
pub open spec fn record_checksum_ok(b: Seq<u8>) -> bool
    recommends
        record_shape_ok(b),
{
    u64_from_le(b.subrange(b.len() - 8, b.len() as int)) == sum64(b.subrange(0, b.len() - 8))
}

/// The kind a tag byte stands for.
pub open spec fn byte_kind(t: u8) -> WalKind {
    if t == 0 {
        WalKind::ChunkPut
    } else if t == 1 {
        WalKind::NodePut
    } else {
        WalKind::SnapshotCommit
    }
}

/// What a well-formed durable record holds.
pub open spec fn parse_record(b: Seq<u8>) -> Option<(u64, WalKind, Seq<u8>, Seq<u8>)> {
    if record_shape_ok(b) && record_checksum_ok(b) {
        Some(
            (
                u64_from_le(b.subrange(0, 8)),
                byte_kind(b[8]),
                b.subrange(9, 41),
                b.subrange(49, b.len() - 8),
            ),
        )
    } else {
        None
    }
}

/// Encode one record into its durable form.
pub fn encode_record(r: &WalRecord) -> (out: Vec<u8>)
    ensures
        out@ == enc_record(r.seq, r.kind, r.hash@, r.payload@),
{
    let mut out: Vec<u8> = Vec::new();
    crate::codec::push_u64(&mut out, r.seq);
    let tag: u8 = match r.kind {
        WalKind::ChunkPut => 0,
        WalKind::NodePut => 1,
        WalKind::SnapshotCommit => 2,
    };
    out.push(tag);
    crate::merkle::push_digest(&mut out, &r.hash);
    crate::codec::push_u64(&mut out, r.payload.len() as u64);
    crate::codec::push_bytes(&mut out, r.payload.as_slice());
    let ck = crate::codec::checksum(&out);
    proof {
        assert(out@ =~= le_bytes(r.seq) + seq![kind_byte(r.kind)] + r.hash@ + le_bytes(
            r.payload@.len() as u64,
        ) + r.payload@);
    }
    crate::codec::push_u64(&mut out, ck);
    proof {
        assert(out@ =~= enc_record(r.seq, r.kind, r.hash@, r.payload@));
    }
    out
}

/// Decode one durable record. A mangled frame is a serialization
/// error; an intact frame whose checksum does not match is a replay
/// error.
pub fn decode_record(b: &Vec<u8>) -> (r: Result<WalRecord, EngineError>)
    ensures
        match r {
            Ok(rec) => parse_record(b@) == Some((rec.seq, rec.kind, rec.hash@, rec.payload@)),
            Err(e) => parse_record(b@) is None && (e == EngineError::SerializationError
                || e == EngineError::WALReplayError) && (e == EngineError::WALReplayError
                ==> record_shape_ok(b@)),
        },
{
    let len = b.len();
    if len < 57 {
        return Err(EngineError::SerializationError);
    }
    let tag = b[8];
    if tag > 2 {
        return Err(EngineError::SerializationError);
    }
    let plen = crate::codec::read_u64(b, 41);
    if plen > (usize::MAX as u64) || (len as u64) - 57 != plen {
        proof {
            assert(b@.len() != 57 + u64_from_le(b@.subrange(41, 49)));
        }
        return Err(EngineError::SerializationError);
    }
    let plen = plen as usize;
    let stored_ck = crate::codec::read_u64(b, len - 8);
    let computed = crate::codec::checksum_range(b, 0, len - 8);
    if stored_ck != computed {
        return Err(EngineError::WALReplayError);
    }
    let seq = crate::codec::read_u64(b, 0);
    let mut hash: Digest = [0u8; 32];
    let mut i: usize = 0;
    while i < 32
        invariant
            i <= 32,
            b@.len() >= 57,
            forall|j: int| 0 <= j < i ==> hash@[j] == b@[9 + j],
        decreases 32 - i,
    {
        hash[i] = b[9 + i];
        i += 1;
    }
    let mut payload: Vec<u8> = Vec::new();
    let mut i: usize = 0;
    while i < plen
        invariant
            i <= plen,
            plen <= usize::MAX - 57,
            b@.len() == 57 + plen,
            payload@ == b@.subrange(49, 49 + i as int),
        decreases plen - i,
    {
        proof {
            assert(b@.subrange(49, 49 + (i + 1) as int) =~= b@.subrange(49, 49 + i as int).push(
                b@[49 + i],
            ));
        }
        payload.push(b[49 + i]);
        i += 1;
    }
    let kind = if tag == 0 {
        WalKind::ChunkPut
    } else if tag == 1 {
        WalKind::NodePut
    } else {
        WalKind::SnapshotCommit
    };
    proof {
        assert(hash@ =~= b@.subrange(9, 41));
        assert(payload@ =~= b@.subrange(49, b@.len() - 8));
        assert(record_shape_ok(b@));
        assert(record_checksum_ok(b@));
    }
    Ok(WalRecord { seq, kind, hash, payload })
}

/// Decoding a record's durable form yields the record back.
#[verifier::rlimit(100)]
pub proof fn lemma_record_roundtrip(seq: u64, kind: WalKind, hash: Seq<u8>, payload: Seq<u8>)
    requires
        hash.len() == 32,
        payload.len() <= u64::MAX - 57,
    ensures
        parse_record(enc_record(seq, kind, hash, payload)) == Some((seq, kind, hash, payload)),
{
    let body = le_bytes(seq) + seq![kind_byte(kind)] + hash + le_bytes(payload.len() as u64)
        + payload;
    let e = enc_record(seq, kind, hash, payload);
    assert(e.len() == 57 + payload.len());
    assert(e.subrange(0, 8) =~= le_bytes(seq));
    assert(e[8] == kind_byte(kind));
    assert(e.subrange(9, 41) =~= hash);
    assert(e.subrange(41, 49) =~= le_bytes(payload.len() as u64));
    assert(e.subrange(49, e.len() - 8) =~= payload);
    assert(e.subrange(0, e.len() - 8) =~= body);
    assert(e.subrange(e.len() - 8, e.len() as int) =~= le_bytes(sum64(body)));
    crate::codec::lemma_le_roundtrip(seq);
    crate::codec::lemma_le_roundtrip(payload.len() as u64);
    crate::codec::lemma_le_roundtrip(sum64(body));
    assert(record_shape_ok(e));
    assert(record_checksum_ok(e));
    assert(byte_kind(kind_byte(kind)) == kind);
}

/// The journal itself: records in order, and the sequence number the
/// next append will take.
pub struct WriteAheadLog {
    records: Vec<WalRecord>,
    next_seq: u64,
}

impl WriteAheadLog {
    /// The journal so far, oldest first.
    pub closed spec fn log(&self) -> Seq<WalRecord> {
        self.records@
    }

    /// The sequence number the next record will carry.
    pub closed spec fn next(&self) -> u64 {
        self.next_seq
    }

    pub open spec fn wf(&self) -> bool {
        &&& forall|i: int| 0 <= i < self.log().len() ==> #[trigger] self.log()[i].seq < self.next()
        &&& forall|i: int, j: int|
            0 <= i < j < self.log().len() ==> self.log()[i].seq < self.log()[j].seq
    }

    pub fn new() -> (r: WriteAheadLog)
        ensures
            r.wf(),
            r.log() == Seq::<WalRecord>::empty(),
            r.next() == 1u64,
    {
        WriteAheadLog { records: Vec::new(), next_seq: 1 }
    }

    /// Rebuild a journal from records decoded out of durable storage.
    /// It is refused — a replay error — exactly when the recorded
    /// sequence numbers are not strictly increasing, or the newest one
    /// has exhausted the sequence space.
    pub fn from_records(records: Vec<WalRecord>) -> (r: Result<WriteAheadLog, EngineError>)
        ensures
            match r {
                Ok(w) => w.wf() && w.log() == records@ && w.next() == (if records@.len() == 0 {
                    1u64
                } else {
                    (records@.last().seq + 1) as u64
                }),
                Err(e) => e == EngineError::WALReplayError && ((exists|i: int|
                    0 < i < records@.len() && #[trigger] records@[i].seq <= records@[i - 1].seq)
                    || (records@.len() > 0 && records@.last().seq == u64::MAX)),
            },
    {
        let n = records.len();
        if n == 0 {
            return Ok(WriteAheadLog { records, next_seq: 1 });
        }
        let last_seq = records[n - 1].seq;
        if last_seq == u64::MAX {
            return Err(EngineError::WALReplayError);
        }
        let mut i: usize = 1;
        while i < n
            invariant
                1 <= i <= n,
                n == records@.len(),
                forall|p: int, q: int| 0 <= p < q < i ==> records@[p].seq < records@[q].seq,
            decreases n - i,
        {
            if records[i - 1].seq >= records[i].seq {
                proof {
                    assert(records@[i as int].seq <= records@[i as int - 1].seq);
                }
                return Err(EngineError::WALReplayError);
            }
            proof {
                assert forall|p: int, q: int|
                    0 <= p < q < i + 1 implies records@[p].seq < records@[q].seq by {
                    if q == i && p < i - 1 {
                        assert(records@[p].seq < records@[i - 1].seq);
                    }
                }
            }
            i += 1;
        }
        proof {
            assert forall|j: int|
                0 <= j < records@.len() implies #[trigger] records@[j].seq <= records@[n
                - 1].seq by {
                if j < n - 1 {
                    assert(records@[j].seq < records@[n - 1].seq);
                }
            }
        }
        Ok(WriteAheadLog { records, next_seq: last_seq + 1 })
    }

    /// Journal one mutation: the record takes the next sequence
    /// number, which is never reused.
    pub fn append(&mut self, kind: WalKind, hash: Digest, payload: Vec<u8>) -> (seq: u64)
        requires
            old(self).wf(),
            old(self).next() < u64::MAX,
        ensures
            final(self).wf(),
            seq == old(self).next(),
            final(self).next() == old(self).next() + 1,
            final(self).log() == old(self).log().push(
                WalRecord { seq, kind, hash, payload },
            ),
    {
        let seq = self.next_seq;
        self.records.push(WalRecord { seq, kind, hash, payload });
        self.next_seq = seq + 1;
        seq
    }

    /// Truncate the journal's applied prefix: every leading record
    /// whose sequence number is at or below `upto` — all of whose
    /// effects a checkpoint has confirmed durable — is dropped.
    /// Truncation is conservative: it stops at the first record past
    /// `upto`, and sequence numbering continues where it was.
    pub fn checkpoint(&mut self, upto: u64)
        requires
            old(self).wf(),
        ensures
            final(self).wf(),
            final(self).next() == old(self).next(),
            final(self).log() == old(self).log().skip(
                old(self).log().len() - final(self).log().len(),
            ),
            forall|i: int|
                0 <= i < final(self).log().len() ==> #[trigger] final(self).log()[i].seq > upto,
            forall|j: int|
                0 <= j < old(self).log().len() - final(self).log().len() ==> #[trigger] old(
                    self,
                ).log()[j].seq <= upto,
    {
        let n = self.records.len();
        let mut k: usize = 0;
        let mut stop = false;
        while k < n && !stop
            invariant
                k <= n,
                n == self.log().len(),
                *self == *old(self),
                forall|j: int| 0 <= j < k ==> #[trigger] self.log()[j].seq <= upto,
                stop ==> k < n && self.log()[k as int].seq > upto,
            decreases n - k + (if stop { 0int } else { 1int }),
        {
            if self.records[k].seq > upto {
                stop = true;
            } else {
                k += 1;
            }
        }
        let tail = self.records.split_off(k);
        self.records = tail;
        proof {
            assert(self.records@ =~= old(self).records@.skip(k as int));
            assert forall|i: int|
                0 <= i < self.log().len() implies #[trigger] self.log()[i].seq > upto by {
                if !stop {
                    assert(self.log().len() == 0);
                } else {
                    if i > 0 {
                        assert(old(self).log()[k as int].seq < old(self).log()[k + i].seq);
                    }
                }
            }
        }
    }

    /// The sequence number the next append will take.
    pub fn next_seq_value(&self) -> (r: u64)
        ensures
            r == self.next(),
    {
        self.next_seq
    }

    /// The sequence number of the newest record, or zero for an empty
    /// journal.
    pub fn last_seq(&self) -> (r: u64)
        ensures
            r == if self.log().len() == 0 {
                0u64
            } else {
                self.log().last().seq
            },
    {
        let n = self.records.len();
        if n == 0 {
            0
        } else {
            self.records[n - 1].seq
        }
    }

    /// How many records the journal holds.
    pub fn record_count(&self) -> (r: usize)
        ensures
            r == self.log().len(),
    {
        self.records.len()
    }

    /// Re-apply the whole journal to the store and the snapshot
    /// ledger. Re-applying is always safe: content-store writes are
    /// idempotent and snapshot records whose id is already covered are
    /// skipped. A record that cannot be applied — payload bytes that
    /// do not hash to its digest, or a snapshot payload that does not
    /// parse — stops the replay with a replay error.
    pub fn replay(&self, store: &mut MemStore, snaps: &mut SnapIndex) -> (r: Result<
        (),
        EngineError,
    >)
        requires
            old(store).inv(),
            old(snaps).wf(),
        ensures
            final(store).inv(),
            final(snaps).wf(),
            forall|k: Seq<u8>|
                #[trigger] old(store).contents().contains_key(k) ==> final(store).contents().contains_key(k) && final(store).contents()[k] == old(store).contents()[k],
            match r {
                Ok(u) => apply_all(old(store).contents(), old(snaps).ledger(), self.log())
                    == Some((final(store).contents(), final(snaps).ledger())),
                Err(e) => e == EngineError::WALReplayError && apply_all(
                    old(store).contents(),
                    old(snaps).ledger(),
                    self.log(),
                ) is None,
            },
    {
        let ghost m0 = old(store).contents();
        let ghost s0 = old(snaps).ledger();
        proof {
            assert(self.log().skip(0) =~= self.log());
        }
        let n = self.records.len();
        let mut i: usize = 0;
        while i < n
            invariant
                i <= n,
                n == self.log().len(),
                m0 == old(store).contents(),
                s0 == old(snaps).ledger(),
                store.inv(),
                snaps.wf(),
                forall|k: Seq<u8>|
                    #[trigger] m0.contains_key(k) ==> store.contents().contains_key(k)
                        && store.contents()[k] == m0[k],
                apply_all(m0, s0, self.log()) == apply_all(
                    store.contents(),
                    snaps.ledger(),
                    self.log().skip(i as int),
                ),
            decreases n - i,
        {
            let ghost cur_m = store.contents();
            let ghost cur_s = snaps.ledger();
            let ghost rest = self.log().skip(i as int);
            proof {
                assert(rest.first() == self.log()[i as int]);
                assert(rest.drop_first() =~= self.log().skip(i as int + 1));
            }
            let rec = &self.records[i];
            match rec.kind {
                WalKind::ChunkPut | WalKind::NodePut => {
                    let d = crate::hashing::Blake3Pool::new().hash_bytes(rec.payload.as_slice());
                    if !crate::hashing::digest_eq(&d, &rec.hash) {
                        proof {
                            assert(apply_record(cur_m, cur_s, rest.first()) is None);
                        }
                        return Err(EngineError::WALReplayError);
                    }
                    let _ = store.write(&rec.hash, rec.payload.as_slice());
                    proof {
                        assert(apply_record(cur_m, cur_s, rest.first()) == Some(
                            (store.contents(), snaps.ledger()),
                        ));
                    }
                },
                WalKind::SnapshotCommit => {
                    match decode_snap_payload(&rec.payload) {
                        Err(e) => {
                            proof {
                                assert(apply_record(cur_m, cur_s, rest.first()) is None);
                            }
                            return Err(EngineError::WALReplayError);
                        },
                        Ok((id, ts, parent)) => {
                            let already = match snaps.latest() {
                                Some(last) => id <= last.id,
                                None => false,
                            };
                            if !already {
                                snaps.restore(
                                    Snapshot { id, timestamp: ts, root_hash: rec.hash, parent },
                                );
                            }
                            proof {
                                assert(apply_record(cur_m, cur_s, rest.first()) == Some(
                                    (store.contents(), snaps.ledger()),
                                ));
                            }
                        },
                    }
                },
            }
            i += 1;
        }
        proof {
            assert(self.log().skip(n as int).len() == 0);
            assert(apply_all(store.contents(), snaps.ledger(), self.log().skip(n as int)) == Some(
                (store.contents(), snaps.ledger()),
            ));
        }
        Ok(())
    }
}

/// Journal monotonicity: along any well-formed journal, later
/// records carry strictly greater sequence numbers; no number is
/// ever reused.
pub proof fn lemma_wal_seqs_monotonic(w: &WriteAheadLog)
    requires
        w.wf(),
    ensures
        forall|i: int, j: int| 0 <= i < j < w.log().len() ==> w.log()[i].seq < w.log()[j].seq,
{
}

/// The durable form of a snapshot record's payload: id, timestamp,
/// then the parent id behind a presence tag.
pub open spec fn enc_snap_payload(id: u64, ts: u64, parent: Option<u64>) -> Seq<u8> {
    le_bytes(id) + le_bytes(ts) + (match parent {
        Option::None => seq![0u8],
        Option::Some(p) => seq![1u8] + le_bytes(p),
    })
}

/// What a well-formed snapshot payload holds.
pub open spec fn parse_snap_payload(b: Seq<u8>) -> Option<(u64, u64, Option<u64>)> {
    if b.len() == 17 && b[16] == 0 {
        Some((u64_from_le(b.subrange(0, 8)), u64_from_le(b.subrange(8, 16)), None))
    } else if b.len() == 25 && b[16] == 1 {
        Some(
            (
                u64_from_le(b.subrange(0, 8)),
                u64_from_le(b.subrange(8, 16)),
                Some(u64_from_le(b.subrange(17, 25))),
            ),
        )
    } else {
        None
    }
}

/// Encode a snapshot record's payload.
pub fn encode_snap_payload(id: u64, ts: u64, parent: Option<u64>) -> (out: Vec<u8>)
    ensures
        out@ == enc_snap_payload(id, ts, parent),
{
    let mut out: Vec<u8> = Vec::new();
    crate::codec::push_u64(&mut out, id);
    crate::codec::push_u64(&mut out, ts);
    match parent {
        None => {
            out.push(0u8);
        },
        Some(p) => {
            out.push(1u8);
            crate::codec::push_u64(&mut out, p);
        },
    }
    proof {
        assert(out@ =~= enc_snap_payload(id, ts, parent));
    }
    out
}

/// Decode a snapshot record's payload; a malformed one is a replay
/// error.
pub fn decode_snap_payload(b: &Vec<u8>) -> (r: Result<(u64, u64, Option<u64>), EngineError>)
    ensures
        match r {
            Ok(t) => parse_snap_payload(b@) == Some(t),
            Err(e) => parse_snap_payload(b@) is None && e == EngineError::WALReplayError,
        },
{
    let len = b.len();
    if len == 17 {
        if b[16] != 0 {
            return Err(EngineError::WALReplayError);
        }
        let id = crate::codec::read_u64(b, 0);
        let ts = crate::codec::read_u64(b, 8);
        Ok((id, ts, None))
    } else if len == 25 {
        if b[16] != 1 {
            return Err(EngineError::WALReplayError);
        }
        let id = crate::codec::read_u64(b, 0);
        let ts = crate::codec::read_u64(b, 8);
        let p = crate::codec::read_u64(b, 17);
        Ok((id, ts, Some(p)))
    } else {
        Err(EngineError::WALReplayError)
    }
}

/// Decoding a snapshot payload's durable form yields it back.
pub proof fn lemma_snap_payload_roundtrip(id: u64, ts: u64, parent: Option<u64>)
    ensures
        parse_snap_payload(enc_snap_payload(id, ts, parent)) == Some((id, ts, parent)),
{
    let e = enc_snap_payload(id, ts, parent);
    assert(e.subrange(0, 8) =~= le_bytes(id));
    assert(e.subrange(8, 16) =~= le_bytes(ts));
    crate::codec::lemma_le_roundtrip(id);
    crate::codec::lemma_le_roundtrip(ts);
    match parent {
        None => {
            assert(e.len() == 17 && e[16] == 0);
        },
        Some(p) => {
            assert(e.len() == 25 && e[16] == 1);
            assert(e.subrange(17, 25) =~= le_bytes(p));
            crate::codec::lemma_le_roundtrip(p);
        },
    }
}

/// What applying one record does to the store contents and the
/// snapshot ledger: a put inserts its blob if absent, a snapshot
/// commit whose id is already covered is skipped, and an inconsistent
/// record applies to nothing.
pub open spec fn apply_record(
    m: Map<Seq<u8>, Seq<u8>>,
    snaps: Seq<Snapshot>,
    r: WalRecord,
) -> Option<(Map<Seq<u8>, Seq<u8>>, Seq<Snapshot>)> {
    match r.kind {
        WalKind::ChunkPut | WalKind::NodePut => if hash_of(r.payload@) == r.hash@ {
            if m.contains_key(r.hash@) {
                Some((m, snaps))
            } else {
                Some((m.insert(r.hash@, r.payload@), snaps))
            }
        } else {
            None
        },
        WalKind::SnapshotCommit => match parse_snap_payload(r.payload@) {
            Option::None => None,
            Option::Some((id, ts, parent)) => if snaps.len() > 0 && id <= snaps.last().id {
                Some((m, snaps))
            } else {
                Some((m, snaps.push(Snapshot { id, timestamp: ts, root_hash: r.hash, parent })))
            },
        },
    }
}

/// Applying a whole journal, record by record, oldest first.
pub open spec fn apply_all(
    m: Map<Seq<u8>, Seq<u8>>,
    snaps: Seq<Snapshot>,
    recs: Seq<WalRecord>,
) -> Option<(Map<Seq<u8>, Seq<u8>>, Seq<Snapshot>)>
    decreases recs.len(),
{
    if recs.len() == 0 {
        Some((m, snaps))
    } else {
        match apply_record(m, snaps, recs.first()) {
            Option::None => None,
            Option::Some((m2, s2)) => apply_all(m2, s2, recs.drop_first()),
        }
    }
}

/// Applying a journal never removes store keys and never shortens the
/// ledger or lowers its newest id.
pub proof fn lemma_apply_monotonic(
    m: Map<Seq<u8>, Seq<u8>>,
    snaps: Seq<Snapshot>,
    recs: Seq<WalRecord>,
)
    requires
        apply_all(m, snaps, recs) is Some,
    ensures
        forall|k: Seq<u8>|
            m.contains_key(k) ==> #[trigger] apply_all(
                m,
                snaps,
                recs,
            ).unwrap().0.contains_key(k),
        snaps.len() > 0 ==> {
            let s = apply_all(m, snaps, recs).unwrap().1;
            s.len() > 0 && s.last().id >= snaps.last().id
        },
    decreases recs.len(),
{
    if recs.len() > 0 {
        let (m2, s2) = apply_record(m, snaps, recs.first()).unwrap();
        lemma_apply_monotonic(m2, s2, recs.drop_first());
    }
}

/// Crash recovery, in general: once a journal replays successfully,
/// every chunk or node write it records is present in the store —
/// including any write a crash interrupted after its journal append
/// but before it reached the store.
pub proof fn lemma_replay_completes_puts(
    m: Map<Seq<u8>, Seq<u8>>,
    snaps: Seq<Snapshot>,
    recs: Seq<WalRecord>,
)
    requires
        apply_all(m, snaps, recs) is Some,
    ensures
        forall|i: int|
            0 <= i < recs.len() && (recs[i].kind == WalKind::ChunkPut || recs[i].kind
                == WalKind::NodePut) ==> apply_all(m, snaps, recs).unwrap().0.contains_key(
                #[trigger] recs[i].hash@,
            ),
    decreases recs.len(),
{
    if recs.len() > 0 {
        let r = recs.first();
        let (m1, s1) = apply_record(m, snaps, r).unwrap();
        lemma_replay_completes_puts(m1, s1, recs.drop_first());
        lemma_apply_monotonic(m1, s1, recs.drop_first());
        assert forall|i: int|
            0 <= i < recs.len() && (recs[i].kind == WalKind::ChunkPut || recs[i].kind
                == WalKind::NodePut) implies apply_all(m, snaps, recs).unwrap().0.contains_key(
            #[trigger] recs[i].hash@,
        ) by {
            if i == 0 {
                assert(m1.contains_key(r.hash@));
            } else {
                assert(recs.drop_first()[i - 1] == recs[i]);
                assert(apply_all(m1, s1, recs.drop_first()).unwrap().0.contains_key(
                    recs.drop_first()[i - 1].hash@,
                ));
            }
        }
    }
}

/// Replay idempotence: once a journal has been fully applied,
/// applying it again changes nothing and raises no error.
pub proof fn lemma_replay_idempotent(
    m: Map<Seq<u8>, Seq<u8>>,
    snaps: Seq<Snapshot>,
    recs: Seq<WalRecord>,
)
    requires
        apply_all(m, snaps, recs) is Some,
    ensures
        apply_all(apply_all(m, snaps, recs).unwrap().0, apply_all(m, snaps, recs).unwrap().1, recs)
            == apply_all(m, snaps, recs),
    decreases recs.len(),
{
    if recs.len() > 0 {
        let r = recs.first();
        let (m1, s1) = apply_record(m, snaps, r).unwrap();
        let (mm, ss) = apply_all(m1, s1, recs.drop_first()).unwrap();
        lemma_apply_monotonic(m1, s1, recs.drop_first());
        lemma_replay_idempotent(m1, s1, recs.drop_first());
        match r.kind {
            WalKind::ChunkPut | WalKind::NodePut => {
                assert(m1.contains_key(r.hash@));
                assert(mm.contains_key(r.hash@));
                assert(apply_record(mm, ss, r) == Some((mm, ss)));
            },
            WalKind::SnapshotCommit => {
                let (id, ts, parent) = parse_snap_payload(r.payload@).unwrap();
                assert(s1.len() > 0 && s1.last().id >= id);
                assert(ss.len() > 0 && ss.last().id >= id);
                assert(apply_record(mm, ss, r) == Some((mm, ss)));
            },
        }
    }
}

} // verus!
