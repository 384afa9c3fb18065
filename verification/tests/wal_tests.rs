use kronos::errors::EngineError;
use kronos::hashing::{Blake3Pool, Digest};
use kronos::snapshot::SnapIndex;
use kronos::storage::{MemStore, Storage};
use kronos::wal::{
    decode_record, decode_snap_payload, encode_record, encode_snap_payload, WalKind, WalRecord,
    WriteAheadLog,
};

fn digest_of(data: &[u8]) -> Digest {
    Blake3Pool::new().hash_bytes(data)
}

#[test]
fn record_roundtrips_through_its_durable_form() {
    let payload = b"payload bytes".to_vec();
    let rec = WalRecord { seq: 42, kind: WalKind::ChunkPut, hash: digest_of(&payload), payload };
    let enc = encode_record(&rec);
    let back = decode_record(&enc).unwrap();
    assert_eq!(back.seq, rec.seq);
    assert_eq!(back.kind, rec.kind);
    assert_eq!(back.hash, rec.hash);
    assert_eq!(back.payload, rec.payload);
}

#[test]
fn flipped_byte_fails_the_checksum() {
    let payload = b"data".to_vec();
    let rec = WalRecord { seq: 7, kind: WalKind::NodePut, hash: digest_of(&payload), payload };
    let mut enc = encode_record(&rec);
    enc[50] ^= 0xff;
    assert_eq!(decode_record(&enc).unwrap_err(), EngineError::WALReplayError);
}

#[test]
fn truncated_record_is_a_serialization_error() {
    let payload = b"data".to_vec();
    let rec = WalRecord { seq: 7, kind: WalKind::NodePut, hash: digest_of(&payload), payload };
    let mut enc = encode_record(&rec);
    enc.truncate(20);
    assert_eq!(decode_record(&enc).unwrap_err(), EngineError::SerializationError);
}

#[test]
fn snap_payload_roundtrips() {
    let enc = encode_snap_payload(3, 1700000000, Some(2));
    assert_eq!(decode_snap_payload(&enc).unwrap(), (3, 1700000000, Some(2)));
    let enc2 = encode_snap_payload(1, 5, None);
    assert_eq!(decode_snap_payload(&enc2).unwrap(), (1, 5, None));
    assert!(decode_snap_payload(&vec![1, 2, 3]).is_err());
}

#[test]
fn wal_sequence_numbers_strictly_increase() {
    let mut wal = WriteAheadLog::new();
    let p1 = b"a".to_vec();
    let h1 = digest_of(&p1);
    let s1 = wal.append(WalKind::ChunkPut, h1, p1);
    let p2 = b"b".to_vec();
    let h2 = digest_of(&p2);
    let s2 = wal.append(WalKind::ChunkPut, h2, p2);
    assert!(s2 > s1);
    assert_eq!(s1, 1);
    assert_eq!(s2, 2);
    assert_eq!(wal.record_count(), 2);
}

#[test]
fn replay_completes_interrupted_chunk_write() {
    // Crash simulated after the journal append but before the store
    // write: on restart, replay completes the write.
    let mut wal = WriteAheadLog::new();
    let payload = b"chunk that never reached the store".to_vec();
    let h = digest_of(&payload);
    wal.append(WalKind::ChunkPut, h, payload.clone());
    let mut store = MemStore::new();
    let mut snaps = SnapIndex::new();
    assert!(wal.replay(&mut store, &mut snaps).is_ok());
    assert_eq!(store.read_verified(&h).unwrap(), payload);
}

#[test]
fn replaying_an_applied_segment_changes_nothing() {
    let mut wal = WriteAheadLog::new();
    let p1 = b"first".to_vec();
    let h1 = digest_of(&p1);
    wal.append(WalKind::ChunkPut, h1, p1);
    let p2 = encode_snap_payload(1, 99, None);
    wal.append(WalKind::SnapshotCommit, digest_of(b"root"), p2);
    let mut store = MemStore::new();
    let mut snaps = SnapIndex::new();
    assert!(wal.replay(&mut store, &mut snaps).is_ok());
    let count_once = store.blob_count();
    let snaps_once = snaps.len();
    assert!(wal.replay(&mut store, &mut snaps).is_ok());
    assert_eq!(store.blob_count(), count_once);
    assert_eq!(snaps.len(), snaps_once);
    assert_eq!(snaps.len(), 1);
}

#[test]
fn replay_rejects_record_with_wrong_digest() {
    let mut wal = WriteAheadLog::new();
    wal.append(WalKind::ChunkPut, digest_of(b"not the payload"), b"payload".to_vec());
    let mut store = MemStore::new();
    let mut snaps = SnapIndex::new();
    assert_eq!(wal.replay(&mut store, &mut snaps).unwrap_err(), EngineError::WALReplayError);
}

#[test]
fn checkpoint_drops_only_the_applied_prefix() {
    let mut wal = WriteAheadLog::new();
    for i in 0..5u8 {
        let p = vec![i];
        let h = digest_of(&p);
        wal.append(WalKind::ChunkPut, h, p);
    }
    wal.checkpoint(3);
    assert_eq!(wal.record_count(), 2);
    // Sequence numbering continues: the next append is record 6.
    let p = b"after".to_vec();
    let h = digest_of(&p);
    assert_eq!(wal.append(WalKind::ChunkPut, h, p), 6);
    // A conservative bound past the end empties the journal.
    wal.checkpoint(100);
    assert_eq!(wal.record_count(), 0);
}

#[test]
fn from_records_rejects_unordered_sequences() {
    let p = b"x".to_vec();
    let h = digest_of(&p);
    let r1 = WalRecord { seq: 5, kind: WalKind::ChunkPut, hash: h, payload: p.clone() };
    let r2 = WalRecord { seq: 5, kind: WalKind::ChunkPut, hash: h, payload: p.clone() };
    assert!(WriteAheadLog::from_records(vec![r1, r2]).is_err());
    let r3 = WalRecord { seq: 5, kind: WalKind::ChunkPut, hash: h, payload: p.clone() };
    let r4 = WalRecord { seq: 6, kind: WalKind::ChunkPut, hash: h, payload: p.clone() };
    let wal = WriteAheadLog::from_records(vec![r3, r4]).unwrap();
    assert_eq!(wal.record_count(), 2);
    // A journal whose newest sequence number is exhausted cannot take
    // another append and is refused too.
    let r5 = WalRecord { seq: u64::MAX, kind: WalKind::ChunkPut, hash: h, payload: p };
    assert!(WriteAheadLog::from_records(vec![r5]).is_err());
}
