use kronos::config::Config;
use kronos::engine::Engine;
use kronos::errors::EngineError;
use kronos::hashing::{Blake3Pool, Digest};
use kronos::merkle::{encode_file_node, file_leaf, MerkleTree};
use kronos::snapshot::SnapIndex;
use kronos::storage::{MemStore, Storage};
use kronos::wal::WriteAheadLog;

fn test_config() -> Config {
    Config::new(String::from("repo"), String::from("repo/mnt"))
}

fn digest_of(data: &[u8]) -> Digest {
    Blake3Pool::new().hash_bytes(data)
}

#[test]
fn config_lays_out_repository_paths() {
    let cfg = test_config();
    assert_eq!(cfg.wal_path, "repo/.kronos/wal");
    assert_eq!(cfg.merkle_path, "repo/.kronos/merkle");
    assert_eq!(cfg.snap_path, "repo/.kronos/snap");
    assert_eq!(cfg.store_path, "repo/.kronos/store");
    assert_eq!(cfg.cache_size, 1024);
    assert_eq!(cfg.chunk_size, 64 * 1024);
}

#[test]
fn ingest_is_deterministic_and_deduplicates() {
    let mut e = Engine::new(test_config());
    e.mount().unwrap();
    let data = vec![9u8; 130 * 1024];
    let r1 = e.ingest(&data).unwrap();
    let r2 = e.ingest(&data).unwrap();
    assert_eq!(r1, r2);

    let mut e2 = Engine::new(test_config());
    e2.mount().unwrap();
    let r3 = e2.ingest(&data).unwrap();
    assert_eq!(r1, r3);
}

#[test]
fn reingesting_adds_no_new_store_entries() {
    let mut store = MemStore::new();
    let mut e = Engine::with_state(test_config(), store, WriteAheadLog::new(), SnapIndex::new());
    e.mount().unwrap();
    let data: Vec<u8> = (0..130 * 1024u32).map(|i| (i % 251) as u8).collect();
    let root = e.ingest(&data).unwrap();
    // 3 distinct chunks (64 KiB, 64 KiB, 2 KiB) plus the file node
    // blob.
    let n1 = e.state.store.blob_count();
    assert_eq!(n1, 4);
    let root2 = e.ingest(&data).unwrap();
    assert_eq!(root, root2);
    assert_eq!(e.state.store.blob_count(), n1);

    // Identical chunks collapse to one stored blob.
    let mut e2 = Engine::new(test_config());
    e2.mount().unwrap();
    e2.ingest(&vec![3u8; 130 * 1024]).unwrap();
    assert_eq!(e2.state.store.blob_count(), 3);
}

#[test]
fn ingest_root_matches_hand_built_file_node() {
    let mut e = Engine::new(test_config());
    e.mount().unwrap();
    let data = b"tiny file".to_vec();
    let root = e.ingest(&data).unwrap();
    let node = MerkleTree::create_file_node(vec![digest_of(&data)], data.len() as u64);
    assert_eq!(root, file_leaf(&node));
}

#[test]
fn mutating_calls_require_mounted() {
    let mut e = Engine::new(test_config());
    assert_eq!(e.ingest(b"data").unwrap_err(), EngineError::NotMounted);
    assert_eq!(e.commit([0u8; 32], None, 0).unwrap_err(), EngineError::NotMounted);
    assert_eq!(e.unmount().unwrap_err(), EngineError::NotMounted);
}

#[test]
fn offline_ingest_fills_an_unmounted_repository() {
    let mut e = Engine::new(test_config());
    let data = b"bootstrap content".to_vec();
    let root = e.ingest_offline(&data).unwrap();
    e.mount().unwrap();
    assert_eq!(e.ingest_offline(&data).unwrap_err(), EngineError::AlreadyMounted);
    // The offline root is the same root a mounted ingest assigns.
    assert_eq!(e.ingest(&data).unwrap(), root);
    assert!(e.commit(root, None, 1).is_ok());
}

#[test]
fn mount_while_mounted_fails_without_state_change() {
    let mut e = Engine::new(test_config());
    e.mount().unwrap();
    assert_eq!(e.mount().unwrap_err(), EngineError::AlreadyMounted);
    // The engine is still mounted: mutating calls keep working.
    assert!(e.ingest(b"still mounted").is_ok());
    e.unmount().unwrap();
    assert_eq!(e.unmount().unwrap_err(), EngineError::NotMounted);
    assert!(e.mount().is_ok());
}

#[test]
fn commit_assigns_strictly_increasing_ids() {
    let mut e = Engine::new(test_config());
    e.mount().unwrap();
    let r1 = e.ingest(b"version one").unwrap();
    let id1 = e.commit(r1, None, 100).unwrap();
    let r2 = e.ingest(b"version two").unwrap();
    let id2 = e.commit(r2, Some(id1), 200).unwrap();
    assert_eq!(id1, 1);
    assert_eq!(id2, 2);
    assert!(id2 > id1);
    let latest = e.state.snap_idx.latest().unwrap();
    assert_eq!(latest.id, id2);
    assert_eq!(latest.root_hash, r2);
    assert_eq!(latest.parent, Some(id1));
    let first = e.state.snap_idx.lookup(id1).unwrap();
    assert_eq!(first.root_hash, r1);
}

#[test]
fn commit_of_unreachable_root_leaves_index_unchanged() {
    // A node blob whose referenced chunk was never written.
    let missing_chunk = digest_of(b"chunk that was never stored");
    let node = MerkleTree::create_file_node(vec![missing_chunk], 27);
    let blob = encode_file_node(&node);
    let root = file_leaf(&node);
    let mut store = MemStore::new();
    store.write(&root, &blob).unwrap();
    let mut e = Engine::with_state(test_config(), store, WriteAheadLog::new(), SnapIndex::new());
    e.mount().unwrap();
    assert_eq!(e.state.snap_idx.len(), 0);
    assert_eq!(e.commit(root, None, 5).unwrap_err(), EngineError::NotFound);
    assert_eq!(e.state.snap_idx.len(), 0);
}

#[test]
fn commit_of_unknown_root_or_parent_fails() {
    let mut e = Engine::new(test_config());
    e.mount().unwrap();
    assert_eq!(e.commit(digest_of(b"nowhere"), None, 1).unwrap_err(), EngineError::NotFound);
    let r = e.ingest(b"content").unwrap();
    assert_eq!(e.commit(r, Some(77), 1).unwrap_err(), EngineError::NotFound);
    assert_eq!(e.state.snap_idx.len(), 0);
}

#[test]
fn crash_recovery_completes_the_store_write() {
    // First life: ingest and commit, then keep only the journal —
    // the store writes are lost in the crash.
    let mut e = Engine::new(test_config());
    e.mount().unwrap();
    let data = b"durable through the journal".to_vec();
    let root = e.ingest(&data).unwrap();
    e.commit(root, None, 42).unwrap();
    let wal = e.state.wal;

    // Second life: empty store, same journal; replay restores it.
    let mut e2 = Engine::with_state(test_config(), MemStore::new(), wal, SnapIndex::new());
    e2.mount().unwrap();
    let chunk = e2.read_chunk(&digest_of(&data)).unwrap();
    assert_eq!(chunk, data);
    let snap = e2.state.snap_idx.latest().unwrap();
    assert_eq!(snap.id, 1);
    assert_eq!(snap.root_hash, root);
    assert_eq!(snap.timestamp, 42);
}

#[test]
fn remount_replays_idempotently() {
    let mut e = Engine::new(test_config());
    e.mount().unwrap();
    let r = e.ingest(b"stable state").unwrap();
    e.commit(r, None, 9).unwrap();
    let blobs = e.state.store.blob_count();
    let snaps = e.state.snap_idx.len();
    e.unmount().unwrap();
    e.mount().unwrap();
    assert_eq!(e.state.store.blob_count(), blobs);
    assert_eq!(e.state.snap_idx.len(), snaps);
}

#[test]
fn read_chunk_answers_from_cache_and_store_alike() {
    let mut e = Engine::new(test_config());
    e.mount().unwrap();
    let data = vec![5u8; 100];
    e.ingest(&data).unwrap();
    let h = digest_of(&data);
    let first = e.read_chunk(&h).unwrap();
    let second = e.read_chunk(&h).unwrap();
    assert_eq!(first, data);
    assert_eq!(second, data);
    assert_eq!(e.read_chunk(&digest_of(b"absent")).unwrap_err(), EngineError::NotFound);
}
