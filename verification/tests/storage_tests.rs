use kronos::errors::EngineError;
use kronos::hashing::{Blake3Pool, Digest};
use kronos::storage::{MemStore, Storage};

fn digest_of(data: &[u8]) -> Digest {
    Blake3Pool::new().hash_bytes(data)
}

#[test]
fn write_is_idempotent_one_copy_two_successes() {
    let mut store = MemStore::new();
    let data = b"some chunk bytes";
    let h = digest_of(data);
    assert!(store.write(&h, data).is_ok());
    assert!(store.write(&h, data).is_ok());
    assert_eq!(store.blob_count(), 1);
    assert_eq!(store.read(&h).unwrap(), data.to_vec());
}

#[test]
fn read_missing_key_is_not_found() {
    let store = MemStore::new();
    let h = digest_of(b"never written");
    assert_eq!(store.read(&h).unwrap_err(), EngineError::NotFound);
    assert_eq!(store.read_verified(&h).unwrap_err(), EngineError::NotFound);
}

#[test]
fn verified_read_detects_corruption() {
    let mut store = MemStore::new();
    let good = b"good bytes";
    let h = digest_of(good);
    // A blob stored under a key its bytes do not hash to stands for
    // out-of-band corruption of the stored file.
    store.write(&h, b"tampered bytes").unwrap();
    assert_eq!(store.read_verified(&h).unwrap_err(), EngineError::Corrupt);
}

#[test]
fn verified_read_returns_intact_blob() {
    let mut store = MemStore::new();
    let data = b"intact";
    let h = digest_of(data);
    store.write(&h, data).unwrap();
    assert_eq!(store.read_verified(&h).unwrap(), data.to_vec());
}

#[test]
fn distinct_keys_accumulate() {
    let mut store = MemStore::new();
    for i in 0..10u8 {
        let data = vec![i; 4];
        let h = digest_of(&data);
        store.write(&h, &data).unwrap();
    }
    assert_eq!(store.blob_count(), 10);
}

#[test]
fn digest_wrapper_matches_reference_and_is_not_identity() {
    let data = b"abc";
    let d = digest_of(data);
    assert_eq!(&d, blake3::hash(data).as_bytes());
    assert_eq!(d.len(), 32);
    assert_ne!(&d[..3], &data[..]);
    assert_ne!(digest_of(b"abc"), digest_of(b"abd"));
    assert_eq!(digest_of(b"abc"), digest_of(b"abc"));
}
