use kronos::cache::ChunkCache;
use kronos::hashing::{Blake3Pool, Digest};

fn digest_of(data: &[u8]) -> Digest {
    Blake3Pool::new().hash_bytes(data)
}

#[test]
fn cache_returns_what_was_put() {
    let mut cache = ChunkCache::new(4);
    let data = b"cached bytes".to_vec();
    let h = digest_of(&data);
    assert!(cache.get(&h).is_none());
    cache.put(h, data.clone());
    assert_eq!(cache.get(&h).unwrap(), data);
    assert_eq!(cache.len(), 1);
}

#[test]
fn cache_is_bounded_and_evicts_least_recently_used() {
    let mut cache = ChunkCache::new(2);
    let (h1, d1) = (digest_of(b"1"), b"one".to_vec());
    let (h2, d2) = (digest_of(b"2"), b"two".to_vec());
    let (h3, d3) = (digest_of(b"3"), b"three".to_vec());
    cache.put(h1, d1.clone());
    cache.put(h2, d2.clone());
    // Touch the older entry so the other one is least recently used.
    assert!(cache.get(&h1).is_some());
    cache.put(h3, d3.clone());
    assert_eq!(cache.len(), 2);
    assert!(cache.get(&h2).is_none());
    assert_eq!(cache.get(&h1).unwrap(), d1);
    assert_eq!(cache.get(&h3).unwrap(), d3);
}

#[test]
fn cache_replaces_value_under_same_key() {
    let mut cache = ChunkCache::new(2);
    let h = digest_of(b"key");
    cache.put(h, b"first".to_vec());
    cache.put(h, b"second".to_vec());
    assert_eq!(cache.len(), 1);
    assert_eq!(cache.get(&h).unwrap(), b"second".to_vec());
}
