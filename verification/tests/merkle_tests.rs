use kronos::hashing::{Blake3Pool, Digest};
use kronos::merkle::{
    decode_refs, dir_leaf, encode_dir_node, encode_file_node, file_leaf, sort_dir, DirEntry,
    DirNode, FileNode, MerkleTree,
};
use kronos::storage::FileStorage;

fn digest_of(data: &[u8]) -> Digest {
    Blake3Pool::new().hash_bytes(data)
}

#[test]
fn dir_hash_is_insertion_order_invariant() {
    let h1 = digest_of(b"one");
    let h2 = digest_of(b"two");
    let d1 = MerkleTree::create_dir_node(vec![
        DirEntry { name: String::from("a"), hash: h1 },
        DirEntry { name: String::from("b"), hash: h2 },
    ]);
    let d2 = MerkleTree::create_dir_node(vec![
        DirEntry { name: String::from("b"), hash: h2 },
        DirEntry { name: String::from("a"), hash: h1 },
    ]);
    assert_eq!(dir_leaf(&d1), dir_leaf(&d2));
    assert_eq!(encode_dir_node(&d1), encode_dir_node(&d2));
}

#[test]
fn sort_dir_orders_entries_by_name() {
    let mut dir = DirNode {
        entries: vec![
            DirEntry { name: String::from("zeta"), hash: digest_of(b"z") },
            DirEntry { name: String::from("alpha"), hash: digest_of(b"a") },
            DirEntry { name: String::from("mid"), hash: digest_of(b"m") },
        ],
    };
    sort_dir(&mut dir);
    let names: Vec<&str> = dir.entries.iter().map(|e| e.name.as_str()).collect();
    assert_eq!(names, vec!["alpha", "mid", "zeta"]);
}

#[test]
fn file_leaf_depends_on_chunk_order() {
    let h1 = digest_of(b"x");
    let h2 = digest_of(b"y");
    let f1 = MerkleTree::create_file_node(vec![h1, h2], 2);
    let f2 = MerkleTree::create_file_node(vec![h2, h1], 2);
    assert_ne!(file_leaf(&f1), file_leaf(&f2));
    let f3 = MerkleTree::create_file_node(vec![h1, h2], 2);
    assert_eq!(file_leaf(&f1), file_leaf(&f3));
}

#[test]
fn file_node_encoding_is_tagged_and_framed() {
    let h = digest_of(b"chunk");
    let f = MerkleTree::create_file_node(vec![h], 5);
    let enc = encode_file_node(&f);
    assert_eq!(enc.len(), 1 + 8 + 8 + 32);
    assert_eq!(enc[0], 0);
    assert_eq!(enc[1], 5);
    assert_eq!(enc[9], 1);
    assert_eq!(&enc[17..49], h.as_slice());
}

#[test]
fn decode_refs_returns_file_chunk_digests() {
    let h1 = digest_of(b"c1");
    let h2 = digest_of(b"c2");
    let f = MerkleTree::create_file_node(vec![h1, h2], 4);
    let enc = encode_file_node(&f);
    let refs = decode_refs(&enc).unwrap();
    assert_eq!(refs, vec![h1, h2]);
}

#[test]
fn decode_refs_returns_dir_child_digests() {
    let h1 = digest_of(b"childa");
    let h2 = digest_of(b"childb");
    let d = MerkleTree::create_dir_node(vec![
        DirEntry { name: String::from("b"), hash: h2 },
        DirEntry { name: String::from("a"), hash: h1 },
    ]);
    let enc = encode_dir_node(&d);
    let refs = decode_refs(&enc).unwrap();
    assert_eq!(refs, vec![h1, h2]);
}

#[test]
fn decode_refs_rejects_mangled_encodings() {
    assert!(decode_refs(&vec![]).is_err());
    assert!(decode_refs(&vec![9u8, 0, 0]).is_err());
    let h = digest_of(b"c");
    let f = MerkleTree::create_file_node(vec![h], 1);
    let mut enc = encode_file_node(&f);
    enc.pop();
    assert!(decode_refs(&enc).is_err());
}

#[test]
fn storage_path_is_sharded_lowercase_hex() {
    let storage = FileStorage::new(String::from("store"));
    let hash: Digest = [0xab; 32];
    let expected = format!("store/ab/{}", "ab".repeat(31));
    assert_eq!(storage.get_path(&hash), expected);
    let mixed: Digest = [
        0xde, 0xad, 0xbe, 0xef, 0, 0, 0, 0, 0, 0, 0, 0, 0, 0, 0, 0, 0, 0, 0, 0, 0, 0, 0, 0, 0, 0,
        0, 0, 0, 0, 0, 0x0f,
    ];
    let p = storage.get_path(&mixed);
    assert_eq!(p, format!("store/de/adbeef{}0f", "00".repeat(27)));
}

#[test]
fn hex_rendering_matches_reference() {
    let storage = FileStorage::new(String::from("s"));
    let hash: Digest = [0x01; 32];
    let p = storage.get_path(&hash);
    assert_eq!(p, format!("s/01/{}", hex::encode(&[0x01u8; 31])));
}
