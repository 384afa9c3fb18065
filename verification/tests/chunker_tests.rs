use kronos::chunker::{Chunker, FixedSizeChunker};

#[test]
fn fixed_chunker_splits_130kb_into_three_chunks() {
    let data = vec![7u8; 130 * 1024];
    let chunker = FixedSizeChunker::new(64 * 1024);
    let chunks = chunker.chunk(&data);
    assert_eq!(chunks.len(), 3);
    assert_eq!(chunks[0].len(), 64 * 1024);
    assert_eq!(chunks[1].len(), 64 * 1024);
    assert_eq!(chunks[2].len(), 2 * 1024);
}

#[test]
fn fixed_chunker_concatenation_restores_input() {
    let data: Vec<u8> = (0..1000u32).map(|i| (i % 251) as u8).collect();
    let chunker = FixedSizeChunker::new(333);
    let chunks = chunker.chunk(&data);
    assert_eq!(chunks.len(), 4);
    let mut joined: Vec<u8> = Vec::new();
    for c in &chunks {
        joined.extend_from_slice(c);
    }
    assert_eq!(joined, data);
}

#[test]
fn fixed_chunker_empty_input_yields_no_chunks() {
    let chunker = FixedSizeChunker::new(1024);
    let chunks = chunker.chunk(&[]);
    assert_eq!(chunks.len(), 0);
}

#[test]
fn fixed_chunker_exact_multiple_has_no_short_tail() {
    let data = vec![1u8; 128];
    let chunker = FixedSizeChunker::new(64);
    let chunks = chunker.chunk(&data);
    assert_eq!(chunks.len(), 2);
    assert_eq!(chunks[0].len(), 64);
    assert_eq!(chunks[1].len(), 64);
}
