use chunkfs::leap::chunks_before_last_cut;
use chunkfs::{Chunk, Chunker, FSChunker, Hasher, LeapChunker, SimpleHasher, SizeParams};

#[test]
fn chunk_accessors() {
    let c = Chunk::new(5, 10);
    assert_eq!(c.offset(), 5);
    assert_eq!(c.length(), 10);
    assert_eq!(c.range(), 5..15);
}

#[test]
fn fixed_size_chunker_leaves_short_tail() {
    let mut chunker = FSChunker::new(4096);
    let data = vec![0u8; 10000];
    let chunks = chunker.chunk_data(&data, Vec::new());
    assert_eq!(chunks, vec![Chunk::new(0, 4096), Chunk::new(4096, 4096)]);
    assert_eq!(chunker.estimate_chunk_count(&data), 3);
    assert_eq!(FSChunker::default_size().chunk_size(), 4096);
    assert_eq!(FSChunker::default().chunk_size(), 4096);
}

#[test]
fn leap_chunker_default_sizes() {
    let chunker = LeapChunker::default_sizes();
    assert_eq!(
        chunker.size_params(),
        SizeParams { min: 8192, avg: 12288, max: 16384 }
    );
    assert_eq!(chunker.estimate_chunk_count(&vec![1u8; 81920]), 10);
}

#[test]
fn leap_chunker_tiles_prefix_and_keeps_tail() {
    let mut chunker = LeapChunker::default_sizes();
    let data: Vec<u8> = (0..100000u32).map(|i| (i.wrapping_mul(2654435761) >> 13) as u8).collect();
    let chunks = chunker.chunk_data(&data, Vec::new());
    assert!(!chunks.is_empty());
    let mut end = 0;
    for c in &chunks {
        assert_eq!(c.offset(), end);
        assert!(c.length() > 0);
        end = c.offset() + c.length();
    }
    assert!(end < data.len());
}

#[test]
fn leap_chunker_short_buffer_is_all_tail() {
    let mut chunker = LeapChunker::default_sizes();
    assert!(chunker.chunk_data(&[1u8; 100], Vec::new()).is_empty());
    assert!(chunker.chunk_data(&[], Vec::new()).is_empty());
}

#[test]
fn simple_hasher_hash_is_the_chunk() {
    let mut h = SimpleHasher;
    let hash = h.hash(&[4, 5, 6]);
    assert_eq!(hash, vec![4, 5, 6]);
    assert_eq!(h.len(&hash), 3);
}

#[test]
fn chunks_before_last_cut_drops_only_the_last() {
    let cuts = vec![(0usize, 4usize), (4, 6), (10, 3)];
    assert_eq!(
        chunks_before_last_cut(&cuts, Vec::new()),
        vec![Chunk::new(0, 4), Chunk::new(4, 6)]
    );
    assert!(chunks_before_last_cut(&Vec::new(), Vec::new()).is_empty());
}
