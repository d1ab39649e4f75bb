use treehash::hashing::{bigfile_xxhash3_128, get_xxhash3_128_and_size, smallfile_xxhash3_128, Xxh3Stream};

fn sample_bytes(len: usize) -> Vec<u8> {
    let mut v = Vec::with_capacity(len);
    let mut state: u32 = 0x1234_5678;
    for _ in 0..len {
        state = state.wrapping_mul(1664525).wrapping_add(1013904223);
        v.push((state >> 24) as u8);
    }
    v
}

#[test]
fn empty_input_hashes_to_the_empty_digest() {
    let (hash, size) = get_xxhash3_128_and_size(&[], 1024);
    assert_eq!(size, 0);
    assert_eq!(hash, xxhash_rust::xxh3::xxh3_128(&[]));
    assert_eq!(hash, 0x99aa06d3014798d86001c324468d497f);
}

#[test]
fn single_read_matches_reference() {
    let content = sample_bytes(4096);
    assert_eq!(smallfile_xxhash3_128(&content), xxhash_rust::xxh3::xxh3_128(&content));
}

#[test]
fn streaming_matches_single_read() {
    let content = sample_bytes(100_000);
    let single = smallfile_xxhash3_128(&content);
    for chunk in [1usize, 7, 1024, 99_999, 100_000, 1_000_000] {
        assert_eq!(bigfile_xxhash3_128(&content, chunk), single);
    }
}

#[test]
fn stream_type_matches_one_shot() {
    let content = sample_bytes(10_000);
    let mut stream = Xxh3Stream::new();
    stream.feed(&content[..1]);
    stream.feed(&content[1..5000]);
    stream.feed(&content[5000..5000]);
    stream.feed(&content[5000..]);
    assert_eq!(stream.finish(), xxhash_rust::xxh3::xxh3_128(&content));
}

#[test]
fn mode_choice_does_not_change_the_hash() {
    let content = sample_bytes(50_000);
    // Larger than the buffer: streaming mode.
    let (big, size_big) = get_xxhash3_128_and_size(&content, 1024);
    // Fits the buffer: single-read mode.
    let (small, size_small) = get_xxhash3_128_and_size(&content, 50_000);
    assert_eq!(big, small);
    assert_eq!(size_big, 50_000);
    assert_eq!(size_small, 50_000);
    assert_eq!(big, xxhash_rust::xxh3::xxh3_128(&content));
}
