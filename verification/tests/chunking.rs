use bita::chunker::{chunk_all, Chunk, Chunker, ChunkerConfig};
use bita::rolling_hash::{HashKind, RollingHash};

fn sample(n: usize, seed: u64) -> Vec<u8> {
    let mut x = seed;
    let mut out = Vec::with_capacity(n);
    for _ in 0..n {
        x = (x * 1103515245 + 12345) % (1u64 << 31);
        out.push(((x >> 16) & 0xff) as u8);
    }
    out
}

fn config(kind: HashKind) -> ChunkerConfig {
    ChunkerConfig { kind, window_size: 16, min_chunk_size: 32, max_chunk_size: 256, mask: 0x3f }
}

fn extents(chunks: &[Chunk]) -> Vec<(u64, usize)> {
    chunks.iter().map(|c| (c.offset, c.data.len())).collect()
}

#[test]
fn rollsum_of_a_full_window_has_the_expected_value() {
    let mut h = RollingHash::new(HashKind::RollSum, 4);
    h.feed(&[1, 2, 3, 4]);
    assert_eq!(h.sum(), 8782154);
}

#[test]
fn rollsum_of_a_fresh_window_is_that_of_zero_bytes() {
    let h = RollingHash::new(HashKind::RollSum, 4);
    assert_eq!(h.sum(), 8126774);
}

#[test]
fn buzhash_of_a_full_window_has_the_expected_value() {
    let mut h = RollingHash::new(HashKind::BuzHash, 4);
    h.feed(&[1, 2, 3, 4]);
    assert_eq!(h.sum(), 1866751015);
}

#[test]
fn buzhash_of_a_fresh_window_is_that_of_zero_bytes() {
    let h = RollingHash::new(HashKind::BuzHash, 4);
    assert_eq!(h.sum(), 724695010);
}

#[test]
fn buzhash_of_a_one_byte_window_is_the_code_word() {
    let mut h = RollingHash::new(HashKind::BuzHash, 1);
    h.input(0);
    assert_eq!(h.sum(), 0x9e3645df);
}

#[test]
fn hash_depends_on_the_window_only() {
    for kind in [HashKind::RollSum, HashKind::BuzHash] {
        let tail = [9u8, 8, 7, 6, 5, 4, 3, 2];
        let mut a = RollingHash::new(kind, 8);
        a.feed(&sample(500, 1));
        a.feed(&tail);
        let mut b = RollingHash::new(kind, 8);
        b.feed(&tail);
        let mut c = RollingHash::new(kind, 8);
        c.feed(&sample(33, 77));
        c.feed(&tail);
        assert_eq!(a.sum(), b.sum());
        assert_eq!(a.sum(), c.sum());
    }
}

#[test]
fn hash_changes_with_the_window() {
    for kind in [HashKind::RollSum, HashKind::BuzHash] {
        let mut a = RollingHash::new(kind, 4);
        a.feed(&[1, 2, 3, 4]);
        let mut b = RollingHash::new(kind, 4);
        b.feed(&[1, 2, 3, 5]);
        assert_ne!(a.sum(), b.sum());
    }
}

#[test]
fn reset_forgets_the_bytes_seen() {
    for kind in [HashKind::RollSum, HashKind::BuzHash] {
        let fresh = RollingHash::new(kind, 16).sum();
        let mut h = RollingHash::new(kind, 16);
        h.feed(&sample(100, 3));
        assert_ne!(h.sum(), fresh);
        h.reset();
        assert_eq!(h.sum(), fresh);
    }
}

#[test]
fn rollsum_chunks_are_where_expected() {
    let data = sample(2000, 12345);
    assert_eq!(&data[..8], &[220, 4, 101, 170, 31, 173, 29, 90]);
    let chunks = chunk_all(&config(HashKind::RollSum), &data);
    let e = extents(&chunks);
    assert_eq!(e.len(), 17);
    assert_eq!(&e[..6], &[(0, 72), (72, 256), (328, 65), (393, 115), (508, 40), (548, 58)]);
    assert_eq!(&e[15..], &[(1941, 42), (1983, 17)]);
}

#[test]
fn buzhash_chunks_are_where_expected() {
    let data = sample(2000, 12345);
    let chunks = chunk_all(&config(HashKind::BuzHash), &data);
    let e = extents(&chunks);
    assert_eq!(e.len(), 23);
    assert_eq!(&e[..6], &[(0, 69), (69, 43), (112, 171), (283, 40), (323, 35), (358, 137)]);
    assert_eq!(&e[21..], &[(1789, 157), (1946, 54)]);
}

#[test]
fn chunks_partition_the_stream() {
    for kind in [HashKind::RollSum, HashKind::BuzHash] {
        let data = sample(10_000, 99);
        let cfg = config(kind);
        let chunks = chunk_all(&cfg, &data);
        let mut at = 0u64;
        let mut joined = Vec::new();
        for (i, c) in chunks.iter().enumerate() {
            assert_eq!(c.offset, at);
            assert!(!c.data.is_empty());
            assert!(c.data.len() <= cfg.max_chunk_size as usize);
            if i + 1 < chunks.len() {
                assert!(c.data.len() >= cfg.min_chunk_size as usize);
            }
            at += c.data.len() as u64;
            joined.extend_from_slice(&c.data);
        }
        assert_eq!(at, data.len() as u64);
        assert_eq!(joined, data);
    }
}

#[test]
fn chunking_twice_gives_the_same_chunks() {
    for kind in [HashKind::RollSum, HashKind::BuzHash] {
        let data = sample(5000, 7);
        let a = chunk_all(&config(kind), &data);
        let b = chunk_all(&config(kind), &data);
        assert_eq!(a.len(), b.len());
        for (x, y) in a.iter().zip(b.iter()) {
            assert_eq!(x.offset, y.offset);
            assert_eq!(x.data, y.data);
        }
    }
}

#[test]
fn feeding_in_pieces_gives_the_same_chunks() {
    for kind in [HashKind::RollSum, HashKind::BuzHash] {
        let data = sample(5000, 21);
        let whole = chunk_all(&config(kind), &data);
        let mut chunker = Chunker::new(config(kind));
        let mut pieces = Vec::new();
        for part in data.chunks(113) {
            pieces.extend(chunker.feed(part));
        }
        if let Some(last) = chunker.finish() {
            pieces.push(last);
        }
        assert_eq!(extents(&pieces), extents(&whole));
        for (x, y) in pieces.iter().zip(whole.iter()) {
            assert_eq!(x.data, y.data);
        }
    }
}

#[test]
fn an_empty_stream_has_no_chunks() {
    assert!(chunk_all(&config(HashKind::RollSum), &[]).is_empty());
    let chunker = Chunker::new(config(HashKind::BuzHash));
    assert!(chunker.finish().is_none());
}

#[test]
fn a_stream_shorter_than_the_smallest_chunk_is_one_chunk() {
    let data = sample(20, 5);
    let chunks = chunk_all(&config(HashKind::RollSum), &data);
    assert_eq!(extents(&chunks), vec![(0, 20)]);
    assert_eq!(chunks[0].data, data);
}

#[test]
fn a_mask_of_zero_cuts_at_the_smallest_size() {
    let cfg = ChunkerConfig {
        kind: HashKind::RollSum,
        window_size: 4,
        min_chunk_size: 8,
        max_chunk_size: 64,
        mask: 0,
    };
    let chunks = chunk_all(&cfg, &[7u8; 100]);
    let e = extents(&chunks);
    assert_eq!(e.len(), 13);
    assert_eq!(&e[..3], &[(0, 8), (8, 8), (16, 8)]);
    assert_eq!(e[12], (96, 4));
}

#[test]
fn no_cut_is_made_before_the_window_is_full() {
    let cfg = ChunkerConfig {
        kind: HashKind::RollSum,
        window_size: 4,
        min_chunk_size: 2,
        max_chunk_size: 64,
        mask: 0,
    };
    let chunks = chunk_all(&cfg, &[7u8; 10]);
    assert_eq!(extents(&chunks), vec![(0, 4), (4, 4), (8, 2)]);
}

#[test]
fn a_cut_is_forced_at_the_largest_size() {
    let cfg = ChunkerConfig {
        kind: HashKind::BuzHash,
        window_size: 4,
        min_chunk_size: 50,
        max_chunk_size: 50,
        mask: 0xffff_ffff,
    };
    let chunks = chunk_all(&cfg, &sample(175, 11));
    assert_eq!(extents(&chunks), vec![(0, 50), (50, 50), (100, 50), (150, 25)]);
}

#[test]
fn parameters_are_judged() {
    assert!(config(HashKind::RollSum).is_valid());
    let mut c = config(HashKind::RollSum);
    c.window_size = 0;
    assert!(!c.is_valid());
    let mut c = config(HashKind::RollSum);
    c.max_chunk_size = 0;
    c.min_chunk_size = 0;
    assert!(!c.is_valid());
    let mut c = config(HashKind::RollSum);
    c.min_chunk_size = 257;
    assert!(!c.is_valid());
    let mut c = config(HashKind::RollSum);
    c.min_chunk_size = 0;
    assert!(c.is_valid());
}
