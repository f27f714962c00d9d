use bita::archive::{build_archive, store_chunk};
use bita::archive_reader::ArchiveReader;
use bita::chunk_location_map::ChunkLocation;
use bita::chunker::{chunk_all, ChunkerConfig};
use bita::compression::{accept_decoded, accept_frame, compress, decompress, Compression};
use bita::error::{Error, FormatError};
use bita::hashsum::HashSum;
use bita::output::Output;
use bita::reader_backend::{MemoryBackend, ReaderBackend};
use bita::reconstruct::{clone_archive, clone_from_memory, fetch_remaining};
use bita::rolling_hash::HashKind;
use bita::seed_input::{SeedInput, SeedStats};

fn sample(n: usize, seed: u64) -> Vec<u8> {
    let mut x = seed;
    let mut out = Vec::with_capacity(n);
    for _ in 0..n {
        x = (x * 1103515245 + 12345) % (1u64 << 31);
        out.push(((x >> 16) & 0xff) as u8);
    }
    out
}

fn compressible(n: usize) -> Vec<u8> {
    (0..n).map(|i| ((i / 64) % 7) as u8).collect()
}

fn config(kind: HashKind) -> ChunkerConfig {
    ChunkerConfig { kind, window_size: 16, min_chunk_size: 32, max_chunk_size: 256, mask: 0x3f }
}

fn unique_hashes(cfg: &ChunkerConfig, data: &[u8], hash_length: usize) -> Vec<(HashSum, usize)> {
    let mut out: Vec<(HashSum, usize)> = Vec::new();
    for c in chunk_all(cfg, data) {
        let h = HashSum::b2_digest(&c.data, hash_length);
        if !out.iter().any(|(g, n)| *g == h && *n == c.data.len()) {
            out.push((h, c.data.len()));
        }
    }
    out
}

fn colliding_blocks() -> (Vec<u8>, Vec<u8>) {
    let mut seen: Vec<(HashSum, Vec<u8>)> = Vec::new();
    for i in 0u32..100_000 {
        let data = i.to_le_bytes().to_vec();
        let h = HashSum::b2_digest(&data, 1);
        for (g, d) in seen.iter() {
            if *g == h {
                return (d.clone(), data);
            }
        }
        seen.push((h, data));
    }
    panic!("no collision found");
}

#[test]
fn identity_round_trip() {
    let data = sample(300, 1);
    let stored = compress(&data, Compression::Identity, 0).unwrap();
    assert_eq!(stored, data);
    assert_eq!(decompress(&stored, Compression::Identity, data.len()), Ok(data));
    assert_eq!(compress(&[], Compression::Identity, 9), Ok(vec![]));
    assert_eq!(decompress(&[], Compression::Identity, 0), Ok(vec![]));
}

#[test]
fn zstd_round_trip() {
    for level in [1, 3, 19] {
        for data in [sample(3000, 2), compressible(3000), vec![], vec![5u8]] {
            let stored = compress(&data, Compression::Zstd, level).unwrap();
            assert_eq!(decompress(&stored, Compression::Zstd, data.len()), Ok(data));
        }
    }
}

#[test]
fn zstd_makes_repetitive_data_shorter() {
    let data = compressible(4000);
    let stored = compress(&data, Compression::Zstd, 3).unwrap();
    assert!(stored.len() < data.len() / 4);
    assert_ne!(stored, data);
}

#[test]
fn decoding_checks_the_declared_length() {
    let mismatch = Err(Error::Format(FormatError::SizeMismatch));
    assert_eq!(decompress(&[1, 2, 3], Compression::Identity, 4), mismatch);
    assert_eq!(decompress(&[1, 2, 3], Compression::Identity, 2), mismatch);
    let stored = compress(&compressible(1000), Compression::Zstd, 3).unwrap();
    assert_eq!(decompress(&stored, Compression::Zstd, 2000), mismatch);
    assert_eq!(accept_decoded(Some(vec![1, 2]), 3), mismatch);
    assert_eq!(accept_decoded(Some(vec![1, 2]), 2), Ok(vec![1, 2]));
}

#[test]
fn undecodable_data_is_bad_chunk_data() {
    let bad = Err(Error::Format(FormatError::BadChunkData));
    assert_eq!(decompress(&[1, 2, 3, 4, 5], Compression::Zstd, 5), bad);
    assert_eq!(decompress(&[0x28, 0xb5, 0x2f], Compression::Zstd, 0), bad);
    let stored = compress(&compressible(1000), Compression::Zstd, 3).unwrap();
    assert_eq!(decompress(&stored, Compression::Zstd, 999), bad);
    assert_eq!(accept_decoded(None, 0), bad);
}

#[test]
fn a_frame_is_kept_only_if_it_decodes_to_the_chunk() {
    assert_eq!(accept_frame(&[1, 2], vec![9, 9, 9], Some(vec![1, 2])), Ok(vec![9, 9, 9]));
    assert_eq!(accept_frame(&[1, 2], vec![9, 9, 9], Some(vec![1, 3])), Err(Error::Codec));
    assert_eq!(accept_frame(&[1, 2], vec![9, 9, 9], None), Err(Error::Codec));
}

#[test]
fn the_shorter_form_is_stored() {
    let data = compressible(2000);
    let (kind, form) = store_chunk(&data, Compression::Zstd, 3);
    assert_eq!(kind, Compression::Zstd);
    assert!(form.len() < data.len());
    assert_eq!(decompress(&form, kind, data.len()), Ok(data.clone()));
    let (kind, form) = store_chunk(&data, Compression::Identity, 3);
    assert_eq!((kind, form), (Compression::Identity, data));
    let noise = sample(40, 3);
    let (kind, form) = store_chunk(&noise, Compression::Zstd, 3);
    assert_eq!((kind, form), (Compression::Identity, noise));
}

#[test]
fn memory_backend_reads_ranges() {
    let mut b = MemoryBackend::new(vec![1, 2, 3, 4, 5]);
    assert_eq!(b.read_at(1, 3), Ok(vec![2, 3, 4]));
    assert_eq!(b.read_at(0, 5), Ok(vec![1, 2, 3, 4, 5]));
    assert_eq!(b.read_at(5, 0), Ok(vec![]));
    assert_eq!(b.read_at(3, 3), Err(Error::Io));
    assert_eq!(b.read_at(6, 0), Err(Error::Io));
    assert_eq!(b.read_at(u64::MAX, 1), Err(Error::Io));
}

#[test]
fn output_is_written_at_offsets() {
    let mut out = Output::with_size(6);
    assert_eq!(out.len(), 6);
    assert_eq!(out.seek_write(2, &[7, 8]), Ok(()));
    assert_eq!(out.seek_write(5, &[9]), Ok(()));
    assert_eq!(out.seek_write(6, &[]), Ok(()));
    assert_eq!(out.seek_write(5, &[1, 1]), Err(Error::Io));
    assert_eq!(out.seek_write(7, &[]), Err(Error::Io));
    assert_eq!(out.into_vec(), vec![0, 0, 7, 8, 0, 9]);
}

#[test]
fn rebuilding_without_seed_gives_the_input() {
    for kind in [HashKind::RollSum, HashKind::BuzHash] {
        for compression in [Compression::Identity, Compression::Zstd] {
            for data in [sample(20_000, 5), compressible(20_000), vec![], vec![1u8; 10]] {
                let archive = build_archive(&data, &config(kind), 8, compression, 3).unwrap();
                let (out, stats) = clone_from_memory(&archive, &[]).unwrap();
                assert_eq!(out, data);
                assert_eq!(stats.seed, SeedStats { chunks_used: 0, bytes_used: 0 });
                assert_eq!(stats.chunks_fetched, unique_hashes(&config(kind), &data, 8).len());
            }
        }
    }
}

#[test]
fn repeated_chunks_are_stored_once() {
    let block = sample(700, 8);
    let mut data = Vec::new();
    for _ in 0..10 {
        data.extend_from_slice(&block);
    }
    let archive = build_archive(&data, &config(HashKind::RollSum), 16, Compression::Identity, 0)
        .unwrap();
    assert!(archive.len() < data.len() / 2);
    let reader = ArchiveReader::parse(&archive).unwrap();
    assert_eq!(reader.total_size(), data.len() as u64);
    assert!(reader.chunk_count() < chunk_all(&config(HashKind::RollSum), &data).len());
    let (out, stats) = clone_from_memory(&archive, &[]).unwrap();
    assert_eq!(out, data);
    assert_eq!(stats.chunks_fetched, reader.chunk_count());
}

#[test]
fn rebuilding_from_the_target_itself_fetches_nothing() {
    for kind in [HashKind::RollSum, HashKind::BuzHash] {
        for compression in [Compression::Identity, Compression::Zstd] {
            let data = compressible(30_000);
            let archive = build_archive(&data, &config(kind), 8, compression, 3).unwrap();
            let (out, stats) = clone_from_memory(&archive, &data).unwrap();
            assert_eq!(out, data);
            assert_eq!(stats.chunks_fetched, 0);
            assert_eq!(stats.seed.bytes_used, data.len() as u64);
            assert_eq!(stats.seed.chunks_used, unique_hashes(&config(kind), &data, 8).len());
        }
    }
}

#[test]
fn a_seed_with_the_chunk_data_cut_off_still_suffices() {
    let data = sample(10_000, 31);
    let archive = build_archive(&data, &config(HashKind::BuzHash), 8, Compression::Identity, 0)
        .unwrap();
    let reader = ArchiveReader::parse(&archive).unwrap();
    let head = &archive[..reader.chunk_data_offset() as usize];
    assert_eq!(clone_from_memory(head, &data).unwrap().0, data);
    assert_eq!(clone_from_memory(head, &[]).err(), Some(Error::Io));
}

#[test]
fn a_partial_seed_supplies_the_shared_chunks() {
    for kind in [HashKind::RollSum, HashKind::BuzHash] {
        let cfg = config(kind);
        let target = sample(30_000, 17);
        let mut seed = target.clone();
        for b in seed[10_000..12_000].iter_mut() {
            *b = b.wrapping_add(1);
        }
        let archive = build_archive(&target, &cfg, 8, Compression::Zstd, 3).unwrap();
        let (out, stats) = clone_from_memory(&archive, &seed).unwrap();
        assert_eq!(out, target);
        let wanted = unique_hashes(&cfg, &target, 8);
        let offered = unique_hashes(&cfg, &seed, 8);
        let shared = wanted.iter().filter(|w| offered.contains(w)).count();
        assert!(shared > 0);
        assert!(shared < wanted.len());
        assert_eq!(stats.seed.chunks_used, shared);
        assert_eq!(stats.chunks_fetched, wanted.len() - shared);
        let from_seed: usize = chunk_all(&cfg, &target)
            .iter()
            .filter(|c| offered.contains(&(HashSum::b2_digest(&c.data, 8), c.data.len())))
            .map(|c| c.data.len())
            .sum();
        assert_eq!(stats.seed.bytes_used, from_seed as u64);
    }
}

#[test]
fn an_unrelated_seed_supplies_nothing() {
    let target = sample(5000, 1);
    let archive =
        build_archive(&target, &config(HashKind::RollSum), 8, Compression::Identity, 0).unwrap();
    let (out, stats) = clone_from_memory(&archive, &sample(5000, 2)).unwrap();
    assert_eq!(out, target);
    assert_eq!(stats.seed, SeedStats { chunks_used: 0, bytes_used: 0 });
}

#[test]
fn colliding_chunks_are_not_stored() {
    let (a, b) = colliding_blocks();
    assert_ne!(a, b);
    let cfg = ChunkerConfig {
        kind: HashKind::RollSum,
        window_size: 1,
        min_chunk_size: 4,
        max_chunk_size: 4,
        mask: 0,
    };
    let mut data = vec![0xee; 4];
    data.extend_from_slice(&a);
    data.extend_from_slice(&b);
    assert_eq!(
        build_archive(&data, &cfg, 1, Compression::Identity, 0),
        Err(Error::HashCollision)
    );
    let archive = build_archive(&data, &cfg, 64, Compression::Identity, 0).unwrap();
    assert_eq!(clone_from_memory(&archive, &[]).unwrap().0, data);
    let mut twice = a.clone();
    twice.extend_from_slice(&a);
    let archive = build_archive(&twice, &cfg, 1, Compression::Identity, 0).unwrap();
    assert_eq!(clone_from_memory(&archive, &[]).unwrap().0, twice);
}

#[test]
fn a_seed_chunk_of_another_length_is_not_used() {
    let cfg = ChunkerConfig {
        kind: HashKind::RollSum,
        window_size: 1,
        min_chunk_size: 4,
        max_chunk_size: 4,
        mask: 0,
    };
    let target = vec![1u8, 2, 3, 4, 5, 6, 7, 8];
    let archive = build_archive(&target, &cfg, 8, Compression::Identity, 0).unwrap();
    let reader = ArchiveReader::parse(&archive).unwrap();
    let mut left = reader.source_index();
    let mut input = SeedInput::new((), &cfg, 1);
    let hash = HashSum::b2_digest(&[1, 2, 3, 4], 8);
    assert_eq!(input.claim(&reader, &mut left, &hash, 3), None);
    assert_eq!(input.claim(&reader, &mut left, &HashSum::b2_digest(&[0], 8), 4), None);
    assert_eq!(left.len(), 2);
    assert_eq!(input.claim(&reader, &mut left, &hash, 4), Some(vec![0]));
    assert_eq!(input.claim(&reader, &mut left, &hash, 4), None);
    assert_eq!(left.len(), 1);
    assert_eq!(input.finish(), SeedStats { chunks_used: 1, bytes_used: 4 });
}

#[test]
fn bad_parameters_are_refused_when_building() {
    let cfg = config(HashKind::RollSum);
    for hash_length in [0u8, 65, 255] {
        assert_eq!(
            build_archive(&[1, 2, 3], &cfg, hash_length, Compression::Identity, 0),
            Err(Error::BadConfig)
        );
    }
    let mut bad = cfg;
    bad.window_size = 0;
    assert_eq!(build_archive(&[1], &bad, 8, Compression::Identity, 0), Err(Error::BadConfig));
    let mut bad = cfg;
    bad.min_chunk_size = 300;
    assert_eq!(build_archive(&[1], &bad, 8, Compression::Identity, 0), Err(Error::BadConfig));
}

#[test]
fn seed_input_keeps_what_it_is_given() {
    let cfg = config(HashKind::BuzHash);
    let data = [1u8, 2, 3];
    let input = SeedInput::new(&data[..], &cfg, 5);
    assert_eq!(*input.chunker_config(), cfg);
    assert_eq!(input.num_chunk_buffers(), 5);
    assert_eq!(input.current_stats(), SeedStats { chunks_used: 0, bytes_used: 0 });
    assert_eq!(input.finish(), SeedStats::default());
}

#[test]
fn seeding_then_fetching_fills_the_output() {
    let cfg = config(HashKind::RollSum);
    let target = sample(8000, 41);
    let archive = build_archive(&target, &cfg, 8, Compression::Zstd, 3).unwrap();
    let reader = ArchiveReader::parse(&archive).unwrap();
    let mut left = reader.source_index();
    let waited = left.len();
    let mut output = Output::with_size(target.len());
    let first = SeedInput::new(&target[..3000], &cfg, 1)
        .seed(&reader, &mut left, &mut output)
        .unwrap();
    assert!(first.chunks_used > 0);
    assert_eq!(left.len(), waited - first.chunks_used);
    let again = SeedInput::new(&target[..3000], &cfg, 1)
        .seed(&reader, &mut left, &mut output)
        .unwrap();
    assert_eq!(again, SeedStats { chunks_used: 0, bytes_used: 0 });
    let mut backend = MemoryBackend::new(archive.clone());
    let fetched = fetch_remaining(&reader, &mut backend, &mut left, &mut output).unwrap();
    assert_eq!(fetched, waited - first.chunks_used);
    assert!(left.is_empty());
    assert_eq!(output.into_vec(), target);
}

#[test]
fn a_corrupt_chunk_is_reported() {
    let target = compressible(5000);
    let cfg = config(HashKind::BuzHash);
    let archive = build_archive(&target, &cfg, 8, Compression::Zstd, 3).unwrap();
    let reader = ArchiveReader::parse(&archive).unwrap();
    let mut broken = archive.clone();
    let at = reader.chunk_data_offset() as usize;
    for b in broken[at..at + 4].iter_mut() {
        *b = 0;
    }
    let mut backend = MemoryBackend::new(broken);
    let e = clone_archive(&reader, &mut backend, &[]).err().unwrap();
    assert!(e.is_format());
    let plain = build_archive(&target, &cfg, 8, Compression::Identity, 0).unwrap();
    let reader = ArchiveReader::parse(&plain).unwrap();
    let location = ChunkLocation {
        offset: 0,
        stored_size: 10,
        raw_size: 11,
        compression: Compression::Identity,
    };
    let mut backend = MemoryBackend::new(plain);
    assert_eq!(
        reader.fetch_at(&mut backend, &location),
        Err(Error::Format(FormatError::SizeMismatch))
    );
    assert_eq!(
        ArchiveReader::unpack_chunk(&location, &[0; 11]),
        Ok(vec![0; 11])
    );
}

#[test]
fn a_small_archive_has_the_expected_bytes() {
    let cfg = ChunkerConfig {
        kind: HashKind::RollSum,
        window_size: 1,
        min_chunk_size: 4,
        max_chunk_size: 4,
        mask: 0,
    };
    let data = [1u8, 2, 3, 4, 1, 2, 3, 4, 5, 6, 7, 8];
    let archive = build_archive(&data, &cfg, 2, Compression::Identity, 0).unwrap();
    let mut expected: Vec<u8> = vec![0x42, 0x49, 0x54, 0x41, 1, 2, 0];
    expected.extend_from_slice(&[1, 0, 0, 0, 4, 0, 0, 0, 4, 0, 0, 0, 0, 0, 0, 0]);
    expected.extend_from_slice(&[58, 0, 0, 0, 0, 0, 0, 0]);
    expected.extend_from_slice(&[2, 0, 0, 0]);
    expected.extend_from_slice(&[164, 130, 4, 0, 0, 0, 0, 4, 0, 0, 0, 0, 0, 0, 0, 0, 0, 0, 0]);
    expected.extend_from_slice(&[214, 169, 4, 0, 0, 0, 0, 4, 0, 0, 0, 4, 0, 0, 0, 0, 0, 0, 0]);
    expected.extend_from_slice(&[3, 0, 0, 0, 0, 0, 0, 0, 0, 0, 0, 0, 1, 0, 0, 0]);
    expected.extend_from_slice(&[1, 2, 3, 4, 5, 6, 7, 8]);
    assert_eq!(archive, expected);
    let (out, stats) = clone_from_memory(&archive, &[5, 6, 7, 8]).unwrap();
    assert_eq!(out, data);
    assert_eq!(stats.seed, SeedStats { chunks_used: 1, bytes_used: 4 });
    assert_eq!(stats.chunks_fetched, 1);
}
