use bita::archive_reader::ArchiveReader;
use bita::chunk_dictionary::{ChunkDescriptor, ChunkDictionary};
use bita::chunk_location_map::{ChunkLocation, ChunkLocationMap};
use bita::chunker::ChunkerConfig;
use bita::compression::Compression;
use bita::config::{BaseConfig, CompressConfig, Config, UnpackConfig};
use bita::dictionary_format::{decode_dictionary, encode_dictionary};
use bita::error::{Error, FormatError};
use bita::hashsum::HashSum;
use bita::header::{decode_header, encode_header, Header, HEADER_SIZE, VERSION};
use bita::reader_backend::MemoryBackend;
use bita::rolling_hash::HashKind;

fn header() -> Header {
    Header {
        hash_length: 4,
        chunker: ChunkerConfig {
            kind: HashKind::BuzHash,
            window_size: 16,
            min_chunk_size: 0x0102,
            max_chunk_size: 0x01020304,
            mask: 0xff,
        },
        dictionary_size: 8,
    }
}

fn descriptor(hash: &[u8], raw_size: u32, offset: u64) -> ChunkDescriptor {
    ChunkDescriptor {
        hash: HashSum::from_slice(hash),
        raw_size,
        compression: Compression::Identity,
        stored_size: raw_size,
        offset,
    }
}

fn dictionary() -> ChunkDictionary {
    ChunkDictionary {
        descriptors: vec![
            descriptor(&[1, 1, 1, 1], 10, 0),
            descriptor(&[2, 2, 2, 2], 20, 10),
            descriptor(&[3, 3, 3, 3], 5, 30),
        ],
        layout: vec![0, 1, 0, 2, 1],
    }
}

fn same_dictionary(a: &ChunkDictionary, b: &ChunkDictionary) -> bool {
    a.layout == b.layout
        && a.descriptors.len() == b.descriptors.len()
        && a.descriptors.iter().zip(b.descriptors.iter()).all(|(x, y)| {
            x.hash == y.hash
                && x.raw_size == y.raw_size
                && x.compression == y.compression
                && x.stored_size == y.stored_size
                && x.offset == y.offset
        })
}

#[test]
fn header_has_the_expected_bytes() {
    let bytes = encode_header(&header());
    assert_eq!(bytes.len(), HEADER_SIZE);
    assert_eq!(
        bytes,
        vec![
            0x42, 0x49, 0x54, 0x41, 1, 4, 1, 16, 0, 0, 0, 2, 1, 0, 0, 4, 3, 2, 1, 0xff, 0, 0, 0,
            8, 0, 0, 0, 0, 0, 0, 0
        ]
    );
}

#[test]
fn header_survives_encoding() {
    let mut bytes = encode_header(&header());
    assert_eq!(decode_header(&bytes), Ok(header()));
    bytes.extend_from_slice(&[9, 9, 9]);
    assert_eq!(decode_header(&bytes), Ok(header()));
    let mut other = header();
    other.chunker.kind = HashKind::RollSum;
    other.hash_length = 64;
    other.dictionary_size = u64::MAX;
    assert_eq!(decode_header(&encode_header(&other)), Ok(other));
}

#[test]
fn short_input_is_truncated() {
    assert_eq!(decode_header(&[]), Err(Error::Format(FormatError::Truncated)));
    assert_eq!(decode_header(&[0x42, 0x49, 0x54, 0x41]), Err(Error::Format(FormatError::Truncated)));
    let bytes = encode_header(&header());
    assert_eq!(decode_header(&bytes[..30]), Err(Error::Format(FormatError::Truncated)));
}

#[test]
fn wrong_magic_is_refused() {
    let mut bytes = encode_header(&header());
    bytes[2] = 0x55;
    assert_eq!(decode_header(&bytes), Err(Error::Format(FormatError::BadMagic)));
    assert_eq!(decode_header(&[0, 0, 0, 0, 1]), Err(Error::Format(FormatError::BadMagic)));
}

#[test]
fn unknown_version_is_refused_as_malformed() {
    let mut bytes = encode_header(&header());
    bytes.extend_from_slice(&encode_dictionary(&ChunkDictionary {
        descriptors: vec![],
        layout: vec![],
    }));
    assert!(ArchiveReader::parse(&bytes).is_ok());
    for version in [0u8, 2, 3, 255] {
        assert_ne!(version, VERSION);
        bytes[4] = version;
        let e = decode_header(&bytes).err().unwrap();
        assert_eq!(e, Error::Format(FormatError::UnsupportedVersion));
        assert!(e.is_format());
        assert_eq!(
            ArchiveReader::parse(&bytes).err(),
            Some(Error::Format(FormatError::UnsupportedVersion))
        );
        assert_eq!(
            bita::reconstruct::clone_from_memory(&bytes, &[]).err(),
            Some(Error::Format(FormatError::UnsupportedVersion))
        );
    }
    assert_eq!(
        decode_header(&[0x42, 0x49, 0x54, 0x41, 7]),
        Err(Error::Format(FormatError::UnsupportedVersion))
    );
}

#[test]
fn header_fields_out_of_range_are_refused() {
    let bad = Err(Error::Format(FormatError::BadParameters));
    let good = encode_header(&header());
    let mut bytes = good.clone();
    bytes[5] = 0;
    assert_eq!(decode_header(&bytes), bad);
    bytes[5] = 65;
    assert_eq!(decode_header(&bytes), bad);
    let mut bytes = good.clone();
    bytes[6] = 2;
    assert_eq!(decode_header(&bytes), bad);
    let mut bytes = good.clone();
    bytes[7] = 0;
    assert_eq!(decode_header(&bytes), bad);
    let mut bytes = good.clone();
    bytes[15..19].copy_from_slice(&[1, 0, 0, 0]);
    assert_eq!(decode_header(&bytes), bad);
}

#[test]
fn only_format_errors_are_format_errors() {
    assert!(Error::Format(FormatError::Truncated).is_format());
    assert!(!Error::Io.is_format());
    assert!(!Error::MissingChunk.is_format());
    assert!(!Error::Codec.is_format());
    assert!(!Error::HashCollision.is_format());
}

#[test]
fn dictionary_has_the_expected_bytes() {
    let d = ChunkDictionary {
        descriptors: vec![ChunkDescriptor {
            hash: HashSum::from_slice(&[0xaa, 0xbb]),
            raw_size: 0x0102,
            compression: Compression::Zstd,
            stored_size: 3,
            offset: 0x0a0b,
        }],
        layout: vec![0, 0],
    };
    assert_eq!(
        encode_dictionary(&d),
        vec![
            1, 0, 0, 0, 0xaa, 0xbb, 2, 1, 0, 0, 1, 3, 0, 0, 0, 0x0b, 0x0a, 0, 0, 0, 0, 0, 0, 2, 0,
            0, 0, 0, 0, 0, 0, 0, 0, 0, 0
        ]
    );
}

#[test]
fn dictionary_survives_encoding() {
    let d = dictionary();
    let bytes = encode_dictionary(&d);
    assert_eq!(bytes.len(), 4 + 3 * (4 + 17) + 4 + 5 * 4);
    let back = decode_dictionary(&bytes, 4).unwrap();
    assert!(same_dictionary(&d, &back));
    let empty = ChunkDictionary { descriptors: vec![], layout: vec![] };
    let back = decode_dictionary(&encode_dictionary(&empty), 7).unwrap();
    assert!(same_dictionary(&empty, &back));
}

#[test]
fn short_dictionary_is_truncated() {
    let bytes = encode_dictionary(&dictionary());
    let t = Some(Error::Format(FormatError::Truncated));
    assert_eq!(decode_dictionary(&[], 4).err(), t);
    assert_eq!(decode_dictionary(&[1, 0, 0], 4).err(), t);
    assert_eq!(decode_dictionary(&bytes[..40], 4).err(), t);
    assert_eq!(decode_dictionary(&bytes[..4 + 63 + 3], 4).err(), t);
    assert_eq!(decode_dictionary(&[0xff, 0xff, 0xff, 0xff, 0, 0, 0, 0], 4).err(), t);
}

#[test]
fn dictionary_of_the_wrong_length_is_refused() {
    let mut bytes = encode_dictionary(&dictionary());
    let e = Some(Error::Format(FormatError::BadDictionaryLength));
    bytes.push(0);
    assert_eq!(decode_dictionary(&bytes, 4).err(), e);
    bytes.pop();
    bytes.pop();
    assert_eq!(decode_dictionary(&bytes, 4).err(), e);
    let empty = ChunkDictionary { descriptors: vec![], layout: vec![7] };
    let mut bytes = encode_dictionary(&empty);
    bytes[4] = 2;
    assert_eq!(decode_dictionary(&bytes, 4).err(), e);
}

#[test]
fn dictionary_read_with_another_hash_length_is_refused() {
    let e = decode_dictionary(&encode_dictionary(&dictionary()), 5).err().unwrap();
    assert!(e.is_format());
}

#[test]
fn unknown_compression_is_refused() {
    let mut bytes = encode_dictionary(&dictionary());
    bytes[4 + 21 + 4 + 4] = 2;
    assert_eq!(
        decode_dictionary(&bytes, 4).err(),
        Some(Error::Format(FormatError::UnknownCompression))
    );
}

#[test]
fn reader_refuses_a_layout_without_descriptor() {
    let mut d = dictionary();
    d.layout.push(3);
    assert_eq!(d.check_layout(), Err(Error::MissingChunk));
    assert_eq!(ArchiveReader::new(header(), d).err(), Some(Error::MissingChunk));
}

#[test]
fn reader_refuses_a_hash_that_occurs_twice() {
    let mut d = dictionary();
    d.descriptors.push(descriptor(&[2, 2, 2, 2], 1, 35));
    assert_eq!(
        ChunkLocationMap::from_dictionary(&d).err(),
        Some(Error::Format(FormatError::DuplicateChunk))
    );
    assert_eq!(
        ArchiveReader::new(header(), d).err(),
        Some(Error::Format(FormatError::DuplicateChunk))
    );
}

#[test]
fn reader_refuses_hashes_of_another_length() {
    let mut h = header();
    h.hash_length = 5;
    assert_eq!(
        ArchiveReader::new(h, dictionary()).err(),
        Some(Error::Format(FormatError::BadParameters))
    );
    let mut h = header();
    h.chunker.window_size = 0;
    assert_eq!(
        ArchiveReader::new(h, dictionary()).err(),
        Some(Error::Format(FormatError::BadParameters))
    );
    let mut h = header();
    h.dictionary_size = u64::MAX;
    assert_eq!(
        ArchiveReader::new(h, dictionary()).err(),
        Some(Error::Format(FormatError::BadParameters))
    );
}

#[test]
fn layout_adds_up_to_the_output_length() {
    assert_eq!(dictionary().check_layout(), Ok(10 + 20 + 10 + 5 + 20));
    let reader = ArchiveReader::new(header(), dictionary()).unwrap();
    assert_eq!(reader.total_size(), 65);
    assert_eq!(reader.chunk_hash_length(), 4);
    assert_eq!(reader.chunker_config(), header().chunker);
    assert_eq!(reader.chunk_data_offset(), HEADER_SIZE as u64 + 8);
    assert_eq!(reader.chunk_count(), 3);
    assert!(*reader.chunk_hash(1) == HashSum::from_slice(&[2, 2, 2, 2]));
}

#[test]
fn source_index_holds_the_starts_of_the_segments() {
    let reader = ArchiveReader::new(header(), dictionary()).unwrap();
    let mut index = reader.source_index();
    assert_eq!(index.len(), 3);
    assert_eq!(index.remove(&HashSum::from_slice(&[1, 1, 1, 1])), Some(vec![0, 30]));
    assert_eq!(index.remove(&HashSum::from_slice(&[2, 2, 2, 2])), Some(vec![10, 45]));
    assert_eq!(index.remove(&HashSum::from_slice(&[3, 3, 3, 3])), Some(vec![40]));
    assert!(index.is_empty());
    let again = reader.source_index();
    assert_eq!(again.len(), 3);
}

#[test]
fn locations_are_those_of_the_descriptors() {
    let map = ChunkLocationMap::from_dictionary(&dictionary()).unwrap();
    assert_eq!(
        map.find(&HashSum::from_slice(&[2, 2, 2, 2])),
        Some(ChunkLocation {
            offset: 10,
            stored_size: 20,
            raw_size: 20,
            compression: Compression::Identity
        })
    );
    assert_eq!(map.find(&HashSum::from_slice(&[2, 2, 2])), None);
    let reader = ArchiveReader::new(header(), dictionary()).unwrap();
    assert_eq!(reader.locate(&HashSum::from_slice(&[3, 3, 3, 3])).unwrap().offset, 30);
    assert_eq!(reader.locate(&HashSum::from_slice(&[4, 4, 4, 4])), None);
}

#[test]
fn fetching_an_unknown_hash_is_a_missing_chunk() {
    let reader = ArchiveReader::new(header(), dictionary()).unwrap();
    let mut backend = MemoryBackend::new(vec![0; 200]);
    assert_eq!(
        reader.fetch_chunk(&mut backend, &HashSum::from_slice(&[9, 9, 9, 9])),
        Err(Error::MissingChunk)
    );
}

#[test]
fn fetching_reads_the_stored_extent() {
    let reader = ArchiveReader::new(header(), dictionary()).unwrap();
    let mut data = vec![0u8; 31 + 8];
    data.extend((0u8..35).collect::<Vec<u8>>());
    let mut backend = MemoryBackend::new(data);
    assert_eq!(
        reader.fetch_chunk(&mut backend, &HashSum::from_slice(&[2, 2, 2, 2])),
        Ok((10u8..30).collect::<Vec<u8>>())
    );
    assert_eq!(
        reader.fetch_chunk(&mut backend, &HashSum::from_slice(&[3, 3, 3, 3])),
        Ok(vec![30, 31, 32, 33, 34])
    );
    let mut short = MemoryBackend::new(vec![0u8; 31 + 8 + 34]);
    assert_eq!(
        reader.fetch_chunk(&mut short, &HashSum::from_slice(&[3, 3, 3, 3])),
        Err(Error::Io)
    );
    assert!(reader.fetch_chunk(&mut short, &HashSum::from_slice(&[1, 1, 1, 1])).is_ok());
}

#[test]
fn a_truncated_archive_does_not_open() {
    let d = encode_dictionary(&dictionary());
    let mut h = header();
    h.dictionary_size = d.len() as u64;
    let mut bytes = encode_header(&h);
    bytes.extend_from_slice(&d);
    assert!(ArchiveReader::parse(&bytes).is_ok());
    bytes.pop();
    assert_eq!(ArchiveReader::parse(&bytes).err(), Some(Error::Format(FormatError::Truncated)));
    h.dictionary_size = d.len() as u64 - 1;
    let mut bytes = encode_header(&h);
    bytes.extend_from_slice(&d);
    assert_eq!(
        ArchiveReader::parse(&bytes).err(),
        Some(Error::Format(FormatError::BadDictionaryLength))
    );
}

#[test]
fn settings_keep_what_they_are_given() {
    let c = CompressConfig {
        base: BaseConfig { force_create: true },
        input: String::from("in"),
        output: String::from("out"),
        temp_file: String::from("tmp"),
        hash_length: 16,
    };
    assert_eq!(c.header_hash_length(), Ok(16));
    assert!(c.base.force_create);
    let config = Config::Compress(c);
    assert!(matches!(config, Config::Compress(ref x) if x.input == "in" && x.output == "out"));
    let u = Config::Unpack(UnpackConfig { base: BaseConfig { force_create: false } });
    assert!(matches!(u, Config::Unpack(ref x) if !x.base.force_create));
    assert!(format!("{:?}", u).contains("Unpack"));
}

#[test]
fn hash_length_setting_is_judged() {
    let make = |hash_length: usize| CompressConfig {
        base: BaseConfig { force_create: false },
        input: String::new(),
        output: String::new(),
        temp_file: String::new(),
        hash_length,
    };
    assert_eq!(make(0).header_hash_length(), Err(Error::BadConfig));
    assert_eq!(make(1).header_hash_length(), Ok(1));
    assert_eq!(make(64).header_hash_length(), Ok(64));
    assert_eq!(make(65).header_hash_length(), Err(Error::BadConfig));
    assert_eq!(make(300).header_hash_length(), Err(Error::BadConfig));
}
