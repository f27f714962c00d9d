//! Content-defined chunking and deduplicated archives for binary delta
//! transfer.
//!
//! A stream is cut into chunks where a rolling hash of its most recent bytes
//! passes a mask test (`rolling_hash`, `rollsum`, `buzhash`, `chunker`). A
//! chunk is known by a digest of its bytes (`hashsum`). An archive stores
//! every distinct chunk once, behind a header and a dictionary that says how
//! the chunks tile the stream (`header`, `chunk_dictionary`,
//! `dictionary_format`, `compression`, `archive`). To reconstruct the stream,
//! the dictionary is turned into a work list of offsets by chunk hash
//! (`chunk_index`, `chunk_location_map`, `archive_reader`); chunks that are
//! found in data already at hand are placed first (`seed_input`), and the rest
//! is fetched from the archive (`reader_backend`, `reconstruct`, `output`).
//! `round_trip` states what building and reconstructing guarantee together.

pub mod archive;
pub mod archive_reader;
pub mod buzhash;
pub mod bytes;
pub mod chunk_dictionary;
pub mod chunk_index;
pub mod chunk_location_map;
pub mod chunker;
pub mod compression;
pub mod config;
pub mod dictionary_format;
pub mod digest_table;
pub mod error;
pub mod hashsum;
pub mod header;
pub mod layout;
pub mod output;
pub mod reader_backend;
pub mod reconstruct;
pub mod rolling_hash;
pub mod rollsum;
pub mod round_trip;
pub mod seed_input;
