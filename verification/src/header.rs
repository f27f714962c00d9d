//! The fixed-size header at the start of an archive.

use crate::bytes::append_bytes;
use crate::chunker::ChunkerConfig;
use crate::error::{Error, FormatError};
use crate::hashsum::DIGEST_SIZE;
use crate::rolling_hash::HashKind;
use vstd::bytes::{
    lemma_auto_spec_u32_to_from_le_bytes, lemma_auto_spec_u64_to_from_le_bytes,
    spec_u32_from_le_bytes, spec_u32_to_le_bytes, spec_u64_from_le_bytes, spec_u64_to_le_bytes,
    u32_from_le_bytes, u32_to_le_bytes, u64_from_le_bytes, u64_to_le_bytes,
};
use vstd::prelude::*;
use vstd::slice::slice_subrange;

verus! {

/// The number of bytes of an encoded header.
pub const HEADER_SIZE: usize = 31;

/// The format version that this library writes and reads.
pub const VERSION: u8 = 1;

/// The four bytes that every archive begins with.
pub open spec fn magic() -> Seq<u8> {
    seq![0x42u8, 0x49u8, 0x54u8, 0x41u8]
}

/// What the header of an archive records.
#[derive(Clone, Copy, Debug, PartialEq, Eq, Structural)]
pub struct Header {
    /// The number of bytes that chunk hashes are cut to.
    pub hash_length: u8,
    /// The chunking parameters that the archive was built with.
    pub chunker: ChunkerConfig,
    /// The number of bytes of the encoded dictionary that follows the header.
    pub dictionary_size: u64,
}

impl Header {
    /// The header's fields are in range: the hash length is between one byte
    /// and a full digest, and the chunking parameters make sense.
    pub open spec fn wf(&self) -> bool {
        &&& 1 <= self.hash_length <= DIGEST_SIZE
        &&& self.chunker.wf()
    }
}

/// The byte that stands for a rolling hash algorithm.
pub open spec fn kind_code(kind: HashKind) -> u8 {
    match kind {
        HashKind::RollSum => 0,
        HashKind::BuzHash => 1,
    }
}

/// The algorithm that a byte stands for, for the bytes 0 and 1.
pub open spec fn kind_of_code(code: u8) -> HashKind {
    if code == 0 {
        HashKind::RollSum
    } else {
        HashKind::BuzHash
    }
}

/// The encoded form of a header.
pub open spec fn encoded_header(h: Header) -> Seq<u8> {
    magic() + seq![VERSION, h.hash_length, kind_code(h.chunker.kind)] + spec_u32_to_le_bytes(
        h.chunker.window_size,
    ) + spec_u32_to_le_bytes(h.chunker.min_chunk_size) + spec_u32_to_le_bytes(
        h.chunker.max_chunk_size,
    ) + spec_u32_to_le_bytes(h.chunker.mask) + spec_u64_to_le_bytes(h.dictionary_size)
}

/// The fields that a byte string of at least header size holds, read without
/// judging them.
pub open spec fn header_fields(b: Seq<u8>) -> Header {
    Header {
        hash_length: b[5],
        chunker: ChunkerConfig {
            kind: kind_of_code(b[6]),
            window_size: spec_u32_from_le_bytes(b.subrange(7, 11)),
            min_chunk_size: spec_u32_from_le_bytes(b.subrange(11, 15)),
            max_chunk_size: spec_u32_from_le_bytes(b.subrange(15, 19)),
            mask: spec_u32_from_le_bytes(b.subrange(19, 23)),
        },
        dictionary_size: spec_u64_from_le_bytes(b.subrange(23, 31)),
    }
}

/// The header that a byte string begins with, or why it begins with none:
/// too short to tell, not the magic, a version other than the one known, too
/// short for a header, or fields out of range.
pub open spec fn decoded_header(b: Seq<u8>) -> Result<Header, Error> {
    if b.len() < 5 {
        Err(Error::Format(FormatError::Truncated))
    } else if b.subrange(0, 4) != magic() {
        Err(Error::Format(FormatError::BadMagic))
    } else if b[4] != VERSION {
        Err(Error::Format(FormatError::UnsupportedVersion))
    } else if b.len() < HEADER_SIZE {
        Err(Error::Format(FormatError::Truncated))
    } else if b[6] > 1 || !header_fields(b).wf() {
        Err(Error::Format(FormatError::BadParameters))
    } else {
        Ok(header_fields(b))
    }
}

/// An encoded header has the fixed size.
pub(crate) proof fn lemma_encoded_header_len(h: Header)
    ensures
        encoded_header(h).len() == HEADER_SIZE,
{
    lemma_auto_spec_u32_to_from_le_bytes();
    lemma_auto_spec_u64_to_from_le_bytes();
}

/// A header in range that is encoded and decoded again is the same header,
/// whatever follows it.
pub proof fn lemma_header_round_trip(h: Header, rest: Seq<u8>)
    requires
        h.wf(),
    ensures
        decoded_header(encoded_header(h) + rest) == Ok::<Header, Error>(h),
{
    lemma_auto_spec_u32_to_from_le_bytes();
    lemma_auto_spec_u64_to_from_le_bytes();
    let e = encoded_header(h);
    let b = e + rest;
    let c = h.chunker;
    assert(b.subrange(0, 4) =~= magic());
    assert(b.subrange(7, 11) =~= spec_u32_to_le_bytes(c.window_size));
    assert(b.subrange(11, 15) =~= spec_u32_to_le_bytes(c.min_chunk_size));
    assert(b.subrange(15, 19) =~= spec_u32_to_le_bytes(c.max_chunk_size));
    assert(b.subrange(19, 23) =~= spec_u32_to_le_bytes(c.mask));
    assert(b.subrange(23, 31) =~= spec_u64_to_le_bytes(h.dictionary_size));
    assert(b[4] == VERSION);
    assert(b[5] == h.hash_length);
    assert(b[6] == kind_code(c.kind));
    assert(kind_of_code(kind_code(c.kind)) == c.kind);
    assert(header_fields(b).chunker == c);
    assert(header_fields(b) == h);
}

/// Encodes a header.
pub fn encode_header(h: &Header) -> (out: Vec<u8>)
    ensures
        out@ == encoded_header(*h),
        out@.len() == HEADER_SIZE,
{
    let mut out: Vec<u8> = Vec::new();
    out.push(0x42);
    out.push(0x49);
    out.push(0x54);
    out.push(0x41);
    out.push(VERSION);
    out.push(h.hash_length);
    out.push(
        match h.chunker.kind {
            HashKind::RollSum => 0,
            HashKind::BuzHash => 1,
        },
    );
    assert(out@ =~= magic() + seq![VERSION, h.hash_length, kind_code(h.chunker.kind)]);
    append_bytes(&mut out, u32_to_le_bytes(h.chunker.window_size).as_slice());
    append_bytes(&mut out, u32_to_le_bytes(h.chunker.min_chunk_size).as_slice());
    append_bytes(&mut out, u32_to_le_bytes(h.chunker.max_chunk_size).as_slice());
    append_bytes(&mut out, u32_to_le_bytes(h.chunker.mask).as_slice());
    append_bytes(&mut out, u64_to_le_bytes(h.dictionary_size).as_slice());
    proof {
        lemma_encoded_header_len(*h);
    }
    out
}

/// Decodes the header that `bytes` begins with.
pub fn decode_header(bytes: &[u8]) -> (r: Result<Header, Error>)
    ensures
        r == decoded_header(bytes@),
{
    if bytes.len() < 5 {
        return Err(Error::Format(FormatError::Truncated));
    }
    if bytes[0] != 0x42 || bytes[1] != 0x49 || bytes[2] != 0x54 || bytes[3] != 0x41 {
        assert(bytes@.subrange(0, 4)[0] == bytes@[0]);
        assert(bytes@.subrange(0, 4)[1] == bytes@[1]);
        assert(bytes@.subrange(0, 4)[2] == bytes@[2]);
        assert(bytes@.subrange(0, 4)[3] == bytes@[3]);
        return Err(Error::Format(FormatError::BadMagic));
    }
    assert(bytes@.subrange(0, 4) =~= magic());
    if bytes[4] != VERSION {
        return Err(Error::Format(FormatError::UnsupportedVersion));
    }
    if bytes.len() < HEADER_SIZE {
        return Err(Error::Format(FormatError::Truncated));
    }
    if bytes[6] > 1 {
        return Err(Error::Format(FormatError::BadParameters));
    }
    let kind = if bytes[6] == 0 {
        HashKind::RollSum
    } else {
        HashKind::BuzHash
    };
    let header = Header {
        hash_length: bytes[5],
        chunker: ChunkerConfig {
            kind,
            window_size: u32_from_le_bytes(slice_subrange(bytes, 7, 11)),
            min_chunk_size: u32_from_le_bytes(slice_subrange(bytes, 11, 15)),
            max_chunk_size: u32_from_le_bytes(slice_subrange(bytes, 15, 19)),
            mask: u32_from_le_bytes(slice_subrange(bytes, 19, 23)),
        },
        dictionary_size: u64_from_le_bytes(slice_subrange(bytes, 23, 31)),
    };
    assert(header == header_fields(bytes@));
    if header.hash_length < 1 || header.hash_length as usize > DIGEST_SIZE
        || !header.chunker.is_valid() {
        return Err(Error::Format(FormatError::BadParameters));
    }
    Ok(header)
}

} // verus!
