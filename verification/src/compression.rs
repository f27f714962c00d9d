//! Per-chunk compression: the identity codec, and zstd.

use crate::error::{Error, FormatError};
use crate::hashsum::bytes_equal;
use vstd::prelude::*;
use vstd::slice::slice_to_vec;

verus! {

/// How the bytes of a chunk are stored in an archive.
#[derive(Clone, Copy, Debug, PartialEq, Eq, Structural)]
pub enum Compression {
    /// As they are.
    Identity,
    /// As one zstd frame.
    Zstd,
}

/// The length of the longest chunk that is handed to the codec, and the most
/// that the codec is allowed to hand back.
pub const MAX_CODED_SIZE: usize = 0x7fff_ffff;

/// What `zstd::bulk::compress` makes of `data` at `level`; `None` where it
/// reports an error.
pub uninterp spec fn zstd_compressed(data: Seq<u8>, level: i32) -> Option<Seq<u8>>;

/// What `zstd::bulk::decompress` makes of `data` when allowed `capacity` bytes
/// of output; `None` where it reports an error.
pub uninterp spec fn zstd_decompressed(data: Seq<u8>, capacity: usize) -> Option<Seq<u8>>;

/// Calls `zstd::bulk::compress`. The contract names the outcome, a function of
/// the input bytes and the level; an error of the codec is the outcome `None`.
/// Nothing is claimed about what the compressed bytes are.
#[verifier::external_body]
fn zstd_compress(data: &[u8], level: i32) -> (r: Option<Vec<u8>>)
    ensures
        r is Some == zstd_compressed(data@, level) is Some,
        r matches Some(v) ==> v@ == zstd_compressed(data@, level)->0,
{
    match zstd::bulk::compress(data, level) {
        Ok(v) => Some(v),
        Err(_) => None,
    }
}

/// Calls `zstd::bulk::decompress`. The contract names the outcome, a function
/// of the input bytes and the capacity; an error of the codec is the outcome
/// `None`. Nothing is claimed about what the decompressed bytes are, nor about
/// how many there are. The capacity is bounded because the codec allocates up
/// to that many bytes before it decodes.
#[verifier::external_body]
fn zstd_decompress(data: &[u8], capacity: usize) -> (r: Option<Vec<u8>>)
    requires
        capacity <= MAX_CODED_SIZE,
    ensures
        r is Some == zstd_decompressed(data@, capacity) is Some,
        r matches Some(v) ==> v@ == zstd_decompressed(data@, capacity)->0,
{
    match zstd::bulk::decompress(data, capacity) {
        Ok(v) => Some(v),
        Err(_) => None,
    }
}

/// The bytes that a chunk stored as `data` under `kind` stands for, when the
/// chunk is declared to have `original_len` bytes: the decoded bytes if they
/// can be decoded and have that length. A length beyond what the codec is
/// trusted with is a mismatch.
pub open spec fn decompressed(data: Seq<u8>, kind: Compression, original_len: usize) -> Result<
    Seq<u8>,
    Error,
> {
    match kind {
        Compression::Identity => check_decoded(Some(data), original_len),
        Compression::Zstd => if original_len > MAX_CODED_SIZE {
            Err(Error::Format(FormatError::SizeMismatch))
        } else {
            check_decoded(zstd_decompressed(data, original_len), original_len)
        },
    }
}

/// The stored form of `data` under `kind` at `level`: for the identity codec
/// the bytes themselves; for zstd the frame that the codec makes, provided
/// that it decodes to `data` again. Data longer than the codec is trusted
/// with is too large for zstd.
pub open spec fn compressed(data: Seq<u8>, kind: Compression, level: i32) -> Result<
    Seq<u8>,
    Error,
> {
    match kind {
        Compression::Identity => Ok(data),
        Compression::Zstd => if data.len() > MAX_CODED_SIZE {
            Err(Error::TooLarge)
        } else {
            match zstd_compressed(data, level) {
                Some(frame) => if zstd_decompressed(frame, data.len() as usize) == Some(data) {
                    Ok(frame)
                } else {
                    Err(Error::Codec)
                },
                None => Err(Error::Codec),
            }
        },
    }
}

/// Whatever was stored can be read back: decoding the stored form of a chunk
/// under the same kind, with the chunk's length, gives the chunk.
pub proof fn lemma_round_trip(data: Seq<u8>, kind: Compression, level: i32)
    requires
        data.len() <= usize::MAX,
        compressed(data, kind, level) is Ok,
    ensures
        decompressed(compressed(data, kind, level)->Ok_0, kind, data.len() as usize) == Ok::<
            Seq<u8>,
            Error,
        >(data),
{
}

/// The identity codec stores every chunk, as it is.
pub proof fn lemma_identity_round_trip(data: Seq<u8>, level: i32)
    requires
        data.len() <= usize::MAX,
    ensures
        compressed(data, Compression::Identity, level) == Ok::<Seq<u8>, Error>(data),
        decompressed(data, Compression::Identity, data.len() as usize) == Ok::<Seq<u8>, Error>(data),
{
}

/// What a decoding attempt amounts to, given what the codec handed back:
/// bytes of the declared length are the chunk, bytes of another length are a
/// size mismatch, and no bytes at all are bad chunk data.
pub open spec fn check_decoded(decoded: Option<Seq<u8>>, original_len: usize) -> Result<
    Seq<u8>,
    Error,
> {
    match decoded {
        Some(out) => if out.len() == original_len {
            Ok(out)
        } else {
            Err(Error::Format(FormatError::SizeMismatch))
        },
        None => Err(Error::Format(FormatError::BadChunkData)),
    }
}

/// Judges what a codec handed back for a chunk declared to have
/// `original_len` bytes.
pub fn accept_decoded(decoded: Option<Vec<u8>>, original_len: usize) -> (r: Result<Vec<u8>, Error>)
    ensures
        match r {
            Ok(out) => decoded is Some && check_decoded(Some(decoded->0@), original_len) == Ok::<
                Seq<u8>,
                Error,
            >(out@),
            Err(e) => match decoded {
                Some(v) => check_decoded(Some(v@), original_len) == Err::<Seq<u8>, Error>(e),
                None => e == Error::Format(FormatError::BadChunkData),
            },
        },
{
    match decoded {
        Some(out) => {
            if out.len() == original_len {
                Ok(out)
            } else {
                Err(Error::Format(FormatError::SizeMismatch))
            }
        },
        None => Err(Error::Format(FormatError::BadChunkData)),
    }
}

/// Judges a frame that a codec made of `data`, given what the codec decoded
/// the frame to: the frame is kept if that is `data` again.
pub fn accept_frame(data: &[u8], frame: Vec<u8>, back: Option<Vec<u8>>) -> (r: Result<
    Vec<u8>,
    Error,
>)
    ensures
        match r {
            Ok(out) => out@ == frame@ && back is Some && back->0@ == data@,
            Err(e) => e == Error::Codec && !(back is Some && back->0@ == data@),
        },
{
    match back {
        Some(bytes) => {
            if bytes_equal(bytes.as_slice(), data) {
                Ok(frame)
            } else {
                Err(Error::Codec)
            }
        },
        None => Err(Error::Codec),
    }
}

/// Decodes a stored chunk and checks that it has the declared length.
pub fn decompress(data: &[u8], kind: Compression, original_len: usize) -> (r: Result<
    Vec<u8>,
    Error,
>)
    ensures
        match r {
            Ok(out) => decompressed(data@, kind, original_len) == Ok::<Seq<u8>, Error>(out@),
            Err(e) => decompressed(data@, kind, original_len) == Err::<Seq<u8>, Error>(e),
        },
{
    match kind {
        Compression::Identity => accept_decoded(Some(slice_to_vec(data)), original_len),
        Compression::Zstd => {
            if original_len > MAX_CODED_SIZE {
                Err(Error::Format(FormatError::SizeMismatch))
            } else {
                accept_decoded(zstd_decompress(data, original_len), original_len)
            }
        },
    }
}

/// Encodes a chunk for storage. A frame that the codec makes is kept only if
/// it decodes to the chunk again.
pub fn compress(data: &[u8], kind: Compression, level: i32) -> (r: Result<Vec<u8>, Error>)
    ensures
        match r {
            Ok(out) => compressed(data@, kind, level) == Ok::<Seq<u8>, Error>(out@),
            Err(e) => compressed(data@, kind, level) == Err::<Seq<u8>, Error>(e),
        },
{
    match kind {
        Compression::Identity => Ok(slice_to_vec(data)),
        Compression::Zstd => {
            if data.len() > MAX_CODED_SIZE {
                return Err(Error::TooLarge);
            }
            match zstd_compress(data, level) {
                Some(frame) => {
                    let back = zstd_decompress(frame.as_slice(), data.len());
                    accept_frame(data, frame, back)
                },
                None => Err(Error::Codec),
            }
        },
    }
}

} // verus!
