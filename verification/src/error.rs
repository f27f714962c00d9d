use vstd::prelude::*;

verus! {

/// Why a byte sequence is not a well-formed archive, or why stored data
/// contradicts the archive's own dictionary.
#[derive(Debug, Clone, Copy, PartialEq, Eq, Structural)]
pub enum FormatError {
    /// The input ends before the structure it announces.
    Truncated,
    /// The first bytes are not the archive magic.
    BadMagic,
    /// The version byte names a format this library does not read.
    UnsupportedVersion,
    /// A header field holds a value outside its allowed range.
    BadParameters,
    /// The dictionary length prefix disagrees with the dictionary it precedes.
    BadDictionaryLength,
    /// A descriptor names a compression kind that is not known.
    UnknownCompression,
    /// Two descriptors of one dictionary carry the same hash.
    DuplicateChunk,
    /// Stored chunk data could not be decoded.
    BadChunkData,
    /// A chunk decoded to a length other than the one its descriptor declares.
    SizeMismatch,
}

/// The single failure type of every fallible operation of the library.
#[derive(Debug, Clone, Copy, PartialEq, Eq, Structural)]
pub enum Error {
    /// A read, write or fetch on an underlying resource failed.
    Io,
    /// The archive is malformed or corrupt.
    Format(FormatError),
    /// The layout refers to a chunk for which the dictionary has no descriptor,
    /// or a claimed hash has no recorded offsets.
    MissingChunk,
    /// Two different chunks of one input share a truncated hash.
    HashCollision,
    /// A size or count exceeds what the archive format can record, what the
    /// codec is trusted with, or what can be held in memory.
    TooLarge,
    /// The chunking parameters or the hash length given for a new archive are
    /// out of range.
    BadConfig,
    /// The codec failed to encode a chunk, or made a frame that does not decode
    /// to the chunk.
    Codec,
}

impl Error {
    /// Whether this is a failure of the format/corruption kind.
    pub fn is_format(&self) -> (r: bool)
        ensures
            r == (*self matches Error::Format(_)),
    {
        match self {
            Error::Format(_) => true,
            _ => false,
        }
    }
}

} // verus!
