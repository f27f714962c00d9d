//! An opened archive: its header, its dictionary and the locations of its
//! chunks, checked once and read-only from then on.

use crate::chunk_dictionary::{ChunkDictionary, DictionaryView};
use crate::chunk_index::ChunkIndex;
use crate::chunk_location_map::{locates, ChunkLocation, ChunkLocationMap};
use crate::chunker::ChunkerConfig;
use crate::compression::{decompress, decompressed};
use crate::dictionary_format::{decode_dictionary, decoded_dictionary, hashes_have_length};
use crate::error::{Error, FormatError};
use crate::hashsum::HashSum;
use crate::header::{decode_header, decoded_header, Header, HEADER_SIZE};
use crate::reader_backend::ReaderBackend;
use vstd::prelude::*;
use vstd::slice::slice_subrange;

verus! {

/// What checking a header against a dictionary gives: the length of the
/// output, or the reason why the two cannot be used. The header's fields must
/// be in range and the chunk data must begin at an offset that 64 bits can
/// hold; every hash must have the header's length; the layout must name
/// descriptors only and add up to a length that 64 bits can hold; and no hash
/// may occur twice.
pub open spec fn validated(header: Header, dv: DictionaryView) -> Result<u64, Error> {
    if !header.wf() || HEADER_SIZE + header.dictionary_size > u64::MAX || !hashes_have_length(
        dv.descriptors,
        header.hash_length as nat,
    ) {
        Err(Error::Format(FormatError::BadParameters))
    } else {
        match dv.checked_size() {
            Err(e) => Err(e),
            Ok(total) => if !dv.distinct() {
                Err(Error::Format(FormatError::DuplicateChunk))
            } else {
                Ok(total)
            },
        }
    }
}

/// The header and the dictionary that the bytes `b` begin with, or why they
/// do not begin a usable archive.
pub open spec fn opened(b: Seq<u8>) -> Result<(Header, DictionaryView), Error> {
    match decoded_header(b) {
        Err(e) => Err(e),
        Ok(h) => if b.len() < HEADER_SIZE + h.dictionary_size {
            Err(Error::Format(FormatError::Truncated))
        } else {
            match decoded_dictionary(
                b.subrange(HEADER_SIZE as int, HEADER_SIZE + h.dictionary_size),
                h.hash_length as nat,
            ) {
                Err(e) => Err(e),
                Ok(dv) => match validated(h, dv) {
                    Err(e) => Err(e),
                    Ok(_) => Ok((h, dv)),
                },
            }
        },
    }
}

/// Bytes that begin with the magic and then name a version other than the
/// known one do not open: they are refused as malformed, for that reason.
pub proof fn lemma_unknown_version_refused(b: Seq<u8>)
    requires
        b.len() >= 5,
        b.subrange(0, 4) == crate::header::magic(),
        b[4] != crate::header::VERSION,
    ensures
        opened(b) == Err::<(Header, DictionaryView), Error>(
            Error::Format(FormatError::UnsupportedVersion),
        ),
{
}

/// Where the stored form of a chunk begins in an archive with this header.
pub open spec fn chunk_start(header: Header, location: ChunkLocation) -> int {
    HEADER_SIZE + header.dictionary_size + location.offset
}

/// The outcome of fetching a chunk through a backend, given what the read
/// came back with: a failed read is an I/O failure; bytes are decoded and
/// checked against the declared length.
pub open spec fn unpacked(read: Result<Seq<u8>, Error>, location: ChunkLocation) -> Result<
    Seq<u8>,
    Error,
> {
    match read {
        Ok(stored) => decompressed(stored, location.compression, location.raw_size as usize),
        Err(e) => Err(e),
    }
}

/// An archive that has been opened.
pub struct ArchiveReader {
    header: Header,
    dictionary: ChunkDictionary,
    locations: ChunkLocationMap,
    total: u64,
}

impl ArchiveReader {
    /// The invariant: header and dictionary have passed the check, and the
    /// locations are those of the dictionary.
    pub closed spec fn wf(&self) -> bool {
        &&& validated(self.header, self.dictionary@) == Ok::<u64, Error>(self.total)
        &&& self.locations.wf()
        &&& locates(self.locations@, self.dictionary@.descriptors)
    }

    /// The archive's header.
    pub closed spec fn header(&self) -> Header {
        self.header
    }

    /// The archive's dictionary.
    pub closed spec fn dictionary(&self) -> DictionaryView {
        self.dictionary@
    }

    /// The locations of the archive's chunks.
    pub closed spec fn locations(&self) -> Map<Seq<u8>, ChunkLocation> {
        self.locations@
    }

    /// What the invariant says in terms of the header and the dictionary.
    pub proof fn lemma_wf(&self)
        requires
            self.wf(),
        ensures
            validated(self.header(), self.dictionary()) is Ok,
            self.header().wf(),
            self.dictionary().wf(),
            hashes_have_length(self.dictionary().descriptors, self.header().hash_length as nat),
            locates(self.locations(), self.dictionary().descriptors),
    {
    }

    /// Checks a header and a dictionary against each other and makes the
    /// reader of their archive.
    pub fn new(header: Header, dictionary: ChunkDictionary) -> (r: Result<Self, Error>)
        ensures
            match r {
                Ok(a) => a.wf() && a.header() == header && a.dictionary() == dictionary@
                    && validated(header, dictionary@) is Ok,
                Err(e) => validated(header, dictionary@) == Err::<u64, Error>(e),
            },
    {
        let ghost dv = dictionary@;
        if header.hash_length < 1 || header.hash_length as usize > crate::hashsum::DIGEST_SIZE
            || !header.chunker.is_valid() {
            return Err(Error::Format(FormatError::BadParameters));
        }
        if header.dictionary_size > u64::MAX - HEADER_SIZE as u64 {
            return Err(Error::Format(FormatError::BadParameters));
        }
        let mut i: usize = 0;
        while i < dictionary.descriptors.len()
            invariant
                i <= dictionary.descriptors@.len(),
                dv == dictionary@,
                forall|j: int|
                    0 <= j < i ==> (#[trigger] dv.descriptors[j]).hash.len() == header.hash_length,
            decreases dictionary.descriptors@.len() - i,
        {
            if dictionary.descriptors[i].hash.len() != header.hash_length as usize {
                assert(dv.descriptors[i as int].hash.len() != header.hash_length);
                return Err(Error::Format(FormatError::BadParameters));
            }
            i += 1;
        }
        let total = match dictionary.check_layout() {
            Ok(total) => total,
            Err(e) => {
                return Err(e);
            },
        };
        let locations = match ChunkLocationMap::from_dictionary(&dictionary) {
            Ok(m) => m,
            Err(e) => {
                return Err(e);
            },
        };
        Ok(ArchiveReader { header, dictionary, locations, total })
    }

    /// Opens the archive that `head` begins with. `head` must reach at least
    /// to the end of the dictionary.
    pub fn parse(head: &[u8]) -> (r: Result<Self, Error>)
        ensures
            match r {
                Ok(a) => a.wf() && opened(head@) == Ok::<(Header, DictionaryView), Error>(
                    (a.header(), a.dictionary()),
                ),
                Err(e) => opened(head@) == Err::<(Header, DictionaryView), Error>(e),
            },
    {
        let header = match decode_header(head) {
            Ok(h) => h,
            Err(e) => {
                return Err(e);
            },
        };
        let available = head.len() - HEADER_SIZE;
        if header.dictionary_size > available as u64 {
            return Err(Error::Format(FormatError::Truncated));
        }
        let end = HEADER_SIZE + header.dictionary_size as usize;
        let dictionary = match decode_dictionary(
            slice_subrange(head, HEADER_SIZE, end),
            header.hash_length,
        ) {
            Ok(d) => d,
            Err(e) => {
                return Err(e);
            },
        };
        ArchiveReader::new(header, dictionary)
    }

    /// The number of bytes that the archive's chunk hashes are cut to.
    pub fn chunk_hash_length(&self) -> (n: usize)
        ensures
            n == self.header().hash_length,
    {
        self.header.hash_length as usize
    }

    /// The chunking parameters that the archive was built with.
    pub fn chunker_config(&self) -> (cfg: ChunkerConfig)
        ensures
            cfg == self.header().chunker,
    {
        self.header.chunker
    }

    /// The length of the output that the archive reconstructs.
    pub fn total_size(&self) -> (n: u64)
        requires
            self.wf(),
        ensures
            n == self.dictionary().total_size(),
    {
        self.total
    }

    /// The offset in the archive at which the chunk data begins.
    pub fn chunk_data_offset(&self) -> (n: u64)
        requires
            self.wf(),
        ensures
            n == HEADER_SIZE + self.header().dictionary_size,
    {
        HEADER_SIZE as u64 + self.header.dictionary_size
    }

    /// The number of descriptors in the dictionary.
    pub fn chunk_count(&self) -> (n: usize)
        ensures
            n == self.dictionary().descriptors.len(),
    {
        self.dictionary.descriptors.len()
    }

    /// The hash of descriptor `d`.
    pub fn chunk_hash(&self, d: usize) -> (h: &HashSum)
        requires
            d < self.dictionary().descriptors.len(),
        ensures
            h@ == self.dictionary().descriptors[d as int].hash,
    {
        &self.dictionary.descriptors[d].hash
    }

    /// A fresh work list for one reconstruction: under each chunk hash the
    /// output offsets that the chunk fills.
    pub fn source_index(&self) -> (index: ChunkIndex)
        requires
            self.wf(),
        ensures
            index.wf(),
            self.dictionary().indexed_by(index@),
    {
        self.dictionary.source_index()
    }

    /// The location of the chunk with this hash, if the archive holds it.
    pub fn locate(&self, hash: &HashSum) -> (r: Option<ChunkLocation>)
        requires
            self.wf(),
        ensures
            r == if self.locations().dom().contains(hash@) {
                Some(self.locations()[hash@])
            } else {
                None::<ChunkLocation>
            },
    {
        self.locations.find(hash)
    }

    /// Turns the stored bytes of a chunk into the chunk: decodes them and
    /// checks the length.
    pub fn unpack_chunk(location: &ChunkLocation, stored: &[u8]) -> (r: Result<Vec<u8>, Error>)
        ensures
            match r {
                Ok(out) => unpacked(Ok(stored@), *location) == Ok::<Seq<u8>, Error>(out@),
                Err(e) => unpacked(Ok(stored@), *location) == Err::<Seq<u8>, Error>(e),
            },
    {
        decompress(stored, location.compression, location.raw_size as usize)
    }

    /// Fetches the chunk with this hash: looks up its location, reads exactly
    /// its stored extent through the backend, decodes it and checks the
    /// length. A hash that the archive does not hold is a missing chunk.
    pub fn fetch_chunk<B: ReaderBackend>(&self, backend: &mut B, hash: &HashSum) -> (r: Result<
        Vec<u8>,
        Error,
    >)
        requires
            self.wf(),
        ensures
            final(backend).resource() == old(backend).resource(),
            forall|o: u64, s: usize| final(backend).serves(o, s) == old(backend).serves(o, s),
            match r {
                Ok(out) => self.locations().dom().contains(hash@) && fetch_gives(
                    *old(backend),
                    self.header(),
                    self.locations()[hash@],
                    out@,
                ),
                Err(e) => if self.locations().dom().contains(hash@) {
                    fetch_fails(*old(backend), self.header(), self.locations()[hash@], e)
                } else {
                    e == Error::MissingChunk
                },
            },
    {
        match self.locate(hash) {
            Some(location) => self.fetch_at(backend, &location),
            None => Err(Error::MissingChunk),
        }
    }

    /// Fetches the chunk at `location`: reads exactly its stored extent
    /// through the backend, decodes it and checks the length. An extent that
    /// begins beyond what 64 bits can address is reported as truncation.
    pub fn fetch_at<B: ReaderBackend>(&self, backend: &mut B, location: &ChunkLocation) -> (r:
        Result<Vec<u8>, Error>)
        requires
            self.wf(),
        ensures
            final(backend).resource() == old(backend).resource(),
            forall|o: u64, s: usize| final(backend).serves(o, s) == old(backend).serves(o, s),
            match r {
                Ok(out) => fetch_gives(*old(backend), self.header(), *location, out@),
                Err(e) => fetch_fails(*old(backend), self.header(), *location, e),
            },
    {
        let base = self.chunk_data_offset();
        let start = match base.checked_add(location.offset) {
            Some(s) => s,
            None => {
                return Err(Error::Format(FormatError::Truncated));
            },
        };
        match backend.read_at(start, location.stored_size as usize) {
            Ok(stored) => ArchiveReader::unpack_chunk(location, stored.as_slice()),
            Err(e) => Err(e),
        }
    }
}

/// Whether fetching the chunk at `location` gives `out`: the stored extent
/// lies within the resource, and its bytes decode to `out`, which has the
/// declared length.
pub open spec fn fetch_gives<B: ReaderBackend>(
    backend: B,
    header: Header,
    location: ChunkLocation,
    out: Seq<u8>,
) -> bool {
    let start = chunk_start(header, location);
    &&& start + location.stored_size <= backend.resource().len()
    &&& unpacked(
        Ok(backend.resource().subrange(start, start + location.stored_size)),
        location,
    ) == Ok::<Seq<u8>, Error>(out)
    &&& out.len() == location.raw_size
}

/// The ways in which fetching the chunk at `location` fails with `e`: its
/// extent begins beyond what 64 bits can address; the backend, which did not
/// undertake to serve the read, failed; or the bytes read do not decode to a
/// chunk of the declared length.
pub open spec fn fetch_fails<B: ReaderBackend>(
    backend: B,
    header: Header,
    location: ChunkLocation,
    e: Error,
) -> bool {
    let start = chunk_start(header, location);
    ||| start > u64::MAX && e == Error::Format(FormatError::Truncated)
    ||| start <= u64::MAX && !backend.serves(start as u64, location.stored_size as usize) && e
        == Error::Io
    ||| start + location.stored_size <= backend.resource().len() && unpacked(
        Ok(backend.resource().subrange(start, start + location.stored_size)),
        location,
    ) == Err::<Seq<u8>, Error>(e)
}

} // verus!
