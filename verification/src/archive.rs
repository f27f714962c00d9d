//! Building an archive: the input is cut into chunks, every distinct chunk is
//! stored once, and the dictionary records how the chunks tile the input.

use crate::archive_reader::{chunk_start, opened, unpacked, validated};
use crate::bytes::append_bytes;
use crate::chunk_dictionary::{ChunkDescriptor, ChunkDictionary, DescriptorView, DictionaryView};
use crate::chunk_location_map::location_of;
use crate::chunker::{
    chunk_all, chunks, chunks_match, concat, lemma_chunks_partition, lemma_concat_push,
    ChunkerConfig,
};
use crate::compression::{compress, compressed, decompressed, Compression};
use crate::dictionary_format::{
    encode_dictionary, encoded_dictionary, hashes_have_length, lemma_dictionary_round_trip,
};
use crate::error::Error;
use crate::digest_table::DigestTable;
use crate::hashsum::{bytes_equal, truncated_digest, HashSum, DIGEST_SIZE};
use crate::header::{
    encode_header, encoded_header, lemma_encoded_header_len, lemma_header_round_trip, Header,
    HEADER_SIZE,
};
use crate::reconstruct::{fetchable, stored_bytes, stored_piece};
use vstd::prelude::*;
use vstd::slice::slice_to_vec;

verus! {

/// The form in which a chunk is stored when `kind` is asked for: the codec's
/// frame if it is shorter than the chunk, and otherwise the chunk as it is.
pub open spec fn stored_form(data: Seq<u8>, kind: Compression, level: i32) -> (
    Compression,
    Seq<u8>,
) {
    match compressed(data, kind, level) {
        Ok(frame) => if kind != Compression::Identity && frame.len() < data.len() {
            (kind, frame)
        } else {
            (Compression::Identity, data)
        },
        Err(_) => (Compression::Identity, data),
    }
}

/// What is stored can be read back, and is no longer than the chunk.
pub proof fn lemma_stored_form(data: Seq<u8>, kind: Compression, level: i32)
    requires
        data.len() <= usize::MAX,
    ensures
        decompressed(
            stored_form(data, kind, level).1,
            stored_form(data, kind, level).0,
            data.len() as usize,
        ) == Ok::<Seq<u8>, Error>(data),
        stored_form(data, kind, level).1.len() <= data.len(),
{
}

/// Chooses the stored form of a chunk.
pub fn store_chunk(data: &[u8], kind: Compression, level: i32) -> (r: (Compression, Vec<u8>))
    ensures
        (r.0, r.1@) == stored_form(data@, kind, level),
{
    match kind {
        Compression::Identity => (Compression::Identity, slice_to_vec(data)),
        Compression::Zstd => {
            match compress(data, kind, level) {
                Ok(frame) => {
                    if frame.len() < data.len() {
                        (kind, frame)
                    } else {
                        (Compression::Identity, slice_to_vec(data))
                    }
                },
                Err(_) => (Compression::Identity, slice_to_vec(data)),
            }
        },
    }
}

/// No two different chunks of the sequence have the same truncated hash.
pub open spec fn collision_free(cs: Seq<Seq<u8>>, hash_length: nat) -> bool {
    forall|i: int, j: int|
        0 <= i < j < cs.len() && truncated_digest(#[trigger] cs[i], hash_length)
            == truncated_digest(#[trigger] cs[j], hash_length) ==> cs[i] == cs[j]
}

/// Whether an archive with header `h` and dictionary `dv`, read from the
/// bytes `archive`, holds the chunk sequence `cs`: the layout has one segment
/// for each chunk, and the descriptor of each segment carries the chunk's
/// hash and length and leads to stored bytes that decode to the chunk.
pub open spec fn holds(
    archive: Seq<u8>,
    h: Header,
    dv: DictionaryView,
    cs: Seq<Seq<u8>>,
) -> bool {
    &&& dv.layout.len() == cs.len()
    &&& forall|j: int|
        0 <= j < cs.len() ==> {
            let d = dv.descriptors[(#[trigger] dv.layout[j]) as int];
            &&& d.hash == truncated_digest(cs[j], h.hash_length as nat)
            &&& d.raw_size == cs[j].len()
            &&& fetchable(archive, h, d)
            &&& stored_piece(archive, h, d) == cs[j]
        }
}

/// The number of bytes that the stored forms of the first `d` descriptors
/// take up.
pub open spec fn stored_before(ds: Seq<DescriptorView>, d: nat) -> nat
    decreases d,
{
    if d == 0 {
        0
    } else {
        stored_before(ds, (d - 1) as nat) + ds[d - 1].stored_size as nat
    }
}

/// Whether segment `j` is the first that descriptor `d` fills, and every
/// segment before it is filled by a descriptor that comes before `d`.
pub open spec fn first_use(dv: DictionaryView, d: int, j: int) -> bool {
    &&& 0 <= j < dv.layout.len()
    &&& dv.layout[j] == d
    &&& forall|i: int| 0 <= i < j ==> (#[trigger] dv.layout[i]) < d
}

/// Whether descriptor `d` has a first segment that it fills, before which
/// only descriptors that come before `d` are used.
pub open spec fn numbered_by_first_use(dv: DictionaryView, d: int) -> bool {
    exists|j: int| #[trigger] first_use(dv, d, j)
}

/// Whether the archive is laid out as the builder lays it out: every chunk is
/// stored in the form chosen for it, the descriptors are numbered in the
/// order in which their chunks first occur, and the stored forms follow one
/// another in that order without gaps, up to the end of the archive.
pub open spec fn packed(
    archive: Seq<u8>,
    h: Header,
    dv: DictionaryView,
    cs: Seq<Seq<u8>>,
    compression: Compression,
    level: i32,
) -> bool {
    &&& forall|j: int|
        0 <= j < cs.len() ==> {
            let d = dv.descriptors[(#[trigger] dv.layout[j]) as int];
            (d.compression, stored_bytes(archive, h, d)) == stored_form(cs[j], compression, level)
        }
    &&& forall|d: int| 0 <= d < dv.descriptors.len() ==> #[trigger] numbered_by_first_use(dv, d)
    &&& forall|d: int|
        0 <= d < dv.descriptors.len() ==> (#[trigger] dv.descriptors[d]).offset == stored_before(
            dv.descriptors,
            d as nat,
        )
    &&& archive.len() == HEADER_SIZE + h.dictionary_size + stored_before(
        dv.descriptors,
        dv.descriptors.len(),
    )
}

/// Whether `archive` is the archive of `data`, built with the given
/// parameters: it opens, its header records the chunking parameters and the
/// hash length, it holds the chunks of `data`, and it is laid out as the
/// builder lays it out.
pub open spec fn built(
    archive: Seq<u8>,
    config: ChunkerConfig,
    hash_length: u8,
    compression: Compression,
    level: i32,
    data: Seq<u8>,
) -> bool {
    match opened(archive) {
        Ok((h, dv)) => {
            &&& h.chunker == config
            &&& h.hash_length == hash_length
            &&& holds(archive, h, dv, chunks(config, data))
            &&& packed(archive, h, dv, chunks(config, data), compression, level)
        },
        Err(_) => false,
    }
}

/// Whether the chunk data `stored` keeps chunk `c` for descriptor `d`, in the
/// form chosen for it.
pub(crate) open spec fn kept(
    stored: Seq<u8>,
    d: DescriptorView,
    c: Seq<u8>,
    hash_length: nat,
    compression: Compression,
    level: i32,
) -> bool {
    &&& d.hash == truncated_digest(c, hash_length)
    &&& d.raw_size == c.len()
    &&& d.offset + d.stored_size <= stored.len()
    &&& (d.compression, stored.subrange(d.offset as int, d.offset + d.stored_size))
        == stored_form(c, compression, level)
}

/// The bytes stored before a descriptor do not depend on the descriptors
/// after it.
proof fn lemma_stored_before_push(ds: Seq<DescriptorView>, x: DescriptorView, d: nat)
    requires
        d <= ds.len(),
    ensures
        stored_before(ds.push(x), d) == stored_before(ds, d),
    decreases d,
{
    if d > 0 {
        lemma_stored_before_push(ds, x, (d - 1) as nat);
    }
}

/// Header, dictionary and chunk data laid end to end open as the archive
/// with that header and that dictionary.
proof fn lemma_opened(h: Header, dv: DictionaryView, tail: Seq<u8>)
    requires
        validated(h, dv) is Ok,
        h.dictionary_size == encoded_dictionary(dv).len(),
        dv.descriptors.len() <= u32::MAX,
        dv.layout.len() <= u32::MAX,
    ensures
        opened(encoded_header(h) + encoded_dictionary(dv) + tail) == Ok::<
            (Header, DictionaryView),
            Error,
        >((h, dv)),
{
    let head = encoded_header(h);
    let dict = encoded_dictionary(dv);
    let all = head + dict + tail;
    lemma_encoded_header_len(h);
    assert(all =~= head + (dict + tail));
    lemma_header_round_trip(h, dict + tail);
    lemma_dictionary_round_trip(dv, h.hash_length as nat);
    assert(all.subrange(HEADER_SIZE as int, HEADER_SIZE + h.dictionary_size) =~= dict);
}

/// The segments of a layout whose descriptors record the lengths of the
/// chunks of a sequence begin where the chunks do.
pub(crate) proof fn lemma_segment_starts(dv: DictionaryView, cs: Seq<Seq<u8>>, n: nat)
    requires
        n <= cs.len(),
        dv.layout.len() == cs.len(),
        forall|j: int|
            0 <= j < cs.len() ==> dv.descriptors[(#[trigger] dv.layout[j]) as int].raw_size
                == cs[j].len(),
    ensures
        dv.segment_start(n) == concat(cs.take(n as int)).len(),
    decreases n,
{
    if n > 0 {
        lemma_segment_starts(dv, cs, (n - 1) as nat);
        assert(dv.descriptors[dv.layout[n - 1] as int].raw_size == cs[n - 1].len());
        assert(cs.take(n as int) =~= cs.take(n - 1).push(cs[n - 1]));
        lemma_concat_push(cs.take(n - 1), cs[n - 1]);
    } else {
        assert(cs.take(0) =~= Seq::<Seq<u8>>::empty());
    }
}

/// What the builder has collected once it has gone through all the chunks
/// `cs`: descriptors with distinct hashes of the right length, numbered in
/// the order of first use, each with the chunk of its first use kept in the
/// chunk data at the place where the stored forms before it end; and a layout
/// that names, for each chunk, a descriptor that keeps an equal chunk.
pub(crate) open spec fn collected(
    dv: DictionaryView,
    firsts: Seq<usize>,
    stored: Seq<u8>,
    cs: Seq<Seq<u8>>,
    hash_length: nat,
    compression: Compression,
    level: i32,
) -> bool {
    &&& dv.layout.len() == cs.len()
    &&& dv.descriptors.len() <= cs.len()
    &&& firsts.len() == dv.descriptors.len()
    &&& hashes_have_length(dv.descriptors, hash_length)
    &&& dv.distinct()
    &&& forall|d: int|
        0 <= d < dv.descriptors.len() ==> firsts[d] < cs.len() && kept(
            stored,
            #[trigger] dv.descriptors[d],
            cs[firsts[d] as int],
            hash_length,
            compression,
            level,
        ) && dv.layout[firsts[d] as int] == d && dv.descriptors[d].offset == stored_before(
            dv.descriptors,
            d as nat,
        )
    &&& forall|d: int, i: int|
        0 <= d < dv.descriptors.len() && 0 <= i < firsts[d] ==> (#[trigger] dv.layout[i]) < d || i
            >= #[trigger] firsts[d]
    &&& forall|j: int|
        0 <= j < cs.len() ==> (#[trigger] dv.layout[j]) < dv.descriptors.len()
            && cs[firsts[dv.layout[j] as int] as int] == cs[j]
    &&& stored.len() == stored_before(dv.descriptors, dv.descriptors.len())
}

/// What the builder has collected keeps, for every chunk, the chunk itself
/// under the descriptor that the layout names for it.
proof fn lemma_collected_keeps_all(
    dv: DictionaryView,
    firsts: Seq<usize>,
    stored: Seq<u8>,
    cs: Seq<Seq<u8>>,
    hash_length: nat,
    compression: Compression,
    level: i32,
)
    requires
        collected(dv, firsts, stored, cs, hash_length, compression, level),
    ensures
        dv.layout_ok(),
        forall|j: int|
            0 <= j < cs.len() ==> kept(
                stored,
                dv.descriptors[(#[trigger] dv.layout[j]) as int],
                cs[j],
                hash_length,
                compression,
                level,
            ),
        forall|d: int| 0 <= d < dv.descriptors.len() ==> #[trigger] numbered_by_first_use(dv, d),
{
    assert forall|j: int| 0 <= j < cs.len() implies kept(
        stored,
        dv.descriptors[(#[trigger] dv.layout[j]) as int],
        cs[j],
        hash_length,
        compression,
        level,
    ) by {
        let e = dv.layout[j] as int;
        assert(kept(
            stored,
            dv.descriptors[e],
            cs[firsts[e] as int],
            hash_length,
            compression,
            level,
        ));
    }
    assert forall|d: int| 0 <= d < dv.descriptors.len() implies #[trigger] numbered_by_first_use(
        dv,
        d,
    ) by {
        let j = firsts[d] as int;
        assert(kept(stored, dv.descriptors[d], cs[j], hash_length, compression, level));
        assert forall|i: int| 0 <= i < j implies (#[trigger] dv.layout[i]) < d by {
            assert(dv.layout[i] < d || i >= firsts[d]);
        }
        assert(first_use(dv, d, j));
    }
}

/// A chunk that is kept in the chunk data is held by the archive that ends
/// with that chunk data.
proof fn lemma_kept_is_held(
    h: Header,
    dictionary: Seq<u8>,
    stored: Seq<u8>,
    x: DescriptorView,
    c: Seq<u8>,
    compression: Compression,
    level: i32,
)
    requires
        h.dictionary_size == dictionary.len(),
        c.len() <= usize::MAX,
        kept(stored, x, c, h.hash_length as nat, compression, level),
    ensures
        fetchable(encoded_header(h) + dictionary + stored, h, x),
        stored_piece(encoded_header(h) + dictionary + stored, h, x) == c,
        (x.compression, stored_bytes(encoded_header(h) + dictionary + stored, h, x))
            == stored_form(c, compression, level),
{
    let out = encoded_header(h) + dictionary + stored;
    lemma_encoded_header_len(h);
    lemma_stored_form(c, compression, level);
    assert(chunk_start(h, location_of(x)) == HEADER_SIZE + dictionary.len() + x.offset);
    assert(stored_bytes(out, h, x) =~= stored.subrange(
        x.offset as int,
        x.offset + x.stored_size,
    ));
}

/// What the builder has collected, laid end to end behind its header, opens
/// as the archive with that header and the collected dictionary.
proof fn lemma_collected_opens(
    h: Header,
    dv: DictionaryView,
    firsts: Seq<usize>,
    stored: Seq<u8>,
    cs: Seq<Seq<u8>>,
    compression: Compression,
    level: i32,
)
    requires
        h.wf(),
        h.dictionary_size == encoded_dictionary(dv).len(),
        HEADER_SIZE + encoded_dictionary(dv).len() + stored.len() <= usize::MAX,
        cs.len() <= u32::MAX,
        concat(cs).len() <= usize::MAX,
        collected(dv, firsts, stored, cs, h.hash_length as nat, compression, level),
    ensures
        opened(encoded_header(h) + encoded_dictionary(dv) + stored) == Ok::<
            (Header, DictionaryView),
            Error,
        >((h, dv)),
{
    lemma_collected_keeps_all(dv, firsts, stored, cs, h.hash_length as nat, compression, level);
    assert(dv.total_size() == concat(cs).len()) by {
        assert forall|j: int| 0 <= j < cs.len() implies dv.descriptors[(
        #[trigger] dv.layout[j]) as int].raw_size == cs[j].len() by {
            assert(kept(
                stored,
                dv.descriptors[dv.layout[j] as int],
                cs[j],
                h.hash_length as nat,
                compression,
                level,
            ));
        }
        lemma_segment_starts(dv, cs, cs.len());
        assert(cs.take(cs.len() as int) =~= cs);
    }
    assert(dv.checked_size() is Ok);
    assert(hashes_have_length(dv.descriptors, h.hash_length as nat));
    assert(dv.distinct());
    assert(validated(h, dv) is Ok);
    assert(dv.descriptors.len() <= u32::MAX);
    assert(dv.layout.len() <= u32::MAX);
    lemma_opened(h, dv, stored);
}

/// What the builder has collected, laid end to end behind its header, is the
/// archive of the data.
proof fn lemma_collected_is_built(
    h: Header,
    dv: DictionaryView,
    firsts: Seq<usize>,
    stored: Seq<u8>,
    config: ChunkerConfig,
    compression: Compression,
    level: i32,
    data: Seq<u8>,
)
    requires
        h.wf(),
        h.chunker == config,
        h.dictionary_size == encoded_dictionary(dv).len(),
        HEADER_SIZE + encoded_dictionary(dv).len() + stored.len() <= usize::MAX,
        data.len() <= usize::MAX,
        chunks(config, data).len() <= u32::MAX,
        collected(dv, firsts, stored, chunks(config, data), h.hash_length as nat, compression, level),
    ensures
        built(
            encoded_header(h) + encoded_dictionary(dv) + stored,
            config,
            h.hash_length,
            compression,
            level,
            data,
        ),
{
    let cs = chunks(config, data);
    let hl = h.hash_length as nat;
    let out = encoded_header(h) + encoded_dictionary(dv) + stored;
    lemma_chunks_partition(config, data);
    lemma_collected_opens(h, dv, firsts, stored, cs, compression, level);
    lemma_collected_keeps_all(dv, firsts, stored, cs, hl, compression, level);
    lemma_encoded_header_len(h);
    assert forall|j: int| 0 <= j < cs.len() implies {
        let x = dv.descriptors[(#[trigger] dv.layout[j]) as int];
        &&& x.hash == truncated_digest(cs[j], hl)
        &&& x.raw_size == cs[j].len()
        &&& fetchable(out, h, x)
        &&& stored_piece(out, h, x) == cs[j]
        &&& (x.compression, stored_bytes(out, h, x)) == stored_form(cs[j], compression, level)
    } by {
        let x = dv.descriptors[dv.layout[j] as int];
        assert(kept(stored, x, cs[j], hl, compression, level));
        lemma_kept_is_held(h, encoded_dictionary(dv), stored, x, cs[j], compression, level);
    }
    assert(holds(out, h, dv, cs));
    assert(packed(out, h, dv, cs, compression, level));
}

/// Builds the archive of `data`.
///
/// Parameters out of range are refused. Data with more chunks than 32 bits
/// can count is too large. Two different chunks with the same truncated hash
/// are a collision, which is reported and never stored.
pub fn build_archive(
    data: &[u8],
    config: &ChunkerConfig,
    hash_length: u8,
    compression: Compression,
    level: i32,
) -> (r: Result<Vec<u8>, Error>)
    ensures
        match r {
            Ok(archive) => built(archive@, *config, hash_length, compression, level, data@),
            Err(e) => match e {
                Error::BadConfig => !(config.wf() && 1 <= hash_length <= DIGEST_SIZE),
                Error::TooLarge => config.wf() && 1 <= hash_length <= DIGEST_SIZE && chunks(
                    *config,
                    data@,
                ).len() > u32::MAX,
                Error::HashCollision => config.wf() && 1 <= hash_length <= DIGEST_SIZE && chunks(
                    *config,
                    data@,
                ).len() <= u32::MAX && !collision_free(chunks(*config, data@), hash_length as nat),
                _ => false,
            },
        },
{
    if !config.is_valid() || hash_length < 1 || hash_length as usize > DIGEST_SIZE {
        return Err(Error::BadConfig);
    }
    let ghost hl = hash_length as nat;
    let ghost cs = chunks(*config, data@);
    let pieces = chunk_all(config, data);
    if pieces.len() > u32::MAX as usize {
        return Err(Error::TooLarge);
    }
    proof {
        lemma_chunks_partition(*config, data@);
    }
    let mut descriptors: Vec<ChunkDescriptor> = Vec::new();
    let mut table = DigestTable::new();
    let mut first: Vec<usize> = Vec::new();
    let mut layout: Vec<u32> = Vec::new();
    let mut stored: Vec<u8> = Vec::new();
    let mut k: usize = 0;
    while k < pieces.len()
        invariant
            k <= pieces@.len(),
            pieces@.len() <= u32::MAX,
            config.wf(),
            cs == chunks(*config, data@),
            concat(cs) == data@,
            chunks_match(pieces@, 0, cs),
            hl == hash_length as nat,
            1 <= hash_length <= DIGEST_SIZE,
            forall|i: int| 0 <= i < cs.len() ==> 1 <= (#[trigger] cs[i]).len() <= u32::MAX,
            layout@.len() == k,
            descriptors@.len() <= k,
            table.wf(),
            table.keys().len() == descriptors@.len(),
            first@.len() == descriptors@.len(),
            forall|d: int|
                0 <= d < descriptors@.len() ==> #[trigger] table.keys()[d] == descriptors@[d]@.hash,
            forall|d: int|
                0 <= d < descriptors@.len() ==> (#[trigger] descriptors@[d])@.hash.len() == hl,
            forall|d: int|
                0 <= d < descriptors@.len() ==> (#[trigger] first@[d]) < k && kept(
                    stored@,
                    descriptors@[d]@,
                    cs[first@[d] as int],
                    hl,
                    compression,
                    level,
                ),
            forall|d: int|
                0 <= d < descriptors@.len() ==> layout@[(#[trigger] first@[d]) as int] == d,
            forall|d: int, i: int|
                0 <= d < descriptors@.len() && 0 <= i < first@[d] ==> (#[trigger] layout@[i]) < d
                    || i >= #[trigger] first@[d],
            forall|d: int|
                0 <= d < descriptors@.len() ==> (#[trigger] descriptors@[d])@.offset
                    == stored_before(descriptors@.map_values(|x: ChunkDescriptor| x@), d as nat),
            stored@.len() == stored_before(
                descriptors@.map_values(|x: ChunkDescriptor| x@),
                descriptors@.len(),
            ),
            forall|a: int, b: int|
                0 <= a < b < descriptors@.len() ==> (#[trigger] descriptors@[a])@.hash != (
                #[trigger] descriptors@[b])@.hash,
            forall|j: int|
                0 <= j < k ==> (#[trigger] layout@[j]) < descriptors@.len() && cs[first@[layout@[j] as int] as int]
                    == cs[j],
            forall|i: int, j: int|
                0 <= i < j < k && truncated_digest(#[trigger] cs[i], hl) == truncated_digest(
                    #[trigger] cs[j],
                    hl,
                ) ==> cs[i] == cs[j],
        decreases pieces@.len() - k,
    {
        let piece = &pieces[k];
        let ghost c = cs[k as int];
        assert(piece.data@ == c);
        let hash = HashSum::b2_digest(piece.data.as_slice(), hash_length as usize);
        match table.find(&hash) {
            Some(d) => {
                let seen = first[d];
                assert(pieces@[seen as int].data@ == cs[seen as int]);
                if !bytes_equal(pieces[seen].data.as_slice(), piece.data.as_slice()) {
                    proof {
                        assert(kept(
                            stored@,
                            descriptors@[d as int]@,
                            cs[seen as int],
                            hl,
                            compression,
                            level,
                        ));
                        assert(truncated_digest(cs[seen as int], hl) == truncated_digest(
                            cs[k as int],
                            hl,
                        ));
                    }
                    return Err(Error::HashCollision);
                }
                proof {
                    assert forall|i: int|
                        0 <= i < k && truncated_digest(#[trigger] cs[i], hl) == truncated_digest(
                            c,
                            hl,
                        ) implies cs[i] == c by {
                        let e = layout@[i] as int;
                        assert(kept(
                            stored@,
                            descriptors@[e]@,
                            cs[first@[e] as int],
                            hl,
                            compression,
                            level,
                        ));
                        if e < d {
                            assert(descriptors@[e]@.hash != descriptors@[d as int]@.hash);
                        } else if e > d {
                            assert(descriptors@[d as int]@.hash != descriptors@[e]@.hash);
                        }
                    }
                }
                layout.push(d as u32);
            },
            None => {
                let d = descriptors.len();
                let (kind, form) = store_chunk(piece.data.as_slice(), compression, level);
                let ghost before = stored@;
                let ghost ds = descriptors@.map_values(|x: ChunkDescriptor| x@);
                proof {
                    lemma_stored_form(c, compression, level);
                    assert forall|i: int| 0 <= i < k implies truncated_digest(
                        #[trigger] cs[i],
                        hl,
                    ) != truncated_digest(c, hl) by {
                        let e = layout@[i] as int;
                        assert(kept(
                            before,
                            descriptors@[e]@,
                            cs[first@[e] as int],
                            hl,
                            compression,
                            level,
                        ));
                        assert(table.keys()[e] == descriptors@[e]@.hash);
                    }
                }
                let descriptor = ChunkDescriptor {
                    hash: hash.clone(),
                    raw_size: piece.data.len() as u32,
                    compression: kind,
                    stored_size: form.len() as u32,
                    offset: stored.len() as u64,
                };
                append_bytes(&mut stored, form.as_slice());
                proof {
                    assert(stored@.subrange(
                        descriptor@.offset as int,
                        descriptor@.offset + descriptor@.stored_size,
                    ) =~= form@);
                    assert(kept(stored@, descriptor@, c, hl, compression, level));
                    assert forall|e: int| 0 <= e < descriptors@.len() implies kept(
                        stored@,
                        (#[trigger] descriptors@[e])@,
                        cs[first@[e] as int],
                        hl,
                        compression,
                        level,
                    ) by {
                        let x = descriptors@[e]@;
                        assert(kept(before, x, cs[first@[e] as int], hl, compression, level));
                        assert(stored@.subrange(x.offset as int, x.offset + x.stored_size)
                            =~= before.subrange(x.offset as int, x.offset + x.stored_size));
                    }
                    let grown = descriptors@.push(descriptor).map_values(|x: ChunkDescriptor| x@);
                    assert(grown =~= ds.push(descriptor@));
                    assert forall|e: nat| e <= descriptors@.len() implies #[trigger] stored_before(
                        grown,
                        e,
                    ) == stored_before(ds, e) by {
                        lemma_stored_before_push(ds, descriptor@, e);
                    }
                    assert(grown[descriptors@.len() as int] == descriptor@);
                    assert(stored_before(grown, (descriptors@.len() + 1) as nat) == stored_before(
                        grown,
                        descriptors@.len(),
                    ) + descriptor@.stored_size);
                    assert(form@.len() <= c.len());
                    assert forall|a: int| 0 <= a < descriptors@.len() implies (
                    #[trigger] descriptors@[a])@.hash != descriptor@.hash by {
                        assert(table.keys()[a] == descriptors@[a]@.hash);
                    }
                }
                descriptors.push(descriptor);
                table.push(hash);
                first.push(k);
                layout.push(d as u32);
            },
        }
        k += 1;
    }
    let dictionary = ChunkDictionary { descriptors, layout };
    let ghost dv = dictionary@;
    let encoded = encode_dictionary(&dictionary);
    let header = Header {
        hash_length,
        chunker: *config,
        dictionary_size: encoded.len() as u64,
    };
    let mut out = encode_header(&header);
    append_bytes(&mut out, encoded.as_slice());
    append_bytes(&mut out, stored.as_slice());
    let out_len = out.len();
    let _data_len = data.len();
    proof {
        lemma_encoded_header_len(header);
        assert(out_len == HEADER_SIZE + encoded@.len() + stored@.len());
        assert(out@ =~= encoded_header(header) + encoded_dictionary(dv) + stored@);
        assert(cs.len() == pieces@.len());
        assert(collected(dv, first@, stored@, cs, hl, compression, level)) by {
            assert forall|d: int| 0 <= d < dv.descriptors.len() implies (
            #[trigger] dv.descriptors[d]).hash.len() == hl by {
                assert(dictionary.descriptors@[d]@.hash.len() == hl);
            }
            assert forall|a: int, b: int| 0 <= a < b < dv.descriptors.len() implies (
            #[trigger] dv.descriptors[a]).hash != (#[trigger] dv.descriptors[b]).hash by {
                assert(dictionary.descriptors@[a]@.hash != dictionary.descriptors@[b]@.hash);
            }
            assert forall|d: int| 0 <= d < dv.descriptors.len() implies first@[d] < cs.len()
                && kept(
                stored@,
                #[trigger] dv.descriptors[d],
                cs[first@[d] as int],
                hl,
                compression,
                level,
            ) && dv.layout[first@[d] as int] == d && dv.descriptors[d].offset == stored_before(
                dv.descriptors,
                d as nat,
            ) by {
                assert(dictionary.descriptors@[d]@ == dv.descriptors[d]);
                assert(dictionary.layout@[first@[d] as int] == d);
            }
            assert forall|d: int, i: int|
                0 <= d < dv.descriptors.len() && 0 <= i < first@[d] implies (
            #[trigger] dv.layout[i]) < d || i >= #[trigger] first@[d] by {
                assert(dictionary.layout@[i] < d || i >= first@[d]);
            }
        }
        lemma_collected_is_built(
            header,
            dv,
            first@,
            stored@,
            *config,
            compression,
            level,
            data@,
        );
    }
    Ok(out)
}

} // verus!
