//! Reconstruction: what the seed supplies is placed first, and whatever is
//! then still waited for is fetched from the archive, until every segment of
//! the output has been written.

use crate::archive_reader::{chunk_start, fetch_fails, unpacked, ArchiveReader};
use crate::chunk_dictionary::{DescriptorView, DictionaryView};
use crate::chunk_index::ChunkIndex;
use crate::chunk_location_map::location_of;
use crate::chunker::chunks;
use crate::error::Error;
use crate::header::Header;
use crate::layout::{
    assembled, lemma_assembled, lemma_indexed_is_open, lemma_open_list_after_claim,
    lemma_remaining_all, lemma_remaining_bound, open_list, place, remaining, segment, waiting,
};
use crate::output::Output;
use crate::archive_reader::opened;
use crate::reader_backend::{MemoryBackend, ReaderBackend};
use vstd::slice::slice_to_vec;
use crate::seed_input::{seed_claims, seed_hit, seeded, segment_seeded, SeedInput, SeedStats};
use vstd::prelude::*;

verus! {

/// What one reconstruction has done.
#[derive(Debug, Clone, Copy, PartialEq, Eq, Structural)]
pub struct CloneStats {
    /// What the seed contributed.
    pub seed: SeedStats,
    /// The number of chunks that were fetched from the archive.
    pub chunks_fetched: usize,
}

/// Whether any segment of the output is filled by descriptor `d`.
pub open spec fn referenced(dv: DictionaryView, d: int) -> bool {
    dv.offsets_of(d, dv.layout.len()).len() > 0
}

/// The stored bytes of a chunk: its extent in the resource.
pub open spec fn stored_bytes(resource: Seq<u8>, header: Header, d: DescriptorView) -> Seq<u8> {
    let start = chunk_start(header, location_of(d));
    resource.subrange(start, start + d.stored_size)
}

/// Whether the chunk of a descriptor can be had from the resource: its stored
/// extent lies within the resource and decodes to the declared length.
pub open spec fn fetchable(resource: Seq<u8>, header: Header, d: DescriptorView) -> bool {
    &&& chunk_start(header, location_of(d)) + d.stored_size <= resource.len()
    &&& unpacked(Ok(stored_bytes(resource, header, d)), location_of(d)) is Ok
}

/// The chunk that the resource holds for a descriptor.
pub open spec fn stored_piece(resource: Seq<u8>, header: Header, d: DescriptorView) -> Seq<u8> {
    unpacked(Ok(stored_bytes(resource, header, d)), location_of(d))->Ok_0
}

/// Whether segment `j` of `out` is as fetching leaves it: if its chunk was
/// waited for by `index0`, it holds the chunk that the resource holds for its
/// descriptor; otherwise it is as in `out0`.
pub open spec fn segment_fetched(
    dv: DictionaryView,
    header: Header,
    resource: Seq<u8>,
    index0: Map<Seq<u8>, Seq<u64>>,
    upto: int,
    out0: Seq<u8>,
    out: Seq<u8>,
    j: int,
) -> bool {
    let d = dv.layout[j] as int;
    segment(dv, out, j) == if waiting(dv, index0, d) && d < upto {
        stored_piece(resource, header, dv.descriptors[d])
    } else {
        segment(dv, out0, j)
    }
}

/// Whether `out` is what fetching every chunk that `index0` waits for makes
/// of `out0`, all of them being there to be had.
pub open spec fn fetched(
    dv: DictionaryView,
    header: Header,
    resource: Seq<u8>,
    index0: Map<Seq<u8>, Seq<u64>>,
    out0: Seq<u8>,
    out: Seq<u8>,
) -> bool {
    &&& forall|d: int|
        0 <= d < dv.descriptors.len() && #[trigger] waiting(dv, index0, d) ==> fetchable(
            resource,
            header,
            dv.descriptors[d],
        )
    &&& forall|j: int|
        0 <= j < dv.layout.len() ==> #[trigger] segment_fetched(
            dv,
            header,
            resource,
            index0,
            dv.descriptors.len() as int,
            out0,
            out,
            j,
        )
}

/// Fetches every chunk that is still waited for and writes it to all its
/// offsets, in the order of the descriptors. The first fetch that fails ends
/// the operation with its error.
pub fn fetch_remaining<B: ReaderBackend>(
    archive: &ArchiveReader,
    backend: &mut B,
    chunks_left: &mut ChunkIndex,
    output: &mut Output,
) -> (r: Result<usize, Error>)
    requires
        archive.wf(),
        old(chunks_left).wf(),
        open_list(archive.dictionary(), old(chunks_left)@),
        old(output)@.len() == archive.dictionary().total_size(),
    ensures
        final(backend).resource() == old(backend).resource(),
        forall|o: u64, s: usize| final(backend).serves(o, s) == old(backend).serves(o, s),
        final(chunks_left).wf(),
        final(output)@.len() == old(output)@.len(),
        match r {
            Ok(count) => final(chunks_left)@ == Map::<Seq<u8>, Seq<u64>>::empty() && count == old(
                chunks_left,
            )@.dom().len() && fetched(
                archive.dictionary(),
                archive.header(),
                old(backend).resource(),
                old(chunks_left)@,
                old(output)@,
                final(output)@,
            ),
            Err(e) => exists|d: int|
                0 <= d < archive.dictionary().descriptors.len() && #[trigger] waiting(
                    archive.dictionary(),
                    old(chunks_left)@,
                    d,
                ) && fetch_fails(
                    *old(backend),
                    archive.header(),
                    location_of(archive.dictionary().descriptors[d]),
                    e,
                ),
        },
{
    let ghost dv = archive.dictionary();
    let ghost header = archive.header();
    let ghost resource = backend.resource();
    let ghost index0 = chunks_left@;
    let ghost out0 = output@;
    let n = archive.chunk_count();
    let waited = chunks_left.len();
    let mut count: usize = 0;
    let mut d: usize = 0;
    proof {
        archive.lemma_wf();
        chunks_left.lemma_size();
    }
    while d < n
        invariant
            d <= n,
            n == dv.descriptors.len(),
            archive.wf(),
            dv == archive.dictionary(),
            header == archive.header(),
            dv.wf(),
            resource == old(backend).resource(),
            backend.resource() == resource,
            forall|o: u64, s: usize| backend.serves(o, s) == old(backend).serves(o, s),
            chunks_left.wf(),
            open_list(dv, index0),
            open_list(dv, chunks_left@),
            index0 == old(chunks_left)@,
            out0 == old(output)@,
            output@.len() == dv.total_size(),
            out0.len() == dv.total_size(),
            waited == index0.dom().len(),
            count + chunks_left.size() == waited,
            forall|e: int| 0 <= e < d ==> !#[trigger] waiting(dv, chunks_left@, e),
            forall|e: int|
                d <= e < n ==> #[trigger] waiting(dv, chunks_left@, e) == waiting(dv, index0, e),
            forall|e: int|
                0 <= e < d && #[trigger] waiting(dv, index0, e) ==> fetchable(
                    resource,
                    header,
                    dv.descriptors[e],
                ),
            forall|j: int|
                0 <= j < dv.layout.len() ==> #[trigger] segment_fetched(
                    dv,
                    header,
                    resource,
                    index0,
                    d as int,
                    out0,
                    output@,
                    j,
                ),
        decreases n - d,
    {
        let hash = archive.chunk_hash(d);
        let ghost index1 = chunks_left@;
        let ghost out1 = output@;
        let ghost d1 = d as int + 1;
        assert(waiting(dv, index1, d as int) == waiting(dv, index0, d as int));
        match chunks_left.remove(hash) {
            Some(offsets) => {
                proof {
                    lemma_open_list_after_claim(dv, index1, hash@);
                    assert forall|e: int| 0 <= e < n && e != d implies #[trigger] waiting(
                        dv,
                        chunks_left@,
                        e,
                    ) == waiting(dv, index1, e) by {
                        if e < d {
                            assert(dv.descriptors[e].hash != dv.descriptors[d as int].hash);
                        } else {
                            assert(dv.descriptors[d as int].hash != dv.descriptors[e].hash);
                        }
                    }
                }
                proof {
                    archive.lemma_wf();
                    assert(archive.locations().dom().contains(dv.descriptors[d as int].hash));
                }
                let location = match archive.locate(hash) {
                    Some(location) => location,
                    None => {
                        assert(false);
                        return Err(Error::MissingChunk);
                    },
                };
                assert(location == location_of(dv.descriptors[d as int]));
                let data = match archive.fetch_at(backend, &location) {
                    Ok(data) => data,
                    Err(e) => {
                        assert(waiting(dv, index0, d as int));
                        return Err(e);
                    },
                };
                assert(fetchable(resource, header, dv.descriptors[d as int]));
                assert(data@ == stored_piece(resource, header, dv.descriptors[d as int]));
                let _placed = place(output, &offsets, data.as_slice(), Ghost(dv), Ghost(d as int));
                proof {
                    assert forall|j: int| 0 <= j < dv.layout.len() implies #[trigger] segment_fetched(
                        dv,
                        header,
                        resource,
                        index0,
                        d1,
                        out0,
                        output@,
                        j,
                    ) by {
                        assert(segment_fetched(dv, header, resource, index0, d as int, out0, out1, j));
                        assert(segment(dv, output@, j) == if dv.layout[j] == d as int {
                            data@
                        } else {
                            segment(dv, out1, j)
                        });
                    }
                }
                count = count + 1;
            },
            None => {
                proof {
                    assert forall|j: int| 0 <= j < dv.layout.len() implies #[trigger] segment_fetched(
                        dv,
                        header,
                        resource,
                        index0,
                        d1,
                        out0,
                        output@,
                        j,
                    ) by {
                        assert(segment_fetched(dv, header, resource, index0, d as int, out0, out1, j));
                    }
                }
            },
        }
        d += 1;
    }
    proof {
        assert forall|h: Seq<u8>| !chunks_left@.dom().contains(h) by {
            if chunks_left@.dom().contains(h) {
                let e = choose|e: int|
                    0 <= e < dv.descriptors.len() && (#[trigger] dv.descriptors[e]).hash == h;
                assert(waiting(dv, chunks_left@, e));
            }
        }
        assert(chunks_left@ =~= Map::<Seq<u8>, Seq<u64>>::empty());
        chunks_left.lemma_size();
    }
    Ok(count)
}

/// The chunk that a reconstruction places for descriptor `d`: the first seed
/// chunk that matches, or else the chunk that the resource holds.
pub open spec fn source_piece(
    dv: DictionaryView,
    hash_length: nat,
    seed_chunks: Seq<Seq<u8>>,
    resource: Seq<u8>,
    header: Header,
    d: int,
) -> Seq<u8> {
    match seed_hit(dv, hash_length, seed_chunks, d, seed_chunks.len()) {
        Some(k) => seed_chunks[k],
        None => stored_piece(resource, header, dv.descriptors[d]),
    }
}

/// The chunks that a reconstruction places, one for each descriptor.
pub open spec fn source_pieces(
    dv: DictionaryView,
    hash_length: nat,
    seed_chunks: Seq<Seq<u8>>,
    resource: Seq<u8>,
    header: Header,
) -> Seq<Seq<u8>> {
    Seq::new(
        dv.descriptors.len(),
        |d: int| source_piece(dv, hash_length, seed_chunks, resource, header, d),
    )
}

/// The output of a reconstruction: in every segment of the layout the chunk
/// placed for its descriptor.
pub open spec fn reconstruction(
    dv: DictionaryView,
    hash_length: nat,
    seed_chunks: Seq<Seq<u8>>,
    resource: Seq<u8>,
    header: Header,
) -> Seq<u8> {
    assembled(
        dv,
        source_pieces(dv, hash_length, seed_chunks, resource, header),
        dv.layout.len(),
    )
}

/// Whether the chunk of descriptor `d` has to be fetched: the output needs
/// it and the seed does not supply it.
pub open spec fn needed(
    dv: DictionaryView,
    hash_length: nat,
    seed_chunks: Seq<Seq<u8>>,
    d: int,
) -> bool {
    &&& 0 <= d < dv.descriptors.len()
    &&& referenced(dv, d)
    &&& seed_hit(dv, hash_length, seed_chunks, d, seed_chunks.len()) is None
}

/// The descriptors whose chunks the output needs and the seed supplies.
pub open spec fn supplied(dv: DictionaryView, hash_length: nat, seed_chunks: Seq<Seq<u8>>) -> Set<
    int,
> {
    Set::new(
        |d: int|
            0 <= d < dv.descriptors.len() && referenced(dv, d) && seed_hit(
                dv,
                hash_length,
                seed_chunks,
                d,
                seed_chunks.len(),
            ) is Some,
    )
}

/// The hashes of the chunks that have to be fetched.
pub open spec fn needed_hashes(
    dv: DictionaryView,
    hash_length: nat,
    seed_chunks: Seq<Seq<u8>>,
) -> Set<Seq<u8>> {
    Set::new(
        |h: Seq<u8>|
            exists|d: int|
                #[trigger] needed(dv, hash_length, seed_chunks, d) && dv.descriptors[d].hash == h,
    )
}

/// The number of output bytes, among the first `n` segments, that the seed
/// supplies.
pub open spec fn seeded_bytes(
    dv: DictionaryView,
    hash_length: nat,
    seed_chunks: Seq<Seq<u8>>,
    n: nat,
) -> nat
    decreases n,
{
    if n == 0 {
        0
    } else {
        seeded_bytes(dv, hash_length, seed_chunks, (n - 1) as nat) + if seed_hit(
            dv,
            hash_length,
            seed_chunks,
            dv.layout[n - 1] as int,
            seed_chunks.len(),
        ) is Some {
            dv.segment_size(n - 1)
        } else {
            0
        }
    }
}

/// In the work list of a dictionary, a chunk is waited for exactly if the
/// output needs it.
pub proof fn lemma_waiting_is_referenced(dv: DictionaryView, index: &ChunkIndex)
    requires
        dv.wf(),
        index.wf(),
        dv.indexed_by(index@),
    ensures
        forall|d: int|
            0 <= d < dv.descriptors.len() ==> #[trigger] waiting(dv, index@, d) == referenced(
                dv,
                d,
            ),
{
    index.lemma_offsets_nonempty();
    assert forall|d: int| 0 <= d < dv.descriptors.len() implies #[trigger] waiting(dv, index@, d)
        == referenced(dv, d) by {
        let h = dv.descriptors[d].hash;
        assert(crate::chunk_index::offsets_in(index@, dv.descriptors[d].hash) == dv.offsets_of(
            d,
            dv.layout.len(),
        ));
        if index@.dom().contains(h) {
            assert(index@[h].len() > 0);
        }
    }
}

/// Every byte of the output is either supplied by the seed or still waited
/// for after seeding.
pub proof fn lemma_seeded_bytes(
    dv: DictionaryView,
    hash_length: nat,
    seed_chunks: Seq<Seq<u8>>,
    index: Map<Seq<u8>, Seq<u64>>,
    n: nat,
)
    requires
        n <= dv.layout.len(),
        forall|j: int|
            0 <= j < dv.layout.len() ==> #[trigger] waiting(dv, index, dv.layout[j] as int)
                == seed_hit(
                dv,
                hash_length,
                seed_chunks,
                dv.layout[j] as int,
                seed_chunks.len(),
            ) is None,
    ensures
        seeded_bytes(dv, hash_length, seed_chunks, n) + remaining(dv, index, n)
            == dv.segment_start(n),
    decreases n,
{
    if n > 0 {
        lemma_seeded_bytes(dv, hash_length, seed_chunks, index, (n - 1) as nat);
        assert(waiting(dv, index, dv.layout[n - 1] as int) == seed_hit(
            dv,
            hash_length,
            seed_chunks,
            dv.layout[n - 1] as int,
            seed_chunks.len(),
        ) is None);
    }
}

/// Reconstructs the output of an archive: what the chunks of `seed` supply is
/// taken from there, and the rest is fetched through the backend.
///
/// On success the output is the reconstruction, every chunk that had to be
/// fetched was there to be had, and the statistics count the descriptors
/// that the seed supplied, the output bytes that it filled and the chunks
/// that were fetched. It fails if the output is too long to be held in
/// memory, or with the error of the first fetch that fails.
pub fn clone_archive<B: ReaderBackend>(archive: &ArchiveReader, backend: &mut B, seed: &[u8]) -> (r:
    Result<(Vec<u8>, CloneStats), Error>)
    requires
        archive.wf(),
    ensures
        final(backend).resource() == old(backend).resource(),
        forall|o: u64, s: usize| final(backend).serves(o, s) == old(backend).serves(o, s),
        match r {
            Ok((out, stats)) => {
                &&& out@ == reconstruction(
                    archive.dictionary(),
                    archive.header().hash_length as nat,
                    chunks(archive.header().chunker, seed@),
                    old(backend).resource(),
                    archive.header(),
                )
                &&& forall|d: int|
                    #[trigger] needed(
                        archive.dictionary(),
                        archive.header().hash_length as nat,
                        chunks(archive.header().chunker, seed@),
                        d,
                    ) ==> fetchable(
                        old(backend).resource(),
                        archive.header(),
                        archive.dictionary().descriptors[d],
                    )
                &&& stats.seed.chunks_used == supplied(
                    archive.dictionary(),
                    archive.header().hash_length as nat,
                    chunks(archive.header().chunker, seed@),
                ).len()
                &&& stats.seed.bytes_used == seeded_bytes(
                    archive.dictionary(),
                    archive.header().hash_length as nat,
                    chunks(archive.header().chunker, seed@),
                    archive.dictionary().layout.len(),
                )
                &&& stats.chunks_fetched == needed_hashes(
                    archive.dictionary(),
                    archive.header().hash_length as nat,
                    chunks(archive.header().chunker, seed@),
                ).len()
            },
            Err(e) => {
                ||| archive.dictionary().total_size() > usize::MAX && e == Error::TooLarge
                ||| exists|d: int|
                    #[trigger] needed(
                        archive.dictionary(),
                        archive.header().hash_length as nat,
                        chunks(archive.header().chunker, seed@),
                        d,
                    ) && fetch_fails(
                        *old(backend),
                        archive.header(),
                        location_of(archive.dictionary().descriptors[d]),
                        e,
                    )
            },
        },
{
    let ghost dv = archive.dictionary();
    let ghost header = archive.header();
    let ghost hl = header.hash_length as nat;
    let ghost sc = chunks(header.chunker, seed@);
    let ghost resource = backend.resource();
    proof {
        archive.lemma_wf();
    }
    let total = archive.total_size();
    if total > usize::MAX as u64 {
        return Err(Error::TooLarge);
    }
    let mut output = Output::with_size(total as usize);
    let mut chunks_left = archive.source_index();
    let ghost index0 = chunks_left@;
    let ghost out0 = output@;
    let _waited = chunks_left.len();
    let config = archive.chunker_config();
    let input = SeedInput::new(seed, &config, 1);
    proof {
        lemma_indexed_is_open(dv, index0);
        lemma_waiting_is_referenced(dv, &chunks_left);
        lemma_remaining_bound(dv, index0, dv.layout.len());
        lemma_remaining_all(dv, index0, dv.layout.len());
    }
    let seed_stats = match input.seed(archive, &mut chunks_left, &mut output) {
        Ok(stats) => stats,
        Err(e) => {
            assert(false);
            return Err(e);
        },
    };
    let ghost index1 = chunks_left@;
    let ghost out1 = output@;
    proof {
        assert(seeded(dv, hl, sc, index0, index1, out0, out1));
        assert forall|j: int| 0 <= j < dv.layout.len() implies #[trigger] waiting(
            dv,
            index1,
            dv.layout[j] as int,
        ) == seed_hit(dv, hl, sc, dv.layout[j] as int, sc.len()) is None by {
            assert(waiting(dv, index0, dv.layout[j] as int));
        }
        lemma_seeded_bytes(dv, hl, sc, index1, dv.layout.len());
        assert(seed_claims(dv, hl, index0, sc, sc.len()) =~= supplied(dv, hl, sc));
        assert forall|h: Seq<u8>| index1.dom().contains(h) == needed_hashes(dv, hl, sc).contains(
            h,
        ) by {
            if index1.dom().contains(h) {
                let d = choose|d: int|
                    0 <= d < dv.descriptors.len() && (#[trigger] dv.descriptors[d]).hash == h;
                assert(waiting(dv, index1, d));
                assert(needed(dv, hl, sc, d));
            }
            if needed_hashes(dv, hl, sc).contains(h) {
                let d = choose|d: int|
                    #[trigger] needed(dv, hl, sc, d) && dv.descriptors[d].hash == h;
                assert(waiting(dv, index1, d));
            }
        }
        assert(index1.dom() =~= needed_hashes(dv, hl, sc));
    }
    let count = match fetch_remaining(archive, backend, &mut chunks_left, &mut output) {
        Ok(count) => count,
        Err(e) => {
            proof {
                let d = choose|d: int|
                    0 <= d < dv.descriptors.len() && #[trigger] waiting(dv, index1, d)
                        && fetch_fails(
                        *old(backend),
                        header,
                        location_of(dv.descriptors[d]),
                        e,
                    );
                assert(needed(dv, hl, sc, d));
            }
            return Err(e);
        },
    };
    proof {
        let pieces = source_pieces(dv, hl, sc, resource, header);
        assert forall|j: int| 0 <= j < dv.layout.len() implies #[trigger] segment(dv, output@, j)
            == pieces[dv.layout[j] as int] by {
            let d = dv.layout[j] as int;
            assert(dv.layout[j] < dv.descriptors.len());
            assert(segment_fetched(
                dv,
                header,
                resource,
                index1,
                dv.descriptors.len() as int,
                out1,
                output@,
                j,
            ));
            assert(segment_seeded(dv, hl, sc, sc.len(), index0, out0, out1, j));
            assert(waiting(dv, index0, d));
            assert(waiting(dv, index1, d) == (waiting(dv, index0, d) && seed_hit(
                dv,
                hl,
                sc,
                d,
                sc.len(),
            ) is None));
        }
        lemma_assembled(dv, output@, pieces, dv.layout.len());
        assert(output@.take(dv.total_size() as int) =~= output@);
        assert forall|d: int| #[trigger] needed(dv, hl, sc, d) implies fetchable(
            resource,
            header,
            dv.descriptors[d],
        ) by {
            assert(waiting(dv, index1, d));
        }
    }
    Ok((output.into_vec(), CloneStats { seed: seed_stats, chunks_fetched: count }))
}

/// Whether `out` and `stats` are the result of a reconstruction from a
/// resource in memory: the output is the reconstruction, every chunk that had
/// to be fetched was there to be had, and the statistics count the
/// descriptors that the seed supplied, the output bytes that it filled and
/// the chunks that were fetched.
pub open spec fn cloned(
    h: Header,
    dv: DictionaryView,
    seed_chunks: Seq<Seq<u8>>,
    resource: Seq<u8>,
    out: Seq<u8>,
    stats: CloneStats,
) -> bool {
    let hl = h.hash_length as nat;
    &&& out == reconstruction(dv, hl, seed_chunks, resource, h)
    &&& forall|d: int|
        #[trigger] needed(dv, hl, seed_chunks, d) ==> fetchable(resource, h, dv.descriptors[d])
    &&& stats.seed.chunks_used == supplied(dv, hl, seed_chunks).len()
    &&& stats.seed.bytes_used == seeded_bytes(dv, hl, seed_chunks, dv.layout.len())
    &&& stats.chunks_fetched == needed_hashes(dv, hl, seed_chunks).len()
}

/// Whether a reconstruction from a resource in memory fails with `e`: the
/// output is too long to be held in memory, or a chunk that has to be
/// fetched is not there to be had.
pub open spec fn clone_blocked(
    h: Header,
    dv: DictionaryView,
    seed_chunks: Seq<Seq<u8>>,
    resource: Seq<u8>,
    e: Error,
) -> bool {
    ||| dv.total_size() > usize::MAX && e == Error::TooLarge
    ||| exists|d: int|
        #[trigger] needed(dv, h.hash_length as nat, seed_chunks, d) && !fetchable(
            resource,
            h,
            dv.descriptors[d],
        )
}

/// Reconstructs the output of an archive that is held in memory as a whole.
///
/// It fails with the reason why the bytes do not open as an archive; if the
/// output is too long to be held in memory; or if a chunk that has to be
/// fetched is not there to be had. Otherwise it succeeds, and the output is
/// the reconstruction.
pub fn clone_from_memory(archive: &[u8], seed: &[u8]) -> (r: Result<(Vec<u8>, CloneStats), Error>)
    ensures
        match opened(archive@) {
            Err(e) => r == Err::<(Vec<u8>, CloneStats), Error>(e),
            Ok(p) => match r {
                Ok(v) => cloned(p.0, p.1, chunks(p.0.chunker, seed@), archive@, v.0@, v.1),
                Err(e) => clone_blocked(p.0, p.1, chunks(p.0.chunker, seed@), archive@, e),
            },
        },
{
    let reader = match ArchiveReader::parse(archive) {
        Ok(reader) => reader,
        Err(e) => {
            return Err(e);
        },
    };
    let mut backend = MemoryBackend::new(slice_to_vec(archive));
    let ghost before = backend;
    let ghost h = reader.header();
    let ghost dv = reader.dictionary();
    let ghost sc = chunks(h.chunker, seed@);
    let _size = archive.len();
    assert(archive@.len() <= usize::MAX);
    assert(opened(archive@) == Ok::<(Header, DictionaryView), Error>((h, dv)));
    assert(before.resource() == archive@);
    match clone_archive(&reader, &mut backend, seed) {
        Ok((out, stats)) => {
            assert(out@ == reconstruction(dv, h.hash_length as nat, sc, archive@, h));
            assert(stats.seed.chunks_used == supplied(dv, h.hash_length as nat, sc).len());
            assert(stats.seed.bytes_used == seeded_bytes(
                dv,
                h.hash_length as nat,
                sc,
                dv.layout.len(),
            ));
            assert(stats.chunks_fetched == needed_hashes(dv, h.hash_length as nat, sc).len());
            assert(cloned(h, dv, sc, archive@, out@, stats));
            Ok((out, stats))
        },
        Err(e) => {
            proof {
                if !(dv.total_size() > usize::MAX && e == Error::TooLarge) {
                    let d = choose|d: int|
                        #[trigger] needed(dv, h.hash_length as nat, sc, d) && fetch_fails(
                            before,
                            h,
                            location_of(dv.descriptors[d]),
                            e,
                        );
                    let x = dv.descriptors[d];
                    let start = chunk_start(h, location_of(x));
                    if fetchable(archive@, h, x) {
                        assert(before.serves(start as u64, x.stored_size as usize));
                        assert(false);
                    }
                    assert(needed(dv, h.hash_length as nat, sc, d) && !fetchable(archive@, h, x));
                }
                assert(clone_blocked(h, dv, sc, archive@, e));
            }
            Err(e)
        },
    }
}

} // verus!
