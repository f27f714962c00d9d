//! Seeding: chunks of data that is already at hand are matched against the
//! work list of a reconstruction, and those that are waited for are placed in
//! the output without being fetched.

use crate::archive_reader::ArchiveReader;
use crate::chunk_dictionary::DictionaryView;
use crate::chunk_index::ChunkIndex;
use crate::chunker::{chunk_all, chunks, chunks_match, ChunkerConfig};
use crate::error::Error;
use crate::hashsum::{truncated_digest, HashSum};
use crate::layout::{
    lemma_open_list_after_claim, lemma_remaining_after_claim, lemma_remaining_bound, open_list,
    place, remaining, segment, waiting,
};
use crate::output::Output;
use vstd::prelude::*;

verus! {

/// What one seeding operation has contributed.
#[derive(Debug, Clone, Copy, PartialEq, Eq, Structural)]
pub struct SeedStats {
    /// The number of chunks that were claimed for the output.
    pub chunks_used: usize,
    /// The number of output bytes that were filled.
    pub bytes_used: u64,
}

impl Default for SeedStats {
    fn default() -> (r: Self)
        ensures
            r.chunks_used == 0,
            r.bytes_used == 0,
    {
        SeedStats { chunks_used: 0, bytes_used: 0 }
    }
}

/// Whether a seed chunk can stand for the chunk of descriptor `d`: it has the
/// descriptor's hash, cut to `hash_length` bytes, and its length.
pub open spec fn stands_for(dv: DictionaryView, hash_length: nat, chunk: Seq<u8>, d: int) -> bool {
    &&& truncated_digest(chunk, hash_length) == dv.descriptors[d].hash
    &&& chunk.len() == dv.descriptors[d].raw_size
}

/// The first among the first `n` seed chunks that can stand for the chunk of
/// descriptor `d`, if there is one.
pub open spec fn seed_hit(
    dv: DictionaryView,
    hash_length: nat,
    seed_chunks: Seq<Seq<u8>>,
    d: int,
    n: nat,
) -> Option<int>
    decreases n,
{
    if n == 0 {
        None
    } else {
        match seed_hit(dv, hash_length, seed_chunks, d, (n - 1) as nat) {
            Some(k) => Some(k),
            None => if stands_for(dv, hash_length, seed_chunks[n - 1], d) {
                Some(n - 1)
            } else {
                None
            },
        }
    }
}

/// The descriptors whose chunks the first `n` seed chunks supply, among those
/// that `index` waits for.
pub open spec fn seed_claims(
    dv: DictionaryView,
    hash_length: nat,
    index: Map<Seq<u8>, Seq<u64>>,
    seed_chunks: Seq<Seq<u8>>,
    n: nat,
) -> Set<int> {
    Set::new(
        |d: int|
            0 <= d < dv.descriptors.len() && waiting(dv, index, d) && seed_hit(
                dv,
                hash_length,
                seed_chunks,
                d,
                n,
            ) is Some,
    )
}

/// Whether descriptor `d` is the one that a chunk with hash `hash` and length
/// `size` is claimed for: it has that hash and that length, and is still
/// waited for.
pub open spec fn claimable(
    dv: DictionaryView,
    index: Map<Seq<u8>, Seq<u64>>,
    hash: Seq<u8>,
    size: usize,
    d: int,
) -> bool {
    &&& 0 <= d < dv.descriptors.len()
    &&& dv.descriptors[d].hash == hash
    &&& dv.descriptors[d].raw_size == size
    &&& index.dom().contains(hash)
}

/// What a seed hit is: a chunk that matches, before which none matches.
pub proof fn lemma_seed_hit(
    dv: DictionaryView,
    hash_length: nat,
    seed_chunks: Seq<Seq<u8>>,
    d: int,
    n: nat,
)
    ensures
        match seed_hit(dv, hash_length, seed_chunks, d, n) {
            Some(k) => 0 <= k < n && stands_for(dv, hash_length, seed_chunks[k], d) && forall|i: int|
                0 <= i < k ==> !stands_for(dv, hash_length, #[trigger] seed_chunks[i], d),
            None => forall|i: int|
                0 <= i < n ==> !stands_for(dv, hash_length, #[trigger] seed_chunks[i], d),
        },
    decreases n,
{
    if n > 0 {
        lemma_seed_hit(dv, hash_length, seed_chunks, d, (n - 1) as nat);
    }
}

/// A source of seed data together with the parameters to chunk it with.
pub struct SeedInput<'a, I> {
    input: I,
    chunker_config: &'a ChunkerConfig,
    num_chunk_buffers: usize,
    stats: SeedStats,
}

impl<'a, I> SeedInput<'a, I> {
    /// The source of the seed data.
    pub closed spec fn input(&self) -> I {
        self.input
    }

    /// The parameters that the seed data is chunked with.
    pub closed spec fn config(&self) -> ChunkerConfig {
        *self.chunker_config
    }

    /// The number of chunks that may be hashed at a time.
    pub closed spec fn buffers(&self) -> usize {
        self.num_chunk_buffers
    }

    /// What has been contributed so far.
    pub closed spec fn stats(&self) -> SeedStats {
        self.stats
    }

    /// Whether the statistics leave room for everything that `index` still
    /// waits for: the bytes used and the bytes waited for are no more than
    /// the output holds, and the chunks used and the hashes waited for can
    /// be counted.
    pub open spec fn within(&self, dv: DictionaryView, index: &ChunkIndex) -> bool {
        &&& self.stats().bytes_used + remaining(dv, index@, dv.layout.len()) <= dv.total_size()
        &&& self.stats().chunks_used + index.size() <= usize::MAX
    }

    /// A seed input that has contributed nothing yet.
    pub fn new(input: I, chunker_config: &'a ChunkerConfig, num_chunk_buffers: usize) -> (r: Self)
        ensures
            r.input() == input,
            r.config() == *chunker_config,
            r.buffers() == num_chunk_buffers,
            r.stats() == (SeedStats { chunks_used: 0, bytes_used: 0 }),
    {
        Self { input, chunker_config, num_chunk_buffers, stats: SeedStats::default() }
    }

    /// The parameters that the seed data is chunked with.
    pub fn chunker_config(&self) -> (cfg: &'a ChunkerConfig)
        ensures
            *cfg == self.config(),
    {
        self.chunker_config
    }

    /// The number of chunks that may be hashed at a time.
    pub fn num_chunk_buffers(&self) -> (n: usize)
        ensures
            n == self.buffers(),
    {
        self.num_chunk_buffers
    }

    /// What has been contributed so far.
    pub fn current_stats(&self) -> (s: SeedStats)
        ensures
            s == self.stats(),
    {
        self.stats
    }

    /// Decides what to do with one seed chunk, given its hash and length. If
    /// the archive holds a chunk with this hash and length that is still
    /// waited for, the chunk is claimed: its offsets leave the work list and
    /// are handed out for the caller to write the chunk to, and the
    /// statistics count the chunk once and its bytes once per offset.
    /// Otherwise nothing changes.
    pub fn claim(
        &mut self,
        archive: &ArchiveReader,
        chunks_left: &mut ChunkIndex,
        hash: &HashSum,
        size: usize,
    ) -> (r: Option<Vec<u64>>)
        requires
            archive.wf(),
            old(chunks_left).wf(),
            open_list(archive.dictionary(), old(chunks_left)@),
            old(self).within(archive.dictionary(), old(chunks_left)),
        ensures
            final(chunks_left).wf(),
            open_list(archive.dictionary(), final(chunks_left)@),
            final(self).within(archive.dictionary(), final(chunks_left)),
            final(self).input() == old(self).input(),
            final(self).config() == old(self).config(),
            final(self).buffers() == old(self).buffers(),
            match r {
                Some(offsets) => (exists|d: int|
                    #[trigger] claimable(archive.dictionary(), old(chunks_left)@, hash@, size, d)
                        && offsets@ == archive.dictionary().offsets_of(
                        d,
                        archive.dictionary().layout.len(),
                    )) && final(chunks_left)@ == old(chunks_left)@.remove(hash@) && final(
                    self
                ).stats().chunks_used == old(self).stats().chunks_used + 1 && final(
                    self
                ).stats().bytes_used == old(self).stats().bytes_used + size * offsets@.len(),
                None => (forall|d: int|
                    !#[trigger] claimable(archive.dictionary(), old(chunks_left)@, hash@, size, d))
                    && final(chunks_left)@ == old(chunks_left)@ && final(self).stats() == old(
                    self
                ).stats(),
            },
    {
        let ghost dv = archive.dictionary();
        let ghost before = chunks_left@;
        proof {
            archive.lemma_wf();
        }
        let location = match archive.locate(hash) {
            Some(location) => location,
            None => {
                return None;
            },
        };
        let ghost d = choose|d: int|
            0 <= d < dv.descriptors.len() && (#[trigger] dv.descriptors[d]).hash == hash@;
        proof {
            assert forall|e: int|
                0 <= e < dv.descriptors.len() && dv.descriptors[e].hash
                    == hash@ implies dv.descriptors[e].raw_size == location.raw_size by {
                assert(archive.locations()[dv.descriptors[e].hash] == crate::chunk_location_map::location_of(
                    dv.descriptors[e],
                ));
            }
        }
        if location.raw_size as usize != size {
            return None;
        }
        match chunks_left.remove(hash) {
            Some(offsets) => {
                proof {
                    assert(claimable(dv, before, hash@, size, d));
                    lemma_open_list_after_claim(dv, before, hash@);
                    lemma_remaining_after_claim(dv, before, d, dv.layout.len());
                    lemma_remaining_bound(dv, chunks_left@, dv.layout.len());
                    assert(size * offsets@.len() == dv.descriptors[d].raw_size * dv.offsets_of(
                        d,
                        dv.layout.len(),
                    ).len());
                }
                let n = offsets.len();
                let bytes: u64 = size as u64 * n as u64;
                self.stats.bytes_used = self.stats.bytes_used + bytes;
                self.stats.chunks_used = self.stats.chunks_used + 1;
                Some(offsets)
            },
            None => None,
        }
    }

    /// Parts the source of the seed data from the rest, for a caller that
    /// reads the source itself and hands its chunks to `claim`.
    pub fn split(self) -> (r: (I, SeedInput<'a, ()>))
        ensures
            r.0 == self.input(),
            r.1.config() == self.config(),
            r.1.buffers() == self.buffers(),
            r.1.stats() == self.stats(),
    {
        (
            self.input,
            SeedInput {
                input: (),
                chunker_config: self.chunker_config,
                num_chunk_buffers: self.num_chunk_buffers,
                stats: self.stats,
            },
        )
    }

    /// Ends the seeding operation and hands out what it contributed.
    pub fn finish(self) -> (s: SeedStats)
        ensures
            s == self.stats(),
    {
        self.stats
    }
}

impl<'a, 'b> SeedInput<'a, &'b [u8]> {
    /// Seeds a reconstruction from data held in memory: cuts the data into
    /// chunks, claims every chunk that is still waited for and writes it to
    /// all its offsets. A segment whose chunk was waited for and is supplied
    /// by the seed holds the first seed chunk that matches; every other
    /// segment is left as it was.
    pub fn seed(
        self,
        archive: &ArchiveReader,
        chunks_left: &mut ChunkIndex,
        output: &mut Output,
    ) -> (r: Result<SeedStats, Error>)
        requires
            archive.wf(),
            self.config().wf(),
            old(chunks_left).wf(),
            open_list(archive.dictionary(), old(chunks_left)@),
            self.within(archive.dictionary(), old(chunks_left)),
            old(output)@.len() == archive.dictionary().total_size(),
        ensures
            r is Ok,
            final(chunks_left).wf(),
            open_list(archive.dictionary(), final(chunks_left)@),
            final(output)@.len() == old(output)@.len(),
            seeded(
                archive.dictionary(),
                archive.header().hash_length as nat,
                chunks(self.config(), self.input()@),
                old(chunks_left)@,
                final(chunks_left)@,
                old(output)@,
                final(output)@,
            ),
            r->Ok_0.bytes_used + remaining(
                archive.dictionary(),
                final(chunks_left)@,
                archive.dictionary().layout.len(),
            ) == self.stats().bytes_used + remaining(
                archive.dictionary(),
                old(chunks_left)@,
                archive.dictionary().layout.len(),
            ),
            r->Ok_0.chunks_used == self.stats().chunks_used + seed_claims(
                archive.dictionary(),
                archive.header().hash_length as nat,
                old(chunks_left)@,
                chunks(self.config(), self.input()@),
                chunks(self.config(), self.input()@).len(),
            ).len(),
    {
        let ghost dv = archive.dictionary();
        let ghost hl = archive.header().hash_length as nat;
        let ghost sc = chunks(self.config(), self.input()@);
        let ghost index0 = chunks_left@;
        let ghost out0 = output@;
        let ghost stats0 = self.stats;
        let mut this = self;
        let hash_length = archive.chunk_hash_length();
        let seed_chunks = chunk_all(this.chunker_config, this.input);
        proof {
            archive.lemma_wf();
            assert(seed_claims(dv, hl, index0, sc, 0) =~= Set::<int>::empty());
        }
        let mut k: usize = 0;
        while k < seed_chunks.len()
            invariant
                k <= seed_chunks@.len(),
                archive.wf(),
                dv == archive.dictionary(),
                dv.wf(),
                hl == archive.header().hash_length as nat,
                hash_length == hl,
                chunks_match(seed_chunks@, 0, sc),
                chunks_left.wf(),
                open_list(dv, index0),
                open_list(dv, chunks_left@),
                this.within(dv, chunks_left),
                output@.len() == dv.total_size(),
                out0.len() == dv.total_size(),
                seeded_to(dv, hl, sc, k as nat, index0, chunks_left@, out0, output@),
                this.stats.bytes_used + remaining(dv, chunks_left@, dv.layout.len())
                    == stats0.bytes_used + remaining(dv, index0, dv.layout.len()),
                seed_claims(dv, hl, index0, sc, k as nat).finite(),
                this.stats.chunks_used == stats0.chunks_used + seed_claims(
                    dv,
                    hl,
                    index0,
                    sc,
                    k as nat,
                ).len(),
            decreases seed_chunks@.len() - k,
        {
            let chunk = &seed_chunks[k];
            let ghost index1 = chunks_left@;
            let ghost out1 = output@;
            let ghost c = sc[k as int];
            let ghost k1 = (k + 1) as nat;
            assert(chunk.data@ == c);
            let hash = HashSum::b2_digest(chunk.data.as_slice(), hash_length);
            match this.claim(archive, chunks_left, &hash, chunk.data.len()) {
                Some(offsets) => {
                    let ghost d = choose|d: int|
                        #[trigger] claimable(dv, index1, hash@, chunk.data.len(), d) && offsets@
                            == dv.offsets_of(d, dv.layout.len());
                    let _placed = place(output, &offsets, chunk.data.as_slice(), Ghost(dv), Ghost(d));
                    proof {
                        lemma_step_claimed(dv, hl, sc, k as nat, index0, index1, d);
                        lemma_remaining_after_claim(dv, index1, d, dv.layout.len());
                        assert(chunk.data@.len() * offsets@.len() == dv.descriptors[d].raw_size
                            * dv.offsets_of(d, dv.layout.len()).len());
                        assert forall|j: int| 0 <= j < dv.layout.len() implies #[trigger] segment_seeded(
                            dv,
                            hl,
                            sc,
                            k1,
                            index0,
                            out0,
                            output@,
                            j,
                        ) by {
                            assert(segment_seeded(dv, hl, sc, k as nat, index0, out0, out1, j));
                            let e = dv.layout[j] as int;
                            assert(segment(dv, output@, j) == if dv.layout[j] == d {
                                c
                            } else {
                                segment(dv, out1, j)
                            });
                        }
                    }
                },
                None => {
                    proof {
                        lemma_step_passed(dv, hl, sc, k as nat, index0, index1);
                        assert forall|j: int| 0 <= j < dv.layout.len() implies #[trigger] segment_seeded(
                            dv,
                            hl,
                            sc,
                            k1,
                            index0,
                            out0,
                            output@,
                            j,
                        ) by {
                            assert(segment_seeded(dv, hl, sc, k as nat, index0, out0, out1, j));
                        }
                    }
                },
            }
            k += 1;
        }
        Ok(this.stats)
    }
}

/// Whether segment `j` of `out` is as seeding with the first `n` seed chunks
/// leaves it: if its chunk was waited for by `index0` and is supplied by the
/// seed, it holds the first seed chunk that matches; otherwise it is as in
/// `out0`.
pub open spec fn segment_seeded(
    dv: DictionaryView,
    hash_length: nat,
    seed_chunks: Seq<Seq<u8>>,
    n: nat,
    index0: Map<Seq<u8>, Seq<u64>>,
    out0: Seq<u8>,
    out: Seq<u8>,
    j: int,
) -> bool {
    let d = dv.layout[j] as int;
    segment(dv, out, j) == match seed_hit(dv, hash_length, seed_chunks, d, n) {
        Some(k) => if waiting(dv, index0, d) {
            seed_chunks[k]
        } else {
            segment(dv, out0, j)
        },
        None => segment(dv, out0, j),
    }
}

/// Whether `index` and `out` are what seeding with the first `n` seed chunks
/// makes of `index0` and `out0`: a chunk is still waited for if it was and
/// the seed does not supply it, and every segment is as seeding leaves it.
pub open spec fn seeded_to(
    dv: DictionaryView,
    hash_length: nat,
    seed_chunks: Seq<Seq<u8>>,
    n: nat,
    index0: Map<Seq<u8>, Seq<u64>>,
    index: Map<Seq<u8>, Seq<u64>>,
    out0: Seq<u8>,
    out: Seq<u8>,
) -> bool {
    &&& forall|d: int|
        0 <= d < dv.descriptors.len() ==> #[trigger] waiting(dv, index, d) == (waiting(
            dv,
            index0,
            d,
        ) && seed_hit(dv, hash_length, seed_chunks, d, n) is None)
    &&& forall|j: int|
        0 <= j < dv.layout.len() ==> #[trigger] segment_seeded(
            dv,
            hash_length,
            seed_chunks,
            n,
            index0,
            out0,
            out,
            j,
        )
}

/// Whether `index` and `out` are what seeding with all the seed chunks makes
/// of `index0` and `out0`.
pub open spec fn seeded(
    dv: DictionaryView,
    hash_length: nat,
    seed_chunks: Seq<Seq<u8>>,
    index0: Map<Seq<u8>, Seq<u64>>,
    index: Map<Seq<u8>, Seq<u64>>,
    out0: Seq<u8>,
    out: Seq<u8>,
) -> bool {
    seeded_to(dv, hash_length, seed_chunks, seed_chunks.len(), index0, index, out0, out)
}

/// The effect on the work list of a seed chunk that was claimed for
/// descriptor `d`.
proof fn lemma_step_claimed(
    dv: DictionaryView,
    hl: nat,
    sc: Seq<Seq<u8>>,
    k: nat,
    index0: Map<Seq<u8>, Seq<u64>>,
    index1: Map<Seq<u8>, Seq<u64>>,
    d: int,
)
    requires
        dv.wf(),
        k < sc.len(),
        claimable(dv, index1, truncated_digest(sc[k as int], hl), sc[k as int].len() as usize, d),
        sc[k as int].len() <= usize::MAX,
        forall|e: int|
            0 <= e < dv.descriptors.len() ==> #[trigger] waiting(dv, index1, e) == (waiting(
                dv,
                index0,
                e,
            ) && seed_hit(dv, hl, sc, e, k) is None),
        seed_claims(dv, hl, index0, sc, k).finite(),
    ensures
        seed_hit(dv, hl, sc, d, k + 1) == Some(k as int),
        waiting(dv, index0, d),
        forall|e: int|
            0 <= e < dv.descriptors.len() && e != d ==> seed_hit(dv, hl, sc, e, k + 1) == seed_hit(
                dv,
                hl,
                sc,
                e,
                k,
            ),
        forall|e: int|
            0 <= e < dv.descriptors.len() ==> #[trigger] waiting(
                dv,
                index1.remove(dv.descriptors[d].hash),
                e,
            ) == (waiting(dv, index0, e) && seed_hit(dv, hl, sc, e, k + 1) is None),
        seed_claims(dv, hl, index0, sc, k + 1).finite(),
        seed_claims(dv, hl, index0, sc, k + 1).len() == seed_claims(dv, hl, index0, sc, k).len()
            + 1,
{
    let h = dv.descriptors[d].hash;
    assert(waiting(dv, index1, d));
    assert(stands_for(dv, hl, sc[k as int], d));
    assert forall|e: int| 0 <= e < dv.descriptors.len() && e != d implies seed_hit(
        dv,
        hl,
        sc,
        e,
        k + 1,
    ) == seed_hit(dv, hl, sc, e, k) by {
        if e < d {
            assert(dv.descriptors[e].hash != dv.descriptors[d].hash);
        } else {
            assert(dv.descriptors[d].hash != dv.descriptors[e].hash);
        }
    }
    assert forall|e: int| 0 <= e < dv.descriptors.len() implies #[trigger] waiting(
        dv,
        index1.remove(h),
        e,
    ) == (waiting(dv, index0, e) && seed_hit(dv, hl, sc, e, k + 1) is None) by {
        assert(waiting(dv, index1, e) == (waiting(dv, index0, e) && seed_hit(dv, hl, sc, e, k)
            is None));
        if e != d {
            if e < d {
                assert(dv.descriptors[e].hash != dv.descriptors[d].hash);
            } else {
                assert(dv.descriptors[d].hash != dv.descriptors[e].hash);
            }
        }
    }
    let before = seed_claims(dv, hl, index0, sc, k);
    let after = seed_claims(dv, hl, index0, sc, k + 1);
    assert(!before.contains(d));
    assert(after =~= before.insert(d));
}

/// The effect on the work list of a seed chunk that was not claimed.
proof fn lemma_step_passed(
    dv: DictionaryView,
    hl: nat,
    sc: Seq<Seq<u8>>,
    k: nat,
    index0: Map<Seq<u8>, Seq<u64>>,
    index1: Map<Seq<u8>, Seq<u64>>,
)
    requires
        dv.wf(),
        k < sc.len(),
        sc[k as int].len() <= usize::MAX,
        forall|d: int|
            !#[trigger] claimable(
                dv,
                index1,
                truncated_digest(sc[k as int], hl),
                sc[k as int].len() as usize,
                d,
            ),
        forall|e: int|
            0 <= e < dv.descriptors.len() ==> #[trigger] waiting(dv, index1, e) == (waiting(
                dv,
                index0,
                e,
            ) && seed_hit(dv, hl, sc, e, k) is None),
    ensures
        forall|e: int|
            0 <= e < dv.descriptors.len() ==> #[trigger] waiting(dv, index1, e) == (waiting(
                dv,
                index0,
                e,
            ) && seed_hit(dv, hl, sc, e, k + 1) is None),
        forall|e: int|
            0 <= e < dv.descriptors.len() && waiting(dv, index0, e) ==> seed_hit(
                dv,
                hl,
                sc,
                e,
                k + 1,
            ) == seed_hit(dv, hl, sc, e, k),
        seed_claims(dv, hl, index0, sc, k + 1) == seed_claims(dv, hl, index0, sc, k),
{
    let h = truncated_digest(sc[k as int], hl);
    let size = sc[k as int].len() as usize;
    assert forall|e: int| 0 <= e < dv.descriptors.len() && waiting(dv, index0, e) implies seed_hit(
        dv,
        hl,
        sc,
        e,
        k + 1,
    ) == seed_hit(dv, hl, sc, e, k) by {
        assert(!claimable(dv, index1, h, size, e));
        assert(waiting(dv, index1, e) == (waiting(dv, index0, e) && seed_hit(dv, hl, sc, e, k)
            is None));
    }
    assert forall|e: int| 0 <= e < dv.descriptors.len() implies #[trigger] waiting(
        dv,
        index1,
        e,
    ) == (waiting(dv, index0, e) && seed_hit(dv, hl, sc, e, k + 1) is None) by {
        assert(waiting(dv, index1, e) == (waiting(dv, index0, e) && seed_hit(dv, hl, sc, e, k)
            is None));
    }
    assert(seed_claims(dv, hl, index0, sc, k + 1) =~= seed_claims(dv, hl, index0, sc, k));
}

} // verus!
