//! What building an archive and reconstructing from it guarantee together.

use crate::archive::{built, collision_free, holds};
use crate::archive_reader::{opened, validated};
use crate::chunk_dictionary::{lemma_offsets_of_segments, starts_segment_of, DictionaryView};
use crate::chunker::{chunks, concat, lemma_chunks_partition, lemma_concat_push, ChunkerConfig};
use crate::compression::Compression;
use crate::hashsum::truncated_digest;
use crate::header::Header;
use crate::layout::assembled;
use crate::reconstruct::{
    fetchable, needed, needed_hashes, reconstruction, referenced, seeded_bytes, source_piece,
    source_pieces, stored_piece,
};
use crate::seed_input::{lemma_seed_hit, seed_hit, stands_for};
use vstd::prelude::*;

verus! {

/// Whether the seed chunks can be trusted to stand for the target's chunks: a
/// seed chunk with the truncated hash and the length of a target chunk is
/// that chunk.
pub open spec fn agrees(seed_chunks: Seq<Seq<u8>>, target_chunks: Seq<Seq<u8>>, hash_length: nat) -> bool {
    forall|k: int, j: int|
        0 <= k < seed_chunks.len() && 0 <= j < target_chunks.len() && truncated_digest(
            #[trigger] seed_chunks[k],
            hash_length,
        ) == truncated_digest(#[trigger] target_chunks[j], hash_length) && seed_chunks[k].len()
            == target_chunks[j].len() ==> seed_chunks[k] == target_chunks[j]
}

/// Every descriptor that the output needs fills some segment.
proof fn lemma_referenced_has_segment(dv: DictionaryView, d: int)
    requires
        dv.total_size() <= u64::MAX,
        referenced(dv, d),
    ensures
        exists|j: int| 0 <= j < dv.layout.len() && #[trigger] dv.layout[j] == d,
{
    lemma_offsets_of_segments(dv, d, dv.layout.len());
    let first = dv.offsets_of(d, dv.layout.len())[0];
    assert(starts_segment_of(dv, d, dv.layout.len(), first));
}

/// An output put together from the chunks of a sequence, segment by segment,
/// is the chunks laid end to end.
proof fn lemma_assembled_chunks(
    dv: DictionaryView,
    pieces: Seq<Seq<u8>>,
    cs: Seq<Seq<u8>>,
    n: nat,
)
    requires
        n <= cs.len(),
        dv.layout.len() == cs.len(),
        forall|j: int| 0 <= j < cs.len() ==> pieces[(#[trigger] dv.layout[j]) as int] == cs[j],
    ensures
        assembled(dv, pieces, n) == concat(cs.take(n as int)),
    decreases n,
{
    if n > 0 {
        lemma_assembled_chunks(dv, pieces, cs, (n - 1) as nat);
        assert(pieces[dv.layout[n - 1] as int] == cs[n - 1]);
        assert(cs.take(n as int) =~= cs.take(n - 1).push(cs[n - 1]));
        lemma_concat_push(cs.take(n - 1), cs[n - 1]);
    } else {
        assert(cs.take(0) =~= Seq::<Seq<u8>>::empty());
    }
}

/// An archive that holds a chunk sequence shows that the sequence is free of
/// collisions.
pub proof fn lemma_held_chunks_collision_free(
    archive: Seq<u8>,
    h: Header,
    dv: DictionaryView,
    cs: Seq<Seq<u8>>,
)
    requires
        dv.wf(),
        holds(archive, h, dv, cs),
    ensures
        collision_free(cs, h.hash_length as nat),
{
    let hl = h.hash_length as nat;
    assert forall|i: int, j: int|
        0 <= i < j < cs.len() && truncated_digest(#[trigger] cs[i], hl) == truncated_digest(
            #[trigger] cs[j],
            hl,
        ) implies cs[i] == cs[j] by {
        let a = dv.layout[i] as int;
        let b = dv.layout[j] as int;
        assert(dv.layout[i] < dv.descriptors.len());
        assert(dv.layout[j] < dv.descriptors.len());
        if a < b {
            assert(dv.descriptors[a].hash != dv.descriptors[b].hash);
        } else if b < a {
            assert(dv.descriptors[b].hash != dv.descriptors[a].hash);
        }
    }
}

/// Reconstruction gives back what the archive was built from, whatever the
/// seed, as long as the seed chunks can be trusted to stand for the target's
/// chunks; and every chunk that has to be fetched is there to be had.
pub proof fn lemma_rebuild_with_seed(
    archive: Seq<u8>,
    config: ChunkerConfig,
    hash_length: u8,
    compression: Compression,
    level: i32,
    data: Seq<u8>,
    seed: Seq<u8>,
)
    requires
        config.wf(),
        built(archive, config, hash_length, compression, level, data),
        agrees(chunks(config, seed), chunks(config, data), hash_length as nat),
    ensures
        opened(archive) is Ok,
        reconstruction(
            opened(archive)->Ok_0.1,
            hash_length as nat,
            chunks(config, seed),
            archive,
            opened(archive)->Ok_0.0,
        ) == data,
        forall|d: int|
            #[trigger] needed(opened(archive)->Ok_0.1, hash_length as nat, chunks(config, seed), d)
                ==> fetchable(archive, opened(archive)->Ok_0.0, opened(archive)->Ok_0.1.descriptors[d]),
{
    let h = opened(archive)->Ok_0.0;
    let dv = opened(archive)->Ok_0.1;
    let hl = hash_length as nat;
    let cs = chunks(config, data);
    let ssc = chunks(config, seed);
    let pieces = source_pieces(dv, hl, ssc, archive, h);
    assert(validated(h, dv) is Ok);
    assert(dv.wf());
    assert forall|j: int| 0 <= j < cs.len() implies pieces[(#[trigger] dv.layout[j]) as int]
        == cs[j] by {
        let d = dv.layout[j] as int;
        assert(dv.layout[j] < dv.descriptors.len());
        assert(pieces[d] == source_piece(dv, hl, ssc, archive, h, d));
        lemma_seed_hit(dv, hl, ssc, d, ssc.len());
        match seed_hit(dv, hl, ssc, d, ssc.len()) {
            Some(k) => {
                assert(stands_for(dv, hl, ssc[k], d));
            },
            None => {},
        }
    }
    lemma_assembled_chunks(dv, pieces, cs, cs.len());
    assert(cs.take(cs.len() as int) =~= cs);
    lemma_chunks_partition(config, data);
    assert forall|d: int| #[trigger] needed(dv, hl, ssc, d) implies fetchable(
        archive,
        h,
        dv.descriptors[d],
    ) by {
        lemma_referenced_has_segment(dv, d);
        let j = choose|j: int| 0 <= j < dv.layout.len() && #[trigger] dv.layout[j] == d;
        assert(fetchable(archive, h, dv.descriptors[dv.layout[j] as int]));
    }
}

/// Reconstruction without any seed gives back what the archive was built
/// from.
pub proof fn lemma_rebuild_without_seed(
    archive: Seq<u8>,
    config: ChunkerConfig,
    hash_length: u8,
    compression: Compression,
    level: i32,
    data: Seq<u8>,
)
    requires
        config.wf(),
        built(archive, config, hash_length, compression, level, data),
    ensures
        opened(archive) is Ok,
        reconstruction(
            opened(archive)->Ok_0.1,
            hash_length as nat,
            chunks(config, Seq::<u8>::empty()),
            archive,
            opened(archive)->Ok_0.0,
        ) == data,
        forall|d: int|
            #[trigger] needed(
                opened(archive)->Ok_0.1,
                hash_length as nat,
                chunks(config, Seq::<u8>::empty()),
                d,
            ) ==> fetchable(archive, opened(archive)->Ok_0.0, opened(archive)->Ok_0.1.descriptors[d]),
{
    assert(chunks(config, Seq::<u8>::empty()).len() == 0);
    lemma_rebuild_with_seed(
        archive,
        config,
        hash_length,
        compression,
        level,
        data,
        Seq::<u8>::empty(),
    );
}

/// Where the seed supplies the chunk of every segment, all the output's bytes
/// come from the seed.
proof fn lemma_seeded_bytes_all(
    dv: DictionaryView,
    hash_length: nat,
    seed_chunks: Seq<Seq<u8>>,
    n: nat,
)
    requires
        n <= dv.layout.len(),
        forall|j: int|
            0 <= j < dv.layout.len() ==> seed_hit(
                dv,
                hash_length,
                seed_chunks,
                (#[trigger] dv.layout[j]) as int,
                seed_chunks.len(),
            ) is Some,
    ensures
        seeded_bytes(dv, hash_length, seed_chunks, n) == dv.segment_start(n),
    decreases n,
{
    if n > 0 {
        lemma_seeded_bytes_all(dv, hash_length, seed_chunks, (n - 1) as nat);
        assert(seed_hit(dv, hash_length, seed_chunks, dv.layout[n - 1] as int, seed_chunks.len())
            is Some);
    }
}

/// Reconstruction with the target itself as the seed gives back the target
/// without fetching anything: nothing has to be fetched, and the seed fills
/// every byte of the output.
pub proof fn lemma_rebuild_from_itself(
    archive: Seq<u8>,
    config: ChunkerConfig,
    hash_length: u8,
    compression: Compression,
    level: i32,
    data: Seq<u8>,
)
    requires
        config.wf(),
        built(archive, config, hash_length, compression, level, data),
    ensures
        opened(archive) is Ok,
        reconstruction(
            opened(archive)->Ok_0.1,
            hash_length as nat,
            chunks(config, data),
            archive,
            opened(archive)->Ok_0.0,
        ) == data,
        needed_hashes(opened(archive)->Ok_0.1, hash_length as nat, chunks(config, data))
            == Set::<Seq<u8>>::empty(),
        needed_hashes(opened(archive)->Ok_0.1, hash_length as nat, chunks(config, data)).len()
            == 0,
        seeded_bytes(
            opened(archive)->Ok_0.1,
            hash_length as nat,
            chunks(config, data),
            opened(archive)->Ok_0.1.layout.len(),
        ) == data.len(),
{
    let h = opened(archive)->Ok_0.0;
    let dv = opened(archive)->Ok_0.1;
    let hl = hash_length as nat;
    let cs = chunks(config, data);
    assert(validated(h, dv) is Ok);
    assert(dv.wf());
    lemma_held_chunks_collision_free(archive, h, dv, cs);
    assert(agrees(cs, cs, hl)) by {
        assert forall|k: int, j: int|
            0 <= k < cs.len() && 0 <= j < cs.len() && truncated_digest(#[trigger] cs[k], hl)
                == truncated_digest(#[trigger] cs[j], hl) && cs[k].len()
                == cs[j].len() implies cs[k] == cs[j] by {
            if k < j {
                assert(cs[k] == cs[j]);
            } else if j < k {
                assert(cs[j] == cs[k]);
            }
        }
    }
    lemma_rebuild_with_seed(archive, config, hash_length, compression, level, data, data);
    assert forall|j: int| 0 <= j < dv.layout.len() implies seed_hit(
        dv,
        hl,
        cs,
        (#[trigger] dv.layout[j]) as int,
        cs.len(),
    ) is Some by {
        let d = dv.layout[j] as int;
        lemma_seed_hit(dv, hl, cs, d, cs.len());
        assert(stands_for(dv, hl, cs[j], d));
    }
    assert forall|x: Seq<u8>| !needed_hashes(dv, hl, cs).contains(x) by {
        if needed_hashes(dv, hl, cs).contains(x) {
            let d = choose|d: int| #[trigger] needed(dv, hl, cs, d) && dv.descriptors[d].hash == x;
            lemma_referenced_has_segment(dv, d);
            let j = choose|j: int| 0 <= j < dv.layout.len() && #[trigger] dv.layout[j] == d;
            assert(seed_hit(dv, hl, cs, dv.layout[j] as int, cs.len()) is Some);
        }
    }
    assert(needed_hashes(dv, hl, cs) =~= Set::<Seq<u8>>::empty());
    lemma_seeded_bytes_all(dv, hl, cs, dv.layout.len());
    crate::archive::lemma_segment_starts(dv, cs, cs.len());
    assert(cs.take(cs.len() as int) =~= cs);
    lemma_chunks_partition(config, data);
}

} // verus!
