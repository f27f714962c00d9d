//! The dictionary of an archive: one descriptor for every unique chunk, and the
//! layout that says which chunk fills each segment of the output.

use crate::chunk_index::{offsets_in, ChunkIndex};
use crate::compression::Compression;
use crate::error::Error;
use crate::hashsum::HashSum;
use vstd::prelude::*;

verus! {

/// What an archive records about one unique chunk.
#[derive(Debug)]
pub struct ChunkDescriptor {
    /// The chunk's hash.
    pub hash: HashSum,
    /// The number of bytes of the chunk.
    pub raw_size: u32,
    /// How the chunk is stored.
    pub compression: Compression,
    /// The number of bytes of the stored form.
    pub stored_size: u32,
    /// Where the stored form begins in the archive's chunk data.
    pub offset: u64,
}

/// A descriptor as a mathematical value.
pub struct DescriptorView {
    pub hash: Seq<u8>,
    pub raw_size: u32,
    pub compression: Compression,
    pub stored_size: u32,
    pub offset: u64,
}

impl View for ChunkDescriptor {
    type V = DescriptorView;

    open spec fn view(&self) -> DescriptorView {
        DescriptorView {
            hash: self.hash@,
            raw_size: self.raw_size,
            compression: self.compression,
            stored_size: self.stored_size,
            offset: self.offset,
        }
    }
}

impl Clone for ChunkDescriptor {
    fn clone(&self) -> (r: Self)
        ensures
            r@ == self@,
    {
        ChunkDescriptor {
            hash: self.hash.clone(),
            raw_size: self.raw_size,
            compression: self.compression,
            stored_size: self.stored_size,
            offset: self.offset,
        }
    }
}

/// The descriptors of an archive and the layout of its output: the `j`-th
/// segment of the output is the chunk of descriptor `layout[j]`.
#[derive(Debug)]
pub struct ChunkDictionary {
    pub descriptors: Vec<ChunkDescriptor>,
    pub layout: Vec<u32>,
}

/// A dictionary as a mathematical value.
pub struct DictionaryView {
    pub descriptors: Seq<DescriptorView>,
    pub layout: Seq<u32>,
}

impl View for ChunkDictionary {
    type V = DictionaryView;

    open spec fn view(&self) -> DictionaryView {
        DictionaryView {
            descriptors: self.descriptors@.map_values(|d: ChunkDescriptor| d@),
            layout: self.layout@,
        }
    }
}

impl DictionaryView {
    /// Every segment of the layout names a descriptor.
    pub open spec fn layout_ok(self) -> bool {
        forall|j: int| 0 <= j < self.layout.len() ==> (#[trigger] self.layout[j]) < self.descriptors.len()
    }

    /// No two descriptors carry the same hash.
    pub open spec fn distinct(self) -> bool {
        forall|a: int, b: int|
            0 <= a < b < self.descriptors.len() ==> (#[trigger] self.descriptors[a]).hash != (
            #[trigger] self.descriptors[b]).hash
    }

    /// The length of segment `j` of the output.
    pub open spec fn segment_size(self, j: int) -> nat {
        self.descriptors[self.layout[j] as int].raw_size as nat
    }

    /// Where segment `j` of the output begins: after the segments before it.
    pub open spec fn segment_start(self, j: nat) -> nat
        decreases j,
    {
        if j == 0 {
            0
        } else {
            self.segment_start((j - 1) as nat) + self.segment_size(j - 1)
        }
    }

    /// The length of the output.
    pub open spec fn total_size(self) -> nat {
        self.segment_start(self.layout.len())
    }

    /// The starts of those among the first `n` segments that descriptor `d`
    /// fills, in ascending order.
    pub open spec fn offsets_of(self, d: int, n: nat) -> Seq<u64>
        decreases n,
    {
        if n == 0 {
            Seq::empty()
        } else if self.layout[n - 1] == d {
            self.offsets_of(d, (n - 1) as nat).push(self.segment_start((n - 1) as nat) as u64)
        } else {
            self.offsets_of(d, (n - 1) as nat)
        }
    }

    /// The dictionary is consistent: the layout names descriptors only, no
    /// hash occurs twice, and the output's length can be held in 64 bits.
    pub open spec fn wf(self) -> bool {
        &&& self.layout_ok()
        &&& self.distinct()
        &&& self.total_size() <= u64::MAX
    }

    /// Whether `index` is the work list of this dictionary after the first `n`
    /// segments have been entered: under each descriptor's hash the starts of
    /// the segments it fills, and no other hash.
    pub open spec fn indexed_to(self, index: Map<Seq<u8>, Seq<u64>>, n: nat) -> bool {
        &&& forall|d: int|
            0 <= d < self.descriptors.len() ==> offsets_in(
                index,
                (#[trigger] self.descriptors[d]).hash,
            ) == self.offsets_of(d, n)
        &&& forall|h: Seq<u8>|
            index.dom().contains(h) ==> exists|d: int|
                0 <= d < self.descriptors.len() && (#[trigger] self.descriptors[d]).hash == h
    }

    /// Whether `index` is the whole work list of this dictionary.
    pub open spec fn indexed_by(self, index: Map<Seq<u8>, Seq<u64>>) -> bool {
        self.indexed_to(index, self.layout.len())
    }

    /// What checking the layout gives: the length of the output, or the reason
    /// why the layout cannot be used.
    pub open spec fn checked_size(self) -> Result<u64, Error> {
        if !self.layout_ok() {
            Err(Error::MissingChunk)
        } else if self.total_size() > u64::MAX {
            Err(Error::TooLarge)
        } else {
            Ok(self.total_size() as u64)
        }
    }
}

/// Segments begin in the order of the layout.
pub proof fn lemma_segment_start_monotone(dv: DictionaryView, i: nat, j: nat)
    requires
        i <= j,
    ensures
        dv.segment_start(i) <= dv.segment_start(j),
    decreases j,
{
    if i < j {
        lemma_segment_start_monotone(dv, i, (j - 1) as nat);
    }
}

/// Segments do not overlap: each ends where the next begins, at the latest
/// where any later one begins, and within the output.
pub proof fn lemma_segments_disjoint(dv: DictionaryView, i: nat, j: nat)
    requires
        i < j <= dv.layout.len(),
    ensures
        dv.segment_start(i) + dv.segment_size(i as int) <= dv.segment_start(j),
        dv.segment_start(j) <= dv.total_size(),
{
    lemma_segment_start_monotone(dv, i + 1, j);
    lemma_segment_start_monotone(dv, j, dv.layout.len());
}

/// Whether `offset` is where one of the first `n` segments begins that
/// descriptor `d` fills.
pub open spec fn starts_segment_of(dv: DictionaryView, d: int, n: nat, offset: u64) -> bool {
    exists|j: int|
        0 <= j < n && #[trigger] dv.layout[j] == d && offset == dv.segment_start(j as nat)
}

/// The offsets recorded for a descriptor are the starts of the segments it
/// fills: each of them, and nothing else.
pub proof fn lemma_offsets_of_segments(dv: DictionaryView, d: int, n: nat)
    requires
        n <= dv.layout.len(),
        dv.total_size() <= u64::MAX,
    ensures
        forall|k: int|
            0 <= k < dv.offsets_of(d, n).len() ==> starts_segment_of(
                dv,
                d,
                n,
                #[trigger] dv.offsets_of(d, n)[k],
            ),
        forall|j: int|
            0 <= j < n && #[trigger] dv.layout[j] == d ==> exists|k: int|
                0 <= k < dv.offsets_of(d, n).len() && #[trigger] dv.offsets_of(d, n)[k]
                    == dv.segment_start(j as nat),
    decreases n,
{
    if n > 0 {
        let m = (n - 1) as nat;
        lemma_offsets_of_segments(dv, d, m);
        lemma_segment_start_monotone(dv, m, dv.layout.len());
        let prev = dv.offsets_of(d, m);
        let cur = dv.offsets_of(d, n);
        assert forall|k: int| 0 <= k < cur.len() implies starts_segment_of(
            dv,
            d,
            n,
            #[trigger] cur[k],
        ) by {
            if k < prev.len() {
                assert(cur[k] == prev[k]);
                assert(starts_segment_of(dv, d, m, prev[k]));
                let j = choose|j: int|
                    0 <= j < m && #[trigger] dv.layout[j] == d && prev[k] == dv.segment_start(
                        j as nat,
                    );
                assert(0 <= j < n && dv.layout[j] == d && cur[k] == dv.segment_start(j as nat));
            } else {
                assert(dv.layout[m as int] == d && cur[k] == dv.segment_start(m));
            }
        }
        assert forall|j: int| 0 <= j < n && #[trigger] dv.layout[j] == d implies exists|k: int|
            0 <= k < cur.len() && #[trigger] cur[k] == dv.segment_start(j as nat) by {
            if j < m {
                let k = choose|k: int|
                    0 <= k < prev.len() && #[trigger] prev[k] == dv.segment_start(j as nat);
                assert(cur[k] == prev[k]);
            } else {
                assert(cur[cur.len() - 1] == dv.segment_start(j as nat));
            }
        }
    }
}

impl ChunkDictionary {
    /// Checks the layout against the descriptors and adds up the output's
    /// length.
    pub fn check_layout(&self) -> (r: Result<u64, Error>)
        ensures
            r == self@.checked_size(),
    {
        let ghost dv = self@;
        let n = self.descriptors.len();
        let mut j: usize = 0;
        while j < self.layout.len()
            invariant
                j <= self.layout@.len(),
                n == self.descriptors@.len(),
                dv == self@,
                forall|i: int| 0 <= i < j ==> (#[trigger] dv.layout[i]) < dv.descriptors.len(),
            decreases self.layout@.len() - j,
        {
            if self.layout[j] as usize >= n {
                assert(!(dv.layout[j as int] < dv.descriptors.len()));
                return Err(Error::MissingChunk);
            }
            j += 1;
        }
        let mut total: u64 = 0;
        let mut k: usize = 0;
        while k < self.layout.len()
            invariant
                k <= self.layout@.len(),
                dv == self@,
                dv.layout_ok(),
                total == dv.segment_start(k as nat),
            decreases self.layout@.len() - k,
        {
            let d = self.layout[k] as usize;
            assert(dv.layout[k as int] < dv.descriptors.len());
            let size = self.descriptors[d].raw_size as u64;
            assert(size == dv.segment_size(k as int));
            match total.checked_add(size) {
                Some(next) => {
                    total = next;
                },
                None => {
                    proof {
                        lemma_segment_start_monotone(dv, (k + 1) as nat, dv.layout.len());
                    }
                    return Err(Error::TooLarge);
                },
            }
            k += 1;
        }
        Ok(total)
    }

    /// The work list of a reconstruction: under each chunk hash the starts of
    /// the segments that the chunk fills.
    pub fn source_index(&self) -> (index: ChunkIndex)
        requires
            self@.wf(),
        ensures
            index.wf(),
            self@.indexed_by(index@),
    {
        let ghost dv = self@;
        let mut index = ChunkIndex::new();
        let mut start: u64 = 0;
        let mut j: usize = 0;
        while j < self.layout.len()
            invariant
                j <= self.layout@.len(),
                dv == self@,
                dv.wf(),
                index.wf(),
                start == dv.segment_start(j as nat),
                dv.indexed_to(index@, j as nat),
            decreases self.layout@.len() - j,
        {
            let d = self.layout[j] as usize;
            assert(dv.layout[j as int] < dv.descriptors.len());
            let ghost before = index@;
            let hash = self.descriptors[d].hash.clone();
            proof {
                lemma_segment_start_monotone(dv, (j + 1) as nat, dv.layout.len());
                assert(hash@ == dv.descriptors[d as int].hash);
            }
            index.insert(hash, start);
            proof {
                assert forall|e: int| 0 <= e < dv.descriptors.len() implies offsets_in(
                    index@,
                    (#[trigger] dv.descriptors[e]).hash,
                ) == dv.offsets_of(e, (j + 1) as nat) by {
                    assert(offsets_in(before, dv.descriptors[e].hash) == dv.offsets_of(
                        e,
                        j as nat,
                    ));
                    if e != d {
                        if e < d {
                            assert(dv.descriptors[e].hash != dv.descriptors[d as int].hash);
                        } else {
                            assert(dv.descriptors[d as int].hash != dv.descriptors[e].hash);
                        }
                    }
                }
                assert forall|h: Seq<u8>| index@.dom().contains(h) implies exists|e: int|
                    0 <= e < dv.descriptors.len() && (#[trigger] dv.descriptors[e]).hash == h by {
                    if h == dv.descriptors[d as int].hash {
                    } else {
                        assert(before.dom().contains(h));
                    }
                }
            }
            start = start + self.descriptors[d].raw_size as u64;
            j += 1;
        }
        index
    }
}

} // verus!
