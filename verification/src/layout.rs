//! The state of a reconstruction in terms of the dictionary: which chunks are
//! still waited for, which segments of the output hold what, and how the two
//! change when a chunk is claimed and placed.

use crate::chunk_dictionary::{
    lemma_offsets_of_segments, lemma_segment_start_monotone, lemma_segments_disjoint,
    starts_segment_of, DictionaryView,
};
use crate::output::{written, Output};
use vstd::prelude::*;

verus! {

/// Whether the chunk of descriptor `d` is still waited for.
pub open spec fn waiting(dv: DictionaryView, index: Map<Seq<u8>, Seq<u64>>, d: int) -> bool {
    index.dom().contains(dv.descriptors[d].hash)
}

/// Whether `index` is the work list of `dv` with some chunks claimed: a hash
/// that is still waited for has all the offsets of its descriptor, and every
/// hash is that of a descriptor.
pub open spec fn open_list(dv: DictionaryView, index: Map<Seq<u8>, Seq<u64>>) -> bool {
    &&& forall|d: int|
        0 <= d < dv.descriptors.len() && index.dom().contains((#[trigger] dv.descriptors[d]).hash)
            ==> index[dv.descriptors[d].hash] == dv.offsets_of(d, dv.layout.len())
    &&& forall|h: Seq<u8>|
        index.dom().contains(h) ==> exists|d: int|
            0 <= d < dv.descriptors.len() && (#[trigger] dv.descriptors[d]).hash == h
}

/// The number of output bytes, among the first `n` segments, whose chunk is
/// still waited for.
pub open spec fn remaining(dv: DictionaryView, index: Map<Seq<u8>, Seq<u64>>, n: nat) -> nat
    decreases n,
{
    if n == 0 {
        0
    } else {
        remaining(dv, index, (n - 1) as nat) + if waiting(dv, index, dv.layout[n - 1] as int) {
            dv.segment_size(n - 1)
        } else {
            0
        }
    }
}

/// The bytes of segment `j` of an output.
pub open spec fn segment(dv: DictionaryView, out: Seq<u8>, j: int) -> Seq<u8> {
    out.subrange(
        dv.segment_start(j as nat) as int,
        (dv.segment_start(j as nat) + dv.segment_size(j)) as int,
    )
}

/// The first `n` segments of the output that holds, in each segment, the
/// piece given for the segment's descriptor.
pub open spec fn assembled(dv: DictionaryView, pieces: Seq<Seq<u8>>, n: nat) -> Seq<u8>
    decreases n,
{
    if n == 0 {
        Seq::empty()
    } else {
        assembled(dv, pieces, (n - 1) as nat) + pieces[dv.layout[n - 1] as int]
    }
}

/// The work list of a dictionary is open, and waits for the chunk of every
/// segment.
pub proof fn lemma_indexed_is_open(dv: DictionaryView, index: Map<Seq<u8>, Seq<u64>>)
    requires
        dv.wf(),
        dv.indexed_by(index),
    ensures
        open_list(dv, index),
        forall|j: int| 0 <= j < dv.layout.len() ==> waiting(dv, index, #[trigger] dv.layout[j] as int),
{
    assert forall|j: int| 0 <= j < dv.layout.len() implies waiting(
        dv,
        index,
        #[trigger] dv.layout[j] as int,
    ) by {
        let d = dv.layout[j] as int;
        lemma_offsets_of_segments(dv, d, dv.layout.len());
        assert(dv.descriptors[d].hash == dv.descriptors[d].hash);
        assert(dv.offsets_of(d, dv.layout.len()).len() > 0);
    }
}

/// No more bytes are waited for than the segments hold.
pub proof fn lemma_remaining_bound(dv: DictionaryView, index: Map<Seq<u8>, Seq<u64>>, n: nat)
    ensures
        remaining(dv, index, n) <= dv.segment_start(n),
    decreases n,
{
    if n > 0 {
        lemma_remaining_bound(dv, index, (n - 1) as nat);
    }
}

/// Where every segment's chunk is waited for, every byte is.
pub proof fn lemma_remaining_all(dv: DictionaryView, index: Map<Seq<u8>, Seq<u64>>, n: nat)
    requires
        n <= dv.layout.len(),
        forall|j: int| 0 <= j < dv.layout.len() ==> waiting(dv, index, #[trigger] dv.layout[j] as int),
    ensures
        remaining(dv, index, n) == dv.segment_start(n),
    decreases n,
{
    if n > 0 {
        lemma_remaining_all(dv, index, (n - 1) as nat);
        assert(waiting(dv, index, dv.layout[n - 1] as int));
    }
}

/// Claiming the chunk of descriptor `d` takes the bytes of its segments off
/// what is waited for, and leaves the rest.
pub proof fn lemma_remaining_after_claim(
    dv: DictionaryView,
    index: Map<Seq<u8>, Seq<u64>>,
    d: int,
    n: nat,
)
    requires
        dv.layout_ok(),
        dv.distinct(),
        0 <= d < dv.descriptors.len(),
        n <= dv.layout.len(),
        waiting(dv, index, d),
    ensures
        remaining(dv, index.remove(dv.descriptors[d].hash), n) + dv.descriptors[d].raw_size
            * dv.offsets_of(d, n).len() == remaining(dv, index, n),
    decreases n,
{
    let h = dv.descriptors[d].hash;
    let size = dv.descriptors[d].raw_size as int;
    if n > 0 {
        let m = (n - 1) as nat;
        lemma_remaining_after_claim(dv, index, d, m);
        let e = dv.layout[n - 1] as int;
        assert(dv.layout[n - 1] < dv.descriptors.len());
        let c = dv.offsets_of(d, m).len() as int;
        if e == d {
            assert(size * (c + 1) == size * c + size) by (nonlinear_arith);
        } else {
            if e < d {
                assert(dv.descriptors[e].hash != dv.descriptors[d].hash);
            } else {
                assert(dv.descriptors[d].hash != dv.descriptors[e].hash);
            }
            assert(waiting(dv, index.remove(h), e) == waiting(dv, index, e));
        }
    } else {
        assert(size * 0 == 0) by (nonlinear_arith);
    }
}

/// A work list from which a chunk has been claimed is still open.
pub proof fn lemma_open_list_after_claim(
    dv: DictionaryView,
    index: Map<Seq<u8>, Seq<u64>>,
    h: Seq<u8>,
)
    requires
        open_list(dv, index),
    ensures
        open_list(dv, index.remove(h)),
{
    let after = index.remove(h);
    assert forall|k: Seq<u8>| after.dom().contains(k) implies exists|d: int|
        0 <= d < dv.descriptors.len() && (#[trigger] dv.descriptors[d]).hash == k by {
        assert(index.dom().contains(k));
    }
}

/// Writing a piece into its segment leaves every other segment as it was.
pub proof fn lemma_write_segment(dv: DictionaryView, out: Seq<u8>, at: int, data: Seq<u8>, j: int)
    requires
        0 <= at < dv.layout.len(),
        0 <= j < dv.layout.len(),
        out.len() == dv.total_size(),
        data.len() == dv.segment_size(at),
    ensures
        segment(dv, written(out, dv.segment_start(at as nat) as int, data), at) == data,
        j != at ==> segment(dv, written(out, dv.segment_start(at as nat) as int, data), j)
            == segment(dv, out, j),
        written(out, dv.segment_start(at as nat) as int, data).len() == out.len(),
{
    let start = dv.segment_start(at as nat) as int;
    let after = written(out, start, data);
    lemma_segments_disjoint(dv, at as nat, dv.layout.len());
    lemma_segment_start_monotone(dv, (at + 1) as nat, dv.layout.len());
    assert(segment(dv, after, at) =~= data);
    if j < at {
        lemma_segments_disjoint(dv, j as nat, at as nat);
        assert(segment(dv, after, j) =~= segment(dv, out, j));
    } else if j > at {
        lemma_segments_disjoint(dv, at as nat, j as nat);
        lemma_segment_start_monotone(dv, (j + 1) as nat, dv.layout.len());
        assert(segment(dv, after, j) =~= segment(dv, out, j));
    }
}

/// An output of the right length is determined by its segments.
pub proof fn lemma_assembled(dv: DictionaryView, out: Seq<u8>, pieces: Seq<Seq<u8>>, n: nat)
    requires
        n <= dv.layout.len(),
        out.len() == dv.total_size(),
        forall|j: int|
            0 <= j < dv.layout.len() ==> #[trigger] segment(dv, out, j) == pieces[dv.layout[j] as int],
    ensures
        out.take(dv.segment_start(n) as int) == assembled(dv, pieces, n),
    decreases n,
{
    lemma_segment_start_monotone(dv, n, dv.layout.len());
    if n > 0 {
        let m = (n - 1) as nat;
        lemma_assembled(dv, out, pieces, m);
        assert(segment(dv, out, m as int) == pieces[dv.layout[m as int] as int]);
        assert(out.take(dv.segment_start(n) as int) =~= out.take(dv.segment_start(m) as int)
            + segment(dv, out, m as int));
    } else {
        assert(out.take(0) =~= Seq::<u8>::empty());
    }
}

/// Writes one chunk into every segment that its descriptor fills.
pub(crate) fn place(
    output: &mut Output,
    offsets: &Vec<u64>,
    data: &[u8],
    Ghost(dv): Ghost<DictionaryView>,
    Ghost(d): Ghost<int>,
) -> (r: Result<(), crate::error::Error>)
    requires
        dv.total_size() <= u64::MAX,
        0 <= d < dv.descriptors.len(),
        offsets@ == dv.offsets_of(d, dv.layout.len()),
        data@.len() == dv.descriptors[d].raw_size,
        old(output)@.len() == dv.total_size(),
    ensures
        r is Ok,
        final(output)@.len() == old(output)@.len(),
        forall|j: int|
            0 <= j < dv.layout.len() ==> #[trigger] segment(dv, final(output)@, j) == if dv.layout[j]
                == d {
                data@
            } else {
                segment(dv, old(output)@, j)
            },
{
    let mut t: usize = 0;
    proof {
        lemma_offsets_of_segments(dv, d, dv.layout.len());
    }
    while t < offsets.len()
        invariant
            t <= offsets@.len(),
            dv.total_size() <= u64::MAX,
            0 <= d < dv.descriptors.len(),
            offsets@ == dv.offsets_of(d, dv.layout.len()),
            data@.len() == dv.descriptors[d].raw_size,
            output@.len() == dv.total_size(),
            output@.len() == old(output)@.len(),
            forall|k: int|
                0 <= k < offsets@.len() ==> starts_segment_of(
                    dv,
                    d,
                    dv.layout.len(),
                    #[trigger] offsets@[k],
                ),
            forall|j: int|
                0 <= j < dv.layout.len() && dv.layout[j] != d ==> #[trigger] segment(dv, output@, j)
                    == segment(dv, old(output)@, j),
            forall|k: int, j: int|
                0 <= k < t && 0 <= j < dv.layout.len() && dv.layout[j] == d && offsets@[k]
                    == dv.segment_start(j as nat) ==> #[trigger] segment(dv, output@, j)
                    == data@ || #[trigger] offsets@[k] != dv.segment_start(j as nat),
        decreases offsets@.len() - t,
    {
        let offset = offsets[t];
        let ghost before = output@;
        proof {
            assert(starts_segment_of(dv, d, dv.layout.len(), offsets@[t as int]));
        }
        let ghost at = choose|j: int|
            0 <= j < dv.layout.len() && #[trigger] dv.layout[j] == d && offset == dv.segment_start(
                j as nat,
            );
        proof {
            lemma_segments_disjoint(dv, at as nat, dv.layout.len());
            lemma_segment_start_monotone(dv, (at + 1) as nat, dv.layout.len());
        }
        match output.seek_write(offset, data) {
            Ok(_) => {},
            Err(e) => {
                assert(false);
                return Err(e);
            },
        }
        proof {
            assert forall|j: int| 0 <= j < dv.layout.len() implies (j != at ==> #[trigger] segment(
                dv,
                output@,
                j,
            ) == segment(dv, before, j)) && (j == at ==> segment(dv, output@, j) == data@) by {
                lemma_write_segment(dv, before, at, data@, j);
            }
            assert forall|j: int| 0 <= j < dv.layout.len() && dv.layout[j] != d implies #[trigger] segment(
                dv,
                output@,
                j,
            ) == segment(dv, old(output)@, j) by {
                lemma_write_segment(dv, before, at, data@, j);
                assert(segment(dv, before, j) == segment(dv, old(output)@, j));
            }
            assert forall|k: int, j: int|
                0 <= k < t + 1 && 0 <= j < dv.layout.len() && dv.layout[j] == d && offsets@[k]
                    == dv.segment_start(j as nat) implies #[trigger] segment(dv, output@, j)
                == data@ || #[trigger] offsets@[k] != dv.segment_start(j as nat) by {
                if j != at {
                    if k < t {
                        assert(segment(dv, before, j) == data@ || offsets@[k] != dv.segment_start(
                            j as nat,
                        ));
                    } else {
                        if j < at {
                            lemma_segments_disjoint(dv, j as nat, at as nat);
                        } else {
                            lemma_segments_disjoint(dv, at as nat, j as nat);
                        }
                        if dv.segment_size(j) == 0 {
                            assert(segment(dv, output@, j) =~= data@);
                        }
                    }
                }
            }
        }
        t += 1;
    }
    proof {
        assert forall|j: int| 0 <= j < dv.layout.len() implies #[trigger] segment(dv, output@, j)
            == if dv.layout[j] == d {
            data@
        } else {
            segment(dv, old(output)@, j)
        } by {
            if dv.layout[j] == d {
                let k = choose|k: int|
                    0 <= k < offsets@.len() && #[trigger] offsets@[k] == dv.segment_start(
                        j as nat,
                    );
                assert(segment(dv, output@, j) == data@ || offsets@[k] != dv.segment_start(
                    j as nat,
                ));
            }
        }
    }
    Ok(())
}

} // verus!
