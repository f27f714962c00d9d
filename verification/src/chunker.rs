//! Content-defined chunking: a stream is cut where the rolling hash of the
//! bytes just before the cut passes a mask test, within size limits.

use crate::rolling_hash::{lemma_window_of_push, window_hash, window_of, HashKind, RollingHash};
use vstd::prelude::*;

verus! {

/// The parameters that decide where a stream is cut.
#[derive(Clone, Copy, Debug, PartialEq, Eq, Structural)]
pub struct ChunkerConfig {
    /// The rolling hash algorithm.
    pub kind: HashKind,
    /// The number of bytes the rolling hash looks at.
    pub window_size: u32,
    /// No chunk but the last of a stream is shorter than this.
    pub min_chunk_size: u32,
    /// No chunk is longer than this.
    pub max_chunk_size: u32,
    /// A cut is declared where the hash has none of these bits set.
    pub mask: u32,
}

impl ChunkerConfig {
    /// The parameters make sense: the window and the largest chunk hold at
    /// least one byte, and the smallest chunk is no larger than the largest.
    pub open spec fn wf(&self) -> bool {
        &&& self.window_size >= 1
        &&& self.max_chunk_size >= 1
        &&& self.min_chunk_size <= self.max_chunk_size
    }

    /// Tests whether the parameters make sense.
    pub fn is_valid(&self) -> (r: bool)
        ensures
            r == self.wf(),
    {
        self.window_size >= 1 && self.max_chunk_size >= 1 && self.min_chunk_size
            <= self.max_chunk_size
    }
}

/// A piece of a stream: where it starts, and its bytes.
#[derive(Debug)]
pub struct Chunk {
    /// The offset of the first byte in the stream.
    pub offset: u64,
    /// The bytes.
    pub data: Vec<u8>,
}

/// Whether a chunk that begins with the bytes `s` closes after its first `k`
/// bytes: at the largest size in any case, and from the smallest size on
/// wherever the window is full and its hash passes the mask test.
pub open spec fn cut_at(cfg: ChunkerConfig, s: Seq<u8>, k: int) -> bool {
    ||| k >= cfg.max_chunk_size
    ||| (k >= cfg.min_chunk_size && k >= cfg.window_size && window_hash(
        cfg.kind,
        s.subrange(k - cfg.window_size, k),
    ) & cfg.mask == 0)
}

/// The first length from `k` on at which a chunk beginning with `s` closes, if
/// it closes within `s`.
pub open spec fn first_cut(cfg: ChunkerConfig, s: Seq<u8>, k: int) -> Option<int>
    decreases s.len() - k + 1,
{
    if k > s.len() {
        None
    } else if k >= 1 && cut_at(cfg, s, k) {
        Some(k)
    } else {
        first_cut(cfg, s, k + 1)
    }
}

/// The chunks that close within `s`, in order, and the bytes after the last of
/// them.
pub open spec fn split(cfg: ChunkerConfig, s: Seq<u8>) -> (Seq<Seq<u8>>, Seq<u8>)
    decreases s.len(),
{
    match first_cut(cfg, s, 1) {
        Some(k) => if 1 <= k <= s.len() {
            let rest = split(cfg, s.skip(k));
            (seq![s.take(k)] + rest.0, rest.1)
        } else {
            (Seq::empty(), s)
        },
        None => (Seq::empty(), s),
    }
}

/// All the chunks of the stream `s`: those that close within it, and what is
/// left at its end, if anything.
pub open spec fn chunks(cfg: ChunkerConfig, s: Seq<u8>) -> Seq<Seq<u8>> {
    let (closed, tail) = split(cfg, s);
    if tail.len() > 0 {
        closed.push(tail)
    } else {
        closed
    }
}

/// The chunks laid end to end.
pub open spec fn concat(cs: Seq<Seq<u8>>) -> Seq<u8>
    decreases cs.len(),
{
    if cs.len() == 0 {
        Seq::empty()
    } else {
        concat(cs.drop_last()) + cs.last()
    }
}

/// Whether `out` holds the chunks `cs` of a stream, the first at offset `base`
/// and each where the one before it ends.
pub open spec fn chunks_match(out: Seq<Chunk>, base: int, cs: Seq<Seq<u8>>) -> bool {
    &&& out.len() == cs.len()
    &&& forall|i: int|
        0 <= i < out.len() ==> (#[trigger] out[i]).data@ == cs[i] && out[i].offset == base + concat(
            cs.take(i),
        ).len()
}

/// Laying one more chunk at the end appends its bytes.
pub(crate) proof fn lemma_concat_push(cs: Seq<Seq<u8>>, c: Seq<u8>)
    ensures
        concat(cs.push(c)) == concat(cs) + c,
{
    assert(cs.push(c).drop_last() =~= cs);
}

/// Laying one more chunk at the front prepends its bytes.
proof fn lemma_concat_prepend(c: Seq<u8>, cs: Seq<Seq<u8>>)
    ensures
        concat(seq![c] + cs) == c + concat(cs),
    decreases cs.len(),
{
    let all = seq![c] + cs;
    if cs.len() == 0 {
        assert(all.drop_last() =~= Seq::<Seq<u8>>::empty());
        assert(concat(all.drop_last()) =~= Seq::<u8>::empty());
        assert(concat(all) =~= c + concat(cs));
    } else {
        lemma_concat_prepend(c, cs.drop_last());
        assert(all.drop_last() =~= seq![c] + cs.drop_last());
        assert(concat(all) =~= c + concat(cs));
    }
}

/// Whether a chunk closes after `k` bytes depends on those `k` bytes alone.
proof fn lemma_cut_at_prefix(cfg: ChunkerConfig, s: Seq<u8>, t: Seq<u8>, k: int)
    requires
        cfg.wf(),
        1 <= k <= s.len(),
    ensures
        cut_at(cfg, s + t, k) == cut_at(cfg, s, k),
{
    if k >= cfg.window_size {
        assert((s + t).subrange(k - cfg.window_size, k) =~= s.subrange(k - cfg.window_size, k));
    }
}

/// What `first_cut` finds is a cut, and the first one.
proof fn lemma_first_cut_is_first(cfg: ChunkerConfig, s: Seq<u8>, k: int)
    requires
        1 <= k,
    ensures
        match first_cut(cfg, s, k) {
            Some(j) => k <= j <= s.len() && cut_at(cfg, s, j) && forall|i: int|
                k <= i < j ==> !cut_at(cfg, s, i),
            None => forall|i: int| k <= i <= s.len() ==> !cut_at(cfg, s, i),
        },
    decreases s.len() - k + 1,
{
    if k <= s.len() && !cut_at(cfg, s, k) {
        lemma_first_cut_is_first(cfg, s, k + 1);
    }
}

/// A search that meets no cut among the given lengths from `k` on finds
/// nothing.
proof fn lemma_first_cut_none(cfg: ChunkerConfig, s: Seq<u8>, k: int)
    requires
        1 <= k,
        forall|i: int| k <= i <= s.len() ==> !cut_at(cfg, s, i),
    ensures
        first_cut(cfg, s, k) is None,
    decreases s.len() - k + 1,
{
    if k <= s.len() {
        lemma_first_cut_none(cfg, s, k + 1);
    }
}

/// A search that meets its first cut at `j` finds `j`.
proof fn lemma_first_cut_some(cfg: ChunkerConfig, s: Seq<u8>, k: int, j: int)
    requires
        1 <= k <= j <= s.len(),
        cut_at(cfg, s, j),
        forall|i: int| k <= i < j ==> !cut_at(cfg, s, i),
    ensures
        first_cut(cfg, s, k) == Some(j),
    decreases j - k,
{
    if k < j {
        lemma_first_cut_some(cfg, s, k + 1, j);
    }
}

/// A chunk that closes within `s` closes at the same place whatever follows
/// `s`.
proof fn lemma_first_cut_stable(cfg: ChunkerConfig, s: Seq<u8>, t: Seq<u8>)
    requires
        cfg.wf(),
        first_cut(cfg, s, 1) is Some,
    ensures
        first_cut(cfg, s + t, 1) == first_cut(cfg, s, 1),
{
    let j = first_cut(cfg, s, 1)->0;
    lemma_first_cut_is_first(cfg, s, 1);
    assert forall|i: int| 1 <= i < j implies !cut_at(cfg, s + t, i) by {
        lemma_cut_at_prefix(cfg, s, t, i);
    }
    lemma_cut_at_prefix(cfg, s, t, j);
    lemma_first_cut_some(cfg, s + t, 1, j);
}

/// One more byte after bytes that hold no cut: either the chunk closes right
/// after it, or the longer run holds no cut either.
proof fn lemma_first_cut_push(cfg: ChunkerConfig, p: Seq<u8>, b: u8)
    requires
        cfg.wf(),
        first_cut(cfg, p, 1) is None,
    ensures
        first_cut(cfg, p.push(b), 1) == if cut_at(cfg, p.push(b), p.len() as int + 1) {
            Some(p.len() as int + 1)
        } else {
            None::<int>
        },
{
    let q = p.push(b);
    assert(q =~= p + seq![b]);
    lemma_first_cut_is_first(cfg, p, 1);
    assert forall|i: int| 1 <= i < q.len() implies !cut_at(cfg, q, i) by {
        lemma_cut_at_prefix(cfg, p, seq![b], i);
    }
    if cut_at(cfg, q, q.len() as int) {
        lemma_first_cut_some(cfg, q, 1, q.len() as int);
    } else {
        lemma_first_cut_none(cfg, q, 1);
    }
}

/// The chunks of a stream lie end to end and cover it: those that close within
/// it, followed by the remainder, are the stream. Each closed chunk keeps to
/// the size limits, and the remainder holds no cut.
pub proof fn lemma_split_partition(cfg: ChunkerConfig, s: Seq<u8>)
    requires
        cfg.wf(),
    ensures
        concat(split(cfg, s).0) + split(cfg, s).1 == s,
        first_cut(cfg, split(cfg, s).1, 1) is None,
        split(cfg, s).1.len() < cfg.max_chunk_size,
        forall|i: int|
            0 <= i < split(cfg, s).0.len() ==> 1 <= (#[trigger] split(cfg, s).0[i]).len()
                && cfg.min_chunk_size <= split(cfg, s).0[i].len() <= cfg.max_chunk_size,
    decreases s.len(),
{
    lemma_first_cut_is_first(cfg, s, 1);
    match first_cut(cfg, s, 1) {
        Some(k) => {
            let rest = split(cfg, s.skip(k));
            lemma_split_partition(cfg, s.skip(k));
            lemma_concat_prepend(s.take(k), rest.0);
            assert(concat(split(cfg, s).0) + split(cfg, s).1 =~= s.take(k) + (concat(rest.0)
                + rest.1));
            assert(s.take(k) + s.skip(k) =~= s);
            if k > cfg.max_chunk_size {
                assert(cut_at(cfg, s, k - 1));
            }
            assert forall|i: int| 0 <= i < split(cfg, s).0.len() implies 1 <= (#[trigger] split(
                cfg,
                s,
            ).0[i]).len() && cfg.min_chunk_size <= split(cfg, s).0[i].len()
                <= cfg.max_chunk_size by {
                if i > 0 {
                    assert(split(cfg, s).0[i] == rest.0[i - 1]);
                }
            }
        },
        None => {
            assert(concat(Seq::<Seq<u8>>::empty()) + s =~= s);
            if s.len() >= cfg.max_chunk_size {
                assert(cut_at(cfg, s, cfg.max_chunk_size as int));
            }
        },
    }
}

/// The chunks of a stream partition it: laid end to end they are the stream,
/// none is empty or longer than the largest size, and every chunk but the last
/// has at least the smallest size.
pub proof fn lemma_chunks_partition(cfg: ChunkerConfig, s: Seq<u8>)
    requires
        cfg.wf(),
    ensures
        concat(chunks(cfg, s)) == s,
        forall|i: int|
            0 <= i < chunks(cfg, s).len() ==> 1 <= (#[trigger] chunks(cfg, s)[i]).len()
                <= cfg.max_chunk_size,
        forall|i: int|
            0 <= i < chunks(cfg, s).len() - 1 ==> (#[trigger] chunks(cfg, s)[i]).len()
                >= cfg.min_chunk_size,
{
    lemma_split_partition(cfg, s);
    let (closed, tail) = split(cfg, s);
    if tail.len() > 0 {
        lemma_concat_push(closed, tail);
    } else {
        assert(concat(closed) + tail =~= concat(closed));
    }
    assert forall|i: int| 0 <= i < chunks(cfg, s).len() implies 1 <= (#[trigger] chunks(
        cfg,
        s,
    )[i]).len() <= cfg.max_chunk_size by {
        if i < closed.len() {
            assert(chunks(cfg, s)[i] == split(cfg, s).0[i]);
        }
    }
    assert forall|i: int| 0 <= i < chunks(cfg, s).len() - 1 implies (#[trigger] chunks(
        cfg,
        s,
    )[i]).len() >= cfg.min_chunk_size by {
        assert(chunks(cfg, s)[i] == split(cfg, s).0[i]);
    }
}

/// Chunking is a function of the parameters and the bytes: two chunkings of the
/// same stream agree in the number of chunks, and chunk by chunk in offset,
/// length and bytes, and therefore in every hash of the bytes.
pub proof fn lemma_chunking_deterministic(
    cfg: ChunkerConfig,
    data: Seq<u8>,
    first: Seq<Chunk>,
    second: Seq<Chunk>,
)
    requires
        chunks_match(first, 0, chunks(cfg, data)),
        chunks_match(second, 0, chunks(cfg, data)),
    ensures
        first.len() == second.len(),
        forall|i: int|
            0 <= i < first.len() ==> (#[trigger] first[i]).offset == second[i].offset
                && first[i].data@ == second[i].data@ && first[i].data@.len()
                == second[i].data@.len(),
{
    assert forall|i: int| 0 <= i < first.len() implies (#[trigger] first[i]).offset
        == second[i].offset && first[i].data@ == second[i].data@ && first[i].data@.len()
        == second[i].data@.len() by {
        assert(second[i].data@ == chunks(cfg, data)[i]);
    }
}

/// Cutting a stream that arrives in two parts: the chunks that close within
/// the whole are those that close within the first part, followed by those
/// that close within its remainder and the second part.
pub proof fn lemma_split_append(cfg: ChunkerConfig, a: Seq<u8>, b: Seq<u8>)
    requires
        cfg.wf(),
    ensures
        split(cfg, a + b).0 == split(cfg, a).0 + split(cfg, split(cfg, a).1 + b).0,
        split(cfg, a + b).1 == split(cfg, split(cfg, a).1 + b).1,
    decreases a.len(),
{
    lemma_first_cut_is_first(cfg, a, 1);
    match first_cut(cfg, a, 1) {
        Some(k) => {
            lemma_first_cut_stable(cfg, a, b);
            lemma_split_append(cfg, a.skip(k), b);
            assert((a + b).skip(k) =~= a.skip(k) + b);
            assert((a + b).take(k) =~= a.take(k));
            let inner = split(cfg, a.skip(k));
            let joined = split(cfg, inner.1 + b);
            assert(seq![a.take(k)] + (inner.0 + joined.0) =~= (seq![a.take(k)] + inner.0)
                + joined.0);
        },
        None => {
            assert(split(cfg, a).0 + split(cfg, a + b).0 =~= split(cfg, a + b).0);
        },
    }
}

/// Cuts a stream that is handed over piece by piece.
pub struct Chunker {
    cfg: ChunkerConfig,
    hasher: RollingHash,
    pending: Vec<u8>,
    start: u64,
}

impl Chunker {
    /// The invariant: the bytes held back belong to a chunk that has not
    /// closed, and the hasher has seen exactly them.
    pub closed spec fn wf(&self) -> bool {
        &&& self.cfg.wf()
        &&& self.hasher.wf()
        &&& self.hasher.algorithm() == self.cfg.kind
        &&& self.hasher.window_size() == self.cfg.window_size
        &&& self.hasher@ == window_of(self.cfg.window_size as nat, self.pending@)
        &&& first_cut(self.cfg, self.pending@, 1) is None
        &&& self.start + self.pending@.len() <= u64::MAX
    }

    /// The parameters in use.
    pub closed spec fn config(&self) -> ChunkerConfig {
        self.cfg
    }

    /// The bytes taken in that belong to no closed chunk yet.
    pub closed spec fn pending(&self) -> Seq<u8> {
        self.pending@
    }

    /// The stream offset of the first pending byte.
    pub closed spec fn start(&self) -> int {
        self.start as int
    }

    /// The number of bytes taken in so far.
    pub open spec fn position(&self) -> int {
        self.start() + self.pending().len()
    }

    /// A chunker at the start of a stream.
    pub fn new(cfg: ChunkerConfig) -> (r: Self)
        requires
            cfg.wf(),
        ensures
            r.wf(),
            r.config() == cfg,
            r.pending() == Seq::<u8>::empty(),
            r.start() == 0,
    {
        let hasher = RollingHash::new(cfg.kind, cfg.window_size);
        let pending: Vec<u8> = Vec::new();
        proof {
            lemma_window_of_push(cfg.window_size as nat, Seq::<u8>::empty(), 0);
            assert(pending@ =~= Seq::<u8>::empty());
        }
        Chunker { cfg, hasher, pending, start: 0 }
    }

    /// Takes in the next piece of the stream and hands out the chunks that
    /// close within what has been taken in.
    pub fn feed(&mut self, data: &[u8]) -> (out: Vec<Chunk>)
        requires
            old(self).wf(),
            old(self).position() + data@.len() <= u64::MAX,
        ensures
            final(self).wf(),
            final(self).config() == old(self).config(),
            chunks_match(
                out@,
                old(self).start(),
                split(old(self).config(), old(self).pending() + data@).0,
            ),
            final(self).pending() == split(old(self).config(), old(self).pending() + data@).1,
            final(self).start() == old(self).start() + concat(
                split(old(self).config(), old(self).pending() + data@).0,
            ).len(),
    {
        let ghost cfg = self.cfg;
        let ghost whole = self.pending@ + data@;
        let ghost base = self.start as int;
        let ghost done: Seq<Seq<u8>> = Seq::empty();
        let mut out: Vec<Chunk> = Vec::new();
        let mut i: usize = 0;
        proof {
            assert(data@.skip(0) =~= data@);
            assert(done + split(cfg, whole).0 =~= split(cfg, whole).0);
            assert(concat(done) =~= Seq::<u8>::empty());
        }
        while i < data.len()
            invariant
                i <= data@.len(),
                self.wf(),
                self.cfg == cfg,
                cfg.wf(),
                whole == old(self).pending@ + data@,
                base == old(self).start,
                base + old(self).pending@.len() + data@.len() <= u64::MAX,
                split(cfg, whole).0 == done + split(cfg, self.pending@ + data@.skip(i as int)).0,
                split(cfg, whole).1 == split(cfg, self.pending@ + data@.skip(i as int)).1,
                chunks_match(out@, base, done),
                self.start == base + concat(done).len(),
                self.start + self.pending@.len() + (data@.len() - i) == base + old(
                    self,
                ).pending@.len() + data@.len(),
            decreases data@.len() - i,
        {
            let b = data[i];
            let ghost p = self.pending@;
            let ghost q = p.push(b);
            let ghost after = data@.skip(i as int + 1);
            proof {
                lemma_window_of_push(cfg.window_size as nat, p, b);
                lemma_first_cut_push(cfg, p, b);
                assert(p + data@.skip(i as int) =~= q + after);
                if cfg.max_chunk_size <= p.len() {
                    lemma_first_cut_is_first(cfg, p, 1);
                    assert(cut_at(cfg, p, cfg.max_chunk_size as int));
                }
            }
            self.pending.push(b);
            self.hasher.input(b);
            let k = self.pending.len();
            let closes = k >= self.cfg.max_chunk_size as usize || (k
                >= self.cfg.min_chunk_size as usize && k >= self.cfg.window_size as usize
                && self.hasher.sum() & self.cfg.mask == 0);
            proof {
                if k >= cfg.window_size {
                    assert(window_of(cfg.window_size as nat, q) =~= q.subrange(
                        k - cfg.window_size,
                        k as int,
                    ));
                }
                assert(closes == cut_at(cfg, q, k as int));
            }
            if closes {
                let mut bytes: Vec<u8> = Vec::new();
                std::mem::swap(&mut self.pending, &mut bytes);
                let chunk = Chunk { offset: self.start, data: bytes };
                proof {
                    lemma_first_cut_stable(cfg, q, after);
                    assert((q + after).take(k as int) =~= q);
                    assert((q + after).skip(k as int) =~= after);
                    let rest = split(cfg, after);
                    assert(split(cfg, q + after).0 == seq![q] + rest.0);
                    assert(done + (seq![q] + rest.0) =~= done.push(q) + rest.0);
                    lemma_concat_push(done, q);
                    assert(self.pending@ =~= Seq::<u8>::empty());
                    assert(self.pending@ + after =~= after);
                    lemma_window_of_push(cfg.window_size as nat, Seq::<u8>::empty(), 0);
                    assert forall|j: int| 0 <= j < out@.push(chunk).len() implies (
                    #[trigger] out@.push(chunk)[j]).data@ == done.push(q)[j] && out@.push(
                        chunk,
                    )[j].offset == base + concat(done.push(q).take(j)).len() by {
                        if j < out@.len() {
                            assert(out@.push(chunk)[j] == out@[j]);
                            assert(done.push(q).take(j) =~= done.take(j));
                        } else {
                            assert(done.push(q).take(j) =~= done);
                        }
                    }
                    done = done.push(q);
                }
                out.push(chunk);
                self.start = self.start + k as u64;
                self.hasher.reset();
            }
            i += 1;
        }
        proof {
            assert(data@.skip(data@.len() as int) =~= Seq::<u8>::empty());
            assert(self.pending@ + Seq::<u8>::empty() =~= self.pending@);
            assert(split(cfg, self.pending@).0 =~= Seq::<Seq<u8>>::empty());
            assert(done + Seq::<Seq<u8>>::empty() =~= done);
        }
        out
    }

    /// Ends the stream: hands out the bytes held back as the last chunk, if
    /// there are any.
    pub fn finish(self) -> (last: Option<Chunk>)
        requires
            self.wf(),
        ensures
            match last {
                Some(c) => self.pending().len() > 0 && c.data@ == self.pending() && c.offset
                    == self.start(),
                None => self.pending().len() == 0,
            },
    {
        if self.pending.len() > 0 {
            Some(Chunk { offset: self.start, data: self.pending })
        } else {
            None
        }
    }
}

/// Cuts a whole stream held in memory into its chunks.
pub fn chunk_all(cfg: &ChunkerConfig, data: &[u8]) -> (out: Vec<Chunk>)
    requires
        cfg.wf(),
    ensures
        chunks_match(out@, 0, chunks(*cfg, data@)),
{
    let mut chunker = Chunker::new(*cfg);
    let total = data.len();
    proof {
        assert(total <= u64::MAX);
        assert(chunker.pending() + data@ =~= data@);
    }
    let mut out = chunker.feed(data);
    let ghost closed = split(*cfg, data@).0;
    let last = chunker.finish();
    match last {
        Some(c) => {
            proof {
                let tail = split(*cfg, data@).1;
                assert forall|j: int| 0 <= j < out@.push(c).len() implies (#[trigger] out@.push(
                    c,
                )[j]).data@ == closed.push(tail)[j] && out@.push(c)[j].offset == concat(
                    closed.push(tail).take(j),
                ).len() by {
                    if j < out@.len() {
                        assert(out@.push(c)[j] == out@[j]);
                        assert(closed.push(tail).take(j) =~= closed.take(j));
                    } else {
                        assert(closed.push(tail).take(j) =~= closed);
                    }
                }
            }
            out.push(c);
        },
        None => {},
    }
    out
}

} // verus!
