//! The checksum-pair rolling hash: two running sums over the window, the
//! second weighting each byte by how recently it entered.

use vstd::prelude::*;

verus! {

/// Added to every byte before it enters the sums, so that a run of zero bytes
/// still moves them.
pub const CHAR_OFFSET: u32 = 31;

/// Sum of the window's bytes, each raised by `CHAR_OFFSET`.
pub open spec fn byte_sum(w: Seq<u8>) -> int
    decreases w.len(),
{
    if w.len() == 0 {
        0
    } else {
        byte_sum(w.drop_last()) + w.last() as int + CHAR_OFFSET as int
    }
}

/// Sum of the window's raised bytes, the newest counted once and the oldest
/// as many times as the window is long.
pub open spec fn weighted_sum(w: Seq<u8>) -> int
    decreases w.len(),
{
    if w.len() == 0 {
        0
    } else {
        weighted_sum(w.drop_last()) + byte_sum(w)
    }
}

/// The low 32 bits of a sum.
pub open spec fn low32(x: int) -> u32 {
    (x % 0x1_0000_0000) as u32
}

/// The hash value made of the two sums: the low half of the first above the
/// low half of the second.
pub open spec fn combine(s1: u32, s2: u32) -> u32 {
    (s1 << 16) | (s2 & 0xffff)
}

/// The checksum-pair hash of a window.
pub open spec fn rollsum_hash(w: Seq<u8>) -> u32 {
    combine(low32(byte_sum(w)), low32(weighted_sum(w)))
}

/// Both sums after one more byte has entered at the end.
proof fn lemma_sums_push(w: Seq<u8>, b: u8)
    ensures
        byte_sum(w.push(b)) == byte_sum(w) + b + CHAR_OFFSET,
        weighted_sum(w.push(b)) == weighted_sum(w) + byte_sum(w.push(b)),
{
    assert(w.push(b).drop_last() =~= w);
}

/// Both sums after the oldest byte has left.
proof fn lemma_sums_drop_first(w: Seq<u8>)
    requires
        w.len() > 0,
    ensures
        byte_sum(w.drop_first()) == byte_sum(w) - w[0] - CHAR_OFFSET,
        weighted_sum(w.drop_first()) == weighted_sum(w) - w.len() * (w[0] + CHAR_OFFSET),
    decreases w.len(),
{
    let v = w.drop_last();
    let b = w.last();
    if v.len() == 0 {
        assert(w.drop_first() =~= Seq::<u8>::empty());
        assert(byte_sum(v) == 0);
        assert(weighted_sum(v) == 0);
    } else {
        lemma_sums_drop_first(v);
        assert(w.drop_first().drop_last() =~= v.drop_first());
        assert(w.drop_first().last() == b);
        let x: int = v[0] + CHAR_OFFSET;
        let n: int = v.len() as int;
        assert((n + 1) * x == n * x + x) by (nonlinear_arith);
    }
}

/// Both sums after the window has slid by one byte.
pub proof fn lemma_sums_slide(w: Seq<u8>, b: u8)
    requires
        w.len() > 0,
    ensures
        byte_sum(w.drop_first().push(b)) == byte_sum(w) - w[0] + b,
        weighted_sum(w.drop_first().push(b)) == weighted_sum(w) - w.len() * (w[0] + CHAR_OFFSET)
            + byte_sum(w.drop_first().push(b)),
{
    lemma_sums_drop_first(w);
    lemma_sums_push(w.drop_first(), b);
}

/// Wrapping addition of two reduced values reduces the sum of what they stand for.
proof fn lemma_add_congruent(x: u32, y: u32, a: int, b: int)
    requires
        x == low32(a),
        y == low32(b),
    ensures
        x.wrapping_add(y) == low32(a + b),
{
    vstd::arithmetic::div_mod::lemma_add_mod_noop(a, b, 0x1_0000_0000);
}

/// Wrapping subtraction of two reduced values reduces the difference of what
/// they stand for.
proof fn lemma_sub_congruent(x: u32, y: u32, a: int, b: int)
    requires
        x == low32(a),
        y == low32(b),
    ensures
        x.wrapping_sub(y) == low32(a - b),
{
    vstd::arithmetic::div_mod::lemma_sub_mod_noop(a, b, 0x1_0000_0000);
}

/// The two sums of a window, reduced to 32 bits.
#[derive(Clone, Copy, Debug)]
pub(crate) struct RollSum {
    pub s1: u32,
    pub s2: u32,
}

impl RollSum {
    /// Whether the pair holds the reduced sums of `w`.
    pub(crate) open spec fn tracks(&self, w: Seq<u8>) -> bool {
        &&& self.s1 == low32(byte_sum(w))
        &&& self.s2 == low32(weighted_sum(w))
    }

    /// The sums of the empty window.
    pub(crate) fn empty() -> (r: Self)
        ensures
            r.tracks(Seq::<u8>::empty()),
    {
        RollSum { s1: 0, s2: 0 }
    }

    /// The sums after `b` has entered a window that keeps all its bytes.
    pub(crate) fn push(&self, b: u8, Ghost(w): Ghost<Seq<u8>>) -> (r: Self)
        requires
            self.tracks(w),
        ensures
            r.tracks(w.push(b)),
    {
        let s1 = self.s1.wrapping_add(b as u32 + CHAR_OFFSET);
        let s2 = self.s2.wrapping_add(s1);
        proof {
            lemma_sums_push(w, b);
            lemma_add_congruent(self.s1, (b as u32 + CHAR_OFFSET) as u32, byte_sum(w), b + CHAR_OFFSET);
            lemma_add_congruent(self.s2, s1, weighted_sum(w), byte_sum(w.push(b)));
        }
        RollSum { s1, s2 }
    }

    /// The sums after `b` has entered and the oldest byte, `out`, has left.
    pub(crate) fn roll(&self, window_size: u32, out: u8, b: u8, Ghost(w): Ghost<Seq<u8>>) -> (r:
        Self)
        requires
            self.tracks(w),
            0 < w.len() == window_size,
            out == w[0],
        ensures
            r.tracks(w.drop_first().push(b)),
    {
        let entered = self.s1.wrapping_add(b as u32);
        let s1 = entered.wrapping_sub(out as u32);
        let gone = window_size.wrapping_mul(out as u32 + CHAR_OFFSET);
        let raised = self.s2.wrapping_add(s1);
        let s2 = raised.wrapping_sub(gone);
        proof {
            let slid = w.drop_first().push(b);
            lemma_sums_slide(w, b);
            lemma_add_congruent(self.s1, b as u32, byte_sum(w), b as int);
            lemma_sub_congruent(entered, out as u32, byte_sum(w) + b, out as int);
            let p: int = w.len() * (out + CHAR_OFFSET);
            assert(p >= 0 && p == (window_size as nat) * ((out as u32 + CHAR_OFFSET) as nat))
                by (nonlinear_arith)
                requires
                    p == w.len() * (out + CHAR_OFFSET),
                    w.len() == window_size,
            ;
            assert(gone == low32(p));
            lemma_add_congruent(self.s2, s1, weighted_sum(w), byte_sum(slid));
            lemma_sub_congruent(raised, gone, weighted_sum(w) + byte_sum(slid), p);
        }
        RollSum { s1, s2 }
    }

    /// The hash value of the tracked window.
    pub(crate) fn digest(&self, Ghost(w): Ghost<Seq<u8>>) -> (r: u32)
        requires
            self.tracks(w),
        ensures
            r == rollsum_hash(w),
    {
        (self.s1 << 16) | (self.s2 & 0xffff)
    }
}

} // verus!
