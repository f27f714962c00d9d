//! The rotate-and-xor rolling hash: every byte of the window contributes a
//! code word, rotated by its age.

use vstd::prelude::*;

verus! {

/// The multiplier that spreads a byte over 32 bits.
pub const SPREAD: u64 = 0x9E37_79B1;

/// The 32-bit code word of a byte.
pub open spec fn byte_code(b: u8) -> u32 {
    let t = (((b as u64 + 1) * SPREAD) % 0x1_0000_0000) as u32;
    t ^ (t >> 15)
}

/// `x` rotated left by `k` bits, for `k` below 32.
pub open spec fn rotl(x: u32, k: u32) -> u32 {
    if k == 0 {
        x
    } else {
        (x << k) | (x >> ((32 - k) as u32))
    }
}

/// `x` rotated left by one bit, `n` times over.
pub open spec fn rot_by(x: u32, n: nat) -> u32
    decreases n,
{
    if n == 0 {
        x
    } else {
        rotl(rot_by(x, (n - 1) as nat), 1)
    }
}

/// The rotate-and-xor hash of a window: the code word of the newest byte,
/// xored with the hash of the bytes before it rotated by one.
pub open spec fn buzhash(w: Seq<u8>) -> u32
    decreases w.len(),
{
    if w.len() == 0 {
        0
    } else {
        rotl(buzhash(w.drop_last()), 1) ^ byte_code(w.last())
    }
}

/// Rotating by one bit again and again is rotating by the count modulo 32.
proof fn lemma_rot_by_mod(x: u32, n: nat)
    ensures
        rot_by(x, n) == rotl(x, (n % 32) as u32),
    decreases n,
{
    if n > 0 {
        lemma_rot_by_mod(x, (n - 1) as nat);
        let j: u32 = ((n - 1) % 32) as u32;
        let k: u32 = if j == 31 { 0 } else { (j + 1) as u32 };
        assert(k == (n % 32) as u32);
        assert(rotl(rotl(x, j), 1) == rotl(x, k)) by (bit_vector)
            requires
                j < 32,
                k == if j == 31 { 0u32 } else { (j + 1) as u32 },
        ;
    }
}

/// The hash after the oldest byte has left: its code word, rotated by its age,
/// is xored out.
proof fn lemma_buzhash_drop_first(w: Seq<u8>)
    requires
        w.len() > 0,
    ensures
        buzhash(w.drop_first()) == buzhash(w) ^ rot_by(byte_code(w[0]), (w.len() - 1) as nat),
    decreases w.len(),
{
    let v = w.drop_last();
    let c = byte_code(w.last());
    if v.len() == 0 {
        assert(w.drop_first() =~= Seq::<u8>::empty());
        assert(buzhash(v) == 0);
        assert(w.last() == w[0]);
        assert(0u32 == (rotl(0u32, 1) ^ c) ^ c) by (bit_vector);
    } else {
        lemma_buzhash_drop_first(v);
        assert(w.drop_first().drop_last() =~= v.drop_first());
        assert(w.drop_first().last() == w.last());
        let h = buzhash(v);
        let r = rot_by(byte_code(v[0]), (v.len() - 1) as nat);
        assert(rot_by(byte_code(w[0]), (w.len() - 1) as nat) == rotl(r, 1));
        assert(rotl(h ^ r, 1) ^ c == (rotl(h, 1) ^ c) ^ rotl(r, 1)) by (bit_vector);
    }
}

/// The hash after the window has slid by one byte.
pub proof fn lemma_buzhash_slide(w: Seq<u8>, b: u8)
    requires
        w.len() > 0,
    ensures
        buzhash(w.drop_first().push(b)) == (rotl(buzhash(w), 1) ^ rotl(
            byte_code(w[0]),
            (w.len() % 32) as u32,
        )) ^ byte_code(b),
{
    lemma_buzhash_drop_first(w);
    lemma_rot_by_mod(byte_code(w[0]), w.len());
    let d = w.drop_first();
    assert(d.push(b).drop_last() =~= d);
    let h = buzhash(w);
    let r = rot_by(byte_code(w[0]), (w.len() - 1) as nat);
    let c = byte_code(b);
    assert(rotl(h ^ r, 1) ^ c == (rotl(h, 1) ^ rotl(r, 1)) ^ c) by (bit_vector);
}

/// Computes the code word of a byte.
pub(crate) fn code_of(b: u8) -> (r: u32)
    ensures
        r == byte_code(b),
{
    let t: u32 = (((b as u64 + 1) * SPREAD) % 0x1_0000_0000) as u32;
    t ^ (t >> 15)
}

/// Rotates `x` left by `k` bits.
pub(crate) fn rotate_left(x: u32, k: u32) -> (r: u32)
    requires
        k < 32,
    ensures
        r == rotl(x, k),
{
    if k == 0 {
        x
    } else {
        (x << k) | (x >> (32 - k))
    }
}

/// The hash after `b` has entered a window `w` that keeps all its bytes.
pub(crate) fn buz_push(h: u32, b: u8, Ghost(w): Ghost<Seq<u8>>) -> (r: u32)
    requires
        h == buzhash(w),
    ensures
        r == buzhash(w.push(b)),
{
    proof {
        assert(w.push(b).drop_last() =~= w);
    }
    rotate_left(h, 1) ^ code_of(b)
}

/// The hash after `b` has entered and the oldest byte, `out`, has left.
pub(crate) fn buz_roll(h: u32, window_size: u32, out: u8, b: u8, Ghost(w): Ghost<Seq<u8>>) -> (r:
    u32)
    requires
        h == buzhash(w),
        0 < w.len() == window_size,
        out == w[0],
    ensures
        r == buzhash(w.drop_first().push(b)),
{
    proof {
        lemma_buzhash_slide(w, b);
    }
    (rotate_left(h, 1) ^ rotate_left(code_of(out), window_size % 32)) ^ code_of(b)
}

} // verus!
