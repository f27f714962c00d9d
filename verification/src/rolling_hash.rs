//! A hash over the most recent bytes of a stream, kept in a ring buffer and
//! updated in constant time per byte.

use crate::buzhash::{buz_push, buz_roll, buzhash};
use crate::rollsum::{rollsum_hash, RollSum};
use vstd::prelude::*;

verus! {

/// The rolling hash algorithms that a chunker can be configured with.
#[derive(Clone, Copy, Debug, PartialEq, Eq, Structural)]
pub enum HashKind {
    /// The checksum-pair scheme.
    RollSum,
    /// The rotate-and-xor scheme.
    BuzHash,
}

/// The hash value that algorithm `kind` gives a full window.
pub open spec fn window_hash(kind: HashKind, w: Seq<u8>) -> u32 {
    match kind {
        HashKind::RollSum => rollsum_hash(w),
        HashKind::BuzHash => buzhash(w),
    }
}

/// A window of `n` zero bytes: what a hasher holds before any input.
pub open spec fn zeros(n: nat) -> Seq<u8> {
    Seq::new(n, |i: int| 0u8)
}

/// The window after `b` has entered and the oldest byte has left.
pub open spec fn slide(w: Seq<u8>, b: u8) -> Seq<u8> {
    w.drop_first().push(b)
}

/// The window of `size` bytes after `fed` has entered a fresh hasher: the last
/// `size` bytes of `fed`, preceded by zeros where `fed` is shorter.
pub open spec fn window_of(size: nat, fed: Seq<u8>) -> Seq<u8> {
    if fed.len() >= size {
        fed.subrange(fed.len() - size, fed.len() as int)
    } else {
        zeros((size - fed.len()) as nat) + fed
    }
}

/// Feeding one more byte slides the window by one.
pub proof fn lemma_window_of_push(size: nat, fed: Seq<u8>, b: u8)
    requires
        size > 0,
    ensures
        window_of(size, fed.push(b)) == slide(window_of(size, fed), b),
        window_of(size, Seq::<u8>::empty()) == zeros(size),
{
    assert(window_of(size, fed.push(b)) =~= slide(window_of(size, fed), b));
    assert(window_of(size, Seq::<u8>::empty()) =~= zeros(size));
}

/// The window after all of `s` has entered, byte by byte.
pub open spec fn slide_all(w: Seq<u8>, s: Seq<u8>) -> Seq<u8>
    decreases s.len(),
{
    if s.len() == 0 {
        w
    } else {
        slide(slide_all(w, s.drop_last()), s.last())
    }
}

/// The window holds the most recent bytes and nothing else: once as many bytes
/// as the window is long have entered, the window is the last of them,
/// whatever it held before and whatever came earlier in the stream.
pub proof fn lemma_window_is_recent(w: Seq<u8>, s: Seq<u8>)
    requires
        0 < w.len() <= s.len(),
    ensures
        slide_all(w, s) == s.subrange(s.len() - w.len(), s.len() as int),
{
    lemma_slide_all(w, s);
    assert((w + s).subrange(s.len() as int, (s.len() + w.len()) as int) =~= s.subrange(
        s.len() - w.len(),
        s.len() as int,
    ));
}

/// The window after `s` has entered is the end of the old window followed by
/// `s`.
pub proof fn lemma_slide_all(w: Seq<u8>, s: Seq<u8>)
    requires
        0 < w.len(),
    ensures
        slide_all(w, s) == (w + s).subrange(s.len() as int, (s.len() + w.len()) as int),
    decreases s.len(),
{
    if s.len() > 0 {
        lemma_slide_all(w, s.drop_last());
        assert(slide((w + s.drop_last()).subrange(s.len() - 1, s.len() - 1 + w.len()), s.last())
            =~= (w + s).subrange(s.len() as int, (s.len() + w.len()) as int));
    } else {
        assert(w =~= (w + s).subrange(0, w.len() as int));
    }
}

/// Where the `i`-th oldest byte of the window sits in a ring of `n` slots whose
/// oldest byte is at `next`.
pub open spec fn ring_slot(next: int, i: int, n: int) -> int {
    if next + i < n {
        next + i
    } else {
        next + i - n
    }
}

/// A rolling hash over a window of fixed size.
pub struct RollingHash {
    kind: HashKind,
    ring: Vec<u8>,
    next: usize,
    sums: RollSum,
    rot: u32,
    start_sums: RollSum,
    start_rot: u32,
    window: Ghost<Seq<u8>>,
}

impl View for RollingHash {
    type V = Seq<u8>;

    /// The window: the most recent bytes, oldest first.
    closed spec fn view(&self) -> Seq<u8> {
        self.window@
    }
}

impl RollingHash {
    /// The invariant that ties the ring and the running state to the window.
    pub closed spec fn wf(&self) -> bool {
        &&& 0 < self.ring@.len() <= u32::MAX
        &&& self.next < self.ring@.len()
        &&& self.window@.len() == self.ring@.len()
        &&& forall|i: int|
            0 <= i < self.ring@.len() ==> #[trigger] self.window@[i] == self.ring@[ring_slot(
                self.next as int,
                i,
                self.ring@.len() as int,
            )]
        &&& self.start_sums.tracks(zeros(self.ring@.len()))
        &&& self.start_rot == buzhash(zeros(self.ring@.len()))
        &&& match self.kind {
            HashKind::RollSum => self.sums.tracks(self.window@),
            HashKind::BuzHash => self.rot == buzhash(self.window@),
        }
    }

    /// The algorithm in use.
    pub closed spec fn algorithm(&self) -> HashKind {
        self.kind
    }

    /// The number of bytes in the window.
    pub closed spec fn window_size(&self) -> nat {
        self.ring@.len()
    }

    /// A hasher whose window holds `window_size` zero bytes.
    pub fn new(kind: HashKind, window_size: u32) -> (r: Self)
        requires
            window_size > 0,
        ensures
            r.wf(),
            r@ == zeros(window_size as nat),
            r.algorithm() == kind,
            r.window_size() == window_size,
    {
        let mut ring: Vec<u8> = Vec::new();
        let mut sums = RollSum::empty();
        let mut rot: u32 = 0;
        let mut i: u32 = 0;
        proof {
            assert(ring@ =~= zeros(0));
        }
        while i < window_size
            invariant
                i <= window_size,
                ring@ == zeros(i as nat),
                sums.tracks(zeros(i as nat)),
                rot == buzhash(zeros(i as nat)),
            decreases window_size - i,
        {
            proof {
                assert(zeros(i as nat).push(0u8) =~= zeros((i + 1) as nat));
            }
            sums = sums.push(0, Ghost(zeros(i as nat)));
            rot = buz_push(rot, 0, Ghost(zeros(i as nat)));
            ring.push(0);
            i += 1;
        }
        RollingHash {
            kind,
            ring,
            next: 0,
            sums,
            rot,
            start_sums: sums,
            start_rot: rot,
            window: Ghost(zeros(window_size as nat)),
        }
    }

    /// Forgets every byte seen: the window holds zeros again.
    pub fn reset(&mut self)
        requires
            old(self).wf(),
        ensures
            final(self).wf(),
            final(self)@ == zeros(old(self).window_size()),
            final(self).algorithm() == old(self).algorithm(),
            final(self).window_size() == old(self).window_size(),
    {
        let n = self.ring.len();
        let mut i: usize = 0;
        while i < n
            invariant
                i <= n,
                n == self.ring@.len(),
                n == old(self).ring@.len(),
                self.kind == old(self).kind,
                self.start_sums == old(self).start_sums,
                self.start_rot == old(self).start_rot,
                forall|j: int| 0 <= j < i ==> self.ring@[j] == 0u8,
            decreases n - i,
        {
            self.ring.set(i, 0);
            i += 1;
        }
        self.next = 0;
        self.sums = self.start_sums;
        self.rot = self.start_rot;
        self.window = Ghost(zeros(n as nat));
    }

    /// Takes the next byte of the stream into the window; the oldest leaves.
    pub fn input(&mut self, b: u8)
        requires
            old(self).wf(),
        ensures
            final(self).wf(),
            final(self)@ == slide(old(self)@, b),
            final(self).algorithm() == old(self).algorithm(),
            final(self).window_size() == old(self).window_size(),
    {
        let ghost w = self.window@;
        let ghost before = self.ring@;
        let n = self.ring.len();
        let at = self.next;
        let out = self.ring[at];
        proof {
            assert(w[0] == before[ring_slot(at as int, 0, n as int)]);
        }
        match self.kind {
            HashKind::RollSum => {
                self.sums = self.sums.roll(n as u32, out, b, Ghost(w));
            },
            HashKind::BuzHash => {
                self.rot = buz_roll(self.rot, n as u32, out, b, Ghost(w));
            },
        }
        self.ring.set(at, b);
        self.next = if at + 1 == n {
            0
        } else {
            at + 1
        };
        self.window = Ghost(slide(w, b));
        proof {
            assert forall|i: int| 0 <= i < n implies #[trigger] self.window@[i] == self.ring@[ring_slot(
                self.next as int,
                i,
                n as int,
            )] by {
                if i < n - 1 {
                    assert(self.window@[i] == w[i + 1]);
                    assert(w[i + 1] == before[ring_slot(at as int, i + 1, n as int)]);
                }
            }
        }
    }

    /// Takes a run of bytes into the window, one after the other.
    pub fn feed(&mut self, data: &[u8])
        requires
            old(self).wf(),
        ensures
            final(self).wf(),
            final(self)@ == slide_all(old(self)@, data@),
            final(self).algorithm() == old(self).algorithm(),
            final(self).window_size() == old(self).window_size(),
    {
        let mut i: usize = 0;
        proof {
            assert(data@.take(0) =~= Seq::<u8>::empty());
        }
        while i < data.len()
            invariant
                i <= data@.len(),
                self.wf(),
                self@ == slide_all(old(self)@, data@.take(i as int)),
                self.algorithm() == old(self).algorithm(),
                self.window_size() == old(self).window_size(),
            decreases data@.len() - i,
        {
            proof {
                let next = data@.take(i as int + 1);
                assert(next.drop_last() =~= data@.take(i as int));
                assert(next.last() == data@[i as int]);
            }
            self.input(data[i]);
            i += 1;
        }
        proof {
            assert(data@.take(data@.len() as int) =~= data@);
        }
    }

    /// The hash of the window.
    pub fn sum(&self) -> (r: u32)
        requires
            self.wf(),
        ensures
            r == window_hash(self.algorithm(), self@),
    {
        match self.kind {
            HashKind::RollSum => self.sums.digest(Ghost(self.window@)),
            HashKind::BuzHash => self.rot,
        }
    }
}

} // verus!
