//! Chunk identity: a strong digest of the chunk's bytes, cut to the length
//! that the archive is configured with.

use vstd::prelude::*;
use vstd::slice::slice_to_vec;

verus! {

/// The number of bytes in a full digest.
pub const DIGEST_SIZE: usize = 64;

/// The BLAKE2b-512 digest of a byte sequence.
pub uninterp spec fn blake2b_512(data: Seq<u8>) -> Seq<u8>;

/// The first `n` bytes of the digest of `data`; the whole digest where it has
/// no more than `n` bytes.
pub open spec fn truncated_digest(data: Seq<u8>, n: nat) -> Seq<u8> {
    let full = blake2b_512(data);
    if n < full.len() {
        full.take(n as int)
    } else {
        full
    }
}

/// Whether `a` comes before `b` when both are compared byte by byte, a proper
/// prefix coming before what it is a prefix of.
pub open spec fn lex_less(a: Seq<u8>, b: Seq<u8>) -> bool
    decreases a.len(),
{
    if b.len() == 0 {
        false
    } else if a.len() == 0 {
        true
    } else {
        a[0] < b[0] || (a[0] == b[0] && lex_less(a.drop_first(), b.drop_first()))
    }
}

/// Calls `blake2::Blake2b512::digest` (the `Digest` trait's one-shot method).
/// The contract names its result, a function of the input bytes alone, and
/// states that it has 64 bytes, the output size of BLAKE2b-512. Nothing else
/// about the digest is claimed.
#[verifier::external_body]
fn blake2b_512_digest(data: &[u8]) -> (out: Vec<u8>)
    ensures
        out@ == blake2b_512(data@),
        out@.len() == DIGEST_SIZE,
{
    <blake2::Blake2b512 as blake2::Digest>::digest(data).to_vec()
}

/// Compares two byte strings.
pub fn bytes_equal(a: &[u8], b: &[u8]) -> (r: bool)
    ensures
        r == (a@ == b@),
{
    if a.len() != b.len() {
        return false;
    }
    let mut i: usize = 0;
    while i < a.len()
        invariant
            i <= a@.len(),
            a@.len() == b@.len(),
            forall|j: int| 0 <= j < i ==> a@[j] == b@[j],
        decreases a@.len() - i,
    {
        if a[i] != b[i] {
            return false;
        }
        i += 1;
    }
    assert(a@ =~= b@);
    true
}

/// A content digest, possibly truncated. Two hash sums are equal when their
/// bytes are.
#[derive(Debug)]
pub struct HashSum {
    bytes: Vec<u8>,
}

impl View for HashSum {
    type V = Seq<u8>;

    closed spec fn view(&self) -> Seq<u8> {
        self.bytes@
    }
}

impl Clone for HashSum {
    fn clone(&self) -> (r: Self)
        ensures
            r@ == self@,
    {
        HashSum { bytes: slice_to_vec(self.bytes.as_slice()) }
    }
}

impl PartialEq for HashSum {
    fn eq(&self, other: &HashSum) -> (r: bool) {
        bytes_equal(self.bytes.as_slice(), other.bytes.as_slice())
    }
}

impl Eq for HashSum {

}

impl vstd::std_specs::cmp::PartialEqSpecImpl for HashSum {
    open spec fn obeys_eq_spec() -> bool {
        true
    }

    open spec fn eq_spec(&self, other: &HashSum) -> bool {
        self@ == other@
    }
}

impl HashSum {
    /// The hash sum with the given bytes.
    pub fn from_slice(bytes: &[u8]) -> (r: Self)
        ensures
            r@ == bytes@,
    {
        HashSum { bytes: slice_to_vec(bytes) }
    }

    /// The hash sum with the given bytes.
    pub fn from_vec(bytes: Vec<u8>) -> (r: Self)
        ensures
            r@ == bytes@,
    {
        HashSum { bytes }
    }

    /// The hash sum made of the first `hash_length` bytes of a full digest; of
    /// the whole digest where it has no more.
    pub fn from_digest(digest: Vec<u8>, hash_length: usize) -> (r: Self)
        ensures
            r@ == if hash_length < digest@.len() {
                digest@.take(hash_length as int)
            } else {
                digest@
            },
    {
        let mut bytes = digest;
        if hash_length < bytes.len() {
            bytes.truncate(hash_length);
        }
        HashSum { bytes }
    }

    /// The digest of `data`, cut to at most `hash_length` bytes.
    pub fn b2_digest(data: &[u8], hash_length: usize) -> (r: Self)
        ensures
            r@ == truncated_digest(data@, hash_length as nat),
            r@.len() == if hash_length < DIGEST_SIZE {
                hash_length
            } else {
                DIGEST_SIZE
            },
    {
        HashSum::from_digest(blake2b_512_digest(data), hash_length)
    }

    /// The number of bytes.
    pub fn len(&self) -> (n: usize)
        ensures
            n == self@.len(),
    {
        self.bytes.len()
    }

    /// The bytes.
    pub fn as_slice(&self) -> (s: &[u8])
        ensures
            s@ == self@,
    {
        self.bytes.as_slice()
    }

    /// A copy of the bytes.
    pub fn to_vec(&self) -> (v: Vec<u8>)
        ensures
            v@ == self@,
    {
        slice_to_vec(self.bytes.as_slice())
    }

    /// This hash sum cut to at most `n` bytes.
    pub fn truncated(&self, n: usize) -> (r: Self)
        ensures
            r@ == if n < self@.len() {
                self@.take(n as int)
            } else {
                self@
            },
    {
        let mut bytes = slice_to_vec(self.bytes.as_slice());
        if n < bytes.len() {
            bytes.truncate(n);
        }
        HashSum { bytes }
    }

    /// Whether both hash sums have at least `n` bytes and agree on their first
    /// `n`.
    pub fn same_prefix(&self, other: &HashSum, n: usize) -> (r: bool)
        ensures
            r == (n <= self@.len() && n <= other@.len() && self@.take(n as int) == other@.take(
                n as int,
            )),
    {
        if n > self.bytes.len() || n > other.bytes.len() {
            return false;
        }
        let mut i: usize = 0;
        while i < n
            invariant
                i <= n <= self.bytes@.len(),
                n <= other.bytes@.len(),
                forall|j: int| 0 <= j < i ==> self.bytes@[j] == other.bytes@[j],
            decreases n - i,
        {
            if self.bytes[i] != other.bytes[i] {
                assert(self@.take(n as int)[i as int] != other@.take(n as int)[i as int]);
                return false;
            }
            i += 1;
        }
        assert(self@.take(n as int) =~= other@.take(n as int));
        true
    }

    /// Whether this hash sum comes before `other` in byte-wise order.
    pub fn precedes(&self, other: &HashSum) -> (r: bool)
        ensures
            r == lex_less(self@, other@),
    {
        let mut i: usize = 0;
        proof {
            assert(self@.skip(0) =~= self@);
            assert(other@.skip(0) =~= other@);
        }
        while i < self.bytes.len() && i < other.bytes.len()
            invariant
                i <= self.bytes@.len(),
                i <= other.bytes@.len(),
                lex_less(self@, other@) == lex_less(self@.skip(i as int), other@.skip(i as int)),
            decreases self.bytes@.len() - i,
        {
            let ghost a = self@.skip(i as int);
            let ghost b = other@.skip(i as int);
            proof {
                assert(a.drop_first() =~= self@.skip(i as int + 1));
                assert(b.drop_first() =~= other@.skip(i as int + 1));
            }
            if self.bytes[i] < other.bytes[i] {
                return true;
            }
            if self.bytes[i] > other.bytes[i] {
                return false;
            }
            i += 1;
        }
        i < other.bytes.len()
    }
}

} // verus!
