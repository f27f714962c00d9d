//! A table of distinct hash sums, each at a fixed place, that finds a hash sum
//! by looking only at those that share its fingerprint.

use crate::hashsum::{bytes_equal, HashSum};
use std::collections::HashMap;
use vstd::prelude::*;

verus! {

/// The first `n` bytes of `s` folded into 64 bits.
pub open spec fn fold_bytes(s: Seq<u8>, n: nat) -> u64
    decreases n,
{
    if n == 0 {
        0
    } else {
        fold_bytes(s, (n - 1) as nat).wrapping_mul(256).wrapping_add(s[n - 1] as u64)
    }
}

/// The fingerprint of a hash sum: its first eight bytes, or all of them where
/// there are fewer, folded into 64 bits.
pub open spec fn fingerprint(s: Seq<u8>) -> u64 {
    fold_bytes(
        s,
        if s.len() < 8 {
            s.len()
        } else {
            8
        },
    )
}

/// Computes the fingerprint of a hash sum.
pub fn fingerprint_of(bytes: &[u8]) -> (r: u64)
    ensures
        r == fingerprint(bytes@),
{
    let n: usize = if bytes.len() < 8 {
        bytes.len()
    } else {
        8
    };
    let mut v: u64 = 0;
    let mut i: usize = 0;
    while i < n
        invariant
            i <= n <= bytes@.len(),
            v == fold_bytes(bytes@, i as nat),
        decreases n - i,
    {
        v = v.wrapping_mul(256).wrapping_add(bytes[i] as u64);
        i += 1;
    }
    v
}

/// A set with no more elements than a sequence that covers it is long.
pub(crate) proof fn lemma_covered_set_len(keys: Seq<Seq<u8>>, set: Set<Seq<u8>>)
    requires
        set.finite(),
        forall|k: Seq<u8>|
            set.contains(k) ==> exists|i: int| 0 <= i < keys.len() && #[trigger] keys[i] == k,
    ensures
        set.len() <= keys.len(),
    decreases keys.len(),
{
    if keys.len() == 0 {
        assert forall|k: Seq<u8>| !set.contains(k) by {
            if set.contains(k) {
                let i = choose|i: int| 0 <= i < keys.len() && #[trigger] keys[i] == k;
            }
        }
        assert(set =~= Set::<Seq<u8>>::empty());
    } else {
        let last = keys.last();
        let rest = keys.drop_last();
        let less = set.remove(last);
        assert forall|k: Seq<u8>| less.contains(k) implies exists|i: int|
            0 <= i < rest.len() && #[trigger] rest[i] == k by {
            let i = choose|i: int| 0 <= i < keys.len() && #[trigger] keys[i] == k;
            assert(rest[i] == k);
        }
        lemma_covered_set_len(rest, less);
    }
}

/// Distinct hash sums in the order in which they were entered.
pub struct DigestTable {
    keys: Vec<HashSum>,
    buckets: HashMap<u64, Vec<usize>>,
}

impl DigestTable {
    /// The hash sums of the table, by place.
    pub closed spec fn keys(&self) -> Seq<Seq<u8>> {
        self.keys@.map_values(|h: HashSum| h@)
    }

    /// The invariant: no hash sum occurs twice, and each is listed under its
    /// fingerprint, where nothing else is listed.
    pub closed spec fn wf(&self) -> bool {
        &&& forall|i: int|
            0 <= i < self.keys@.len() ==> self.buckets@.contains_key(
                fingerprint((#[trigger] self.keys@[i])@),
            ) && self.buckets@[fingerprint(self.keys@[i]@)]@.contains(i as usize)
        &&& forall|k: u64, t: int|
            self.buckets@.contains_key(k) && 0 <= t < self.buckets@[k]@.len() ==> (
            #[trigger] self.buckets@[k]@[t]) < self.keys@.len() && fingerprint(
                self.keys@[self.buckets@[k]@[t] as int]@,
            ) == k
        &&& forall|i: int, j: int|
            0 <= i < j < self.keys@.len() ==> (#[trigger] self.keys@[i])@ != (
            #[trigger] self.keys@[j])@
    }

    /// No hash sum occurs twice.
    pub proof fn lemma_distinct(&self)
        requires
            self.wf(),
        ensures
            forall|i: int, j: int|
                0 <= i < j < self.keys().len() ==> #[trigger] self.keys()[i]
                    != #[trigger] self.keys()[j],
    {
        assert forall|i: int, j: int| 0 <= i < j < self.keys().len() implies #[trigger] self.keys()[i]
            != #[trigger] self.keys()[j] by {
            assert(self.keys@[i]@ != self.keys@[j]@);
        }
    }

    /// The empty table.
    pub fn new() -> (r: Self)
        ensures
            r.wf(),
            r.keys() == Seq::<Seq<u8>>::empty(),
    {
        let r = DigestTable { keys: Vec::new(), buckets: HashMap::new() };
        assert(r.keys() =~= Seq::<Seq<u8>>::empty());
        r
    }

    /// The number of hash sums.
    pub fn len(&self) -> (n: usize)
        ensures
            n == self.keys().len(),
    {
        self.keys.len()
    }

    /// The hash sum at place `i`.
    pub fn key(&self, i: usize) -> (h: &HashSum)
        requires
            i < self.keys().len(),
        ensures
            h@ == self.keys()[i as int],
    {
        &self.keys[i]
    }

    /// The place of `hash`, if the table holds it.
    pub fn find(&self, hash: &HashSum) -> (r: Option<usize>)
        requires
            self.wf(),
        ensures
            match r {
                Some(i) => i < self.keys().len() && self.keys()[i as int] == hash@,
                None => forall|j: int|
                    0 <= j < self.keys().len() ==> #[trigger] self.keys()[j] != hash@,
            },
    {
        let code = fingerprint_of(hash.as_slice());
        let count = self.keys.len();
        match self.buckets.get(&code) {
            None => {
                proof {
                    assert forall|j: int| 0 <= j < self.keys().len() implies #[trigger] self.keys()[j]
                        != hash@ by {
                        assert(self.buckets@.contains_key(fingerprint(self.keys@[j]@)));
                    }
                }
                None
            },
            Some(bucket) => {
                let mut t: usize = 0;
                while t < bucket.len()
                    invariant
                        t <= bucket@.len(),
                        self.wf(),
                        count == self.keys@.len(),
                        self.buckets@.contains_key(code),
                        *bucket == self.buckets@[code],
                        forall|s: int|
                            0 <= s < t ==> self.keys@[(#[trigger] bucket@[s]) as int]@ != hash@,
                    decreases bucket@.len() - t,
                {
                    let i = bucket[t];
                    assert(i < self.keys@.len());
                    if bytes_equal(self.keys[i].as_slice(), hash.as_slice()) {
                        return Some(i);
                    }
                    t += 1;
                }
                proof {
                    assert forall|j: int| 0 <= j < self.keys().len() implies #[trigger] self.keys()[j]
                        != hash@ by {
                        if self.keys@[j]@ == hash@ {
                            assert(j < count);
                            assert(self.buckets@[fingerprint(self.keys@[j]@)]@.contains(j as usize));
                            let s = choose|s: int|
                                0 <= s < bucket@.len() && bucket@[s] == j as usize;
                            assert(self.keys@[bucket@[s] as int]@ != hash@);
                        }
                    }
                }
                None
            },
        }
    }

    /// Enters a hash sum that the table does not hold, at the place after the
    /// last.
    pub fn push(&mut self, hash: HashSum)
        requires
            old(self).wf(),
            forall|j: int| 0 <= j < old(self).keys().len() ==> #[trigger] old(self).keys()[j] != hash@,
        ensures
            final(self).wf(),
            final(self).keys() == old(self).keys().push(hash@),
    {
        let ghost old_keys = self.keys@;
        let ghost old_buckets = self.buckets@;
        let place = self.keys.len();
        let code = fingerprint_of(hash.as_slice());
        let mut bucket = match self.buckets.remove(&code) {
            Some(bucket) => bucket,
            None => Vec::new(),
        };
        let ghost old_bucket = bucket@;
        bucket.push(place);
        let ghost new_bucket = bucket@;
        self.buckets.insert(code, bucket);
        self.keys.push(hash);
        proof {
            assert(self.keys() =~= old(self).keys().push(hash@));
            assert forall|i: int| 0 <= i < self.keys@.len() implies self.buckets@.contains_key(
                fingerprint((#[trigger] self.keys@[i])@),
            ) && self.buckets@[fingerprint(self.keys@[i]@)]@.contains(i as usize) by {
                if i < place {
                    assert(self.keys@[i] == old_keys[i]);
                    let c = fingerprint(old_keys[i]@);
                    assert(old_buckets.contains_key(c) && old_buckets[c]@.contains(i as usize));
                    if c == code {
                        let s = choose|s: int|
                            0 <= s < old_bucket.len() && old_bucket[s] == i as usize;
                        assert(new_bucket[s] == i as usize);
                    }
                } else {
                    assert(new_bucket[old_bucket.len() as int] == place);
                }
            }
            assert forall|k: u64, t: int|
                self.buckets@.contains_key(k) && 0 <= t < self.buckets@[k]@.len() implies (
            #[trigger] self.buckets@[k]@[t]) < self.keys@.len() && fingerprint(
                self.keys@[self.buckets@[k]@[t] as int]@,
            ) == k by {
                if k == code {
                    if t < old_bucket.len() {
                        assert(new_bucket[t] == old_bucket[t]);
                        assert(old_buckets.contains_key(k));
                        assert(old_buckets[k]@[t] < old_keys.len());
                        assert(self.keys@[old_bucket[t] as int] == old_keys[old_bucket[t] as int]);
                    }
                } else {
                    assert(old_buckets.contains_key(k));
                    assert(old_buckets[k]@[t] < old_keys.len());
                    assert(self.keys@[old_buckets[k]@[t] as int] == old_keys[old_buckets[k]@[t] as int]);
                }
            }
            assert forall|i: int, j: int| 0 <= i < j < self.keys@.len() implies (
            #[trigger] self.keys@[i])@ != (#[trigger] self.keys@[j])@ by {
                assert(self.keys@[i] == old_keys[i]);
                if j < place {
                    assert(self.keys@[j] == old_keys[j]);
                } else {
                    assert(old(self).keys()[i] != hash@);
                }
            }
        }
    }
}

} // verus!
