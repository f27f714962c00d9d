//! The work list of a reconstruction: for every chunk hash that the output
//! still needs, the offsets at which the chunk's bytes are to be placed.

use crate::digest_table::{lemma_covered_set_len, DigestTable};
use crate::hashsum::HashSum;
use vstd::prelude::*;
use vstd::slice::slice_to_vec;

verus! {

/// The offsets recorded under `hash` in `m`; none where `hash` is no key.
pub open spec fn offsets_in(m: Map<Seq<u8>, Seq<u64>>, hash: Seq<u8>) -> Seq<u64> {
    if m.dom().contains(hash) {
        m[hash]
    } else {
        Seq::empty()
    }
}

/// What recording an offset under a hash makes of a work list.
pub open spec fn recorded(m: Map<Seq<u8>, Seq<u64>>, hash: Seq<u8>, offset: u64) -> Map<
    Seq<u8>,
    Seq<u64>,
> {
    m.insert(hash, offsets_in(m, hash).push(offset))
}

/// Recording an offset under one hash leaves the offsets of every other hash
/// as they were; and two chunks that have the same hash share one entry, which
/// holds the offsets of both in the order in which they were recorded.
pub proof fn lemma_same_hash_shares_entry(
    m: Map<Seq<u8>, Seq<u64>>,
    hash: Seq<u8>,
    first: u64,
    second: u64,
    other: Seq<u8>,
)
    requires
        other != hash,
    ensures
        offsets_in(recorded(m, hash, first), other) == offsets_in(m, other),
        offsets_in(recorded(recorded(m, hash, first), hash, second), other) == offsets_in(m, other),
        offsets_in(recorded(recorded(m, hash, first), hash, second), hash) == offsets_in(
            m,
            hash,
        ).push(first).push(second),
{
}

/// A mapping from chunk hash to the output offsets that wait for that chunk.
///
/// A hash that has been claimed keeps its place in the table, with no offsets.
pub struct ChunkIndex {
    table: DigestTable,
    offsets: Vec<Vec<u64>>,
    live: usize,
    map: Ghost<Map<Seq<u8>, Seq<u64>>>,
}

impl View for ChunkIndex {
    type V = Map<Seq<u8>, Seq<u64>>;

    closed spec fn view(&self) -> Map<Seq<u8>, Seq<u64>> {
        self.map@
    }
}

impl ChunkIndex {
    /// The invariant: the hashes that are waited for are those in the table
    /// that have offsets, and they are counted.
    pub closed spec fn wf(&self) -> bool {
        &&& self.table.wf()
        &&& self.table.keys().len() == self.offsets@.len()
        &&& forall|i: int|
            0 <= i < self.offsets@.len() ==> (self.map@.dom().contains(
                #[trigger] self.table.keys()[i],
            ) <==> self.offsets@[i]@.len() > 0)
        &&& forall|i: int|
            0 <= i < self.offsets@.len() && self.map@.dom().contains(
                #[trigger] self.table.keys()[i],
            ) ==> self.map@[self.table.keys()[i]] == self.offsets@[i]@
        &&& forall|k: Seq<u8>|
            self.map@.dom().contains(k) ==> exists|i: int|
                0 <= i < self.offsets@.len() && #[trigger] self.table.keys()[i] == k
        &&& self.map@.dom().finite()
        &&& self.map@.dom().len() == self.live
    }

    /// The number of hashes that are waited for.
    pub closed spec fn size(&self) -> nat {
        self.live as nat
    }

    /// Every hash that is waited for has at least one offset.
    pub proof fn lemma_offsets_nonempty(&self)
        requires
            self.wf(),
        ensures
            forall|k: Seq<u8>| self@.dom().contains(k) ==> (#[trigger] self@[k]).len() > 0,
    {
        assert forall|k: Seq<u8>| self@.dom().contains(k) implies (#[trigger] self@[k]).len()
            > 0 by {
            let i = choose|i: int|
                0 <= i < self.offsets@.len() && #[trigger] self.table.keys()[i] == k;
            assert(self.map@.dom().contains(self.table.keys()[i]));
        }
    }

    /// The size is the number of hashes in the mapping.
    pub proof fn lemma_size(&self)
        requires
            self.wf(),
        ensures
            self@.dom().finite(),
            self.size() == self@.dom().len(),
    {
    }

    /// An index that waits for nothing.
    pub fn new() -> (r: Self)
        ensures
            r.wf(),
            r@ == Map::<Seq<u8>, Seq<u64>>::empty(),
            r.size() == 0,
    {
        ChunkIndex {
            table: DigestTable::new(),
            offsets: Vec::new(),
            live: 0,
            map: Ghost(Map::empty()),
        }
    }

    /// Records that the chunk with this hash is needed at `offset`, after the
    /// offsets already recorded for it.
    pub fn insert(&mut self, hash: HashSum, offset: u64)
        requires
            old(self).wf(),
        ensures
            final(self).wf(),
            final(self)@ == recorded(old(self)@, hash@, offset),
            final(self).size() == old(self).size() + if old(self)@.dom().contains(hash@) {
                0nat
            } else {
                1nat
            },
    {
        let ghost before = self.map@;
        let ghost key = hash@;
        let ghost grown = offsets_in(before, key).push(offset);
        let ghost after = before.insert(key, grown);
        let ghost old_keys = self.table.keys();
        let ghost old_offsets = self.offsets@;
        proof {
            self.table.lemma_distinct();
            assert(after.dom() =~= before.dom().insert(key));
        }
        match self.table.find(&hash) {
            Some(i) => {
                let waited = self.offsets[i].len() > 0;
                let mut list: Vec<u64> = Vec::new();
                std::mem::swap(&mut list, &mut self.offsets[i]);
                list.push(offset);
                self.offsets.set(i, list);
                self.map = Ghost(after);
                proof {
                    assert(waited == before.dom().contains(old_keys[i as int]));
                    assert forall|k: Seq<u8>| after.dom().contains(k) implies exists|j: int|
                        0 <= j < old_keys.len() && #[trigger] old_keys[j] == k by {
                        if k == key {
                            assert(old_keys[i as int] == k);
                        } else {
                            assert(before.dom().contains(k));
                        }
                    }
                    lemma_covered_set_len(old_keys, after.dom());
                }
                if !waited {
                    let _bound = self.table.len();
                    self.live = self.live + 1;
                }
                proof {
                    assert(grown =~= self.offsets@[i as int]@);
                    assert forall|j: int| 0 <= j < self.offsets@.len() implies (
                    self.map@.dom().contains(#[trigger] self.table.keys()[j])
                        <==> self.offsets@[j]@.len() > 0) by {
                        if j != i {
                            assert(self.offsets@[j] == old_offsets[j]);
                            if j < i {
                                assert(old_keys[j] != old_keys[i as int]);
                            } else {
                                assert(old_keys[i as int] != old_keys[j]);
                            }
                        }
                    }
                    assert forall|j: int|
                        0 <= j < self.offsets@.len() && self.map@.dom().contains(
                            #[trigger] self.table.keys()[j],
                        ) implies self.map@[self.table.keys()[j]] == self.offsets@[j]@ by {
                        if j != i {
                            assert(self.offsets@[j] == old_offsets[j]);
                            if j < i {
                                assert(old_keys[j] != old_keys[i as int]);
                            } else {
                                assert(old_keys[i as int] != old_keys[j]);
                            }
                        }
                    }
                    assert forall|k: Seq<u8>| self.map@.dom().contains(k) implies exists|j: int|
                        0 <= j < self.offsets@.len() && #[trigger] self.table.keys()[j] == k by {
                        if k == key {
                            assert(self.table.keys()[i as int] == k);
                        } else {
                            assert(before.dom().contains(k));
                        }
                    }
                }
                assert(self.map@.dom().len() == self.live);
                assert(self.wf());
            },
            None => {
                let mut list: Vec<u64> = Vec::new();
                list.push(offset);
                self.table.push(hash);
                self.offsets.push(list);
                self.map = Ghost(after);
                let _bound = self.table.len();
                proof {
                    assert forall|k: Seq<u8>| after.dom().contains(k) implies exists|j: int|
                        0 <= j < self.table.keys().len() && #[trigger] self.table.keys()[j]
                            == k by {
                        if k == key {
                            assert(self.table.keys()[old_offsets.len() as int] == k);
                        } else {
                            let j = choose|j: int|
                                0 <= j < old_offsets.len() && #[trigger] old_keys[j] == k;
                            assert(self.table.keys()[j] == k);
                        }
                    }
                    lemma_covered_set_len(self.table.keys(), after.dom());
                    assert(!before.dom().contains(key)) by {
                        if before.dom().contains(key) {
                            let j = choose|j: int|
                                0 <= j < old_offsets.len() && #[trigger] old_keys[j] == key;
                            assert(old_keys[j] != key);
                        }
                    }
                }
                self.live = self.live + 1;
                proof {
                    assert(!before.dom().contains(key)) by {
                        if before.dom().contains(key) {
                            let j = choose|j: int|
                                0 <= j < old_offsets.len() && #[trigger] old_keys[j] == key;
                            assert(old_keys[j] != key);
                        }
                    }
                    assert(grown =~= seq![offset]);
                    assert forall|j: int| 0 <= j < self.offsets@.len() implies (
                    self.map@.dom().contains(#[trigger] self.table.keys()[j])
                        <==> self.offsets@[j]@.len() > 0) by {
                        if j < old_offsets.len() {
                            assert(self.table.keys()[j] == old_keys[j]);
                            assert(self.offsets@[j] == old_offsets[j]);
                            assert(old_keys[j] != key);
                        }
                    }
                    assert forall|j: int|
                        0 <= j < self.offsets@.len() && self.map@.dom().contains(
                            #[trigger] self.table.keys()[j],
                        ) implies self.map@[self.table.keys()[j]] == self.offsets@[j]@ by {
                        if j < old_offsets.len() {
                            assert(self.table.keys()[j] == old_keys[j]);
                            assert(self.offsets@[j] == old_offsets[j]);
                            assert(old_keys[j] != key);
                        }
                    }
                    assert forall|k: Seq<u8>| self.map@.dom().contains(k) implies exists|j: int|
                        0 <= j < self.offsets@.len() && #[trigger] self.table.keys()[j] == k by {
                        if k == key {
                            assert(self.table.keys()[old_offsets.len() as int] == k);
                        } else {
                            let j = choose|j: int|
                                0 <= j < old_offsets.len() && #[trigger] old_keys[j] == k;
                            assert(self.table.keys()[j] == k);
                        }
                    }
                }
                assert(self.map@.dom().len() == self.live);
                assert(self.wf());
            },
        }
    }

    /// Whether any offset waits for the chunk with this hash.
    pub fn contains(&self, hash: &HashSum) -> (r: bool)
        requires
            self.wf(),
        ensures
            r == self@.dom().contains(hash@),
    {
        match self.table.find(hash) {
            Some(i) => self.offsets[i].len() > 0,
            None => {
                proof {
                    self.lemma_absent(hash@);
                }
                false
            },
        }
    }

    /// A hash that is not in the table is not waited for.
    proof fn lemma_absent(&self, key: Seq<u8>)
        requires
            self.wf(),
            forall|j: int| 0 <= j < self.table.keys().len() ==> #[trigger] self.table.keys()[j] != key,
        ensures
            !self@.dom().contains(key),
    {
        if self.map@.dom().contains(key) {
            let j = choose|j: int|
                0 <= j < self.offsets@.len() && #[trigger] self.table.keys()[j] == key;
            assert(self.table.keys()[j] != key);
        }
    }

    /// The offsets that wait for the chunk with this hash, in the order in
    /// which they were recorded.
    pub fn offsets(&self, hash: &HashSum) -> (r: Option<Vec<u64>>)
        requires
            self.wf(),
        ensures
            match r {
                Some(list) => self@.dom().contains(hash@) && list@ == self@[hash@],
                None => !self@.dom().contains(hash@),
            },
    {
        match self.table.find(hash) {
            Some(i) => {
                if self.offsets[i].len() > 0 {
                    Some(slice_to_vec(self.offsets[i].as_slice()))
                } else {
                    None
                }
            },
            None => {
                proof {
                    self.lemma_absent(hash@);
                }
                None
            },
        }
    }

    /// Claims the chunk with this hash: hands out the offsets that wait for it
    /// and forgets the hash. A hash that is not waited for yields nothing and
    /// changes nothing.
    pub fn remove(&mut self, hash: &HashSum) -> (r: Option<Vec<u64>>)
        requires
            old(self).wf(),
        ensures
            final(self).wf(),
            match r {
                Some(list) => old(self)@.dom().contains(hash@) && list@ == old(self)@[hash@]
                    && list@.len() > 0 && final(self)@ == old(self)@.remove(hash@) && final(
                    self
                ).size() == old(self).size() - 1,
                None => !old(self)@.dom().contains(hash@) && final(self)@ == old(self)@
                    && final(self).size() == old(self).size(),
            },
    {
        let ghost before = self.map@;
        let ghost key = hash@;
        let ghost old_offsets = self.offsets@;
        proof {
            self.table.lemma_distinct();
        }
        match self.table.find(hash) {
            Some(i) => {
                if self.offsets[i].len() == 0 {
                    return None;
                }
                let mut list: Vec<u64> = Vec::new();
                std::mem::swap(&mut list, &mut self.offsets[i]);
                self.map = Ghost(before.remove(key));
                proof {
                    assert(before.dom().contains(key));
                    assert(before.remove(key).dom() =~= before.dom().remove(key));
                }
                self.live = self.live - 1;
                proof {
                    let keys = self.table.keys();
                    assert(before.remove(key).dom() =~= before.dom().remove(key));
                    assert(self.offsets@[i as int]@.len() == 0);
                    assert forall|j: int| 0 <= j < self.offsets@.len() implies (
                    self.map@.dom().contains(#[trigger] self.table.keys()[j])
                        <==> self.offsets@[j]@.len() > 0) by {
                        if j != i {
                            assert(self.offsets@[j] == old_offsets[j]);
                            if j < i {
                                assert(keys[j] != keys[i as int]);
                            } else {
                                assert(keys[i as int] != keys[j]);
                            }
                        }
                    }
                    assert forall|j: int|
                        0 <= j < self.offsets@.len() && self.map@.dom().contains(
                            #[trigger] self.table.keys()[j],
                        ) implies self.map@[self.table.keys()[j]] == self.offsets@[j]@ by {
                        assert(self.offsets@[j] == old_offsets[j]);
                    }
                    assert forall|k: Seq<u8>| self.map@.dom().contains(k) implies exists|j: int|
                        0 <= j < self.offsets@.len() && #[trigger] self.table.keys()[j] == k by {
                        assert(before.dom().contains(k));
                    }
                }
                assert(self.map@.dom().len() == self.live);
                assert(self.wf());
                Some(list)
            },
            None => {
                proof {
                    self.lemma_absent(hash@);
                }
                None
            },
        }
    }

    /// Whether nothing is waited for any more.
    pub fn is_empty(&self) -> (r: bool)
        requires
            self.wf(),
        ensures
            r == (self@ == Map::<Seq<u8>, Seq<u64>>::empty()),
    {
        proof {
            if self.live == 0 {
                assert(self.map@.dom() =~= Set::<Seq<u8>>::empty());
                assert(self.map@ =~= Map::<Seq<u8>, Seq<u64>>::empty());
            }
        }
        self.live == 0
    }

    /// The number of hashes that are waited for.
    pub fn len(&self) -> (n: usize)
        ensures
            n == self.size(),
    {
        self.live
    }
}

} // verus!
