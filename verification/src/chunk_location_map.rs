//! Where the stored form of each chunk lies in an archive's chunk data.

use crate::chunk_dictionary::{ChunkDictionary, DescriptorView};
use crate::compression::Compression;
use crate::error::{Error, FormatError};
use crate::digest_table::DigestTable;
use crate::hashsum::HashSum;
use vstd::prelude::*;

verus! {

/// The extent of a stored chunk, and what is needed to decode it.
#[derive(Clone, Copy, Debug, PartialEq, Eq, Structural)]
pub struct ChunkLocation {
    /// Where the stored form begins in the chunk data.
    pub offset: u64,
    /// The number of stored bytes.
    pub stored_size: u32,
    /// The number of bytes of the chunk itself.
    pub raw_size: u32,
    /// How the chunk is stored.
    pub compression: Compression,
}

/// The location that a descriptor records.
pub open spec fn location_of(d: DescriptorView) -> ChunkLocation {
    ChunkLocation {
        offset: d.offset,
        stored_size: d.stored_size,
        raw_size: d.raw_size,
        compression: d.compression,
    }
}

/// Whether `m` holds, under the hash of each descriptor, the location that
/// the descriptor records, and nothing under any other hash.
pub open spec fn locates(m: Map<Seq<u8>, ChunkLocation>, descriptors: Seq<DescriptorView>) -> bool {
    &&& forall|d: int|
        0 <= d < descriptors.len() ==> m.dom().contains((#[trigger] descriptors[d]).hash) && m[descriptors[d].hash]
            == location_of(descriptors[d])
    &&& forall|h: Seq<u8>|
        m.dom().contains(h) ==> exists|d: int|
            0 <= d < descriptors.len() && (#[trigger] descriptors[d]).hash == h
}

/// A mapping from chunk hash to the chunk's location, made once from a
/// dictionary and read-only from then on.
pub struct ChunkLocationMap {
    table: DigestTable,
    locations: Vec<ChunkLocation>,
    map: Ghost<Map<Seq<u8>, ChunkLocation>>,
}

impl View for ChunkLocationMap {
    type V = Map<Seq<u8>, ChunkLocation>;

    closed spec fn view(&self) -> Map<Seq<u8>, ChunkLocation> {
        self.map@
    }
}

impl ChunkLocationMap {
    /// The invariant: every hash is held once, with its location.
    pub closed spec fn wf(&self) -> bool {
        &&& self.table.wf()
        &&& self.table.keys().len() == self.locations@.len()
        &&& forall|i: int|
            0 <= i < self.locations@.len() ==> self.map@.dom().contains(
                #[trigger] self.table.keys()[i],
            ) && self.map@[self.table.keys()[i]] == self.locations@[i]
        &&& forall|k: Seq<u8>|
            self.map@.dom().contains(k) ==> exists|i: int|
                0 <= i < self.locations@.len() && #[trigger] self.table.keys()[i] == k
    }

    /// The locations that a dictionary records; a dictionary in which a hash
    /// occurs twice is refused.
    pub fn from_dictionary(dictionary: &ChunkDictionary) -> (r: Result<Self, Error>)
        ensures
            match r {
                Ok(m) => dictionary@.distinct() && m.wf() && locates(
                    m@,
                    dictionary@.descriptors,
                ),
                Err(e) => e == Error::Format(FormatError::DuplicateChunk)
                    && !dictionary@.distinct(),
            },
    {
        let ghost descs = dictionary@.descriptors;
        let mut table = DigestTable::new();
        let mut locations: Vec<ChunkLocation> = Vec::new();
        let ghost mut map: Map<Seq<u8>, ChunkLocation> = Map::empty();
        let mut i: usize = 0;
        while i < dictionary.descriptors.len()
            invariant
                i <= dictionary.descriptors@.len(),
                descs == dictionary@.descriptors,
                descs.len() == dictionary.descriptors@.len(),
                table.wf(),
                table.keys().len() == i,
                locations@.len() == i,
                forall|j: int| 0 <= j < i ==> #[trigger] table.keys()[j] == descs[j].hash,
                forall|j: int| 0 <= j < i ==> #[trigger] locations@[j] == location_of(descs[j]),
                forall|a: int, b: int|
                    0 <= a < b < i ==> (#[trigger] descs[a]).hash != (#[trigger] descs[b]).hash,
                forall|j: int|
                    0 <= j < i ==> map.dom().contains((#[trigger] descs[j]).hash) && map[descs[j].hash]
                        == location_of(descs[j]),
                forall|h: Seq<u8>|
                    map.dom().contains(h) ==> exists|j: int|
                        0 <= j < i && (#[trigger] descs[j]).hash == h,
            decreases dictionary.descriptors@.len() - i,
        {
            let d = &dictionary.descriptors[i];
            assert(d@ == descs[i as int]);
            match table.find(&d.hash) {
                Some(j) => {
                    assert(descs[j as int].hash == descs[i as int].hash);
                    return Err(Error::Format(FormatError::DuplicateChunk));
                },
                None => {},
            }
            let location = ChunkLocation {
                offset: d.offset,
                stored_size: d.stored_size,
                raw_size: d.raw_size,
                compression: d.compression,
            };
            let ghost before = map;
            proof {
                assert forall|a: int| 0 <= a < i implies (#[trigger] descs[a]).hash
                    != descs[i as int].hash by {
                    assert(table.keys()[a] == descs[a].hash);
                }
                map = map.insert(d.hash@, location);
            }
            table.push(d.hash.clone());
            locations.push(location);
            proof {
                assert forall|h: Seq<u8>| map.dom().contains(h) implies exists|j: int|
                    0 <= j < i + 1 && (#[trigger] descs[j]).hash == h by {
                    if h == descs[i as int].hash {
                    } else {
                        assert(before.dom().contains(h));
                        let j = choose|j: int| 0 <= j < i && (#[trigger] descs[j]).hash == h;
                        assert(0 <= j < i + 1 && descs[j].hash == h);
                    }
                }
            }
            i += 1;
        }
        proof {
            assert forall|k: Seq<u8>| map.dom().contains(k) implies exists|j: int|
                0 <= j < locations@.len() && #[trigger] table.keys()[j] == k by {
                let j = choose|j: int| 0 <= j < i && (#[trigger] descs[j]).hash == k;
                assert(table.keys()[j] == k);
            }
            assert forall|j: int| 0 <= j < locations@.len() implies map.dom().contains(
                #[trigger] table.keys()[j],
            ) && map[table.keys()[j]] == locations@[j] by {
                assert(table.keys()[j] == descs[j].hash);
                assert(map.dom().contains(descs[j].hash));
            }
        }
        Ok(ChunkLocationMap { table, locations, map: Ghost(map) })
    }

    /// The location of the chunk with this hash, if the archive holds it.
    pub fn find(&self, hash: &HashSum) -> (r: Option<ChunkLocation>)
        requires
            self.wf(),
        ensures
            r == if self@.dom().contains(hash@) {
                Some(self@[hash@])
            } else {
                None::<ChunkLocation>
            },
    {
        match self.table.find(hash) {
            Some(i) => Some(self.locations[i]),
            None => {
                proof {
                    if self.map@.dom().contains(hash@) {
                        let j = choose|j: int|
                            0 <= j < self.locations@.len() && #[trigger] self.table.keys()[j]
                                == hash@;
                        assert(self.table.keys()[j] != hash@);
                    }
                }
                None
            },
        }
    }
}

} // verus!
