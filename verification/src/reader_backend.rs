//! The capability to read a byte range of a resource, and the resource that
//! is a byte string in memory.

use crate::error::Error;
use vstd::prelude::*;
use vstd::slice::{slice_subrange, slice_to_vec};

verus! {

/// Something that hands out byte ranges of a resource that does not change.
pub trait ReaderBackend {
    /// The bytes of the resource.
    spec fn resource(&self) -> Seq<u8>;

    /// Whether the backend undertakes to serve a read of `size` bytes at
    /// `offset`. A backend that may fail at any time undertakes nothing.
    spec fn serves(&self, offset: u64, size: usize) -> bool;

    /// Reads `size` bytes at `offset`: exactly the bytes of that range, or a
    /// failure of the I/O kind, which is not returned for a read that the
    /// backend undertakes to serve.
    fn read_at(&mut self, offset: u64, size: usize) -> (r: Result<Vec<u8>, Error>)
        ensures
            final(self).resource() == old(self).resource(),
            forall|o: u64, s: usize| final(self).serves(o, s) == old(self).serves(o, s),
            match r {
                Ok(bytes) => offset + size <= old(self).resource().len() && bytes@ == old(
                    self,
                ).resource().subrange(offset as int, offset + size),
                Err(e) => e == Error::Io && !old(self).serves(offset, size),
            },
    ;
}

/// A resource held in memory.
pub struct MemoryBackend {
    pub data: Vec<u8>,
}

impl MemoryBackend {
    /// The backend that reads from `data`.
    pub fn new(data: Vec<u8>) -> (r: Self)
        ensures
            r.resource() == data@,
    {
        MemoryBackend { data }
    }
}

impl ReaderBackend for MemoryBackend {
    open spec fn resource(&self) -> Seq<u8> {
        self.data@
    }

    /// Every read that lies within the data is served.
    open spec fn serves(&self, offset: u64, size: usize) -> bool {
        offset + size <= self.data@.len()
    }

    fn read_at(&mut self, offset: u64, size: usize) -> (r: Result<Vec<u8>, Error>) {
        let len = self.data.len();
        if offset > len as u64 || size > len - offset as usize {
            return Err(Error::Io);
        }
        let from = offset as usize;
        Ok(slice_to_vec(slice_subrange(self.data.as_slice(), from, from + size)))
    }
}

} // verus!
