//! The sink that a reconstruction writes into: a byte string of the final
//! length, written at given offsets.

use crate::error::Error;
use vstd::prelude::*;

verus! {

/// What `out` holds after `data` has been written over it at `offset`.
pub open spec fn written(out: Seq<u8>, offset: int, data: Seq<u8>) -> Seq<u8> {
    out.take(offset) + data + out.skip(offset + data.len())
}

/// An output of fixed length, held in memory.
pub struct Output {
    data: Vec<u8>,
}

impl View for Output {
    type V = Seq<u8>;

    closed spec fn view(&self) -> Seq<u8> {
        self.data@
    }
}

impl Output {
    /// An output of `size` zero bytes.
    pub fn with_size(size: usize) -> (r: Self)
        ensures
            r@.len() == size,
            forall|i: int| 0 <= i < size ==> r@[i] == 0u8,
    {
        let mut data: Vec<u8> = Vec::new();
        let mut i: usize = 0;
        while i < size
            invariant
                i <= size,
                data@.len() == i,
                forall|j: int| 0 <= j < i ==> data@[j] == 0u8,
            decreases size - i,
        {
            data.push(0);
            i += 1;
        }
        Output { data }
    }

    /// The length of the output.
    pub fn len(&self) -> (n: usize)
        ensures
            n == self@.len(),
    {
        self.data.len()
    }

    /// Writes `data` at `offset`. A write that does not lie within the output
    /// fails and changes nothing.
    pub fn seek_write(&mut self, offset: u64, data: &[u8]) -> (r: Result<(), Error>)
        ensures
            final(self)@.len() == old(self)@.len(),
            match r {
                Ok(_) => offset + data@.len() <= old(self)@.len() && final(self)@ == written(
                    old(self)@,
                    offset as int,
                    data@,
                ),
                Err(e) => e == Error::Io && offset + data@.len() > old(self)@.len()
                    && final(self)@ == old(self)@,
            },
    {
        let len = self.data.len();
        if offset > len as u64 || data.len() > len - offset as usize {
            return Err(Error::Io);
        }
        let at = offset as usize;
        let mut i: usize = 0;
        proof {
            assert(self.data@ =~= written(old(self)@, at as int, data@.take(0)));
        }
        while i < data.len()
            invariant
                i <= data@.len(),
                at + data@.len() <= len,
                len == old(self)@.len(),
                self.data@.len() == len,
                self.data@ == written(old(self)@, at as int, data@.take(i as int)),
            decreases data@.len() - i,
        {
            self.data.set(at + i, data[i]);
            proof {
                assert(self.data@ =~= written(old(self)@, at as int, data@.take(i as int + 1)));
            }
            i += 1;
        }
        proof {
            assert(data@.take(data@.len() as int) =~= data@);
        }
        Ok(())
    }

    /// The bytes written so far, the output given up.
    pub fn into_vec(self) -> (v: Vec<u8>)
        ensures
            v@ == self@,
    {
        self.data
    }
}

} // verus!
