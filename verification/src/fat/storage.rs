//! The buffer that holds one sector of the filesystem.

use crate::fat::types::SectorIndex;
use vstd::prelude::*;

verus! {

/// The number of bytes that a new sector buffer holds: room for the largest
/// sector size.
pub const SECTOR_BUFFER_SIZE: usize = 4096;

/// The bytes of one sector, and which sector they are.
#[derive(Debug)]
pub struct SectorBuffer {
    slice: Vec<u8>,
    pub(crate) stored_sector: SectorIndex,
}

impl SectorBuffer {
    /// The bytes of the buffer.
    pub closed spec fn bytes(&self) -> Seq<u8> {
        self.slice@
    }

    /// The sector that the buffer holds.
    pub closed spec fn sector(&self) -> SectorIndex {
        self.stored_sector
    }

    /// A buffer of 4096 zero bytes that holds sector 0.
    pub fn new() -> (r: Self)
        ensures
            r.bytes() == Seq::new(SECTOR_BUFFER_SIZE as nat, |i: int| 0u8),
            r.sector() == 0,
    {
        let r = Self { slice: vec![0u8; SECTOR_BUFFER_SIZE], stored_sector: 0 };
        assert(r.bytes() =~= Seq::new(SECTOR_BUFFER_SIZE as nat, |i: int| 0u8));
        r
    }

    /// The same buffer, cut to its first `size` bytes.
    pub fn downsize(self, size: usize) -> (r: Self)
        requires
            size <= self.bytes().len(),
        ensures
            r.bytes() == self.bytes().subrange(0, size as int),
            r.sector() == self.sector(),
    {
        let mut slice = self.slice;
        slice.truncate(size);
        Self { slice, stored_sector: self.stored_sector }
    }

    /// The sector that the buffer holds.
    pub fn stored_sector(&self) -> (r: SectorIndex)
        ensures
            r == self.sector(),
    {
        self.stored_sector
    }

    /// The bytes of the buffer.
    pub fn as_slice(&self) -> (r: &[u8])
        ensures
            r@ == self.bytes(),
    {
        self.slice.as_slice()
    }

    /// The bytes of the buffer, to change them.
    pub fn as_mut_slice(&mut self) -> (r: &mut [u8])
        ensures
            r@ == old(self).bytes(),
            final(r)@ == final(self).bytes(),
            final(self).sector() == old(self).sector(),
    {
        self.slice.as_mut_slice()
    }
}

impl core::ops::Deref for SectorBuffer {
    type Target = [u8];

    fn deref(&self) -> (r: &[u8])
        ensures
            r@ == self.bytes(),
    {
        self.slice.as_slice()
    }
}

} // verus!
