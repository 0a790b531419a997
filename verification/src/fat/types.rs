//! Type aliases for various important data types for readability
//!
//! Some Index types have their corresponding Count type
//! (e.g. `ClusterIndex` and `ClusterCount`).
//! These are both under the hood aliased to the same data type.
//! The only reason to keep the separated is too make the code more readable:
//! for example, if a function returns a `ClusterIndex`, we know that it
//! returns the index of a particular cluster, whereas if it were to return
//! `ClusterCount`, it could return how many clusters are needed for
//! a particular action or belong to an object.

use vstd::prelude::*;

verus! {

/// The number/offset/position of a block.
///
/// A block is defined by the block-reading layer of the library: it holds
/// `block_size` bytes.
#[derive(Copy, Clone, Debug, PartialEq, Eq, Structural, PartialOrd, Ord, Hash)]
pub struct BlockIndex(pub u32);

/// The number of blocks of a device; the same representation as [`BlockIndex`].
pub type BlockCount = BlockIndex;

/// The size of a block in bytes.
pub type BlockSize = u32;

/// The number/offset/position of a cluster.
pub type ClusterIndex = u32;
/// A number of clusters.
pub type ClusterCount = ClusterIndex;

/// The number/offset/position of a sector.
pub type SectorIndex = u32;
/// A number of sectors.
pub type SectorCount = SectorIndex;

/// The number/offset/position of a directory entry.
pub type EntryIndex = u16;
/// A number of directory entries.
pub type EntryCount = EntryIndex;

/// The number/offset/position of an entry of the file allocation table.
pub type FATEntryIndex = u32;
/// A number of entries of the file allocation table.
pub type FATEntryCount = FATEntryIndex;

/// The value of an entry of the file allocation table.
pub type FATEntryValue = u32;

/// The size of a file in bytes.
pub type FileSize = u32;

impl BlockIndex {
    /// Convert u64 into BlockIndex, unchecked.
    ///
    /// This keeps the low 32 bits of `value`, as `value as u32` does.
    pub fn unchecked_from_u64(value: u64) -> (r: Self)
        ensures
            r.0 == value % 0x1_0000_0000,
    {
        let r = Self(value as u32);
        assert(value as u32 == value % 0x1_0000_0000) by (bit_vector);
        r
    }
}

impl From<BlockIndex> for u64 {
    fn from(value: BlockIndex) -> (r: u64)
        ensures
            r == value.0,
    {
        value.0 as u64
    }
}

impl vstd::std_specs::convert::FromSpecImpl<BlockIndex> for u64 {
    open spec fn obeys_from_spec() -> bool {
        true
    }

    open spec fn from_spec(v: BlockIndex) -> u64 {
        v.0 as u64
    }
}

impl From<u32> for BlockIndex {
    fn from(value: u32) -> (r: BlockIndex)
        ensures
            r.0 == value,
    {
        Self(value)
    }
}

impl vstd::std_specs::convert::FromSpecImpl<u32> for BlockIndex {
    open spec fn obeys_from_spec() -> bool {
        true
    }

    open spec fn from_spec(v: u32) -> BlockIndex {
        BlockIndex(v)
    }
}

impl From<u16> for BlockIndex {
    fn from(value: u16) -> (r: BlockIndex)
        ensures
            r.0 == value,
    {
        Self(value as u32)
    }
}

impl vstd::std_specs::convert::FromSpecImpl<u16> for BlockIndex {
    open spec fn obeys_from_spec() -> bool {
        true
    }

    open spec fn from_spec(v: u16) -> BlockIndex {
        BlockIndex(v as u32)
    }
}

/// A block index made from a `u32` or a `u16` has that number, and turned
/// into a `u64` it gives back the same number: no conversion loses a bit.
pub proof fn lemma_block_index_conversions_keep_value(a: u32, b: u16, i: BlockIndex)
    ensures
        <BlockIndex as vstd::std_specs::convert::FromSpec<u32>>::from_spec(a).0 == a,
        <BlockIndex as vstd::std_specs::convert::FromSpec<u16>>::from_spec(b).0 == b,
        <u64 as vstd::std_specs::convert::FromSpec<BlockIndex>>::from_spec(i) == i.0,
        <u64 as vstd::std_specs::convert::FromSpec<BlockIndex>>::from_spec(
            <BlockIndex as vstd::std_specs::convert::FromSpec<u32>>::from_spec(a),
        ) == a,
{
}

impl core::ops::Mul for BlockIndex {
    type Output = BlockIndex;

    fn mul(self, rhs: Self) -> (r: Self::Output) {
        BlockIndex(self.0 * rhs.0)
    }
}

impl vstd::std_specs::ops::MulSpecImpl for BlockIndex {
    open spec fn obeys_mul_spec() -> bool {
        true
    }

    open spec fn mul_req(self, rhs: BlockIndex) -> bool {
        self.0 * rhs.0 <= u32::MAX
    }

    open spec fn mul_spec(self, rhs: BlockIndex) -> BlockIndex {
        BlockIndex((self.0 * rhs.0) as u32)
    }
}

} // verus!
