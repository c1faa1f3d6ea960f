//! The words of the allocation table that are not cluster numbers.
use vstd::prelude::*;

verus! {

/// Entry 0: the media descriptor, with ones above it.
pub const FAT_ENTRY_MEDIA: u32 = 0xFFFF_FFF8;

/// Entry 1, which is reserved.
pub const FAT_ENTRY_RESERVED: u32 = 0xFFFF_FFFF;

/// The entry of the last cluster of a chain.
pub const END_OF_CHAIN: u32 = 0xFFFF_FFFF;

/// The entry of a cluster the medium could not be relied on for.
pub const BAD_CLUSTER: u32 = 0xFFFF_FFF7;

} // verus!
