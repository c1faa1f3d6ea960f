//! What an ext2, ext3 or ext4 volume is made with.
use vstd::prelude::*;

use crate::time::Timestamp;

verus! {

/// A member of the ext family.
#[derive(Clone, Copy, PartialEq, Eq, Debug, Structural)]
pub enum Profile {
    /// ext2: block-mapped, with no journal.
    Ext2,
    /// ext3: block-mapped, with a journal.
    Ext3,
    /// ext4: extent-mapped and checksummed, with a journal.
    Ext4,
}

/// What a volume of the family has.
#[derive(Clone, Copy, PartialEq, Eq, Debug, Structural)]
pub enum FeatureSet {
    /// Files mapped by blocks.
    Blocks,
    /// Files mapped by blocks, and a journal.
    JournalledBlocks,
    /// Files mapped by extents, checksums, and a journal.
    JournalledExtents,
}

impl FeatureSet {
    /// What an ext4 volume has.
    pub const DEFAULT: FeatureSet = FeatureSet::JournalledExtents;

    /// What an ext3 volume has.
    pub const EXT3: FeatureSet = FeatureSet::JournalledBlocks;

    /// What an ext2 volume has.
    pub const EXT2: FeatureSet = FeatureSet::Blocks;
}

impl Profile {
    /// What a volume of this profile has.
    pub open spec fn baseline(self) -> FeatureSet {
        match self {
            Profile::Ext2 => FeatureSet::EXT2,
            Profile::Ext3 => FeatureSet::EXT3,
            Profile::Ext4 => FeatureSet::DEFAULT,
        }
    }
}

/// What a volume of the family is made with.
#[derive(Clone, Copy, PartialEq, Eq, Debug)]
pub struct FormatOptions {
    /// The identity of the volume.
    pub uuid: [u8; 16],
    /// When it is made.
    pub time: Timestamp,
    /// What the names of its directories are hashed with.
    pub hash_seed: [u8; 16],
    /// What it has.
    pub feature: FeatureSet,
}

impl FormatOptions {
    /// A volume with everything as ext4 has it.
    #[must_use]
    pub fn new(uuid: [u8; 16], time: Timestamp, hash_seed: [u8; 16]) -> (options: Self)
        ensures
            options == (FormatOptions { uuid, time, hash_seed, feature: FeatureSet::DEFAULT }),
    {
        FormatOptions { uuid, time, hash_seed, feature: FeatureSet::DEFAULT }
    }

    /// The same volume with what this profile has.
    #[must_use]
    pub fn profile(self, profile: Profile) -> (options: Self)
        ensures
            options == (FormatOptions { feature: profile.baseline(), ..self }),
    {
        let feature = match profile {
            Profile::Ext2 => FeatureSet::EXT2,
            Profile::Ext3 => FeatureSet::EXT3,
            Profile::Ext4 => FeatureSet::DEFAULT,
        };
        FormatOptions { feature, ..self }
    }
}

/// What an ext4 volume is made with.
#[must_use]
pub fn ext4(uuid: [u8; 16], time: Timestamp, hash_seed: [u8; 16]) -> (options: FormatOptions)
    ensures
        options == (FormatOptions { uuid, time, hash_seed, feature: Profile::Ext4.baseline() }),
{
    FormatOptions::new(uuid, time, hash_seed).profile(Profile::Ext4)
}

/// What an ext3 volume is made with.
#[must_use]
pub fn ext3(uuid: [u8; 16], time: Timestamp, hash_seed: [u8; 16]) -> (options: FormatOptions)
    ensures
        options == (FormatOptions { uuid, time, hash_seed, feature: Profile::Ext3.baseline() }),
{
    FormatOptions::new(uuid, time, hash_seed).profile(Profile::Ext3)
}

/// What an ext2 volume is made with.
#[must_use]
pub fn ext2(uuid: [u8; 16], time: Timestamp, hash_seed: [u8; 16]) -> (options: FormatOptions)
    ensures
        options == (FormatOptions { uuid, time, hash_seed, feature: Profile::Ext2.baseline() }),
{
    FormatOptions::new(uuid, time, hash_seed).profile(Profile::Ext2)
}

/// What each family is made with: blocks alone, a journal beside them, or a journal and extents.
pub proof fn lemma_what_each_family_is_made_with()
    ensures
        Profile::Ext2.baseline() == FeatureSet::Blocks,
        Profile::Ext3.baseline() == FeatureSet::JournalledBlocks,
        Profile::Ext4.baseline() == FeatureSet::JournalledExtents,
{
}

} // verus!
