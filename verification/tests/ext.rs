//! What an ext volume is made with.
use exfat::ext::{ext2, ext3, ext4, FeatureSet};
use exfat::time::Timestamp;

#[test]
fn the_family_constructors_seed_the_matching_baseline() {
    let time = Timestamp::from_secs(1_700_000_000);
    assert_eq!(ext4([1; 16], time, [0; 16]).feature, FeatureSet::DEFAULT);
    assert_eq!(ext3([1; 16], time, [0; 16]).feature, FeatureSet::EXT3);
    assert_eq!(ext2([1; 16], time, [0; 16]).feature, FeatureSet::EXT2);
    // The identity inputs are carried straight through.
    let opts = ext4([9; 16], time, [3; 16]);
    assert_eq!(opts.uuid, [9; 16]);
    assert_eq!(opts.hash_seed, [3; 16]);
}
