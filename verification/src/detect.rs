//! Telling an exFAT volume from anything else.
use vstd::prelude::*;

use crate::boot::{boot_fault, MainBootSector};
use crate::geometry::ExfatLayout;
use crate::recover::{boot_defect, described, layout_from_boot};

verus! {

/// A filesystem a source can be claimed as.
#[derive(Clone, Copy, PartialEq, Eq, Debug, Structural)]
pub enum Filesystem {
    /// An exFAT volume.
    ExFat,
}

/// Whether `sector` begins a volume that fits inside `available` bytes: it is a main boot
/// sector, and nothing keeps that sector from describing a volume.
pub open spec fn begins_volume(sector: Seq<u8>, available: int) -> bool {
    &&& boot_fault(sector) is None
    &&& forall|boot: MainBootSector| #[trigger]
        boot.is_at(sector) ==> boot_defect(boot, available) is None
}

/// The layout of the volume that `sector` begins, or nothing where it begins none inside
/// `available` bytes.
#[must_use]
pub fn classify(sector: &[u8], available: u64) -> (layout: Option<ExfatLayout>)
    ensures
        layout is Some <==> begins_volume(sector@, available as int),
        layout is Some ==> exists|boot: MainBootSector| #[trigger]
            boot.is_at(sector@) && layout->Some_0 == described(boot),
{
    let boot = match MainBootSector::read_from(sector) {
        Ok(boot) => boot,
        Err(_) => return None,
    };
    match layout_from_boot(&boot, available) {
        Ok(layout) => {
            proof {
                assert forall|other: MainBootSector| #[trigger] other.is_at(sector@) implies
                    boot_defect(other, available as int) is None by {
                    crate::boot::lemma_boot_sector_unique(other, boot, sector@);
                }
            }
            Some(layout)
        },
        Err(_) => None,
    }
}

/// What a source holds at `base`: an exFAT volume, or nothing this library knows. A source too
/// short to hold a boot sector there holds none.
#[must_use]
pub fn claim(src: &[u8], base: u64) -> (claimed: Option<Filesystem>)
    ensures
        claimed == (if base + MainBootSector::SIZE <= src@.len() && begins_volume(
            src@.subrange(base as int, base + MainBootSector::SIZE),
            src@.len() - base,
        ) {
            Some(Filesystem::ExFat)
        } else {
            None::<Filesystem>
        }),
{
    let end: u64 = src.len() as u64;
    if base > end || end - base < MainBootSector::SIZE as u64 {
        return None;
    }
    let at: usize = base as usize;
    match classify(&src[at..at + MainBootSector::SIZE], end - base) {
        Some(_) => Some(Filesystem::ExFat),
        None => None,
    }
}

/// A source is claimed at a place exactly where the 512 bytes there are a main boot sector, and one
/// that describes a volume inside the bytes from there on.
pub proof fn lemma_what_is_claimed(sector: Seq<u8>, boot: MainBootSector, available: int)
    requires
        boot.is_at(sector),
    ensures
        begins_volume(sector, available) <==> boot_fault(sector) is None && boot_defect(
            boot,
            available,
        ) is None,
{
    assert forall|other: MainBootSector| #[trigger] other.is_at(sector) implies boot_defect(
        other,
        available,
    ) == boot_defect(boot, available) by {
        crate::boot::lemma_boot_sector_unique(other, boot, sector);
    }
}

} // verus!
