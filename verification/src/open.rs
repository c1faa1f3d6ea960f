//! What opening a volume reads: its boot regions, its root directory's chain, and the streams
//! the root directory names for the whole volume.
use vstd::prelude::*;

use crate::boot::{
    boot_fault, checksum_sector_value, extended_boot_signature, repeats_one_word, MainBootSector,
    BOOT_REGION_SECTORS, CHECKSUM_SECTOR, EXTENDED_BOOT_FIRST_SECTOR, EXTENDED_BOOT_SECTORS,
    EXTENDED_BOOT_SIGNATURE, FILE_SYSTEM_MINOR_REVISION, MAIN_BOOT_REGION_SECTOR,
    VOLUME_FLAG_MEDIA_FAILURE, VOLUME_FLAG_VOLUME_DIRTY,
};
use crate::bytes::{get_units, same_bytes, u32_at, units_at};
use crate::csum::{boot_checksum, boot_sum, upcase_checksum, upcase_sum};
use crate::dirent::{
    AllocationBitmapEntry, EntryType, UpcaseTableEntry, VolumeLabelEntry, MAX_LABEL_UNITS,
};
use crate::label::first_zero;
use crate::number::ceil_div;
use crate::read_error::{BackupDetail, ReadError};
use crate::slots::{Slot, SlotView, SlotWalk};
use crate::unicode::{decode_utf16, utf8_of_units};
use crate::upcase::{lemma_mapping_of, mapping_of, UpcaseTable};
use crate::volume::{Storage, Vol, Volume, MAX_UPCASE_BYTES};

verus! {

/// The boot sector the bytes hold.
pub open spec fn boot_at(bytes: Seq<u8>) -> MainBootSector {
    choose|boot: MainBootSector| boot.is_at(bytes)
}

/// A deviation where there is one.
pub open spec fn remark(there: bool, err: ReadError) -> Seq<ReadError> {
    if there {
        seq![err]
    } else {
        Seq::empty()
    }
}

/// The word extended boot sector `n` of the region at `region` ends with.
pub open spec fn signature_at(vol: Vol, region: int, n: int) -> u32 {
    u32_at(
        vol.sectors(region + EXTENDED_BOOT_FIRST_SECTOR + n, 1),
        vol.layout.bytes_per_sector - 4,
    )
}

/// What is wrong with the extended boot sectors from `n` on: the first without its signature.
pub open spec fn extended_log(vol: Vol, region: int, n: int) -> Seq<ReadError>
    decreases 8 - n,
{
    if n >= 8 {
        Seq::empty()
    } else if signature_at(vol, region, n) != EXTENDED_BOOT_SIGNATURE {
        seq![
            ReadError::BadExtendedBootSignature {
                sector: (region + EXTENDED_BOOT_FIRST_SECTOR + n) as u64,
                found: signature_at(vol, region, n),
                expected: EXTENDED_BOOT_SIGNATURE,
            },
        ]
    } else {
        extended_log(vol, region, n + 1)
    }
}

/// What is wrong with the boot region at `region`.
pub open spec fn region_log(vol: Vol, region: u64) -> Seq<ReadError> {
    let last = vol.sectors(region + CHECKSUM_SECTOR, 1);
    let computed = boot_sum(vol.sectors(region as int, CHECKSUM_SECTOR as int));
    let stored = u32_at(last, 0);
    if !repeats_one_word(last) {
        seq![ReadError::BootChecksumSectorSplit { sector: region }]
    } else {
        remark(
            computed != stored,
            ReadError::BootChecksumMismatch { sector: region, computed, stored },
        ) + extended_log(vol, region as int, 0)
    }
}

/// The first field two boot sectors do not share, of those a driver does not rewrite.
pub open spec fn first_difference(copy: MainBootSector, main: MainBootSector) -> Option<
    &'static str,
> {
    if copy.jump_boot@ != main.jump_boot@ {
        Some("JumpBoot")
    } else if copy.file_system_name@ != main.file_system_name@ {
        Some("FileSystemName")
    } else if copy.partition_offset != main.partition_offset {
        Some("PartitionOffset")
    } else if copy.volume_length != main.volume_length {
        Some("VolumeLength")
    } else if copy.fat_offset != main.fat_offset {
        Some("FatOffset")
    } else if copy.fat_length != main.fat_length {
        Some("FatLength")
    } else if copy.cluster_heap_offset != main.cluster_heap_offset {
        Some("ClusterHeapOffset")
    } else if copy.cluster_count != main.cluster_count {
        Some("ClusterCount")
    } else if copy.first_cluster_of_root != main.first_cluster_of_root {
        Some("FirstClusterOfRootDirectory")
    } else if copy.volume_serial != main.volume_serial {
        Some("VolumeSerialNumber")
    } else if copy.file_system_revision != main.file_system_revision {
        Some("FileSystemRevision")
    } else if copy.bytes_per_sector_shift != main.bytes_per_sector_shift {
        Some("BytesPerSectorShift")
    } else if copy.sectors_per_cluster_shift != main.sectors_per_cluster_shift {
        Some("SectorsPerClusterShift")
    } else if copy.number_of_fats != main.number_of_fats {
        Some("NumberOfFats")
    } else if copy.drive_select != main.drive_select {
        Some("DriveSelect")
    } else if copy.boot_code@ != main.boot_code@ {
        Some("BootCode")
    } else {
        None
    }
}

/// The first field a backup does not share with the main boot sector, of those a driver does
/// not rewrite.
#[must_use]
pub fn backup_differs(copy: &MainBootSector, main: &MainBootSector) -> (field: Option<
    &'static str,
>)
    ensures
        field == first_difference(*copy, *main),
{
    if !same_bytes(&copy.jump_boot, &main.jump_boot) {
        return Some("JumpBoot");
    }
    if !same_bytes(&copy.file_system_name, &main.file_system_name) {
        return Some("FileSystemName");
    }
    if copy.partition_offset != main.partition_offset {
        return Some("PartitionOffset");
    }
    if copy.volume_length != main.volume_length {
        return Some("VolumeLength");
    }
    if copy.fat_offset != main.fat_offset {
        return Some("FatOffset");
    }
    if copy.fat_length != main.fat_length {
        return Some("FatLength");
    }
    if copy.cluster_heap_offset != main.cluster_heap_offset {
        return Some("ClusterHeapOffset");
    }
    if copy.cluster_count != main.cluster_count {
        return Some("ClusterCount");
    }
    if copy.first_cluster_of_root != main.first_cluster_of_root {
        return Some("FirstClusterOfRootDirectory");
    }
    if copy.volume_serial != main.volume_serial {
        return Some("VolumeSerialNumber");
    }
    if copy.file_system_revision != main.file_system_revision {
        return Some("FileSystemRevision");
    }
    if copy.bytes_per_sector_shift != main.bytes_per_sector_shift {
        return Some("BytesPerSectorShift");
    }
    if copy.sectors_per_cluster_shift != main.sectors_per_cluster_shift {
        return Some("SectorsPerClusterShift");
    }
    if copy.number_of_fats != main.number_of_fats {
        return Some("NumberOfFats");
    }
    if copy.drive_select != main.drive_select {
        return Some("DriveSelect");
    }
    if !same_bytes(&copy.boot_code, &main.boot_code) {
        return Some("BootCode");
    }
    None
}

/// What is wrong with the backup of the boot sector.
pub open spec fn backup_log(vol: Vol, main: MainBootSector) -> Seq<ReadError> {
    let backup = vol.sectors(BOOT_REGION_SECTORS as int, 1);
    match boot_fault(backup) {
        Some(e) => seq![
            ReadError::BackupBootRegionDiffers {
                sector: BOOT_REGION_SECTORS,
                detail: BackupDetail::Unreadable(e),
            },
        ],
        None => match first_difference(boot_at(backup), main) {
            Some(field) => seq![
                ReadError::BackupBootRegionDiffers {
                    sector: BOOT_REGION_SECTORS,
                    detail: BackupDetail::Field(field),
                },
            ],
            None => Seq::empty(),
        },
    }
}

/// Whether a driver left the volume open.
pub open spec fn is_dirty(boot: MainBootSector) -> bool {
    boot.volume_flags & VOLUME_FLAG_VOLUME_DIRTY != 0
}

/// Whether a driver recorded a failure of the medium.
pub open spec fn has_failed(boot: MainBootSector) -> bool {
    boot.volume_flags & VOLUME_FLAG_MEDIA_FAILURE != 0
}

/// What is wrong with what the boot sector says of the revision and of the volume's state.
pub open spec fn state_log(boot: MainBootSector) -> Seq<ReadError> {
    let minor = (boot.file_system_revision % 256) as u8;
    remark(
        minor != FILE_SYSTEM_MINOR_REVISION,
        ReadError::UnknownMinorRevision { minor },
    ) + remark(is_dirty(boot), ReadError::VolumeDirty) + remark(
        has_failed(boot),
        ReadError::MediaFailure,
    )
}

/// What is wrong with the boot regions.
pub open spec fn boot_log(vol: Vol, main: MainBootSector) -> Seq<ReadError> {
    region_log(vol, MAIN_BOOT_REGION_SECTOR) + region_log(vol, BOOT_REGION_SECTORS) + backup_log(
        vol,
        main,
    ) + state_log(main)
}

/// Note a deviation where there is one.
fn note_if(out: &mut Vec<ReadError>, there: bool, err: ReadError)
    ensures
        final(out)@ == old(out)@ + remark(there, err),
{
    if there {
        out.push(err);
    }
    assert(out@ =~= old(out)@ + remark(there, err));
}

/// Note the first extended boot sector without its signature.
fn check_extended_boot_sectors(volume: &Volume<'_>, region: u64, out: &mut Vec<ReadError>)
    requires
        volume.wf(),
        region == MAIN_BOOT_REGION_SECTOR || region == BOOT_REGION_SECTORS,
    ensures
        final(out)@ == old(out)@ + extended_log(volume@, region as int, 0),
{
    let mut n: u64 = 0;
    while n < EXTENDED_BOOT_SECTORS
        invariant
            volume.wf(),
            region == MAIN_BOOT_REGION_SECTOR || region == BOOT_REGION_SECTORS,
            n <= 8,
            out@ == old(out)@,
            extended_log(volume@, region as int, 0) == extended_log(
                volume@,
                region as int,
                n as int,
            ),
        decreases 8 - n,
    {
        let sector = volume.read_sectors(region + EXTENDED_BOOT_FIRST_SECTOR + n, 1);
        assert(sector@.len() == 1 * volume.layout.bytes_per_sector);
        match extended_boot_signature(sector) {
            None => {
                assert(false);
            },
            Some(found) => {
                if found != EXTENDED_BOOT_SIGNATURE {
                    out.push(
                        ReadError::BadExtendedBootSignature {
                            sector: region + EXTENDED_BOOT_FIRST_SECTOR + n,
                            found,
                            expected: EXTENDED_BOOT_SIGNATURE,
                        },
                    );
                    assert(out@ =~= old(out)@ + extended_log(volume@, region as int, 0));
                    return;
                }
            },
        }
        n += 1;
    }
    assert(out@ =~= old(out)@ + extended_log(volume@, region as int, 0));
}

/// Note what is wrong with the boot region at `region`.
fn check_boot_region(volume: &Volume<'_>, region: u64, out: &mut Vec<ReadError>)
    requires
        volume.wf(),
        region == MAIN_BOOT_REGION_SECTOR || region == BOOT_REGION_SECTORS,
    ensures
        final(out)@ == old(out)@ + region_log(volume@, region),
{
    let covered = volume.read_sectors(region, CHECKSUM_SECTOR);
    let last = volume.read_sectors(region + CHECKSUM_SECTOR, 1);
    match checksum_sector_value(last) {
        None => {
            out.push(ReadError::BootChecksumSectorSplit { sector: region });
            assert(out@ =~= old(out)@ + region_log(volume@, region));
        },
        Some(stored) => {
            let computed: u32 = boot_checksum(covered);
            note_if(
                out,
                computed != stored,
                ReadError::BootChecksumMismatch { sector: region, computed, stored },
            );
            check_extended_boot_sectors(volume, region, out);
            assert(out@ =~= old(out)@ + region_log(volume@, region));
        },
    }
}

/// Note what is wrong with the boot regions, the revision and the volume's state.
pub fn check_boot_regions(volume: &Volume<'_>, main: &MainBootSector) -> (out: Vec<ReadError>)
    requires
        volume.wf(),
    ensures
        out@ == boot_log(volume@, *main),
{
    let mut out: Vec<ReadError> = Vec::new();
    check_boot_region(volume, MAIN_BOOT_REGION_SECTOR, &mut out);
    check_boot_region(volume, BOOT_REGION_SECTORS, &mut out);
    let backup = volume.read_sectors(BOOT_REGION_SECTORS, 1);
    match MainBootSector::read_from(backup) {
        Ok(copy) => {
            proof {
                crate::boot::lemma_boot_sector_unique(copy, boot_at(backup@), backup@);
            }
            match backup_differs(&copy, main) {
                Some(field) => {
                    out.push(
                        ReadError::BackupBootRegionDiffers {
                            sector: BOOT_REGION_SECTORS,
                            detail: BackupDetail::Field(field),
                        },
                    );
                },
                None => {},
            }
        },
        Err(e) => {
            out.push(
                ReadError::BackupBootRegionDiffers {
                    sector: BOOT_REGION_SECTORS,
                    detail: BackupDetail::Unreadable(e),
                },
            );
        },
    }
    let minor: u8 = main.minor_revision();
    note_if(
        &mut out,
        minor != FILE_SYSTEM_MINOR_REVISION,
        ReadError::UnknownMinorRevision { minor },
    );
    note_if(
        &mut out,
        main.volume_flags & VOLUME_FLAG_VOLUME_DIRTY != 0,
        ReadError::VolumeDirty,
    );
    note_if(
        &mut out,
        main.volume_flags & VOLUME_FLAG_MEDIA_FAILURE != 0,
        ReadError::MediaFailure,
    );
    assert(out@ =~= boot_log(volume@, *main));
    out
}

/// Clusters of the chain that begins with `start`, of which `before` come before `current`.
pub open spec fn chain_len(vol: Vol, start: u32, current: u32, before: int) -> Result<int, ReadError>
    decreases vol.layout.cluster_count - before,
{
    if before >= vol.layout.cluster_count {
        Err(vol.too_long(start))
    } else {
        match vol.next_of(current) {
            Err(e) => Err(e),
            Ok(None) => Ok(before + 1),
            Ok(Some(next)) => chain_len(vol, start, next, before + 1),
        }
    }
}

/// Bytes of the root directory: all its clusters.
pub open spec fn root_len(vol: Vol) -> Result<u64, ReadError> {
    let root = vol.layout.first_cluster_of_root;
    match chain_len(vol, root, root, 0) {
        Err(e) => Err(e),
        Ok(clusters) => Ok((clusters * vol.per()) as u64),
    }
}

/// Bytes of the root directory: all its clusters.
pub fn measure_root(volume: &Volume<'_>) -> (r: Result<u64, ReadError>)
    requires
        volume.wf(),
    ensures
        r == root_len(volume@),
{
    let start: u32 = volume.layout.first_cluster_of_root;
    let count: u32 = volume.layout.cluster_count;
    let mut clusters: u32 = 0;
    let mut current: u32 = start;
    let mut more: bool = true;
    while more
        invariant
            volume.wf(),
            start == volume.layout.first_cluster_of_root,
            count == volume.layout.cluster_count,
            clusters <= count,
            more ==> chain_len(volume@, start, start, 0) == chain_len(
                volume@,
                start,
                current,
                clusters as int,
            ),
            !more ==> chain_len(volume@, start, start, 0) == Ok::<int, ReadError>(
                clusters as int,
            ),
        decreases count - clusters, (if more { 1int } else { 0int }),
    {
        if clusters >= count {
            return Err(ReadError::ChainTooLong { start, clusters: count });
        }
        match volume.next_cluster(current)? {
            Some(next) => {
                current = next;
            },
            None => {
                more = false;
            },
        }
        clusters += 1;
    }
    assert(clusters * volume.layout.bytes_per_cluster <= 0xFFFF_FFFF * 0xFFFF_FFFF)
        by (nonlinear_arith)
        requires
            clusters <= 0xFFFF_FFFF,
            volume.layout.bytes_per_cluster <= 0xFFFF_FFFF,
    ;
    Ok(clusters as u64 * volume.layout.bytes_per_cluster as u64)
}

/// What the root directory says of the whole volume, so far.
pub struct Residents {
    /// Where the bitmap is.
    pub bitmap: Option<AllocationBitmapEntry>,
    /// Where the up-case table is.
    pub upcase: Option<UpcaseTableEntry>,
    /// The entry of the volume's name.
    pub label: Option<Seq<u8>>,
    /// What is wrong with it.
    pub log: Seq<ReadError>,
    /// Whether no further slot is read.
    pub stopped: bool,
    /// Why the directory cannot be read further.
    pub failed: Option<ReadError>,
}

/// A second entry of which there is one.
pub open spec fn duplicate(index: u32, entry_type: &'static str) -> ReadError {
    ReadError::DuplicateRootEntry { index, entry_type }
}

/// What the root directory says of the whole volume, with one more slot read.
pub open spec fn resident_step(state: Residents, slot: SlotView) -> Residents {
    let entry_type = EntryType(slot.bytes[0]);
    if entry_type.0 == 0 {
        Residents { stopped: true, ..state }
    } else if !entry_type.used() || entry_type.secondary() {
        state
    } else if entry_type.0 == EntryType::ALLOCATION_BITMAP {
        if state.bitmap is None {
            Residents { bitmap: Some(AllocationBitmapEntry::decoded(slot.bytes)), ..state }
        } else {
            Residents { log: state.log.push(duplicate(slot.index, "allocation bitmap")), ..state }
        }
    } else if entry_type.0 == EntryType::UPCASE_TABLE {
        if state.upcase is None {
            Residents { upcase: Some(UpcaseTableEntry::decoded(slot.bytes)), ..state }
        } else {
            Residents { log: state.log.push(duplicate(slot.index, "up-case table")), ..state }
        }
    } else if entry_type.0 == EntryType::VOLUME_LABEL {
        if state.label is None {
            Residents { label: Some(slot.bytes), ..state }
        } else {
            Residents { log: state.log.push(duplicate(slot.index, "volume label")), ..state }
        }
    } else {
        state
    }
}

/// What the first `n` slots of the root directory say of the whole volume.
pub open spec fn residents(vol: Vol, root: Storage, declared: u64, n: int) -> Residents
    decreases n,
{
    if n <= 0 {
        Residents {
            bitmap: None,
            upcase: None,
            label: None,
            log: Seq::empty(),
            stopped: false,
            failed: None,
        }
    } else {
        let state = residents(vol, root, declared, n - 1);
        if state.stopped || state.failed is Some {
            state
        } else {
            match vol.slot_at(root, declared, n - 1) {
                Err(e) => Residents { failed: Some(e), ..state },
                Ok(slot) => resident_step(state, slot),
            }
        }
    }
}

/// A reading that has stopped stays where it is.
proof fn lemma_residents_stay(vol: Vol, root: Storage, declared: u64, n: int, more: int)
    requires
        n <= more,
    ensures
        residents(vol, root, declared, n).stopped || residents(vol, root, declared, n).failed is Some
            ==> residents(vol, root, declared, more) == residents(vol, root, declared, n),
    decreases more - n,
{
    if n < more {
        lemma_residents_stay(vol, root, declared, n, more - 1);
    }
}

/// What the root directory says of the whole volume.
pub struct Found {
    /// Where the bitmap is.
    pub bitmap: Option<AllocationBitmapEntry>,
    /// Where the up-case table is.
    pub upcase: Option<UpcaseTableEntry>,
    /// The entry of the volume's name.
    pub label: Option<VolumeLabelEntry>,
    /// What is wrong with it.
    pub log: Vec<ReadError>,
}

impl Found {
    /// What this says, once so much has been read.
    pub open spec fn is(&self, state: Residents) -> bool {
        &&& self.bitmap == state.bitmap
        &&& self.upcase == state.upcase
        &&& self.log@ == state.log
        &&& match self.label {
            Some(entry) => state.label is Some && entry.is_at(state.label->Some_0),
            None => state.label is None,
        }
    }
}

/// Read a slot of the root directory for what it says of the whole volume. Returns whether it
/// ends the directory.
fn take_resident(found: &mut Found, slot: Slot, Ghost(state): Ghost<Residents>) -> (ends: bool)
    requires
        old(found).is(state),
        slot.bytes@.len() == 32,
        !state.stopped,
    ensures
        final(found).is(resident_step(state, slot@)),
        ends == resident_step(state, slot@).stopped,
        resident_step(state, slot@).failed == state.failed,
{
    let entry_type = EntryType(slot.bytes[0]);
    if entry_type.is_end_of_directory() {
        return true;
    }
    if !entry_type.in_use() || entry_type.is_secondary() {
        return false;
    }
    if entry_type.0 == EntryType::ALLOCATION_BITMAP {
        if found.bitmap.is_none() {
            match AllocationBitmapEntry::read_from(slot.bytes) {
                Ok(entry) => {
                    found.bitmap = Some(entry);
                },
                Err(_) => {
                    assert(false);
                },
            }
        } else {
            found.log.push(
                ReadError::DuplicateRootEntry {
                    index: slot.index,
                    entry_type: "allocation bitmap",
                },
            );
        }
    } else if entry_type.0 == EntryType::UPCASE_TABLE {
        if found.upcase.is_none() {
            match UpcaseTableEntry::read_from(slot.bytes) {
                Ok(entry) => {
                    found.upcase = Some(entry);
                },
                Err(_) => {
                    assert(false);
                },
            }
        } else {
            found.log.push(
                ReadError::DuplicateRootEntry { index: slot.index, entry_type: "up-case table" },
            );
        }
    } else if entry_type.0 == EntryType::VOLUME_LABEL {
        if found.label.is_none() {
            match VolumeLabelEntry::read_from(slot.bytes) {
                Ok(entry) => {
                    found.label = Some(entry);
                },
                Err(_) => {
                    assert(false);
                },
            }
        } else {
            found.log.push(
                ReadError::DuplicateRootEntry { index: slot.index, entry_type: "volume label" },
            );
        }
    }
    false
}

/// What the root directory says of the whole volume.
pub fn find_residents(volume: &Volume<'_>, declared: u64) -> (r: Result<Found, ReadError>)
    requires
        volume.wf(),
    ensures
        ({
            let root = Storage::Chain(volume.layout.first_cluster_of_root);
            let state = residents(volume@, root, declared, volume@.slot_count(root, declared));
            match r {
                Ok(found) => state.failed is None && found.is(state),
                Err(e) => state.failed == Some(e),
            }
        }),
{
    let ghost vol = volume@;
    let root = Storage::Chain(volume.layout.first_cluster_of_root);
    let ghost total = vol.slot_count(root, declared);
    let mut found = Found { bitmap: None, upcase: None, label: None, log: Vec::new() };
    let mut walk = SlotWalk::new(volume, root, declared);
    let ghost mut n: int = 0;
    let mut more: bool = true;
    proof {
        crate::slots::lemma_slots(vol);
        crate::image::lemma_ceil_div(declared as int, vol.per());
        assert(total >= 0) by (nonlinear_arith)
            requires
                total == ceil_div(declared as int, vol.per()) * vol.slots(),
                ceil_div(declared as int, vol.per()) >= 0,
                vol.slots() >= 0,
        ;
    }
    while more
        invariant
            volume.wf(),
            vol == volume@,
            root == Storage::Chain(volume.layout.first_cluster_of_root),
            total == vol.slot_count(root, declared),
            0 <= n <= total,
            found.is(residents(vol, root, declared, n)),
            residents(vol, root, declared, n).failed is None,
            more ==> {
                &&& !residents(vol, root, declared, n).stopped
                &&& walk.wf()
                &&& walk.vol() == vol
                &&& walk.place() == root
                &&& walk.length() == declared
                &&& walk.next_slot() == n
            },
            !more ==> n == total || residents(vol, root, declared, n).stopped,
        decreases total - n, (if more { 1int } else { 0int }),
    {
        let ghost state = residents(vol, root, declared, n);
        match walk.next() {
            Err(e) => {
                proof {
                    lemma_residents_stay(vol, root, declared, n + 1, total);
                }
                return Err(e);
            },
            Ok(None) => {
                more = false;
            },
            Ok(Some(slot)) => {
                let ends: bool = take_resident(&mut found, slot, Ghost(state));
                proof {
                    n = n + 1;
                }
                if ends {
                    more = false;
                }
            },
        }
    }
    proof {
        lemma_residents_stay(vol, root, declared, n, total);
    }
    Ok(found)
}

/// Units of a name a field of this many holds.
pub open spec fn label_count(entry: Seq<u8>) -> int {
    if entry[1] > MAX_LABEL_UNITS {
        MAX_LABEL_UNITS as int
    } else {
        entry[1] as int
    }
}

/// The units of the volume's name.
pub open spec fn label_units(entry: Seq<u8>) -> Seq<u16> {
    units_at(entry, 2, 11).take(label_count(entry))
}

/// The name of the volume, where it has one.
pub open spec fn label_in(entry: Seq<u8>) -> Option<Seq<u8>> {
    if label_count(entry) == 0 || first_zero(label_units(entry), 0) is Some {
        None
    } else {
        Some(utf8_of_units(label_units(entry)))
    }
}

/// What is wrong with the name of the volume.
pub open spec fn label_log(entry: Seq<u8>) -> Seq<ReadError> {
    remark(
        entry[1] > MAX_LABEL_UNITS,
        ReadError::LabelTooLong { count: entry[1], limit: MAX_LABEL_UNITS },
    ) + remark(
        label_count(entry) != 0 && first_zero(label_units(entry), 0) is Some,
        ReadError::LabelNulUnit,
    )
}

/// The name of the volume, where it has one, noting what is wrong with it.
pub(crate) fn label_of(entry: &VolumeLabelEntry, Ghost(bytes): Ghost<Seq<u8>>, out: &mut Vec<ReadError>)
    -> (label: Option<Vec<u8>>)
    requires
        entry.is_at(bytes),
    ensures
        match label {
            Some(name) => label_in(bytes) == Some(name@),
            None => label_in(bytes) is None,
        },
        final(out)@ == old(out)@ + label_log(bytes),
{
    let long: bool = entry.character_count as usize > MAX_LABEL_UNITS;
    note_if(
        out,
        long,
        ReadError::LabelTooLong { count: entry.character_count, limit: MAX_LABEL_UNITS },
    );
    let count: usize = if long {
        MAX_LABEL_UNITS
    } else {
        entry.character_count as usize
    };
    if count == 0 {
        assert(out@ =~= old(out)@ + label_log(bytes));
        return None;
    }
    let units = vstd::slice::slice_subrange(entry.label.as_slice(), 0, count);
    assert(units@ =~= label_units(bytes));
    let mut i: usize = 0;
    let mut zero: bool = false;
    while i < count && !zero
        invariant
            i <= count,
            units@.len() == count,
            zero ==> first_zero(units@, 0) is Some,
            !zero ==> first_zero(units@, 0) == first_zero(units@, i as int),
        decreases count - i, (if zero { 0int } else { 1int }),
    {
        if units[i] == 0 {
            zero = true;
        } else {
            i += 1;
        }
    }
    note_if(out, zero, ReadError::LabelNulUnit);
    assert(out@ =~= old(out)@ + label_log(bytes));
    if zero {
        return None;
    }
    let (name, well_formed) = decode_utf16(units);
    Some(name)
}

/// The words of the up-case table, and what is wrong with it.
pub struct TableRead {
    /// The words.
    pub words: Seq<u16>,
    /// What is wrong with it.
    pub log: Seq<ReadError>,
}

/// The words of bytes.
pub open spec fn words_of(bytes: Seq<u8>) -> Seq<u16> {
    units_at(bytes, 0, bytes.len() / 2)
}

/// The up-case table an entry describes.
pub open spec fn table_read(vol: Vol, entry: UpcaseTableEntry) -> Result<TableRead, ReadError> {
    if entry.data_length > MAX_UPCASE_BYTES {
        Ok(
            TableRead {
                words: Seq::empty(),
                log: seq![
                    ReadError::UpcaseTooLong {
                        bytes: entry.data_length,
                        limit: MAX_UPCASE_BYTES,
                    },
                ],
            },
        )
    } else {
        match vol.chain(entry.first_cluster, entry.data_length) {
            Err(e) => Err(e),
            Ok(bytes) => Ok(
                TableRead {
                    words: words_of(bytes),
                    log: remark(
                        upcase_sum(bytes) != entry.table_checksum,
                        ReadError::UpcaseChecksumMismatch {
                            computed: upcase_sum(bytes),
                            stored: entry.table_checksum,
                        },
                    ),
                },
            ),
        }
    }
}

/// The up-case table an entry describes, noting what is wrong with it.
pub fn load_upcase(volume: &Volume<'_>, entry: &UpcaseTableEntry, out: &mut Vec<ReadError>) -> (r:
    Result<UpcaseTable, ReadError>)
    requires
        volume.wf(),
    ensures
        match table_read(volume@, *entry) {
            Err(e) => r == Err::<UpcaseTable, ReadError>(e),
            Ok(read) => {
                &&& r is Ok
                &&& r->Ok_0.wf()
                &&& r->Ok_0.mapping() == mapping_of(read.words)
                &&& final(out)@ == old(out)@ + read.log
            },
        },
{
    if entry.data_length > MAX_UPCASE_BYTES {
        out.push(
            ReadError::UpcaseTooLong { bytes: entry.data_length, limit: MAX_UPCASE_BYTES },
        );
        let empty: Vec<u16> = Vec::new();
        let table = UpcaseTable::new(&empty);
        proof {
            assert(empty@ =~= Seq::<u16>::empty());
            lemma_mapping_of(table, empty@);
            assert(out@ =~= old(out)@ + table_read(volume@, *entry)->Ok_0.log);
        }
        return Ok(table);
    }
    let bytes = volume.read_chain(entry.first_cluster, entry.data_length)?;
    let computed: u32 = upcase_checksum(&bytes);
    note_if(
        out,
        computed != entry.table_checksum,
        ReadError::UpcaseChecksumMismatch { computed, stored: entry.table_checksum },
    );
    let words = get_units(&bytes, 0, bytes.len() / 2);
    let table = UpcaseTable::new(&words);
    proof {
        lemma_mapping_of(table, words@);
    }
    Ok(table)
}

} // verus!
