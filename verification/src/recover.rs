//! The layout a boot sector describes.
use vstd::arithmetic::power2::pow2;
use vstd::prelude::*;

use crate::boot::{MainBootSector, FILE_SYSTEM_MAJOR_REVISION, MAX_CLUSTER_SHIFT};
use crate::geometry::{
    lemma_trailing_zeros_of_pow2, trailing_zeros, ExfatLayout, PlanRequest, FIRST_CLUSTER,
    MAX_BYTES_PER_CLUSTER, MAX_CLUSTER_COUNT, MIN_VOLUME_SECTORS, RESERVED_SECTORS,
};
use crate::number::{
    ceil_div, div_ceil, is_pow2, lemma_log2_of_pow2, lemma_pow2_divides, lemma_pow2_of_log2, log2,
};
use crate::text::{dec, push_dec};
use crate::upcase_table::RECOMMENDED_UPCASE_BYTES;

verus! {

/// What keeps a boot sector from describing a volume.
#[derive(Clone, Copy, PartialEq, Eq, Debug)]
pub enum BootDefect {
    /// A revision whose structures are not the ones this library knows.
    FileSystemRevision {
        /// The major half.
        major: u8,
        /// The minor half.
        minor: u8,
    },
    /// A sector size the format does not define.
    SectorShift {
        /// The exponent.
        shift: u8,
    },
    /// A cluster size the format does not define.
    ClusterShift {
        /// The exponent of the sector size.
        sector_shift: u8,
        /// The exponent of the sectors in a cluster.
        cluster_shift: u8,
        /// The most the two may sum to.
        limit: u8,
    },
    /// A length the volume cannot have.
    VolumeLength {
        /// Sectors of the volume.
        sectors: u64,
        /// What is wrong with them.
        why: &'static str,
    },
    /// A region that is not where it can be.
    RegionOutsideVolume {
        /// The region.
        region: &'static str,
        /// What is wrong with it.
        why: &'static str,
    },
    /// A table with fewer entries than the volume has clusters.
    TableTooShort {
        /// Bytes of the table.
        table_bytes: u64,
        /// Clusters of the volume.
        cluster_count: u32,
    },
    /// A root directory that begins on no cluster.
    RootOutsideHeap {
        /// The cluster recorded.
        cluster: u32,
    },
}

impl BootDefect {
    /// The message of the defect.
    pub open spec fn text(self) -> Seq<char> {
        match self {
            BootDefect::FileSystemRevision { major, minor } => "a volume of revision "@ + dec(
                major as nat,
            ) + "."@ + dec(minor as nat) + " is not one this reads; the format defines 1"@,
            BootDefect::SectorShift { shift } => "sector size shift "@ + dec(shift as nat)
                + " is outside the 9 to 12 the format defines"@,
            BootDefect::ClusterShift { sector_shift, cluster_shift, limit } => "sector shift "@
                + dec(sector_shift as nat) + " and cluster shift "@ + dec(cluster_shift as nat)
                + " sum past the "@ + dec(limit as nat) + " the format allows"@,
            BootDefect::VolumeLength { sectors, why } => "a volume of "@ + dec(sectors as nat)
                + " sectors does not fit: "@ + why@,
            BootDefect::RegionOutsideVolume { region, why } => region@
                + " does not fit within the volume: "@ + why@,
            BootDefect::TableTooShort { table_bytes, cluster_count } => "an allocation table of "@
                + dec(table_bytes as nat) + " bytes cannot hold entries for "@ + dec(
                cluster_count as nat,
            ) + " clusters and the two reserved numbers"@,
            BootDefect::RootOutsideHeap { cluster } => "the root directory begins at cluster "@
                + dec(cluster as nat) + ", which the volume does not have"@,
        }
    }

    /// The message of the defect.
    #[must_use]
    pub fn message(&self) -> (text: String)
        ensures
            text@ == self.text(),
    {
        let mut out = String::new();
        match *self {
            BootDefect::FileSystemRevision { major, minor } => {
                out.append("a volume of revision ");
                push_dec(&mut out, major as u64);
                out.append(".");
                push_dec(&mut out, minor as u64);
                out.append(" is not one this reads; the format defines 1");
            },
            BootDefect::SectorShift { shift } => {
                out.append("sector size shift ");
                push_dec(&mut out, shift as u64);
                out.append(" is outside the 9 to 12 the format defines");
            },
            BootDefect::ClusterShift { sector_shift, cluster_shift, limit } => {
                out.append("sector shift ");
                push_dec(&mut out, sector_shift as u64);
                out.append(" and cluster shift ");
                push_dec(&mut out, cluster_shift as u64);
                out.append(" sum past the ");
                push_dec(&mut out, limit as u64);
                out.append(" the format allows");
            },
            BootDefect::VolumeLength { sectors, why } => {
                out.append("a volume of ");
                push_dec(&mut out, sectors);
                out.append(" sectors does not fit: ");
                out.append(why);
            },
            BootDefect::RegionOutsideVolume { region, why } => {
                out.append(region);
                out.append(" does not fit within the volume: ");
                out.append(why);
            },
            BootDefect::TableTooShort { table_bytes, cluster_count } => {
                out.append("an allocation table of ");
                push_dec(&mut out, table_bytes);
                out.append(" bytes cannot hold entries for ");
                push_dec(&mut out, cluster_count as u64);
                out.append(" clusters and the two reserved numbers");
            },
            BootDefect::RootOutsideHeap { cluster } => {
                out.append("the root directory begins at cluster ");
                push_dec(&mut out, cluster as u64);
                out.append(", which the volume does not have");
            },
        }
        assert(out@ =~= self.text());
        out
    }
}

/// What keeps `boot` from describing a volume inside `available` bytes, where anything does.
pub open spec fn boot_defect(boot: MainBootSector, available: int) -> Option<BootDefect> {
    let sector = boot.sector_size()->Some_0 as int;
    let cluster = boot.cluster_size()->Some_0 as int;
    let volume = boot.volume_length * sector;
    if boot.file_system_revision / 256 != FILE_SYSTEM_MAJOR_REVISION {
        Some(
            BootDefect::FileSystemRevision {
                major: (boot.file_system_revision / 256) as u8,
                minor: (boot.file_system_revision % 256) as u8,
            },
        )
    } else if boot.sector_size() is None {
        Some(BootDefect::SectorShift { shift: boot.bytes_per_sector_shift })
    } else if boot.cluster_size() is None {
        Some(
            BootDefect::ClusterShift {
                sector_shift: boot.bytes_per_sector_shift,
                cluster_shift: boot.sectors_per_cluster_shift,
                limit: MAX_CLUSTER_SHIFT,
            },
        )
    } else if boot.volume_length < MIN_VOLUME_SECTORS {
        Some(
            BootDefect::VolumeLength {
                sectors: boot.volume_length,
                why: "fewer sectors than two boot regions and a filesystem need",
            },
        )
    } else if volume > u64::MAX {
        Some(
            BootDefect::VolumeLength {
                sectors: boot.volume_length,
                why: "the length in bytes does not fit in 64 bits",
            },
        )
    } else if volume > available {
        Some(
            BootDefect::VolumeLength {
                sectors: boot.volume_length,
                why: "the source does not hold that many",
            },
        )
    } else if boot.fat_offset < RESERVED_SECTORS {
        Some(
            BootDefect::RegionOutsideVolume {
                region: "the allocation table",
                why: "it begins inside the boot regions",
            },
        )
    } else if boot.fat_offset + boot.fat_length > boot.cluster_heap_offset {
        Some(
            BootDefect::RegionOutsideVolume {
                region: "the allocation table",
                why: "it runs into the cluster heap",
            },
        )
    } else if boot.cluster_heap_offset >= boot.volume_length {
        Some(
            BootDefect::RegionOutsideVolume {
                region: "the cluster heap",
                why: "it begins at or past the end of the volume",
            },
        )
    } else if boot.cluster_count > MAX_CLUSTER_COUNT {
        Some(
            BootDefect::RegionOutsideVolume {
                region: "the cluster heap",
                why: "it claims more clusters than a cluster number addresses",
            },
        )
    } else if boot.cluster_heap_offset * sector + boot.cluster_count * cluster > volume {
        Some(
            BootDefect::RegionOutsideVolume {
                region: "the cluster heap",
                why: "its clusters run past the end of the volume",
            },
        )
    } else if boot.fat_length * sector / 4 < FIRST_CLUSTER + boot.cluster_count {
        Some(
            BootDefect::TableTooShort {
                table_bytes: (boot.fat_length * sector) as u64,
                cluster_count: boot.cluster_count,
            },
        )
    } else if !(FIRST_CLUSTER <= boot.first_cluster_of_root < FIRST_CLUSTER + boot.cluster_count) {
        Some(BootDefect::RootOutsideHeap { cluster: boot.first_cluster_of_root })
    } else {
        None
    }
}

/// The layout `boot` describes. Where the bitmap and the up-case table are the root directory
/// says and no boot sector does, so those four fields are what a formatter would begin with.
pub open spec fn described(boot: MainBootSector) -> ExfatLayout {
    ExfatLayout {
        bytes_per_sector: boot.sector_size()->Some_0,
        bytes_per_cluster: boot.cluster_size()->Some_0,
        volume_length: boot.volume_length,
        fat_offset: boot.fat_offset,
        fat_length: boot.fat_length,
        cluster_heap_offset: boot.cluster_heap_offset,
        cluster_count: boot.cluster_count,
        first_cluster_of_root: boot.first_cluster_of_root,
        bitmap_cluster: FIRST_CLUSTER,
        bitmap_bytes: ceil_div(boot.cluster_count as int, 8) as u64,
        upcase_cluster: FIRST_CLUSTER,
        upcase_bytes: RECOMMENDED_UPCASE_BYTES,
    }
}

/// The layout a boot sector describes inside `available` bytes.
pub fn layout_from_boot(boot: &MainBootSector, available: u64) -> (r: Result<
    ExfatLayout,
    BootDefect,
>)
    ensures
        match r {
            Ok(layout) => boot_defect(*boot, available as int) is None && layout == described(
                *boot,
            ),
            Err(e) => boot_defect(*boot, available as int) == Some(e),
        },
{
    if boot.major_revision() != FILE_SYSTEM_MAJOR_REVISION {
        return Err(
            BootDefect::FileSystemRevision {
                major: boot.major_revision(),
                minor: boot.minor_revision(),
            },
        );
    }
    let bytes_per_sector: u32 = match boot.bytes_per_sector() {
        Some(bytes) => bytes,
        None => return Err(BootDefect::SectorShift { shift: boot.bytes_per_sector_shift }),
    };
    let bytes_per_cluster: u32 = match boot.bytes_per_cluster() {
        Some(bytes) => bytes,
        None => return Err(
            BootDefect::ClusterShift {
                sector_shift: boot.bytes_per_sector_shift,
                cluster_shift: boot.sectors_per_cluster_shift,
                limit: MAX_CLUSTER_SHIFT,
            },
        ),
    };
    proof {
        lemma_sector_sizes(*boot);
    }
    let sector: u64 = bytes_per_sector as u64;
    let volume_length: u64 = boot.volume_length;
    if volume_length < MIN_VOLUME_SECTORS {
        return Err(
            BootDefect::VolumeLength {
                sectors: volume_length,
                why: "fewer sectors than two boot regions and a filesystem need",
            },
        );
    }
    let volume_bytes: u64 = match volume_length.checked_mul(sector) {
        Some(bytes) => bytes,
        None => return Err(
            BootDefect::VolumeLength {
                sectors: volume_length,
                why: "the length in bytes does not fit in 64 bits",
            },
        ),
    };
    if volume_bytes > available {
        return Err(
            BootDefect::VolumeLength {
                sectors: volume_length,
                why: "the source does not hold that many",
            },
        );
    }
    if (boot.fat_offset as u64) < RESERVED_SECTORS {
        return Err(
            BootDefect::RegionOutsideVolume {
                region: "the allocation table",
                why: "it begins inside the boot regions",
            },
        );
    }
    proof {
        assert(boot.fat_length * sector <= 0xFFFF_FFFF * 4096) by (nonlinear_arith)
            requires
                boot.fat_length <= 0xFFFF_FFFF,
                sector <= 4096,
        ;
        assert(boot.cluster_heap_offset * sector <= 0xFFFF_FFFF * 4096) by (nonlinear_arith)
            requires
                boot.cluster_heap_offset <= 0xFFFF_FFFF,
                sector <= 4096,
        ;
    }
    let fat_bytes: u64 = boot.fat_length as u64 * sector;
    if boot.fat_offset as u64 + boot.fat_length as u64 > boot.cluster_heap_offset as u64 {
        return Err(
            BootDefect::RegionOutsideVolume {
                region: "the allocation table",
                why: "it runs into the cluster heap",
            },
        );
    }
    if boot.cluster_heap_offset as u64 >= volume_length {
        return Err(
            BootDefect::RegionOutsideVolume {
                region: "the cluster heap",
                why: "it begins at or past the end of the volume",
            },
        );
    }
    let heap_at: u64 = boot.cluster_heap_offset as u64 * sector;
    proof {
        assert(heap_at < volume_bytes) by (nonlinear_arith)
            requires
                heap_at == boot.cluster_heap_offset * sector,
                volume_bytes == volume_length * sector,
                boot.cluster_heap_offset < volume_length,
                sector > 0,
        ;
        assert(boot.cluster_count * bytes_per_cluster <= 0xFFFF_FFFF * 0xFFFF_FFFF)
            by (nonlinear_arith)
            requires
                boot.cluster_count <= 0xFFFF_FFFF,
                bytes_per_cluster <= 0xFFFF_FFFF,
        ;
    }
    let cluster_count: u32 = boot.cluster_count;
    if cluster_count > MAX_CLUSTER_COUNT {
        return Err(
            BootDefect::RegionOutsideVolume {
                region: "the cluster heap",
                why: "it claims more clusters than a cluster number addresses",
            },
        );
    }
    let heap_bytes: u64 = cluster_count as u64 * bytes_per_cluster as u64;
    if heap_bytes > volume_bytes - heap_at {
        return Err(
            BootDefect::RegionOutsideVolume {
                region: "the cluster heap",
                why: "its clusters run past the end of the volume",
            },
        );
    }
    if fat_bytes / 4 < cluster_count as u64 + FIRST_CLUSTER as u64 {
        return Err(BootDefect::TableTooShort { table_bytes: fat_bytes, cluster_count });
    }
    let root: u32 = boot.first_cluster_of_root;
    if root < FIRST_CLUSTER || root - FIRST_CLUSTER >= cluster_count {
        return Err(BootDefect::RootOutsideHeap { cluster: root });
    }
    Ok(
        ExfatLayout {
            bytes_per_sector,
            bytes_per_cluster,
            volume_length,
            fat_offset: boot.fat_offset,
            fat_length: boot.fat_length,
            cluster_heap_offset: boot.cluster_heap_offset,
            cluster_count,
            first_cluster_of_root: root,
            bitmap_cluster: FIRST_CLUSTER,
            bitmap_bytes: div_ceil(cluster_count as u64, 8),
            upcase_cluster: FIRST_CLUSTER,
            upcase_bytes: RECOMMENDED_UPCASE_BYTES,
        },
    )
}

/// The sizes a boot sector can record.
proof fn lemma_sector_sizes(boot: MainBootSector)
    ensures
        boot.sector_size() is Some ==> {
            let size = boot.sector_size()->Some_0;
            &&& size == pow2(boot.bytes_per_sector_shift as nat)
            &&& size == 512 || size == 1024 || size == 2048 || size == 4096
        },
        boot.cluster_size() is Some ==> {
            let size = boot.cluster_size()->Some_0;
            &&& size == pow2(
                (boot.bytes_per_sector_shift + boot.sectors_per_cluster_shift) as nat,
            )
            &&& is_pow2(size as int)
            &&& boot.sector_size()->Some_0 <= size <= MAX_BYTES_PER_CLUSTER
        },
{
    vstd::arithmetic::power2::lemma2_to64();
    if boot.cluster_size() is Some {
        let low = boot.bytes_per_sector_shift as nat;
        let e = (boot.bytes_per_sector_shift + boot.sectors_per_cluster_shift) as nat;
        lemma_log2_of_pow2(e);
        if e < 25 {
            vstd::arithmetic::power2::lemma_pow2_strictly_increases(e, 25);
        }
        if low < e {
            vstd::arithmetic::power2::lemma_pow2_strictly_increases(low, e);
        }
    }
}

/// Whether the fields of `boot` that describe the geometry are those of `layout`.
pub open spec fn describes(boot: MainBootSector, layout: ExfatLayout) -> bool {
    &&& boot.file_system_revision / 256 == FILE_SYSTEM_MAJOR_REVISION
    &&& boot.bytes_per_sector_shift == trailing_zeros(layout.bytes_per_sector as int)
    &&& boot.sectors_per_cluster_shift == trailing_zeros(layout.cluster_sectors())
    &&& boot.volume_length == layout.volume_length
    &&& boot.fat_offset == layout.fat_offset
    &&& boot.fat_length == layout.fat_length
    &&& boot.cluster_heap_offset == layout.cluster_heap_offset
    &&& boot.cluster_count == layout.cluster_count
    &&& boot.first_cluster_of_root == layout.first_cluster_of_root
}

/// A boot sector that is not refused describes a sound layout.
pub proof fn lemma_described_is_sound(boot: MainBootSector, available: int)
    requires
        boot_defect(boot, available) is None,
    ensures
        described(boot).sound(),
        described(boot).volume_size() <= available,
{
    lemma_sector_sizes(boot);
}

/// A boot sector written for a sound layout describes that layout: it is not refused where the
/// volume fits, and every field a boot sector records is recovered.
pub proof fn lemma_boot_sector_recovers_layout(
    boot: MainBootSector,
    layout: ExfatLayout,
    available: int,
)
    requires
        layout.sound(),
        describes(boot, layout),
        layout.volume_size() <= available,
    ensures
        boot_defect(boot, available) is None,
        described(boot) == (ExfatLayout {
            bitmap_cluster: FIRST_CLUSTER,
            bitmap_bytes: ceil_div(layout.cluster_count as int, 8) as u64,
            upcase_cluster: FIRST_CLUSTER,
            upcase_bytes: RECOMMENDED_UPCASE_BYTES,
            ..layout
        }),
{
    vstd::arithmetic::power2::lemma2_to64();
    let sector = layout.bytes_per_sector as int;
    let cluster = layout.bytes_per_cluster as int;
    assert(is_pow2(sector)) by {
        reveal_with_fuel(is_pow2, 14);
    }
    lemma_trailing_zeros_of_pow2(sector);
    lemma_pow2_of_log2(sector);
    lemma_log2_of_pow2(9);
    lemma_log2_of_pow2(10);
    lemma_log2_of_pow2(11);
    lemma_log2_of_pow2(12);
    lemma_pow2_divides(sector, cluster);
    lemma_trailing_zeros_of_pow2(cluster / sector);
    lemma_pow2_of_log2(cluster);
    if log2(cluster) > 25 {
        vstd::arithmetic::power2::lemma_pow2_strictly_increases(25, log2(cluster));
    }
    lemma_sector_sizes(boot);
}

/// Every layout the planner produces is sound, lies within the bytes it was given, and begins
/// its heap with the bitmap, the up-case table and the root directory, each right behind the
/// other.
pub proof fn lemma_planned_layout_is_sound(request: PlanRequest)
    requires
        request.fault() is None,
    ensures
        request.layout().sound(),
        request.layout().volume_size() <= request.volume_bytes,
        request.layout().bitmap_cluster == FIRST_CLUSTER,
        request.layout().bitmap_bytes == ceil_div(request.layout().cluster_count as int, 8),
        request.layout().upcase_bytes == RECOMMENDED_UPCASE_BYTES,
        request.layout().upcase_cluster == FIRST_CLUSTER + ceil_div(
            request.layout().bitmap_bytes as int,
            request.layout().bytes_per_cluster as int,
        ),
        request.layout().first_cluster_of_root == request.layout().upcase_cluster + ceil_div(
            RECOMMENDED_UPCASE_BYTES as int,
            request.layout().bytes_per_cluster as int,
        ),
        request.layout().has_cluster(request.layout().first_cluster_of_root as int),
        request.layout().fat_offset * request.layout().bytes_per_sector % (request.align() as int)
            == 0,
        request.layout().cluster_heap_offset * request.layout().bytes_per_sector % (
        request.align() as int) == 0,
{
    request.lemma_planned();
}

/// The planner and the recovery agree: the boot sector of a planned layout, on a source that
/// holds the volume, gives back every field of the layout a boot sector records.
pub proof fn lemma_planned_layout_is_recovered(
    request: PlanRequest,
    boot: MainBootSector,
    available: int,
)
    requires
        request.fault() is None,
        describes(boot, request.layout()),
        request.layout().volume_size() <= available,
    ensures
        boot_defect(boot, available) is None,
        described(boot) == (ExfatLayout { upcase_cluster: FIRST_CLUSTER, ..request.layout() }),
{
    lemma_planned_layout_is_sound(request);
    lemma_boot_sector_recovers_layout(boot, request.layout(), available);
}

} // verus!
