//! The geometry of a volume: planning one, and recovering one from a boot sector.
use vstd::prelude::*;

use crate::boot::BOOT_REGION_SECTORS;
use crate::number::{
    ceil_div, div_ceil, is_pow2, is_power_of_two, lemma_pow2_divides, lemma_rounded_up, log2,
    rounded_up,
};
use crate::text::{dec, push_dec};
use crate::upcase_table::RECOMMENDED_UPCASE_BYTES;

verus! {

/// The number of the first cluster; the two below it are not clusters.
pub const FIRST_CLUSTER: u32 = 2;

/// The most clusters a cluster number addresses.
pub const MAX_CLUSTER_COUNT: u32 = 0xFFFF_FFF5;

/// The fewest sectors a volume has.
pub const MIN_VOLUME_SECTORS: u64 = 2048;

/// The largest a cluster is.
pub const MAX_BYTES_PER_CLUSTER: u32 = 0x0200_0000;

/// What the table and the heap are aligned to where a request does not say.
pub const DEFAULT_BOUNDARY_ALIGN: u32 = 0x0010_0000;

/// Sectors the two boot regions take.
pub const RESERVED_SECTORS: u64 = 24;

/// Bytes of the table that no cluster has an entry in, and one more.
pub const TABLE_TAIL: u64 = 9;

/// The cluster size of a request.
#[derive(Clone, Copy, PartialEq, Eq, Debug, Structural)]
pub enum ClusterSize {
    /// The one convention gives a volume of this size.
    Auto,
    /// This many bytes.
    Bytes(u32),
}

/// What the table and the heap are aligned to.
#[derive(Clone, Copy, PartialEq, Eq, Debug, Structural)]
pub enum BoundaryAlign {
    /// The boundary convention uses.
    Auto,
    /// This many bytes.
    Bytes(u32),
}

impl Default for ClusterSize {
    fn default() -> (size: Self)
        ensures
            size == ClusterSize::Auto,
    {
        ClusterSize::Auto
    }
}

impl Default for BoundaryAlign {
    fn default() -> (align: Self)
        ensures
            align == BoundaryAlign::Auto,
    {
        BoundaryAlign::Auto
    }
}

/// A volume that cannot be planned.
#[allow(inconsistent_fields)]
#[derive(Clone, Copy, PartialEq, Eq, Debug, Structural)]
pub enum GeometryError {
    /// A sector size the format does not define.
    SectorSizeUnsupported {
        /// The size asked for.
        bytes_per_sector: u32,
    },
    /// A cluster size that is not a power of two, or is below a sector.
    ClusterSizeUnsupported {
        /// The size asked for.
        bytes_per_cluster: u32,
        /// The sector size.
        bytes_per_sector: u32,
    },
    /// A cluster size above the format's maximum.
    ClusterTooLarge {
        /// The size asked for.
        bytes_per_cluster: u32,
        /// The largest there is.
        limit: u32,
    },
    /// An alignment that is not a power of two, or is below a sector.
    BoundaryAlignUnsupported {
        /// The alignment asked for.
        bytes: u32,
        /// The sector size.
        bytes_per_sector: u32,
    },
    /// A volume below the format's minimum.
    VolumeTooSmall {
        /// Sectors of the volume asked for.
        sectors: u64,
        /// The fewest there may be.
        minimum: u64,
    },
    /// A volume the table and the alignment leave no heap of.
    NoClusterHeap {
        /// Where the heap would begin.
        heap_at: u64,
        /// Bytes of the volume.
        volume_bytes: u64,
    },
    /// More clusters than a cluster number addresses.
    TooManyClusters {
        /// Clusters there would be.
        clusters: u64,
        /// The most there may be.
        limit: u32,
    },
    /// A heap that does not hold what every volume carries.
    HeapTooSmall {
        /// Clusters of the heap.
        clusters: u32,
        /// Clusters it needs.
        needed: u32,
    },
}

impl GeometryError {
    /// The message of the error.
    pub open spec fn text(self) -> Seq<char> {
        match self {
            GeometryError::SectorSizeUnsupported { bytes_per_sector } => "sector size "@
                + dec(bytes_per_sector as nat) + " is not 512, 1024, 2048, or 4096"@,
            GeometryError::ClusterSizeUnsupported { bytes_per_cluster, bytes_per_sector } =>
                "cluster size "@ + dec(bytes_per_cluster as nat)
                + " bytes is not a power of two at least as large as the "@
                + dec(bytes_per_sector as nat) + "-byte sector"@,
            GeometryError::ClusterTooLarge { bytes_per_cluster, limit } => "cluster size "@
                + dec(bytes_per_cluster as nat) + " bytes exceeds the "@ + dec(limit as nat)
                + "-byte maximum"@,
            GeometryError::BoundaryAlignUnsupported { bytes, bytes_per_sector } =>
                "boundary alignment "@ + dec(bytes as nat)
                + " is not a power of two at least as large as the "@
                + dec(bytes_per_sector as nat) + "-byte sector"@,
            GeometryError::VolumeTooSmall { sectors, minimum } => "a volume of "@
                + dec(sectors as nat) + " sectors is below the "@ + dec(minimum as nat)
                + "-sector minimum"@,
            GeometryError::NoClusterHeap { heap_at, volume_bytes } =>
                "the allocation table and the alignment leave no cluster heap: the heap would begin at byte "@
                + dec(heap_at as nat) + " of a "@ + dec(volume_bytes as nat) + "-byte volume"@,
            GeometryError::TooManyClusters { clusters, limit } => dec(clusters as nat)
                + " clusters exceeds the "@ + dec(limit as nat) + " a cluster number can address"@,
            GeometryError::HeapTooSmall { clusters, needed } => "a heap of "@
                + dec(clusters as nat)
                + " clusters cannot hold the allocation bitmap, the up-case table and the root directory, which need "@
                + dec(needed as nat),
        }
    }

    /// The message of the error.
    #[must_use]
    pub fn message(&self) -> (text: String)
        ensures
            text@ == self.text(),
    {
        let mut out = String::new();
        match *self {
            GeometryError::SectorSizeUnsupported { bytes_per_sector } => {
                out.append("sector size ");
                push_dec(&mut out, bytes_per_sector as u64);
                out.append(" is not 512, 1024, 2048, or 4096");
            },
            GeometryError::ClusterSizeUnsupported { bytes_per_cluster, bytes_per_sector } => {
                out.append("cluster size ");
                push_dec(&mut out, bytes_per_cluster as u64);
                out.append(" bytes is not a power of two at least as large as the ");
                push_dec(&mut out, bytes_per_sector as u64);
                out.append("-byte sector");
            },
            GeometryError::ClusterTooLarge { bytes_per_cluster, limit } => {
                out.append("cluster size ");
                push_dec(&mut out, bytes_per_cluster as u64);
                out.append(" bytes exceeds the ");
                push_dec(&mut out, limit as u64);
                out.append("-byte maximum");
            },
            GeometryError::BoundaryAlignUnsupported { bytes, bytes_per_sector } => {
                out.append("boundary alignment ");
                push_dec(&mut out, bytes as u64);
                out.append(" is not a power of two at least as large as the ");
                push_dec(&mut out, bytes_per_sector as u64);
                out.append("-byte sector");
            },
            GeometryError::VolumeTooSmall { sectors, minimum } => {
                out.append("a volume of ");
                push_dec(&mut out, sectors as u64);
                out.append(" sectors is below the ");
                push_dec(&mut out, minimum as u64);
                out.append("-sector minimum");
            },
            GeometryError::NoClusterHeap { heap_at, volume_bytes } => {
                out.append("the allocation table and the alignment leave no cluster heap: the heap would begin at byte ");
                push_dec(&mut out, heap_at as u64);
                out.append(" of a ");
                push_dec(&mut out, volume_bytes as u64);
                out.append("-byte volume");
            },
            GeometryError::TooManyClusters { clusters, limit } => {
                push_dec(&mut out, clusters as u64);
                out.append(" clusters exceeds the ");
                push_dec(&mut out, limit as u64);
                out.append(" a cluster number can address");
            },
            GeometryError::HeapTooSmall { clusters, needed } => {
                out.append("a heap of ");
                push_dec(&mut out, clusters as u64);
                out.append(" clusters cannot hold the allocation bitmap, the up-case table and the root directory, which need ");
                push_dec(&mut out, needed as u64);
            },
        }
        assert(out@ =~= self.text());
        out
    }
}

/// Where everything on a volume is.
#[derive(Clone, Copy, PartialEq, Eq, Debug, Structural)]
pub struct ExfatLayout {
    /// Bytes of a sector.
    pub bytes_per_sector: u32,
    /// Bytes of a cluster.
    pub bytes_per_cluster: u32,
    /// Sectors of the volume.
    pub volume_length: u64,
    /// The sector the allocation table begins at.
    pub fat_offset: u32,
    /// Sectors of the allocation table.
    pub fat_length: u32,
    /// The sector the cluster heap begins at.
    pub cluster_heap_offset: u32,
    /// Clusters of the heap.
    pub cluster_count: u32,
    /// The first cluster of the root directory.
    pub first_cluster_of_root: u32,
    /// The first cluster of the allocation bitmap.
    pub bitmap_cluster: u32,
    /// Bytes of the allocation bitmap.
    pub bitmap_bytes: u64,
    /// The first cluster of the up-case table.
    pub upcase_cluster: u32,
    /// Bytes of the up-case table.
    pub upcase_bytes: u64,
}

/// How many times `n` can be halved before it is odd; 32 where it is zero.
pub open spec fn trailing_zeros(n: int) -> int
    decreases n,
{
    if n <= 0 {
        32
    } else if n % 2 == 1 {
        0
    } else {
        1 + trailing_zeros(n / 2)
    }
}

/// A power of two ends in as many zeros as its exponent.
pub proof fn lemma_trailing_zeros_of_pow2(n: int)
    requires
        is_pow2(n),
    ensures
        trailing_zeros(n) == log2(n),
    decreases n,
{
    if n > 1 {
        lemma_trailing_zeros_of_pow2(n / 2);
    }
}

/// How many zeros `n` ends in.
fn count_trailing_zeros(n: u32) -> (zeros: u8)
    ensures
        zeros == trailing_zeros(n as int),
        zeros <= 32,
{
    if n == 0 {
        return 32;
    }
    let mut left: u32 = n;
    let mut zeros: u8 = 0;
    let ghost mut halvings: int = 31;
    proof {
        vstd::arithmetic::power2::lemma2_to64();
    }
    while left % 2 == 0
        invariant
            left > 0,
            zeros + halvings == 31,
            zeros + trailing_zeros(left as int) == trailing_zeros(n as int),
            left < vstd::arithmetic::power2::pow2((halvings + 1) as nat),
            0 <= halvings <= 31,
        decreases left,
    {
        proof {
            vstd::arithmetic::power2::lemma2_to64();
            vstd::arithmetic::power2::lemma_pow2_unfold((halvings + 1) as nat);
            halvings = halvings - 1;
        }
        left = left / 2;
        zeros += 1;
    }
    zeros
}

impl ExfatLayout {
    /// Sectors of a cluster.
    pub open spec fn cluster_sectors(self) -> int {
        self.bytes_per_cluster as int / self.bytes_per_sector as int
    }

    /// Whether `n` is the number of a cluster of this volume.
    pub open spec fn has_cluster(self, n: int) -> bool {
        FIRST_CLUSTER <= n < FIRST_CLUSTER + self.cluster_count
    }

    /// The sector cluster `n` begins at.
    pub open spec fn sector_of(self, n: int) -> int {
        self.cluster_heap_offset + (n - FIRST_CLUSTER) * self.cluster_sectors()
    }

    /// The byte cluster `n` begins at.
    pub open spec fn byte_of(self, n: int) -> int {
        self.sector_of(n) * self.bytes_per_sector
    }

    /// The byte the table entry of cluster `n` is at.
    pub open spec fn fat_byte_of(self, n: int) -> int {
        self.fat_offset * self.bytes_per_sector + 4 * n
    }

    /// Bytes of the volume.
    pub open spec fn volume_size(self) -> int {
        self.volume_length * self.bytes_per_sector
    }

    /// Whether the layout agrees with itself: the sizes are ones the format defines, the boot
    /// regions, the table and the heap follow one another inside the volume, the table has an
    /// entry for every cluster, and the root directory begins on one of them.
    pub open spec fn sound(self) -> bool {
        &&& self.bytes_per_sector == 512 || self.bytes_per_sector == 1024 || self.bytes_per_sector
            == 2048 || self.bytes_per_sector == 4096
        &&& is_pow2(self.bytes_per_cluster as int)
        &&& self.bytes_per_sector <= self.bytes_per_cluster <= MAX_BYTES_PER_CLUSTER
        &&& MIN_VOLUME_SECTORS <= self.volume_length
        &&& self.volume_size() <= u64::MAX
        &&& RESERVED_SECTORS <= self.fat_offset
        &&& self.fat_offset + self.fat_length <= self.cluster_heap_offset
        &&& self.cluster_heap_offset < self.volume_length
        &&& self.cluster_count <= MAX_CLUSTER_COUNT
        &&& self.cluster_heap_offset * self.bytes_per_sector + self.cluster_count
            * self.bytes_per_cluster <= self.volume_size()
        &&& FIRST_CLUSTER + self.cluster_count <= self.fat_length * self.bytes_per_sector / 4
        &&& self.has_cluster(self.first_cluster_of_root as int)
    }

    /// Sectors of a cluster.
    #[must_use]
    pub fn sectors_per_cluster(&self) -> (sectors: u32)
        requires
            self.bytes_per_sector > 0,
        ensures
            sectors == self.cluster_sectors(),
    {
        self.bytes_per_cluster / self.bytes_per_sector
    }

    /// The exponent of the sector size.
    #[must_use]
    pub fn bytes_per_sector_shift(&self) -> (shift: u8)
        ensures
            shift == trailing_zeros(self.bytes_per_sector as int),
    {
        count_trailing_zeros(self.bytes_per_sector)
    }

    /// The exponent of the sectors in a cluster.
    #[must_use]
    pub fn sectors_per_cluster_shift(&self) -> (shift: u8)
        requires
            self.bytes_per_sector > 0,
        ensures
            shift == trailing_zeros(self.cluster_sectors()),
    {
        count_trailing_zeros(self.sectors_per_cluster())
    }

    /// Bytes of the volume.
    #[must_use]
    pub fn total_bytes(&self) -> (bytes: u64)
        requires
            self.volume_size() <= u64::MAX,
        ensures
            bytes == self.volume_size(),
    {
        self.volume_length * self.bytes_per_sector as u64
    }

    /// The sector boot region `which` begins at: the main one is 0 and the backup 1.
    #[must_use]
    pub fn boot_region_sector(&self, which: u32) -> (sector: Option<u64>)
        ensures
            sector == (if which == 0 {
                Some(0u64)
            } else if which == 1 {
                Some(BOOT_REGION_SECTORS)
            } else {
                None::<u64>
            }),
    {
        match which {
            0 => Some(0),
            1 => Some(BOOT_REGION_SECTORS),
            _ => None,
        }
    }

    /// The sector cluster `n` begins at, or nothing where the volume has no such cluster.
    #[must_use]
    pub fn cluster_start_sector(&self, n: u32) -> (sector: Option<u64>)
        requires
            self.bytes_per_sector > 0,
        ensures
            sector is Some <==> self.has_cluster(n as int),
            sector is Some ==> sector->Some_0 == self.sector_of(n as int),
    {
        if n < FIRST_CLUSTER || n - FIRST_CLUSTER >= self.cluster_count {
            return None;
        }
        let per: u32 = self.sectors_per_cluster();
        proof {
            let k = (n - FIRST_CLUSTER) as int;
            assert(0 <= k * per <= 0xFFFF_FFFD * 0xFFFF_FFFF) by (nonlinear_arith)
                requires
                    0 <= k <= 0xFFFF_FFFD,
                    0 <= per <= 0xFFFF_FFFF,
            ;
        }
        Some(self.cluster_heap_offset as u64 + (n - FIRST_CLUSTER) as u64 * per as u64)
    }

    /// The byte cluster `n` begins at, or nothing where the volume has no such cluster.
    #[must_use]
    pub fn cluster_start_byte(&self, n: u32) -> (byte: Option<u64>)
        requires
            self.bytes_per_sector > 0,
            self.has_cluster(n as int) ==> self.byte_of(n as int) <= u64::MAX,
        ensures
            byte is Some <==> self.has_cluster(n as int),
            byte is Some ==> byte->Some_0 == self.byte_of(n as int),
    {
        match self.cluster_start_sector(n) {
            Some(sector) => Some(sector * self.bytes_per_sector as u64),
            None => None,
        }
    }

    /// The byte the table entry of cluster `n` is at, or nothing where the table has none.
    #[must_use]
    pub fn fat_entry_byte(&self, n: u32) -> (byte: Option<u64>)
        requires
            n < FIRST_CLUSTER + self.cluster_count ==> self.fat_byte_of(n as int) <= u64::MAX,
        ensures
            byte is Some <==> n < FIRST_CLUSTER + self.cluster_count,
            byte is Some ==> byte->Some_0 == self.fat_byte_of(n as int),
    {
        if n as u64 >= FIRST_CLUSTER as u64 + self.cluster_count as u64 {
            return None;
        }
        proof {
            assert(self.fat_offset * self.bytes_per_sector <= 0xFFFF_FFFF * 0xFFFF_FFFF)
                by (nonlinear_arith)
                requires
                    self.fat_offset <= 0xFFFF_FFFF,
                    self.bytes_per_sector <= 0xFFFF_FFFF,
            ;
        }
        let table: u64 = self.fat_offset as u64 * self.bytes_per_sector as u64;
        Some(table + n as u64 * 4)
    }

    /// Clusters that hold `bytes` bytes.
    #[must_use]
    pub fn clusters_for(&self, bytes: u64) -> (clusters: u64)
        requires
            self.bytes_per_cluster > 0,
        ensures
            clusters == ceil_div(bytes as int, self.bytes_per_cluster as int),
    {
        div_ceil(bytes, self.bytes_per_cluster as u64)
    }

    /// Bytes of the cluster heap.
    #[must_use]
    pub fn heap_bytes(&self) -> (bytes: u64)
        ensures
            bytes == self.cluster_count * self.bytes_per_cluster,
    {
        proof {
            assert(self.cluster_count * self.bytes_per_cluster <= 0xFFFF_FFFF * 0xFFFF_FFFF)
                by (nonlinear_arith)
                requires
                    self.cluster_count <= 0xFFFF_FFFF,
                    self.bytes_per_cluster <= 0xFFFF_FFFF,
            ;
        }
        self.cluster_count as u64 * self.bytes_per_cluster as u64
    }
}

/// What a volume should be.
#[derive(Clone, Copy, PartialEq, Eq, Debug, Structural)]
pub struct PlanRequest {
    /// Bytes of the volume.
    pub volume_bytes: u64,
    /// Bytes of a sector.
    pub bytes_per_sector: u32,
    /// The cluster size.
    pub cluster_size: ClusterSize,
    /// The alignment of the table and the heap.
    pub boundary_align: BoundaryAlign,
}

impl PlanRequest {
    /// A volume of `volume_bytes` bytes, with everything else as convention has it.
    #[must_use]
    pub fn new(volume_bytes: u64) -> (request: Self)
        ensures
            request == (PlanRequest {
                volume_bytes,
                bytes_per_sector: 512,
                cluster_size: ClusterSize::Auto,
                boundary_align: BoundaryAlign::Auto,
            }),
    {
        PlanRequest {
            volume_bytes,
            bytes_per_sector: 512,
            cluster_size: ClusterSize::Auto,
            boundary_align: BoundaryAlign::Auto,
        }
    }

    /// The same request with this sector size.
    #[must_use]
    pub fn bytes_per_sector(self, bytes: u32) -> (request: Self)
        ensures
            request == (PlanRequest { bytes_per_sector: bytes, ..self }),
    {
        PlanRequest { bytes_per_sector: bytes, ..self }
    }

    /// The same request with this cluster size.
    #[must_use]
    pub fn cluster_size(self, size: ClusterSize) -> (request: Self)
        ensures
            request == (PlanRequest { cluster_size: size, ..self }),
    {
        PlanRequest { cluster_size: size, ..self }
    }

    /// The same request with this alignment.
    #[must_use]
    pub fn boundary_align(self, align: BoundaryAlign) -> (request: Self)
        ensures
            request == (PlanRequest { boundary_align: align, ..self }),
    {
        PlanRequest { boundary_align: align, ..self }
    }
}

/// The cluster size convention gives a volume of `volume_bytes` bytes: 512 bytes below 7 MiB,
/// then 4 KiB up to 256 MiB, 32 KiB up to 32 GiB, and 128 KiB above.
pub open spec fn conventional(volume_bytes: int) -> u32 {
    if volume_bytes < 7 * 1_048_576 {
        512
    } else if volume_bytes <= 256 * 1_048_576 {
        4096
    } else if volume_bytes <= 32 * 1_073_741_824 {
        32_768
    } else {
        131_072
    }
}

/// The cluster size convention gives a volume of `volume_bytes` bytes.
#[must_use]
pub fn conventional_cluster_size(volume_bytes: u64) -> (size: u32)
    ensures
        size == conventional(volume_bytes as int),
{
    if volume_bytes < 7 * 1_048_576 {
        512
    } else if volume_bytes <= 256 * 1_048_576 {
        4096
    } else if volume_bytes <= 32 * 1_073_741_824 {
        32_768
    } else {
        131_072
    }
}

impl PlanRequest {
    /// Sectors of the volume asked for.
    pub open spec fn sectors(self) -> int {
        self.volume_bytes as int / self.bytes_per_sector as int
    }

    /// Bytes of the volume asked for, in whole sectors.
    pub open spec fn whole_bytes(self) -> int {
        self.sectors() * self.bytes_per_sector
    }

    /// The cluster size asked for.
    pub open spec fn cluster(self) -> u32 {
        match self.cluster_size {
            ClusterSize::Auto => conventional(self.whole_bytes()),
            ClusterSize::Bytes(bytes) => bytes,
        }
    }

    /// The alignment asked for.
    pub open spec fn align(self) -> u32 {
        match self.boundary_align {
            BoundaryAlign::Auto => DEFAULT_BOUNDARY_ALIGN,
            BoundaryAlign::Bytes(bytes) => bytes,
        }
    }

    /// Where the allocation table begins.
    pub open spec fn fat_at(self) -> int {
        rounded_up(RESERVED_SECTORS * self.bytes_per_sector, self.align() as int)
    }

    /// The most clusters there could be room for, before anything is aligned.
    pub open spec fn max_clusters(self) -> int {
        (self.whole_bytes() - self.fat_at() - TABLE_TAIL) / (self.cluster() + 4) + 1
    }

    /// Bytes of the allocation table.
    pub open spec fn fat_bytes(self) -> int {
        rounded_up((self.max_clusters() + 2) * 4, self.bytes_per_sector as int)
    }

    /// Where the cluster heap begins.
    pub open spec fn heap_at(self) -> int {
        rounded_up(self.fat_at() + self.fat_bytes(), self.align() as int)
    }

    /// Clusters of the heap.
    pub open spec fn clusters(self) -> int {
        (self.whole_bytes() - self.heap_at()) / (self.cluster() as int)
    }

    /// Bytes of the allocation bitmap.
    pub open spec fn bitmap_bytes(self) -> int {
        ceil_div(self.clusters(), 8)
    }

    /// Clusters of the allocation bitmap.
    pub open spec fn bitmap_clusters(self) -> int {
        ceil_div(self.bitmap_bytes(), self.cluster() as int)
    }

    /// Clusters of the up-case table.
    pub open spec fn upcase_clusters(self) -> int {
        ceil_div(RECOMMENDED_UPCASE_BYTES as int, self.cluster() as int)
    }

    /// Why the request cannot be planned, where it cannot.
    pub open spec fn fault(self) -> Option<GeometryError> {
        let bytes_per_sector = self.bytes_per_sector;
        let bytes_per_cluster = self.cluster();
        if !(bytes_per_sector == 512 || bytes_per_sector == 1024 || bytes_per_sector == 2048
            || bytes_per_sector == 4096) {
            Some(GeometryError::SectorSizeUnsupported { bytes_per_sector })
        } else if self.sectors() < MIN_VOLUME_SECTORS {
            Some(
                GeometryError::VolumeTooSmall {
                    sectors: self.sectors() as u64,
                    minimum: MIN_VOLUME_SECTORS,
                },
            )
        } else if !is_pow2(bytes_per_cluster as int) || bytes_per_cluster < bytes_per_sector {
            Some(GeometryError::ClusterSizeUnsupported { bytes_per_cluster, bytes_per_sector })
        } else if bytes_per_cluster > MAX_BYTES_PER_CLUSTER {
            Some(
                GeometryError::ClusterTooLarge { bytes_per_cluster, limit: MAX_BYTES_PER_CLUSTER },
            )
        } else if !is_pow2(self.align() as int) || self.align() < bytes_per_sector {
            Some(
                GeometryError::BoundaryAlignUnsupported { bytes: self.align(), bytes_per_sector },
            )
        } else if self.whole_bytes() < self.fat_at() + TABLE_TAIL {
            Some(
                GeometryError::NoClusterHeap {
                    heap_at: self.fat_at() as u64,
                    volume_bytes: self.whole_bytes() as u64,
                },
            )
        } else if self.fat_bytes() / (bytes_per_sector as int) > u32::MAX {
            Some(
                GeometryError::TooManyClusters {
                    clusters: self.max_clusters() as u64,
                    limit: MAX_CLUSTER_COUNT,
                },
            )
        } else if self.heap_at() >= self.whole_bytes() {
            Some(
                GeometryError::NoClusterHeap {
                    heap_at: self.heap_at() as u64,
                    volume_bytes: self.whole_bytes() as u64,
                },
            )
        } else if self.clusters() > MAX_CLUSTER_COUNT {
            Some(
                GeometryError::TooManyClusters {
                    clusters: self.clusters() as u64,
                    limit: MAX_CLUSTER_COUNT,
                },
            )
        } else if self.bitmap_clusters() + self.upcase_clusters() + 1 > self.clusters() {
            Some(
                GeometryError::HeapTooSmall {
                    clusters: self.clusters() as u32,
                    needed: (self.bitmap_clusters() + self.upcase_clusters() + 1) as u32,
                },
            )
        } else {
            None
        }
    }

    /// The layout of the request, where it has no fault.
    pub open spec fn layout(self) -> ExfatLayout {
        ExfatLayout {
            bytes_per_sector: self.bytes_per_sector,
            bytes_per_cluster: self.cluster(),
            volume_length: self.sectors() as u64,
            fat_offset: (self.fat_at() / self.bytes_per_sector as int) as u32,
            fat_length: (self.fat_bytes() / self.bytes_per_sector as int) as u32,
            cluster_heap_offset: (self.heap_at() / self.bytes_per_sector as int) as u32,
            cluster_count: self.clusters() as u32,
            first_cluster_of_root: (FIRST_CLUSTER + self.bitmap_clusters()
                + self.upcase_clusters()) as u32,
            bitmap_cluster: FIRST_CLUSTER,
            bitmap_bytes: self.bitmap_bytes() as u64,
            upcase_cluster: (FIRST_CLUSTER + self.bitmap_clusters()) as u32,
            upcase_bytes: RECOMMENDED_UPCASE_BYTES,
        }
    }
}

/// The first multiple of `to` that is not below `value`.
fn round_up(value: u64, to: u64) -> (rounded: u64)
    requires
        to > 0,
        value + to <= u64::MAX,
    ensures
        rounded == rounded_up(value as int, to as int),
{
    proof {
        lemma_rounded_up(value as int, to as int);
    }
    div_ceil(value, to) * to
}

/// `n` divided by `d` and multiplied by it again is `n` less the remainder.
proof fn lemma_whole(n: int, d: int)
    requires
        d > 0,
        n >= 0,
    ensures
        0 <= (n / d) * d <= n,
        n < (n / d) * d + d,
        0 <= n / d,
{
    vstd::arithmetic::div_mod::lemma_fundamental_div_mod(n, d);
    vstd::arithmetic::div_mod::lemma_mod_bound(n, d);
    vstd::arithmetic::div_mod::lemma_div_pos_is_pos(n, d);
    assert(d * (n / d) == (n / d) * d) by (nonlinear_arith);
}

/// A quotient is at most what it divides, and smaller by the divisor.
proof fn lemma_quotient_bound(n: int, d: int, per: int)
    requires
        0 < per <= d,
        n >= 0,
    ensures
        0 <= n / d <= n / per,
{
    vstd::arithmetic::div_mod::lemma_div_pos_is_pos(n, d);
    vstd::arithmetic::div_mod::lemma_div_is_ordered_by_denominator(n, per, d);
}

impl PlanRequest {
    /// Whether the sizes of the request are ones a volume can have.
    pub open spec fn sizes_ok(self) -> bool {
        &&& self.bytes_per_sector == 512 || self.bytes_per_sector == 1024 || self.bytes_per_sector
            == 2048 || self.bytes_per_sector == 4096
        &&& self.sectors() >= MIN_VOLUME_SECTORS
        &&& is_pow2(self.cluster() as int)
        &&& self.bytes_per_sector <= self.cluster() <= MAX_BYTES_PER_CLUSTER
        &&& is_pow2(self.align() as int)
        &&& self.align() >= self.bytes_per_sector
    }

    /// How far the quantities of a plan can reach.
    proof fn lemma_bounds(self)
        requires
            self.sizes_ok(),
        ensures
            0 <= self.whole_bytes() <= self.volume_bytes,
            RESERVED_SECTORS * self.bytes_per_sector <= self.fat_at() < RESERVED_SECTORS
                * self.bytes_per_sector + self.align(),
            self.whole_bytes() >= self.fat_at() + TABLE_TAIL ==> {
                &&& 1 <= self.max_clusters() <= u64::MAX / 516 + 1
                &&& (self.max_clusters() + 2) * 4 <= self.fat_bytes() < (self.max_clusters() + 2) * 4
                    + self.bytes_per_sector
                &&& self.fat_at() + self.fat_bytes() <= self.heap_at() < self.fat_at()
                    + self.fat_bytes() + self.align()
            },
    {
        lemma_whole(self.volume_bytes as int, self.bytes_per_sector as int);
        lemma_rounded_up(RESERVED_SECTORS * self.bytes_per_sector, self.align() as int);
        if self.whole_bytes() >= self.fat_at() + TABLE_TAIL {
            let room = self.whole_bytes() - self.fat_at() - TABLE_TAIL;
            lemma_quotient_bound(room, self.cluster() + 4, 516);
            assert(room / 516 <= u64::MAX / 516);
            lemma_rounded_up((self.max_clusters() + 2) * 4, self.bytes_per_sector as int);
            lemma_rounded_up(self.fat_at() + self.fat_bytes(), self.align() as int);
        }
    }

    /// What residents of a heap of `clusters` clusters take is bounded by the heap.
    proof fn lemma_residents(self)
        requires
            self.sizes_ok(),
            0 <= self.clusters() <= MAX_CLUSTER_COUNT,
        ensures
            0 <= self.bitmap_bytes() <= self.clusters() / 8 + 1,
            0 <= self.bitmap_clusters() <= 0x20_0000,
            1 <= self.upcase_clusters() <= 12,
            self.clusters() <= self.bitmap_bytes() * 8,
            self.bitmap_bytes() <= self.bitmap_clusters() * self.cluster(),
            RECOMMENDED_UPCASE_BYTES <= self.upcase_clusters() * self.cluster(),
    {
        let cluster = self.cluster() as int;
        lemma_rounded_up(self.clusters(), 8);
        lemma_rounded_up(self.bitmap_bytes(), cluster);
        lemma_rounded_up(RECOMMENDED_UPCASE_BYTES as int, cluster);
        lemma_quotient_bound(self.bitmap_bytes(), cluster, 512);
        lemma_quotient_bound(RECOMMENDED_UPCASE_BYTES as int, cluster, 512);
        assert(self.upcase_clusters() >= 1) by (nonlinear_arith)
            requires
                self.upcase_clusters() * cluster >= 5836,
                cluster > 0,
        ;
    }
}

impl PlanRequest {
    /// A plan with a heap leaves no more clusters than its table has entries for, and puts the
    /// table and the heap on sectors a 32-bit field holds.
    proof fn lemma_offsets(self)
        requires
            self.sizes_ok(),
            self.whole_bytes() >= self.fat_at() + TABLE_TAIL,
            self.heap_at() < self.whole_bytes(),
            self.clusters() <= MAX_CLUSTER_COUNT,
        ensures
            0 <= self.clusters() <= self.max_clusters(),
            self.fat_at() % (self.bytes_per_sector as int) == 0,
            self.fat_bytes() % (self.bytes_per_sector as int) == 0,
            self.heap_at() % (self.bytes_per_sector as int) == 0,
            self.fat_at() / (self.bytes_per_sector as int) <= u32::MAX,
            self.heap_at() / (self.bytes_per_sector as int) <= u32::MAX,
    {
        let sector = self.bytes_per_sector as int;
        let cluster = self.cluster() as int;
        let align = self.align() as int;
        let volume = self.whole_bytes();
        let fat_at = self.fat_at();
        let max = self.max_clusters();
        let fat_bytes = self.fat_bytes();
        let heap_at = self.heap_at();
        let clusters = self.clusters();
        self.lemma_bounds();

        // How many clusters fit, from the two divisions.
        let room = volume - fat_at - TABLE_TAIL;
        lemma_whole(room, cluster + 4);
        lemma_whole(volume - heap_at, cluster);
        assert((max - 1) * (cluster + 4) <= room < max * (cluster + 4)) by (nonlinear_arith)
            requires
                max - 1 == room / (cluster + 4),
                (room / (cluster + 4)) * (cluster + 4) <= room,
                room < (room / (cluster + 4)) * (cluster + 4) + (cluster + 4),
        ;
        assert(clusters * cluster <= volume - heap_at < (clusters + 1) * cluster)
            by (nonlinear_arith)
            requires
                clusters == (volume - heap_at) / cluster,
                ((volume - heap_at) / cluster) * cluster <= volume - heap_at,
                volume - heap_at < ((volume - heap_at) / cluster) * cluster + cluster,
        ;
        assert(clusters <= max) by (nonlinear_arith)
            requires
                clusters * cluster <= volume - heap_at,
                volume - fat_at - 9 < max * (cluster + 4),
                heap_at >= fat_at + (max + 2) * 4,
                cluster >= 512,
        ;

        // Everything is on a sector boundary.
        assert(is_pow2(sector)) by {
            reveal_with_fuel(is_pow2, 14);
        }
        lemma_pow2_divides(sector, align);
        lemma_rounded_up(RESERVED_SECTORS * sector, align);
        lemma_rounded_up(fat_at + fat_bytes, align);
        lemma_rounded_up((max + 2) * 4, sector);
        lemma_multiple_of_multiple(fat_at, align, sector);
        lemma_multiple_of_multiple(heap_at, align, sector);

        // The heap begins low enough.
        assert((max - 1) * cluster < sector + align + cluster * (clusters + 1) + 3)
            by (nonlinear_arith)
            requires
                (max - 1) * (cluster + 4) <= volume - fat_at - 9,
                volume - heap_at < (clusters + 1) * cluster,
                heap_at < fat_at + fat_bytes + align,
                fat_bytes < (max + 2) * 4 + sector,
        ;
        assert(max <= clusters + 2 + 0x100_0000) by (nonlinear_arith)
            requires
                (max - 1) * cluster < sector + align + cluster * (clusters + 1) + 3,
                sector <= 4096,
                align <= 0xFFFF_FFFF,
                cluster >= 512,
        ;
        assert(heap_at < 0x10_0000_0000);
        lemma_quotient_bound(heap_at, sector, 512);
        lemma_quotient_bound(fat_at, sector, 512);
    }
}

impl PlanRequest {
    /// What a plan without a fault gives.
    pub(crate) proof fn lemma_planned(self)
        requires
            self.fault() is None,
        ensures
            self.layout().sound(),
            self.layout().volume_size() <= self.volume_bytes,
            self.layout().bitmap_bytes == self.bitmap_bytes(),
            self.layout().cluster_count == self.clusters(),
            self.layout().upcase_cluster == FIRST_CLUSTER + self.bitmap_clusters(),
            self.layout().first_cluster_of_root == FIRST_CLUSTER + self.bitmap_clusters()
                + self.upcase_clusters(),
            self.layout().fat_offset * self.layout().bytes_per_sector % (self.align() as int) == 0,
            self.layout().cluster_heap_offset * self.layout().bytes_per_sector % (
            self.align() as int) == 0,
            self.layout().fat_offset * self.bytes_per_sector == self.fat_at(),
            self.layout().fat_length * self.bytes_per_sector == self.fat_bytes(),
            self.layout().cluster_heap_offset * self.bytes_per_sector == self.heap_at(),
    {
        self.lemma_bounds();
        let sector = self.bytes_per_sector as int;
        let cluster = self.cluster() as int;
        let heap_room = self.whole_bytes() - self.heap_at();
        lemma_whole(heap_room, cluster);
        self.lemma_offsets();
        self.lemma_residents();
        let layout = self.layout();
        lemma_exact(self.fat_at(), sector);
        lemma_exact(self.fat_bytes(), sector);
        lemma_exact(self.heap_at(), sector);
        lemma_rounded_up(RESERVED_SECTORS * sector, self.align() as int);
        lemma_rounded_up(self.fat_at() + self.fat_bytes(), self.align() as int);
        assert(layout.fat_offset * sector == self.fat_at());
        assert(layout.fat_length * sector == self.fat_bytes());
        assert(layout.cluster_heap_offset * sector == self.heap_at());
        assert(layout.volume_size() == self.whole_bytes());
        assert(RESERVED_SECTORS <= layout.fat_offset) by (nonlinear_arith)
            requires
                RESERVED_SECTORS * sector <= layout.fat_offset * sector,
                sector > 0,
        ;
        assert(layout.fat_offset + layout.fat_length <= layout.cluster_heap_offset)
            by (nonlinear_arith)
            requires
                layout.fat_offset * sector + layout.fat_length * sector
                    <= layout.cluster_heap_offset * sector,
                sector > 0,
        ;
        assert(layout.cluster_heap_offset < layout.volume_length) by (nonlinear_arith)
            requires
                layout.cluster_heap_offset * sector < layout.volume_length * sector,
                sector > 0,
        ;
    }
}

impl PlanRequest {
    /// A plan is as asked, and as large as fits: as many whole sectors as the bytes hold; the
    /// sector and cluster sizes asked for, or the size convention gives; the table at the first
    /// boundary behind the boot regions and the heap at the first behind the table; as many
    /// clusters as there is room for behind that, each with a word of the table; a bit of the
    /// bitmap for each cluster and no byte more, on the heap's first clusters; the up-case table on
    /// those behind, and the root directory on the next.
    pub proof fn lemma_a_plan_is_as_asked_and_as_large_as_fits(self)
        requires
            self.fault() is None,
        ensures
            ({
                let layout = self.layout();
                let sector = self.bytes_per_sector as int;
                let per = layout.bytes_per_cluster as int;
                let volume = layout.volume_length * sector;
                let boundary = match self.boundary_align {
                    BoundaryAlign::Auto => 0x10_0000int,
                    BoundaryAlign::Bytes(bytes) => bytes as int,
                };
                let table = layout.fat_offset * sector;
                let table_end = table + layout.fat_length * sector;
                let heap = layout.cluster_heap_offset * sector;
                let count = layout.cluster_count as int;
                let bitmap = layout.upcase_cluster - layout.bitmap_cluster;
                let upcase = layout.first_cluster_of_root - layout.upcase_cluster;
                &&& layout.bytes_per_sector == self.bytes_per_sector
                &&& volume <= self.volume_bytes < volume + sector
                &&& self.cluster_size matches ClusterSize::Bytes(bytes) ==> per == bytes
                &&& self.cluster_size is Auto ==> per == (if volume < 0x70_0000 {
                    512int
                } else if volume <= 0x1000_0000 {
                    4096int
                } else if volume <= 0x8_0000_0000 {
                    32_768int
                } else {
                    131_072int
                })
                &&& table % boundary == 0
                &&& 24 * sector <= table < 24 * sector + boundary
                &&& heap % boundary == 0
                &&& table_end <= heap < table_end + boundary
                &&& heap + count * per <= volume < heap + (count + 1) * per
                &&& 4 * (count + 2) <= layout.fat_length * sector
                &&& layout.bitmap_cluster == 2
                &&& count <= 8 * layout.bitmap_bytes < count + 8
                &&& layout.bitmap_bytes <= bitmap * per < layout.bitmap_bytes + per
                &&& layout.upcase_bytes == 5836
                &&& 5836 <= upcase * per < 5836 + per
                &&& layout.first_cluster_of_root < 2 + count
            }),
    {
        self.lemma_planned();
        self.lemma_bounds();
        let sector = self.bytes_per_sector as int;
        let cluster = self.cluster() as int;
        let room = self.whole_bytes() - self.heap_at();
        lemma_whole(self.volume_bytes as int, sector);
        lemma_whole(room, cluster);
        assert((room / cluster + 1) * cluster == (room / cluster) * cluster + cluster)
            by (nonlinear_arith);
        lemma_rounded_up(RESERVED_SECTORS * sector, self.align() as int);
        lemma_rounded_up(self.fat_at() + self.fat_bytes(), self.align() as int);
        lemma_rounded_up(self.clusters(), 8);
        lemma_rounded_up(self.bitmap_bytes(), cluster);
        lemma_rounded_up(RECOMMENDED_UPCASE_BYTES as int, cluster);
        let b = self.bitmap_clusters();
        let u = self.upcase_clusters();
        assert((b - 1) * cluster == b * cluster - cluster && (u - 1) * cluster == u * cluster
            - cluster) by (nonlinear_arith);
    }

    /// A request is refused for its sizes exactly where they are not ones a volume can have: a
    /// sector of 512, 1024, 2048 or 4096 bytes, 2048 of them at least, clusters of a power of two
    /// of bytes from a sector to 32 MiB, and boundaries a power of two of bytes and no less than a
    /// sector apart.
    pub proof fn lemma_which_sizes_are_refused(self)
        ensures
            ({
                let sector = self.bytes_per_sector as int;
                let sized = sector == 512 || sector == 1024 || sector == 2048 || sector == 4096;
                let long = self.volume_bytes >= 2048 * sector;
                let cluster = self.cluster() as int;
                let boundary = match self.boundary_align {
                    BoundaryAlign::Auto => 0x10_0000int,
                    BoundaryAlign::Bytes(bytes) => bytes as int,
                };
                let clustered = is_pow2(cluster) && sector <= cluster;
                let bounded = is_pow2(boundary) && sector <= boundary;
                &&& self.fault() is None ==> sized && long && clustered && cluster <= 0x200_0000
                    && bounded
                &&& !sized <==> self.fault() is Some && self.fault()->Some_0 is SectorSizeUnsupported
                &&& sized && !long <==> self.fault() is Some && self.fault()->Some_0 is VolumeTooSmall
                &&& sized && long && !clustered <==> self.fault() is Some && self.fault()->Some_0 is ClusterSizeUnsupported
                &&& sized && long && clustered && cluster > 0x200_0000
                    <==> self.fault() is Some && self.fault()->Some_0 is ClusterTooLarge
                &&& sized && long && clustered && cluster <= 0x200_0000 && !bounded
                    <==> self.fault() is Some && self.fault()->Some_0 is BoundaryAlignUnsupported
            }),
    {
        let sector = self.bytes_per_sector as int;
        if sector > 0 {
            let n = self.sectors();
            lemma_whole(self.volume_bytes as int, sector);
            assert(n >= 2048 <==> self.volume_bytes >= 2048 * sector) by (nonlinear_arith)
                requires
                    n * sector <= self.volume_bytes < n * sector + sector,
                    sector > 0,
            ;
        }
    }
}

/// A multiple divided and multiplied again is itself.
proof fn lemma_exact(n: int, d: int)
    requires
        d > 0,
        n % d == 0,
    ensures
        (n / d) * d == n,
{
    vstd::arithmetic::div_mod::lemma_fundamental_div_mod(n, d);
    assert(d * (n / d) == (n / d) * d) by (nonlinear_arith);
}

/// A multiple of a multiple is a multiple.
proof fn lemma_multiple_of_multiple(n: int, of: int, d: int)
    requires
        d > 0,
        of > 0,
        n % of == 0,
        of % d == 0,
    ensures
        n % d == 0,
{
    vstd::arithmetic::div_mod::lemma_fundamental_div_mod(n, of);
    vstd::arithmetic::div_mod::lemma_fundamental_div_mod(of, d);
    let k = n / of;
    let j = of / d;
    assert(n == (k * j) * d) by (nonlinear_arith)
        requires
            n == of * k,
            of == d * j,
    ;
    vstd::arithmetic::div_mod::lemma_mod_multiples_basic(k * j, d);
}

/// Plan the layout of a volume.
///
/// The table begins at the first boundary behind the boot regions and the heap at the first
/// behind the table, which is long enough for every cluster that could follow it. The bitmap,
/// the up-case table and the root directory are the heap's first clusters.
pub fn plan_layout(request: &PlanRequest) -> (r: Result<ExfatLayout, GeometryError>)
    ensures
        match r {
            Ok(layout) => request.fault() is None && layout == request.layout(),
            Err(e) => request.fault() == Some(e),
        },
{
    let bytes_per_sector: u32 = request.bytes_per_sector;
    if !(bytes_per_sector == 512 || bytes_per_sector == 1024 || bytes_per_sector == 2048
        || bytes_per_sector == 4096) {
        return Err(GeometryError::SectorSizeUnsupported { bytes_per_sector });
    }
    let sector: u64 = bytes_per_sector as u64;
    let volume_length: u64 = request.volume_bytes / sector;
    if volume_length < MIN_VOLUME_SECTORS {
        return Err(
            GeometryError::VolumeTooSmall { sectors: volume_length, minimum: MIN_VOLUME_SECTORS },
        );
    }
    proof {
        lemma_whole(request.volume_bytes as int, sector as int);
    }
    let volume_bytes: u64 = volume_length * sector;
    let bytes_per_cluster: u32 = match request.cluster_size {
        ClusterSize::Auto => conventional_cluster_size(volume_bytes),
        ClusterSize::Bytes(bytes) => bytes,
    };
    if !is_power_of_two(bytes_per_cluster) || bytes_per_cluster < bytes_per_sector {
        return Err(GeometryError::ClusterSizeUnsupported { bytes_per_cluster, bytes_per_sector });
    }
    if bytes_per_cluster > MAX_BYTES_PER_CLUSTER {
        return Err(
            GeometryError::ClusterTooLarge { bytes_per_cluster, limit: MAX_BYTES_PER_CLUSTER },
        );
    }
    let cluster: u64 = bytes_per_cluster as u64;
    let align: u32 = match request.boundary_align {
        BoundaryAlign::Auto => DEFAULT_BOUNDARY_ALIGN,
        BoundaryAlign::Bytes(bytes) => bytes,
    };
    if !is_power_of_two(align) || align < bytes_per_sector {
        return Err(GeometryError::BoundaryAlignUnsupported { bytes: align, bytes_per_sector });
    }
    let align: u64 = align as u64;
    proof {
        request.lemma_bounds();
    }

    let fat_at: u64 = round_up(RESERVED_SECTORS * sector, align);
    if volume_bytes < fat_at + TABLE_TAIL {
        return Err(GeometryError::NoClusterHeap { heap_at: fat_at, volume_bytes });
    }
    let max_clusters: u64 = (volume_bytes - fat_at - TABLE_TAIL) / (cluster + 4) + 1;
    let fat_bytes: u64 = round_up((max_clusters + 2) * 4, sector);
    let fat_sectors: u64 = fat_bytes / sector;
    if fat_sectors > u32::MAX as u64 {
        return Err(
            GeometryError::TooManyClusters { clusters: max_clusters, limit: MAX_CLUSTER_COUNT },
        );
    }
    let heap_at: u64 = round_up(fat_at + fat_bytes, align);
    if heap_at >= volume_bytes {
        return Err(GeometryError::NoClusterHeap { heap_at, volume_bytes });
    }
    let clusters: u64 = (volume_bytes - heap_at) / cluster;
    if clusters > MAX_CLUSTER_COUNT as u64 {
        return Err(GeometryError::TooManyClusters { clusters, limit: MAX_CLUSTER_COUNT });
    }
    proof {
        request.lemma_residents();
        request.lemma_offsets();
    }
    let cluster_count: u32 = clusters as u32;
    let bitmap_bytes: u64 = div_ceil(clusters, 8);
    let bitmap_clusters: u64 = div_ceil(bitmap_bytes, cluster);
    let upcase_clusters: u64 = div_ceil(RECOMMENDED_UPCASE_BYTES, cluster);
    let residents: u64 = bitmap_clusters + upcase_clusters + 1;
    if residents > clusters {
        return Err(
            GeometryError::HeapTooSmall { clusters: cluster_count, needed: residents as u32 },
        );
    }
    let upcase_cluster: u32 = FIRST_CLUSTER + bitmap_clusters as u32;
    Ok(
        ExfatLayout {
            bytes_per_sector,
            bytes_per_cluster,
            volume_length,
            fat_offset: (fat_at / sector) as u32,
            fat_length: fat_sectors as u32,
            cluster_heap_offset: (heap_at / sector) as u32,
            cluster_count,
            first_cluster_of_root: upcase_cluster + upcase_clusters as u32,
            bitmap_cluster: FIRST_CLUSTER,
            bitmap_bytes,
            upcase_cluster,
            upcase_bytes: RECOMMENDED_UPCASE_BYTES,
        },
    )
}

} // verus!
