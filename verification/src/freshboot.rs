//! The boot regions of a volume a format has written, as a reader finds them.
use vstd::prelude::*;

use crate::boot::{
    boot_fault, lemma_boot_sector_prefix, lemma_boot_sector_round_trip, lemma_boot_sector_unique,
    lemma_checksum_sector_round_trip, lemma_extended_boot_sector_round_trip, MainBootSector,
    BOOT_REGION_SECTORS, EXTENDED_BOOT_SIGNATURE, FILE_SYSTEM_NAME,
};
use crate::csum::boot_sum;
use crate::fresh::Fresh;
use crate::geometry::{lemma_trailing_zeros_of_pow2, trailing_zeros, ExfatLayout};
use crate::image::{
    boot_head, boot_of, boot_region_of, checksum_sector, extended_sector, extended_sectors,
    head_pieces, lemma_boot_head_len, lemma_extended_sectors,
};
use crate::materialize::used_by;
use crate::number::{is_pow2, lemma_log2_of_pow2, lemma_pow2_divides, lemma_pow2_of_log2, log2};
use crate::open::{backup_log, boot_at, boot_log, extended_log, region_log, signature_at, state_log};
use crate::read_error::ReadError;
use crate::recover::{boot_defect, described, describes, lemma_boot_sector_recovers_layout};
use crate::volume::Vol;

verus! {

/// Extended boot sector `n` of `m`.
proof fn lemma_extended_part(m: int, n: int, sector: int)
    requires
        0 <= n < m,
        sector >= 4,
    ensures
        extended_sectors(m, sector).len() == m * sector,
        0 <= n * sector,
        n * sector + sector <= m * sector,
        extended_sectors(m, sector).subrange(n * sector, n * sector + sector) == extended_sector(
            sector,
        ),
    decreases m,
{
    lemma_extended_sectors(m, sector);
    lemma_extended_sectors(m - 1, sector);
    assert(m * sector == (m - 1) * sector + sector) by (nonlinear_arith);
    assert(0 <= n * sector && n * sector <= (m - 1) * sector) by (nonlinear_arith)
        requires
            0 <= n <= m - 1,
            sector >= 0,
    ;
    let before = extended_sectors(m - 1, sector);
    let last = extended_sector(sector);
    assert(extended_sectors(m, sector) == before + last);
    if n < m - 1 {
        lemma_extended_part(m - 1, n, sector);
        assert((before + last).subrange(n * sector, n * sector + sector) =~= before.subrange(
            n * sector,
            n * sector + sector,
        ));
    } else {
        assert((before + last).subrange(n * sector, n * sector + sector) =~= last);
    }
}

/// The parts of a boot region.
proof fn lemma_region_parts(boot: MainBootSector, sector: int)
    requires
        sector == 512 || sector == 1024 || sector == 2048 || sector == 4096,
    ensures
        ({
            let region = boot_region_of(boot, sector);
            let head = boot_head(boot, sector);
            &&& region.len() == 12 * sector
            &&& region.take(512) == boot.encoded()
            &&& region.subrange(0, 11 * sector) == head
            &&& region.subrange(11 * sector, 12 * sector) == checksum_sector(
                boot_sum(head),
                sector,
            )
            &&& forall|n: int|
                0 <= n < 8 ==> #[trigger] region.subrange((1 + n) * sector, (2 + n) * sector)
                    == extended_sector(sector)
        }),
{
    reveal(boot_region_of);
    let region = boot_region_of(boot, sector);
    let head = boot_head(boot, sector);
    let enc = boot.encoded();
    let ext = extended_sectors(8, sector);
    lemma_boot_head_len(boot, sector);
    lemma_extended_sectors(8, sector);
    assert(region.take(512) =~= enc);
    assert(region.subrange(0, 11 * sector) =~= head);
    assert(region.subrange(11 * sector, 12 * sector) =~= checksum_sector(boot_sum(head), sector));
    assert forall|n: int| 0 <= n < 8 implies #[trigger] region.subrange(
        (1 + n) * sector,
        (2 + n) * sector,
    ) == extended_sector(sector) by {
        lemma_extended_part(8, n, sector);
        assert((1 + n) * sector == sector + n * sector && (2 + n) * sector == sector + n * sector
            + sector) by (nonlinear_arith);
        assert(region.subrange((1 + n) * sector, (2 + n) * sector) =~= ext.subrange(
            n * sector,
            n * sector + sector,
        ));
    }
}

/// The sector sizes a boot sector written for a sound layout records are its own.
pub proof fn lemma_boot_describes(layout: ExfatLayout, boot: MainBootSector)
    requires
        layout.sound(),
        boot.bytes_per_sector_shift == trailing_zeros(layout.bytes_per_sector as int) as u8,
        boot.sectors_per_cluster_shift == trailing_zeros(layout.cluster_sectors()) as u8,
    ensures
        boot.bytes_per_sector_shift == trailing_zeros(layout.bytes_per_sector as int),
        boot.sectors_per_cluster_shift == trailing_zeros(layout.cluster_sectors()),
{
    vstd::arithmetic::power2::lemma2_to64();
    let sector = layout.bytes_per_sector as int;
    let cluster = layout.bytes_per_cluster as int;
    assert(is_pow2(sector)) by {
        reveal_with_fuel(is_pow2, 14);
    }
    lemma_trailing_zeros_of_pow2(sector);
    lemma_log2_of_pow2(9);
    lemma_log2_of_pow2(10);
    lemma_log2_of_pow2(11);
    lemma_log2_of_pow2(12);
    lemma_pow2_divides(sector, cluster);
    lemma_trailing_zeros_of_pow2(cluster / sector);
    lemma_pow2_of_log2(cluster);
    if log2(cluster) > 25 {
        vstd::arithmetic::power2::lemma_pow2_strictly_increases(25, log2(cluster));
    }
}

impl Fresh {
    /// The boot sector.
    pub open spec fn boot(self) -> MainBootSector {
        boot_of(self.layout, self.options, used_by(self.tree, self.layout))
    }

    /// The fields of the first sector are those of the boot sector.
    pub proof fn lemma_boot_is_at(self)
        requires
            self.wf(),
        ensures
            self.bytes.len() >= 512,
            boot_fault(self.bytes.take(512)) is None,
            self.boot().is_at(self.bytes.take(512)),
    {
        self.lemma_head();
        let boot = self.boot();
        let sector = self.layout.bytes_per_sector as int;
        let pieces = head_pieces(
            self.layout,
            self.options,
            self.tree,
            used_by(self.tree, self.layout),
        );
        let piece = pieces[0];
        lemma_region_parts(boot, sector);
        assert(self.bytes.subrange(piece.at, piece.at + piece.bytes.len()) == piece.bytes);
        assert(piece.bytes == boot_region_of(boot, sector));
        assert(self.bytes.take(512) =~= piece.bytes.take(512));
        assert(boot.file_system_name@ == FILE_SYSTEM_NAME@);
        lemma_boot_sector_round_trip(boot);
    }

    /// The first sector holds the boot sector, and the boot sector describes the volume.
    pub proof fn lemma_boot(self)
        requires
            self.wf(),
        ensures
            self.bytes.len() >= 512,
            boot_fault(self.bytes.take(512)) is None,
            boot_at(self.bytes.take(512)) == self.boot(),
            boot_defect(self.boot(), self.bytes.len() as int) is None,
            described(self.boot()) == (ExfatLayout {
                upcase_cluster: crate::geometry::FIRST_CLUSTER,
                ..self.layout
            }),
    {
        self.lemma_head();
        self.lemma_boot_is_at();
        let boot = self.boot();
        let found = boot_at(self.bytes.take(512));
        assert(found.is_at(self.bytes.take(512)));
        lemma_boot_sector_unique(found, boot, self.bytes.take(512));
        lemma_boot_describes(self.layout, boot);
        assert(describes(boot, self.layout));
        lemma_boot_sector_recovers_layout(boot, self.layout, self.bytes.len() as int);
    }

    /// The sectors of a boot region are those of the one written.
    proof fn lemma_region(self, vol: Vol, region: int)
        requires
            self.wf(),
            self.is(vol),
            region == 0 || region == 12,
        ensures
            ({
                let sector = self.layout.bytes_per_sector as int;
                let head = boot_head(self.boot(), sector);
                &&& vol.sectors(region, 11) == head
                &&& vol.sectors(region + 11, 1) == checksum_sector(boot_sum(head), sector)
                &&& forall|n: int|
                    0 <= n < 8 ==> #[trigger] vol.sectors(region + 1 + n, 1) == extended_sector(
                        sector,
                    )
                &&& vol.sectors(region, 1).len() == sector
                &&& vol.sectors(region, 1).take(512) == self.boot().encoded()
            }),
    {
        self.lemma_head();
        let boot = self.boot();
        let sector = self.layout.bytes_per_sector as int;
        let pieces = head_pieces(
            self.layout,
            self.options,
            self.tree,
            used_by(self.tree, self.layout),
        );
        let piece = if region == 0 {
            pieces[0]
        } else {
            pieces[1]
        };
        let bytes = piece.bytes;
        lemma_region_parts(boot, sector);
        assert(piece.at == region * sector);
        assert(self.bytes.subrange(piece.at, piece.at + bytes.len()) == bytes);
        assert(bytes == boot_region_of(boot, sector));
        assert(vol.sectors(region, 11) =~= bytes.subrange(0, 11 * sector));
        assert(vol.sectors(region + 11, 1) =~= bytes.subrange(11 * sector, 12 * sector));
        assert(vol.sectors(region, 1).take(512) =~= bytes.take(512));
        assert forall|n: int| 0 <= n < 8 implies #[trigger] vol.sectors(region + 1 + n, 1)
            == extended_sector(sector) by {
            assert((region + 1 + n) * sector == region * sector + (1 + n) * sector && (region + 1
                + n + 1) * sector == region * sector + (2 + n) * sector && 0 <= (1 + n) * sector
                && (2 + n) * sector <= 12 * sector) by (nonlinear_arith)
                requires
                    0 <= n < 8,
                    sector > 0,
            ;
            assert(vol.sectors(region + 1 + n, 1) =~= bytes.subrange(
                (1 + n) * sector,
                (2 + n) * sector,
            ));
        }
    }

    /// Every extended boot sector from `n` on has its signature.
    proof fn lemma_extended_log(self, vol: Vol, region: int, n: int)
        requires
            self.wf(),
            self.is(vol),
            region == 0 || region == 12,
            0 <= n <= 8,
        ensures
            extended_log(vol, region, n) == Seq::<ReadError>::empty(),
        decreases 8 - n,
    {
        if n < 8 {
            let sector = self.layout.bytes_per_sector as int;
            self.lemma_region(vol, region);
            lemma_extended_boot_sector_round_trip(sector as nat);
            assert(vol.sectors(region + 1 + n, 1) == extended_sector(sector));
            assert(signature_at(vol, region, n) == EXTENDED_BOOT_SIGNATURE);
            self.lemma_extended_log(vol, region, n + 1);
        }
    }

    /// Nothing is wrong with a boot region.
    proof fn lemma_region_log(self, vol: Vol, region: u64)
        requires
            self.wf(),
            self.is(vol),
            region == 0 || region == 12,
        ensures
            region_log(vol, region) == Seq::<ReadError>::empty(),
    {
        let sector = self.layout.bytes_per_sector as int;
        self.lemma_region(vol, region as int);
        self.lemma_extended_log(vol, region as int, 0);
        let sum = boot_sum(boot_head(self.boot(), sector));
        lemma_checksum_sector_round_trip(checksum_sector(sum, sector), sum);
        assert(region_log(vol, region) =~= Seq::<ReadError>::empty());
    }

    /// Nothing is wrong with the boot regions.
    pub proof fn lemma_boot_log(self, vol: Vol)
        requires
            self.wf(),
            self.is(vol),
        ensures
            boot_log(vol, self.boot()) == Seq::<ReadError>::empty(),
    {
        let boot = self.boot();
        let backup = vol.sectors(BOOT_REGION_SECTORS as int, 1);
        self.lemma_region_log(vol, 0);
        self.lemma_region_log(vol, 12);
        self.lemma_region(vol, 12);
        assert(boot.file_system_name@ == FILE_SYSTEM_NAME@);
        lemma_boot_sector_round_trip(boot);
        assert forall|i: int| 0 <= i < MainBootSector::SIZE implies boot.encoded()[i]
            == backup[i] by {
            assert(backup.take(512)[i] == backup[i]);
        }
        lemma_boot_sector_prefix(boot, boot.encoded(), backup);
        let found = boot_at(backup);
        assert(found.is_at(backup));
        lemma_boot_sector_unique(found, boot, backup);
        assert(backup_log(vol, boot) =~= Seq::<ReadError>::empty());
        assert(0u16 & 0x0002 == 0 && 0u16 & 0x0004 == 0) by (bit_vector);
        assert(state_log(boot) =~= Seq::<ReadError>::empty());
        assert(boot_log(vol, boot) =~= Seq::<ReadError>::empty());
    }
}

} // verus!
