//! The bytes a format writes, region by region.
use vstd::prelude::*;

use crate::allocate::{
    allocated_entry, dir_bytes, dir_own, dir_start, entry_clusters, entry_start, lemma_dir_start,
    lemma_fitting_tree_ends_inside, slots_before,
};
use crate::boot::{
    percentage, percent_in_use, write_checksum_sector, write_extended_boot_sector, MainBootSector,
    EXTENDED_BOOT_SIGNATURE, FILE_SYSTEM_NAME, FILE_SYSTEM_REVISION,
};
use crate::bytes::{le16_all, le32, push_all, push_u32, push_zeros, splice, zeros};
use crate::csum::{boot_checksum, boot_sum, upcase_checksum, upcase_sum};
use crate::dirent::{AllocationBitmapEntry, DirEntry, EntryType, UpcaseTableEntry};
use crate::geometry::{trailing_zeros, ExfatLayout, FIRST_CLUSTER};
use crate::label::VolumeLabel;
use crate::model::{ClusterRun, EntryView, ExfatModel, Node, TreeView, ROOT_DIR};
use crate::number::{ceil_div, lemma_pow2_divides};
use crate::options::FormatOptions;
use crate::set::{lemma_set_len, push_entry_set, set_of, set_with};
use crate::table::{END_OF_CHAIN, FAT_ENTRY_MEDIA, FAT_ENTRY_RESERVED};
use crate::upcase::write_upcase_table;
use crate::upcase_table::{
    lemma_recommended_words, recommended_table, recommended_words, RECOMMENDED_UPCASE_BYTES,
};

verus! {

/// The drive a boot sector names.
pub const DRIVE_SELECT: u8 = 0x80;

/// Allocation tables of a volume.
pub const NUMBER_OF_FATS: u8 = 1;

/// The boot sector of a volume of this layout with this many clusters in use.
pub open spec fn boot_of(layout: ExfatLayout, options: FormatOptions, used: u32) -> MainBootSector {
    MainBootSector {
        jump_boot: MainBootSector::JUMP_BOOT,
        file_system_name: FILE_SYSTEM_NAME,
        partition_offset: 0,
        volume_length: layout.volume_length,
        fat_offset: layout.fat_offset,
        fat_length: layout.fat_length,
        cluster_heap_offset: layout.cluster_heap_offset,
        cluster_count: layout.cluster_count,
        first_cluster_of_root: layout.first_cluster_of_root,
        volume_serial: options.volume_serial,
        file_system_revision: FILE_SYSTEM_REVISION,
        volume_flags: 0,
        bytes_per_sector_shift: trailing_zeros(layout.bytes_per_sector as int) as u8,
        sectors_per_cluster_shift: trailing_zeros(layout.cluster_sectors()) as u8,
        number_of_fats: NUMBER_OF_FATS,
        drive_select: DRIVE_SELECT,
        percent_in_use: percentage(used as int, layout.cluster_count as int) as u8,
        boot_code: options.boot_code,
    }
}

/// An extended boot sector.
pub open spec fn extended_sector(sector: int) -> Seq<u8> {
    zeros((sector - 4) as nat) + le32(EXTENDED_BOOT_SIGNATURE)
}

/// `n` extended boot sectors.
pub open spec fn extended_sectors(n: int, sector: int) -> Seq<u8>
    decreases n,
{
    if n <= 0 {
        Seq::empty()
    } else {
        extended_sectors(n - 1, sector) + extended_sector(sector)
    }
}

/// A boot region without its checksum: the boot sector, eight extended boot sectors, and two
/// sectors of zeros.
pub open spec fn boot_head(boot: MainBootSector, sector: int) -> Seq<u8> {
    boot.encoded() + zeros((sector - 512) as nat) + extended_sectors(8, sector) + zeros(
        (2 * sector) as nat,
    )
}

/// A sector of one value over and over.
pub open spec fn checksum_sector(sum: u32, sector: int) -> Seq<u8> {
    Seq::new(sector as nat, |i: int| le32(sum)[i % 4])
}

/// A boot region: its twelve sectors, the last of them the checksum of the others.
#[verifier::opaque]
pub open spec fn boot_region_of(boot: MainBootSector, sector: int) -> Seq<u8> {
    boot_head(boot, sector) + checksum_sector(boot_sum(boot_head(boot, sector)), sector)
}

/// Entry `n` of the table, where the root directory's last cluster is `last`.
pub open spec fn table_entry_of(layout: ExfatLayout, last: int, n: int) -> u32 {
    if n == 0 {
        FAT_ENTRY_MEDIA
    } else if n == 1 {
        FAT_ENTRY_RESERVED
    } else if n + 1 == layout.upcase_cluster || n + 1 == layout.first_cluster_of_root || n == last {
        END_OF_CHAIN
    } else {
        (n + 1) as u32
    }
}

/// The entries of the table that are not zero.
#[verifier::opaque]
pub open spec fn table_of(layout: ExfatLayout, last: int) -> Seq<u8> {
    Seq::new((4 * (last + 1)) as nat, |i: int| le32(table_entry_of(layout, last, i / 4))[i % 4])
}

/// The byte of the bitmap whose first bit is that of cluster `8 * i` of the heap.
pub open spec fn bitmap_byte(used: int, i: int) -> u8 {
    if 8 * i + 8 <= used {
        0xFF
    } else {
        0xFFu8 >> (8 - used % 8)
    }
}

/// The bytes of the bitmap that are not zero.
#[verifier::opaque]
pub open spec fn bitmap_of(used: int) -> Seq<u8> {
    Seq::new(ceil_div(used, 8) as nat, |i: int| bitmap_byte(used, i))
}

/// The bytes of the up-case table.
#[verifier::opaque]
pub open spec fn upcase_of() -> Seq<u8> {
    le16_all(recommended_words())
}

/// What a format writes into the root directory ahead of the tree's entries.
pub open spec fn root_head(layout: ExfatLayout, label: VolumeLabel) -> Seq<u8> {
    label.label_entry().encoded() + (seq![0x20u8] + zeros(31)) + AllocationBitmapEntry {
        bitmap_flags: 0,
        first_cluster: layout.bitmap_cluster,
        data_length: layout.bitmap_bytes,
    }.encoded() + UpcaseTableEntry {
        table_checksum: upcase_sum(upcase_of()),
        first_cluster: layout.upcase_cluster,
        data_length: layout.upcase_bytes,
    }.encoded()
}

/// The clusters and the length an entry records.
pub open spec fn target_of(tree: TreeView, layout: ExfatLayout, entry: EntryView) -> (
    ClusterRun,
    u64,
) {
    match entry.node {
        Node::Dir(index) => (
            tree.dirs[index as int].run,
            (tree.dirs[index as int].run.count * layout.bytes_per_cluster) as u64,
        ),
        Node::File { size, run, .. } => (run, size),
    }
}

/// The sets of the first `n` entries of directory `d`.
pub open spec fn sets_of(tree: TreeView, layout: ExfatLayout, d: int, n: int) -> Seq<u8>
    decreases n,
{
    if n <= 0 {
        Seq::empty()
    } else {
        let entry = tree.dirs[d].entries[n - 1];
        let target = target_of(tree, layout, entry);
        sets_of(tree, layout, d, n - 1) + set_of(entry, target.0, target.1)
    }
}

/// The entries of directory `d`.
#[verifier::opaque]
pub open spec fn directory_of(tree: TreeView, layout: ExfatLayout, label: VolumeLabel, d: int) -> Seq<
    u8,
> {
    let sets = sets_of(tree, layout, d, tree.dirs[d].entries.len() as int);
    if d == ROOT_DIR {
        root_head(layout, label) + sets
    } else {
        sets
    }
}

/// Bytes and where they go.
pub struct Piece {
    /// The byte they begin at.
    pub at: int,
    /// The bytes.
    pub bytes: Seq<u8>,
}

/// The last cluster of the root directory.
pub open spec fn root_last(layout: ExfatLayout, tree: TreeView) -> int {
    layout.first_cluster_of_root + tree.dirs[0].run.count - 1
}

/// What goes before the tree: the two boot regions, the table, the bitmap and the up-case
/// table.
pub open spec fn head_pieces(
    layout: ExfatLayout,
    options: FormatOptions,
    tree: TreeView,
    used: u32,
) -> Seq<Piece> {
    let sector = layout.bytes_per_sector as int;
    let region = boot_region_of(boot_of(layout, options, used), sector);
    seq![
        Piece { at: 0, bytes: region },
        Piece { at: 12 * sector, bytes: region },
        Piece { at: layout.fat_byte_of(0), bytes: table_of(layout, root_last(layout, tree)) },
        Piece { at: layout.byte_of(layout.bitmap_cluster as int), bytes: bitmap_of(used as int) },
        Piece { at: layout.byte_of(layout.upcase_cluster as int), bytes: upcase_of() },
    ]
}

/// `image` with the first `n` pieces written into it.
pub open spec fn painted(image: Seq<u8>, pieces: Seq<Piece>, n: int) -> Seq<u8>
    decreases n,
{
    if n <= 0 {
        image
    } else {
        splice(painted(image, pieces, n - 1), pieces[n - 1].at, pieces[n - 1].bytes)
    }
}

/// `image` with the first `n` entries of directory `d` written into it, where they are files.
pub open spec fn files_painted(
    image: Seq<u8>,
    tree: TreeView,
    layout: ExfatLayout,
    d: int,
    n: int,
) -> Seq<u8>
    decreases n,
{
    if n <= 0 {
        image
    } else {
        let before = files_painted(image, tree, layout, d, n - 1);
        match tree.dirs[d].entries[n - 1].node {
            Node::File { content, run, .. } if run.count != 0 => splice(
                before,
                layout.byte_of(run.first as int),
                tree.contents[content as int],
            ),
            _ => before,
        }
    }
}

/// `image` with the first `n` directories written into it, and the files in them.
pub open spec fn dirs_painted(
    image: Seq<u8>,
    tree: TreeView,
    layout: ExfatLayout,
    label: VolumeLabel,
    n: int,
) -> Seq<u8>
    decreases n,
{
    if n <= 0 {
        image
    } else {
        let d = n - 1;
        let before = dirs_painted(image, tree, layout, label, d);
        files_painted(
            splice(
                before,
                layout.byte_of(tree.dirs[d].run.first as int),
                directory_of(tree, layout, label, d),
            ),
            tree,
            layout,
            d,
            tree.dirs[d].entries.len() as int,
        )
    }
}

/// The bytes of a volume.
#[verifier::opaque]
pub open spec fn image_of(
    size: nat,
    layout: ExfatLayout,
    options: FormatOptions,
    tree: TreeView,
    used: u32,
) -> Seq<u8> {
    dirs_painted(
        painted(zeros(size), head_pieces(layout, options, tree, used), 5),
        tree,
        layout,
        options.label,
        tree.dirs.len() as int,
    )
}

/// Whether the heap begins with the bitmap, the up-case table and the root directory, each
/// right behind the other.
pub open spec fn residents_lead(layout: ExfatLayout) -> bool {
    let per = layout.bytes_per_cluster as int;
    &&& layout.bitmap_cluster == FIRST_CLUSTER
    &&& layout.bitmap_bytes == ceil_div(layout.cluster_count as int, 8)
    &&& layout.upcase_bytes == RECOMMENDED_UPCASE_BYTES
    &&& layout.upcase_cluster == FIRST_CLUSTER + ceil_div(layout.bitmap_bytes as int, per)
    &&& layout.first_cluster_of_root == layout.upcase_cluster + ceil_div(
        RECOMMENDED_UPCASE_BYTES as int,
        per,
    )
}

/// A number of whole parts is no less than what they hold.
pub proof fn lemma_ceil_div(n: int, per: int)
    requires
        n >= 0,
        per > 0,
    ensures
        0 <= ceil_div(n, per),
        n <= ceil_div(n, per) * per,
        ceil_div(n, per) * per < n + per,
        n > 0 ==> ceil_div(n, per) > 0,
{
    let q = n / per;
    vstd::arithmetic::div_mod::lemma_fundamental_div_mod(n, per);
    vstd::arithmetic::div_mod::lemma_mod_bound(n, per);
    vstd::arithmetic::div_mod::lemma_div_pos_is_pos(n, per);
    assert(per * q == q * per && (q + 1) * per == q * per + per) by (nonlinear_arith);
    if n > 0 && q == 0 {
        assert(0 * per == 0);
    }
}

/// Where a cluster begins, and that the clusters behind it lie in the volume.
pub proof fn lemma_clusters_lie_inside(layout: ExfatLayout, n: int, count: int)
    requires
        layout.sound(),
        FIRST_CLUSTER <= n,
        0 <= count,
        n + count <= FIRST_CLUSTER + layout.cluster_count,
    ensures
        layout.byte_of(n) == layout.cluster_heap_offset * layout.bytes_per_sector + (n
            - FIRST_CLUSTER) * layout.bytes_per_cluster,
        layout.cluster_heap_offset * layout.bytes_per_sector <= layout.byte_of(n),
        layout.byte_of(n) + count * layout.bytes_per_cluster == layout.byte_of(n + count),
        layout.byte_of(n) + count * layout.bytes_per_cluster <= layout.volume_size(),
        layout.volume_size() <= u64::MAX,
{
    let sector = layout.bytes_per_sector as int;
    let per = layout.bytes_per_cluster as int;
    let sectors = layout.cluster_sectors();
    let heap = layout.cluster_heap_offset as int;
    assert(crate::number::is_pow2(sector)) by {
        reveal_with_fuel(crate::number::is_pow2, 14);
    }
    lemma_pow2_divides(sector, per);
    vstd::arithmetic::div_mod::lemma_fundamental_div_mod(per, sector);
    let k = n - FIRST_CLUSTER;
    assert((heap + k * sectors) * sector == heap * sector + k * per) by (nonlinear_arith)
        requires
            per == sector * sectors,
    ;
    assert((heap + (k + count) * sectors) * sector == heap * sector + k * per + count * per)
        by (nonlinear_arith)
        requires
            per == sector * sectors,
    ;
    assert(0 <= k * per) by (nonlinear_arith)
        requires
            k >= 0,
            per >= 0,
    ;
    assert(k * per + count * per <= layout.cluster_count * per) by (nonlinear_arith)
        requires
            k + count <= layout.cluster_count,
            per >= 0,
    ;
}

/// The sets of a directory are as long as its slots.
pub proof fn lemma_sets_len(tree: TreeView, layout: ExfatLayout, d: int, n: int)
    requires
        0 <= n,
    ensures
        sets_of(tree, layout, d, n).len() == 32 * slots_before(tree.dirs[d].entries, n),
    decreases n,
{
    if n > 0 {
        lemma_sets_len(tree, layout, d, n - 1);
        let entry = tree.dirs[d].entries[n - 1];
        let target = target_of(tree, layout, entry);
        let plain = set_with(entry, target.0, target.1, 0);
        lemma_set_len(entry, target.0, target.1, crate::csum::set_sum(plain));
    }
}

/// A directory is as long as its entries.
pub proof fn lemma_directory_len(tree: TreeView, layout: ExfatLayout, label: VolumeLabel, d: int)
    ensures
        directory_of(tree, layout, label, d).len() == dir_bytes(tree.dirs[d], d),
{
    reveal(directory_of);
    lemma_sets_len(tree, layout, d, tree.dirs[d].entries.len() as int);
}

/// A settled tree lies in the volume: directory `d` begins where its clusters do, and its
/// entries fit them.
pub proof fn lemma_directory_fits(tree: TreeView, layout: ExfatLayout, label: VolumeLabel, mapping: Seq<u16>, d: int)
    requires
        layout.sound(),
        tree.settled_on(layout, mapping),
        0 <= d < tree.dirs.len(),
    ensures
        ({
            let per = layout.bytes_per_cluster as int;
            let first = layout.first_cluster_of_root as int;
            let start = dir_start(tree.dirs, d, per, first);
            let own = dir_own(tree.dirs[d], d, per);
            &&& tree.dirs[d].run.first == start
            &&& tree.dirs[d].run.count == own
            &&& first <= start
            &&& 1 <= own
            &&& start + own <= dir_start(tree.dirs, d + 1, per, first)
            &&& dir_start(tree.dirs, d + 1, per, first) <= tree.end_on(layout)
            &&& tree.end_on(layout) <= FIRST_CLUSTER + layout.cluster_count
            &&& directory_of(tree, layout, label, d).len() <= own * per
        }),
{
    reveal(TreeView::settled_on);
    let per = layout.bytes_per_cluster as int;
    let first = layout.first_cluster_of_root as int;
    lemma_fitting_tree_ends_inside(tree, layout);
    lemma_dir_start(tree.dirs, d, d + 1, per, first);
    lemma_dir_start(tree.dirs, d + 1, tree.dirs.len() as int, per, first);
    crate::allocate::lemma_clusters_before(
        tree.dirs[d].entries,
        0,
        tree.dirs[d].entries.len() as int,
        per,
    );
    lemma_directory_len(tree, layout, label, d);
    assert(tree.dirs[d] == tree.allocated_on(layout).dirs[d]);
    lemma_ceil_div(directory_of(tree, layout, label, d).len() as int, per);
    assert(1 * per == per);
}

/// An entry of a settled tree has the clusters the volume gives it.
proof fn lemma_settled_entry(tree: TreeView, layout: ExfatLayout, d: int, j: int)
    requires
        tree == tree.allocated_on(layout),
        0 <= d < tree.dirs.len(),
        0 <= j < tree.dirs[d].entries.len(),
    ensures
        tree.dirs[d].entries[j] == allocated_entry(
            tree.dirs[d].entries[j],
            entry_start(
                tree.dirs,
                d,
                j,
                layout.bytes_per_cluster as int,
                layout.first_cluster_of_root as int,
            ),
            layout.bytes_per_cluster as int,
        ),
{
    assert(tree.dirs[d] == tree.allocated_on(layout).dirs[d]);
    assert(tree.dirs[d].entries[j] == tree.allocated_on(layout).dirs[d].entries[j]);
}

/// A settled tree lies in the volume: file `j` of directory `d` begins where its clusters do,
/// and its contents fit them.
pub proof fn lemma_file_fits(tree: TreeView, layout: ExfatLayout, mapping: Seq<u16>, d: int, j: int)
    requires
        layout.sound(),
        tree.settled_on(layout, mapping),
        0 <= d < tree.dirs.len(),
        0 <= j < tree.dirs[d].entries.len(),
        tree.dirs[d].entries[j].node is File,
    ensures
        ({
            let per = layout.bytes_per_cluster as int;
            let first = layout.first_cluster_of_root as int;
            let at = entry_start(tree.dirs, d, j, per, first);
            let count = entry_clusters(tree.dirs[d].entries[j], per);
            match tree.dirs[d].entries[j].node {
                Node::File { content, size, run } => {
                    &&& run.count == count
                    &&& count > 0 ==> run.first == at
                    &&& count == 0 ==> run.first == 0
                    &&& count > 0 <==> size > 0
                    &&& dir_start(tree.dirs, d, per, first) + dir_own(tree.dirs[d], d, per) <= at
                    &&& at + count <= dir_start(tree.dirs, d + 1, per, first)
                    &&& dir_start(tree.dirs, d + 1, per, first) <= tree.end_on(layout)
                    &&& tree.end_on(layout) <= FIRST_CLUSTER + layout.cluster_count
                    &&& size == tree.contents[content as int].len()
                    &&& content < tree.contents.len()
                    &&& size <= count * per
                },
                _ => true,
            }
        }),
{
    reveal(TreeView::settled_on);
    let per = layout.bytes_per_cluster as int;
    let first = layout.first_cluster_of_root as int;
    let entries = tree.dirs[d].entries;
    lemma_fitting_tree_ends_inside(tree, layout);
    lemma_dir_start(tree.dirs, d, d + 1, per, first);
    lemma_dir_start(tree.dirs, d + 1, tree.dirs.len() as int, per, first);
    crate::allocate::lemma_clusters_before(entries, 0, j, per);
    crate::allocate::lemma_clusters_before(entries, j + 1, entries.len() as int, per);
    crate::allocate::lemma_entry_clusters(entries[j], per);
    lemma_settled_entry(tree, layout, d, j);
    assert(tree.entry_sound(mapping, d, entries[j]));
    let size = entries[j].node->File_size as int;
    lemma_ceil_div(size, per);
    if size == 0 {
        assert(0int / per == 0) by (nonlinear_arith)
            requires
                per > 0,
        ;
        assert(0int % per == 0) by (nonlinear_arith)
            requires
                per > 0,
        ;
    }
}

/// The boot sector of a volume of this layout with this many clusters in use.
#[must_use]
pub fn boot_sector(layout: &ExfatLayout, options: &FormatOptions, used: u32) -> (boot:
    MainBootSector)
    requires
        layout.bytes_per_sector > 0,
    ensures
        boot == boot_of(*layout, *options, used),
{
    MainBootSector {
        jump_boot: MainBootSector::JUMP_BOOT,
        file_system_name: FILE_SYSTEM_NAME,
        partition_offset: 0,
        volume_length: layout.volume_length,
        fat_offset: layout.fat_offset,
        fat_length: layout.fat_length,
        cluster_heap_offset: layout.cluster_heap_offset,
        cluster_count: layout.cluster_count,
        first_cluster_of_root: layout.first_cluster_of_root,
        volume_serial: options.volume_serial,
        file_system_revision: FILE_SYSTEM_REVISION,
        volume_flags: 0,
        bytes_per_sector_shift: layout.bytes_per_sector_shift(),
        sectors_per_cluster_shift: layout.sectors_per_cluster_shift(),
        number_of_fats: NUMBER_OF_FATS,
        drive_select: DRIVE_SELECT,
        percent_in_use: percent_in_use(used, layout.cluster_count),
        boot_code: options.boot_code,
    }
}

/// `n` extended boot sectors are `n` sectors.
pub proof fn lemma_extended_sectors(n: int, sector: int)
    requires
        0 <= n,
        sector >= 4,
    ensures
        extended_sectors(n, sector).len() == n * sector,
    decreases n,
{
    if n > 0 {
        lemma_extended_sectors(n - 1, sector);
        assert(n * sector == (n - 1) * sector + sector) by (nonlinear_arith);
    } else {
        assert(n * sector == 0) by (nonlinear_arith)
            requires
                n == 0,
        ;
    }
}

/// The lengths of the table, the bitmap and the up-case table.
pub proof fn lemma_resident_lens(layout: ExfatLayout, last: int, used: int)
    requires
        last >= 0,
        used >= 0,
    ensures
        table_of(layout, last).len() == 4 * (last + 1),
        bitmap_of(used).len() == ceil_div(used, 8),
        upcase_of().len() == RECOMMENDED_UPCASE_BYTES,
{
    reveal(table_of);
    reveal(bitmap_of);
    reveal(upcase_of);
    lemma_recommended_words();
}

/// A boot sector is 512 bytes whatever its fields.
pub proof fn lemma_boot_head_len(boot: MainBootSector, sector: int)
    requires
        sector >= 512,
    ensures
        boot.encoded().len() == 512,
        boot_head(boot, sector).len() == 11 * sector,
        boot_region_of(boot, sector).len() == 12 * sector,
{
    reveal(boot_region_of);
    lemma_extended_sectors(8, sector);
}

/// The twelve sectors of a boot region.
#[must_use]
pub fn boot_region(layout: &ExfatLayout, options: &FormatOptions, used: u32) -> (region: Vec<u8>)
    requires
        layout.sound(),
    ensures
        region@ == boot_region_of(
            boot_of(*layout, *options, used),
            layout.bytes_per_sector as int,
        ),
        region@.len() == 12 * layout.bytes_per_sector,
{
    reveal(boot_region_of);
    let sector: usize = layout.bytes_per_sector as usize;
    let boot = boot_sector(layout, options, used);
    proof {
        lemma_boot_head_len(boot, sector as int);
    }
    let mut first: Vec<u8> = Vec::new();
    push_zeros(&mut first, sector);
    let written = boot.write_to(first.as_mut_slice());
    assert(written is Ok);
    assert(first@ =~= boot.encoded() + zeros((sector - 512) as nat));
    let mut region = first;
    let mut n: usize = 0;
    assert(region@ =~= boot.encoded() + zeros((sector - 512) as nat) + extended_sectors(
        0,
        sector as int,
    ));
    while n < 8
        invariant
            n <= 8,
            512 <= sector,
            region@ == boot.encoded() + zeros((sector - 512) as nat) + extended_sectors(
                n as int,
                sector as int,
            ),
        decreases 8 - n,
    {
        let mut extended: Vec<u8> = Vec::new();
        push_zeros(&mut extended, sector);
        write_extended_boot_sector(extended.as_mut_slice());
        push_all(&mut region, &extended);
        assert(region@ =~= boot.encoded() + zeros((sector - 512) as nat) + extended_sectors(
            n + 1,
            sector as int,
        ));
        n += 1;
    }
    push_zeros(&mut region, 2 * sector);
    assert(region@ =~= boot_head(boot, sector as int));
    let checksum: u32 = boot_checksum(&region);
    let mut last: Vec<u8> = Vec::new();
    push_zeros(&mut last, sector);
    write_checksum_sector(last.as_mut_slice(), checksum);
    assert(last@ =~= checksum_sector(checksum, sector as int));
    push_all(&mut region, &last);
    region
}

/// Entry `n` of the table, where the root directory's last cluster is `last`.
#[must_use]
pub fn table_entry(layout: &ExfatLayout, last: u32, n: u32) -> (entry: u32)
    requires
        n < u32::MAX,
    ensures
        entry == table_entry_of(*layout, last as int, n as int),
{
    if n == 0 {
        FAT_ENTRY_MEDIA
    } else if n == 1 {
        FAT_ENTRY_RESERVED
    } else if n + 1 == layout.upcase_cluster || n + 1 == layout.first_cluster_of_root || n == last {
        END_OF_CHAIN
    } else {
        n + 1
    }
}

/// The entries of the table that are not zero, where the root directory's last cluster is
/// `last`.
#[must_use]
pub fn table_bytes(layout: &ExfatLayout, last: u32) -> (table: Vec<u8>)
    requires
        last < u32::MAX,
    ensures
        table@ == table_of(*layout, last as int),
{
    reveal(table_of);
    let mut table: Vec<u8> = Vec::new();
    let mut n: u32 = 0;
    while n <= last
        invariant
            n <= last + 1,
            last < u32::MAX,
            table@ =~= Seq::new(
                (4 * n) as nat,
                |i: int| le32(table_entry_of(*layout, last as int, i / 4))[i % 4],
            ),
        decreases last + 1 - n,
    {
        push_u32(&mut table, table_entry(layout, last, n));
        n += 1;
    }
    table
}

/// The bytes of the bitmap that are not zero, with this many clusters in use.
#[must_use]
pub fn bitmap_bytes(used: u32) -> (bitmap: Vec<u8>)
    ensures
        bitmap@ == bitmap_of(used as int),
{
    reveal(bitmap_of);
    let mut bitmap: Vec<u8> = Vec::new();
    let whole: u32 = used / 8;
    let mut n: u32 = 0;
    while n < whole
        invariant
            n <= whole,
            whole == used / 8,
            bitmap@ =~= Seq::new(n as nat, |i: int| bitmap_byte(used as int, i)),
        decreases whole - n,
    {
        bitmap.push(0xFF);
        n += 1;
    }
    let remainder: u32 = used % 8;
    if remainder != 0 {
        bitmap.push(0xFFu8 >> (8 - remainder));
        assert(bitmap@[whole as int] == 0xFFu8 >> ((8 - used as int % 8) as u32));
    }
    assert(bitmap@ =~= bitmap_of(used as int));
    bitmap
}

/// The bytes of the up-case table.
#[must_use]
pub fn upcase_bytes() -> (table: Vec<u8>)
    ensures
        table@ == upcase_of(),
        table@.len() == RECOMMENDED_UPCASE_BYTES,
{
    reveal(upcase_of);
    let words = recommended_table();
    proof {
        lemma_recommended_words();
    }
    let mut table: Vec<u8> = Vec::new();
    push_zeros(&mut table, 5836);
    let written = write_upcase_table(&words, table.as_mut_slice());
    assert(table@ =~= upcase_of());
    table
}

/// What a format writes into the root directory ahead of the tree's entries.
fn root_head_bytes(layout: &ExfatLayout, label: &VolumeLabel) -> (out: Vec<u8>)
    ensures
        out@ == root_head(*layout, *label),
{
    let mut out: Vec<u8> = Vec::new();
    let mut slot: Vec<u8> = Vec::new();
    push_zeros(&mut slot, 32);
    let entry = label.entry();
    let written = entry.write_to(slot.as_mut_slice());
    assert(slot@ =~= label.label_entry().encoded());
    push_all(&mut out, &slot);
    let mut slot: Vec<u8> = Vec::new();
    push_zeros(&mut slot, 32);
    let reserved = DirEntry::reserved(EntryType(EntryType::VOLUME_GUID));
    let written = reserved.write_to(slot.as_mut_slice());
    assert(slot@ =~= seq![0x20u8] + zeros(31));
    push_all(&mut out, &slot);
    let mut slot: Vec<u8> = Vec::new();
    push_zeros(&mut slot, 32);
    let bitmap = AllocationBitmapEntry {
        bitmap_flags: 0,
        first_cluster: layout.bitmap_cluster,
        data_length: layout.bitmap_bytes,
    };
    let written = bitmap.write_to(slot.as_mut_slice());
    assert(slot@ =~= bitmap.encoded());
    push_all(&mut out, &slot);
    let mut slot: Vec<u8> = Vec::new();
    push_zeros(&mut slot, 32);
    let table = upcase_bytes();
    let upcase = UpcaseTableEntry {
        table_checksum: upcase_checksum(&table),
        first_cluster: layout.upcase_cluster,
        data_length: layout.upcase_bytes,
    };
    let written = upcase.write_to(slot.as_mut_slice());
    assert(slot@ =~= upcase.encoded());
    push_all(&mut out, &slot);
    assert(out@ =~= root_head(*layout, *label));
    out
}

/// The entries of directory `index`.
#[must_use]
pub fn directory_bytes(
    model: &ExfatModel,
    layout: &ExfatLayout,
    label: &VolumeLabel,
    index: usize,
) -> (out: Vec<u8>)
    requires
        model@.named(),
        index < model.dirs@.len(),
        forall|j: int|
            0 <= j < model@.dirs[index as int].entries.len() ==> match (
            #[trigger] model@.dirs[index as int].entries[j]).node {
                Node::Dir(k) => k < model.dirs@.len(),
                _ => true,
            },
    ensures
        out@ == directory_of(model@, *layout, *label, index as int),
{
    let mut out: Vec<u8> = if index == ROOT_DIR {
        root_head_bytes(layout, label)
    } else {
        Vec::new()
    };
    let ghost head = out@;
    let ghost tree = model@;
    let ghost d = index as int;
    let mut j: usize = 0;
    assert(tree.dirs[d] == model.dirs@[d]@);
    assert(out@ =~= head + sets_of(tree, *layout, d, 0));
    while j < model.dirs[index].entries.len()
        invariant
            tree == model@,
            d == index,
            index < model.dirs@.len(),
            tree.named(),
            tree.dirs[d] == model.dirs@[d]@,
            j <= model.dirs@[d].entries@.len(),
            forall|j: int|
                0 <= j < tree.dirs[d].entries.len() ==> match (
                #[trigger] tree.dirs[d].entries[j]).node {
                    Node::Dir(k) => k < model.dirs@.len(),
                    _ => true,
                },
            out@ == head + sets_of(tree, *layout, d, j as int),
        decreases model.dirs@[d].entries@.len() - j,
    {
        let entry = &model.dirs[index].entries[j];
        assert(tree.dirs[d].entries[j as int] == entry@);
        let (run, length) = model.entry_target(entry.node, layout.bytes_per_cluster);
        push_entry_set(&mut out, entry, run, length);
        assert(out@ =~= head + sets_of(tree, *layout, d, j + 1));
        j += 1;
    }
    reveal(directory_of);
    assert(out@ =~= directory_of(tree, *layout, *label, d));
    out
}

} // verus!
