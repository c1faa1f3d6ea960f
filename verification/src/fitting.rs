//! What a tree takes of a volume, and what a format says of it.
use vstd::prelude::*;

use crate::allocate::{
    clusters_before, dir_bytes, dir_over, dir_own, dir_start, dir_total, entry_clusters,
    files_over, first_over, lemma_clusters_before, lemma_dir_start, lemma_entry_clusters,
    slots_before, too_large,
};
use crate::boot::percentage;
use crate::geometry::ExfatLayout;
use crate::image::boot_of;
use crate::materialize::{formatted, planned, used_by};
use crate::model::{DirView, EntryView, ModelFault, Node, TreeView};
use crate::name::PlacedName;
use crate::number::{ceil_div, lemma_rounded_up};
use crate::options::FormatOptions;
use crate::reader::opened;
use crate::roundtrip::{fresh_of, lemma_formatted_volume_opens};
use crate::soundness::countable;
use crate::source::SourceView;

verus! {

/// A name takes two slots and one for each fifteen of its units.
pub proof fn lemma_how_many_slots_a_name_takes(units: int)
    requires
        0 <= units,
    ensures
        15 * (PlacedName::slots_of(units) - 2) >= units > 15 * (PlacedName::slots_of(units) - 3),
{
}

/// A file takes as many clusters as hold its bytes and none more; a directory as many as hold its
/// slots of 32 bytes each, four of them the root's own, and one at least.
pub proof fn lemma_how_many_clusters_a_stream_takes(
    entry: EntryView,
    dir: DirView,
    index: int,
    per: int,
)
    requires
        per > 0,
        0 <= slots_before(dir.entries, dir.entries.len() as int),
    ensures
        entry.node matches Node::File { size, .. } ==> size <= entry_clusters(entry, per) * per
            < size + per,
        entry.node is Dir ==> entry_clusters(entry, per) == 0,
        ({
            let slots = slots_before(dir.entries, dir.entries.len() as int) + (if index == 0 {
                4int
            } else {
                0int
            });
            let own = dir_own(dir, index, per);
            &&& dir_bytes(dir, index) == 32 * slots
            &&& own >= 1
            &&& 32 * slots <= own * per
            &&& own == 1 || (own - 1) * per < 32 * slots
        }),
{
    match entry.node {
        Node::File { size, .. } => {
            lemma_rounded_up(size as int, per);
            let n = ceil_div(size as int, per);
            assert((n - 1) * per == n * per - per) by (nonlinear_arith);
        },
        _ => {},
    }
    let bytes = dir_bytes(dir, index);
    lemma_rounded_up(bytes, per);
    if ceil_div(bytes, per) < 1 {
        assert(ceil_div(bytes, per) * per <= 0) by (nonlinear_arith)
            requires
                ceil_div(bytes, per) <= 0,
                per > 0,
        ;
    }
}

/// The files of a directory lie inside exactly where the last of them does.
proof fn lemma_files_fit(entries: Seq<EntryView>, j: int, at: int, per: int, limit: int)
    requires
        0 <= j <= entries.len(),
        at <= limit,
        per >= 512,
    ensures
        files_over(entries, j, at, per, limit) is None <==> at + clusters_before(
            entries,
            entries.len() as int,
            per,
        ) - clusters_before(entries, j, per) <= limit,
        files_over(entries, j, at, per, limit) matches Some(over) ==> over > limit,
    decreases entries.len() - j,
{
    if j < entries.len() {
        let next = at + entry_clusters(entries[j], per);
        lemma_entry_clusters(entries[j], per);
        lemma_clusters_before(entries, j + 1, entries.len() as int, per);
        if next <= limit {
            lemma_files_fit(entries, j + 1, next, per, limit);
        }
    }
}

/// The directories of a tree and their files lie inside exactly where the last of them does.
proof fn lemma_dirs_fit(dirs: Seq<DirView>, index: int, per: int, first: int, limit: int)
    requires
        0 <= index <= dirs.len(),
        0 <= first,
        dir_start(dirs, index, per, first) <= limit,
        per >= 512,
    ensures
        first_over(dirs, index, per, first, limit) is None <==> dir_start(
            dirs,
            dirs.len() as int,
            per,
            first,
        ) <= limit,
        first_over(dirs, index, per, first, limit) matches Some(over) ==> over > limit,
    decreases dirs.len() - index,
{
    if index < dirs.len() {
        let dir = dirs[index];
        let start = dir_start(dirs, index, per, first);
        let behind = start + dir_own(dir, index, per);
        lemma_dir_start(dirs, index, dirs.len() as int, per, first);
        lemma_clusters_before(dir.entries, 0, dir.entries.len() as int, per);
        if behind <= limit {
            lemma_files_fit(dir.entries, 0, behind, per, limit);
        }
        if dir_over(dir, index, start, per, limit) is None {
            assert(dir_start(dirs, index + 1, per, first) == start + dir_total(dir, index, per));
            lemma_dirs_fit(dirs, index + 1, per, first, limit);
        }
    }
}

/// No directory has too many entries where each has few enough.
proof fn lemma_too_large(dirs: Seq<DirView>, from: int)
    requires
        0 <= from,
    ensures
        match too_large(dirs, from) {
            None => forall|d: int|
                from <= d < dirs.len() ==> dir_bytes(#[trigger] dirs[d], d) <= 0x1000_0000,
            Some(d) => from <= d < dirs.len() && dir_bytes(dirs[d], d) > 0x1000_0000,
        },
    decreases dirs.len() - from,
{
    if from < dirs.len() {
        lemma_too_large(dirs, from + 1);
    }
}

/// A volume can hold a tree exactly where no directory of it has more than 256 MiB of entries, and
/// the clusters its streams take, one behind another from the root's first on, are no more than the
/// heap has from there; and it says which of the two it is.
pub proof fn lemma_a_tree_fits_where_there_is_room(tree: TreeView, layout: ExfatLayout)
    requires
        layout.sound(),
    ensures
        tree.misfit(layout) is None <==> tree.end_on(layout) <= 2 + layout.cluster_count && forall|
            d: int,
        |
            0 <= d < tree.dirs.len() ==> dir_bytes(#[trigger] tree.dirs[d], d) <= 0x1000_0000,
        tree.misfit(layout) matches Some(fault) ==> match fault {
            ModelFault::DirectoryTooLarge { path, limit, .. } => limit == 0x1000_0000 && exists|
                d: int,
            |
                0 <= d < tree.dirs.len() && (#[trigger] tree.dirs[d]).path == path && dir_bytes(
                    tree.dirs[d],
                    d,
                ) > 0x1000_0000,
            ModelFault::VolumeFull { available, .. } => available == layout.cluster_count
                && tree.end_on(layout) > 2 + layout.cluster_count,
            _ => false,
        },
{
    let per = layout.bytes_per_cluster as int;
    let first = layout.first_cluster_of_root as int;
    lemma_too_large(tree.dirs, 0);
    lemma_dirs_fit(tree.dirs, 0, per, first, 2 + layout.cluster_count);
    match too_large(tree.dirs, 0) {
        Some(d) => {
            assert(dir_bytes(tree.dirs[d], d) > 0x1000_0000);
            assert(tree.dirs[d].path == tree.dirs[d].path);
        },
        None => {},
    }
}

/// The part of the clusters in use, in percent, is the whole percent below it.
pub proof fn lemma_the_part_in_use_is_the_whole_percent_below(used: int, total: int)
    requires
        0 <= used <= total,
        0 < total,
    ensures
        percentage(used, total) * total <= used * 100 < (percentage(used, total) + 1) * total,
        0 <= percentage(used, total) <= 100,
        used == total ==> percentage(used, total) == 100,
{
    let q = used * 100 / total;
    vstd::arithmetic::div_mod::lemma_fundamental_div_mod(used * 100, total);
    vstd::arithmetic::div_mod::lemma_mod_bound(used * 100, total);
    assert(q * total <= used * 100 < (q + 1) * total) by (nonlinear_arith)
        requires
            used * 100 == total * q + (used * 100) % total,
            0 <= (used * 100) % total < total,
    ;
    assert(0 <= q <= 100) by (nonlinear_arith)
        requires
            q * total <= used * 100 < (q + 1) * total,
            0 <= used <= total,
            0 < total,
    ;
    assert(used == total ==> q == 100) by (nonlinear_arith)
        requires
            q * total <= used * 100 < (q + 1) * total,
            0 < total,
    ;
}

/// The boot sector of a volume a format writes says what the volume is: the jump and the name every
/// volume of the format begins with, no offset, the first revision, a volume put down well, one
/// table, the drive number of a disk, the serial number and the boot code asked for, and
/// where everything is as planned.
pub proof fn lemma_the_boot_sector_of_a_formatted_volume(
    source: Seq<SourceView>,
    volume_bytes: u64,
    options: FormatOptions,
)
    requires
        countable(source),
        options.label.wf(),
        planned(source, volume_bytes, options) is Ok,
    ensures
        opened(formatted(source, volume_bytes, options)) matches Ok(found) && {
            let boot = found.boot;
            let layout = options.request(volume_bytes).layout();
            &&& boot.jump_boot@ == seq![0xEBu8, 0x76, 0x90]
            &&& boot.file_system_name@ == seq![0x45u8, 0x58, 0x46, 0x41, 0x54, 0x20, 0x20, 0x20]
            &&& boot.partition_offset == 0
            &&& boot.volume_length == layout.volume_length
            &&& boot.fat_offset == layout.fat_offset
            &&& boot.fat_length == layout.fat_length
            &&& boot.cluster_heap_offset == layout.cluster_heap_offset
            &&& boot.cluster_count == layout.cluster_count
            &&& boot.first_cluster_of_root == layout.first_cluster_of_root
            &&& boot.volume_serial == options.volume_serial
            &&& boot.file_system_revision == 0x0100
            &&& boot.volume_flags == 0
            &&& boot.number_of_fats == 1
            &&& boot.drive_select == 0x80
            &&& boot.boot_code@ == options.boot_code@
            &&& boot.percent_in_use == percentage(
                used_by(planned(source, volume_bytes, options)->Ok_0, layout) as int,
                layout.cluster_count as int,
            )
        },
{
    lemma_formatted_volume_opens(source, volume_bytes, options);
    let fresh = fresh_of(source, volume_bytes, options);
    let boot = boot_of(fresh.layout, options, used_by(fresh.tree, fresh.layout));
    assert(fresh.boot() == boot);
    assert(boot.jump_boot@ =~= seq![0xEBu8, 0x76, 0x90]);
    assert(boot.file_system_name@ =~= seq![0x45u8, 0x58, 0x46, 0x41, 0x54, 0x20, 0x20, 0x20]);
    let total = fresh.layout.cluster_count as int;
    let used = used_by(fresh.tree, fresh.layout) as int;
    assert(0 <= percentage(used, total) <= 100) by {
        if total > 0 {
            assert(0 <= used * 100 / total) by (nonlinear_arith)
                requires
                    total > 0,
                    used >= 0,
            ;
        }
    }
}

} // verus!
