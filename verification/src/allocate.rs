//! Handing out the clusters of a volume to the streams of a tree.
use vstd::prelude::*;

use crate::bytes::copy_of;
use crate::dirent::{DIR_ENTRY_SIZE, MAX_NAME_UNITS};
use crate::geometry::{ExfatLayout, FIRST_CLUSTER};
use crate::model::{
    dir_views, entry_views, held_name, ClusterRun, DirView, EntryView, ExfatModel, ModelConfig,
    ModelDir, ModelError, ModelFault, Node, PlacedTree, TreeView, MAX_DIRECTORY_BYTES, ROOT_DIR,
    ROOT_LEADING_SLOTS,
};
use crate::name::{folded_by, lemma_utf16_not_empty, name_fault, name_units, PlacedName};
use crate::number::{ceil_div, div_ceil};
use crate::place::{tree_of, Builder};
use crate::source::{source_views, SourceEntry};

verus! {

/// Slots of the first `n` entries.
pub open spec fn slots_before(entries: Seq<EntryView>, n: int) -> int
    decreases n,
{
    if n <= 0 {
        0
    } else {
        slots_before(entries, n - 1) + PlacedName::slots_of(entries[n - 1].units.len() as int)
    }
}

/// Slots a format writes into directory `index` ahead of its entries.
pub open spec fn leading_slots(index: int) -> int {
    if index == ROOT_DIR {
        ROOT_LEADING_SLOTS as int
    } else {
        0
    }
}

/// Bytes of entries directory `index` has.
pub open spec fn dir_bytes(dir: DirView, index: int) -> int {
    (leading_slots(index) + slots_before(dir.entries, dir.entries.len() as int))
        * DIR_ENTRY_SIZE as int
}

/// Clusters directory `index` has: enough for its entries, and one at least.
pub open spec fn dir_own(dir: DirView, index: int, per: int) -> int {
    let clusters = ceil_div(dir_bytes(dir, index), per);
    if clusters < 1 {
        1
    } else {
        clusters
    }
}

/// Clusters an entry takes behind the directory it is in: those of a file.
pub open spec fn entry_clusters(entry: EntryView, per: int) -> int {
    match entry.node {
        Node::Dir(_) => 0,
        Node::File { size, .. } => ceil_div(size as int, per),
    }
}

/// Clusters the first `n` entries take.
pub open spec fn clusters_before(entries: Seq<EntryView>, n: int, per: int) -> int
    decreases n,
{
    if n <= 0 {
        0
    } else {
        clusters_before(entries, n - 1, per) + entry_clusters(entries[n - 1], per)
    }
}

/// Clusters directory `index` and the files in it take.
pub open spec fn dir_total(dir: DirView, index: int, per: int) -> int {
    dir_own(dir, index, per) + clusters_before(dir.entries, dir.entries.len() as int, per)
}

/// The first cluster of directory `index`, where the first of them all is `first`: behind
/// those of every directory before it and of the files in them.
pub open spec fn dir_start(dirs: Seq<DirView>, index: int, per: int, first: int) -> int
    decreases index,
{
    if index <= 0 {
        first
    } else {
        dir_start(dirs, index - 1, per, first) + dir_total(dirs[index - 1], index - 1, per)
    }
}

/// The first cluster of entry `j` of directory `index`: behind the directory and the files
/// before it there.
pub open spec fn entry_start(dirs: Seq<DirView>, index: int, j: int, per: int, first: int) -> int {
    dir_start(dirs, index, per, first) + dir_own(dirs[index], index, per) + clusters_before(
        dirs[index].entries,
        j,
        per,
    )
}

/// The first cluster past one of the files from `j` on that lies beyond `limit`, where the
/// first of those files begins at `at`.
pub open spec fn files_over(
    entries: Seq<EntryView>,
    j: int,
    at: int,
    per: int,
    limit: int,
) -> Option<int>
    decreases entries.len() - j,
{
    if j >= entries.len() {
        None
    } else if at + entry_clusters(entries[j], per) > limit {
        Some(at + entry_clusters(entries[j], per))
    } else {
        files_over(entries, j + 1, at + entry_clusters(entries[j], per), per, limit)
    }
}

/// The first cluster past directory `index`, or past a file in it, that lies beyond `limit`.
pub open spec fn dir_over(dir: DirView, index: int, start: int, per: int, limit: int) -> Option<int> {
    let behind = start + dir_own(dir, index, per);
    if behind > limit {
        Some(behind)
    } else {
        files_over(dir.entries, 0, behind, per, limit)
    }
}

/// The first cluster past a stream of the directories from `index` on that lies beyond `limit`.
pub open spec fn first_over(
    dirs: Seq<DirView>,
    index: int,
    per: int,
    first: int,
    limit: int,
) -> Option<int>
    decreases dirs.len() - index,
{
    if index >= dirs.len() {
        None
    } else {
        match dir_over(dirs[index], index, dir_start(dirs, index, per, first), per, limit) {
            Some(over) => Some(over),
            None => first_over(dirs, index + 1, per, first, limit),
        }
    }
}

/// An entry given the clusters from `start` on.
pub open spec fn allocated_entry(entry: EntryView, start: int, per: int) -> EntryView {
    match entry.node {
        Node::Dir(_) => entry,
        Node::File { content, size, .. } => {
            let count = entry_clusters(entry, per);
            EntryView {
                node: Node::File {
                    content,
                    size,
                    run: ClusterRun {
                        first: if count == 0 {
                            0
                        } else {
                            start as u32
                        },
                        count: count as u32,
                    },
                },
                ..entry
            }
        },
    }
}

/// Directory `index` given the clusters from `start` on.
pub open spec fn allocated_dir(dir: DirView, index: int, start: int, per: int) -> DirView {
    let own = dir_own(dir, index, per);
    DirView {
        entries: Seq::new(
            dir.entries.len(),
            |j: int|
                allocated_entry(
                    dir.entries[j],
                    start + own + clusters_before(dir.entries, j, per),
                    per,
                ),
        ),
        run: ClusterRun { first: start as u32, count: own as u32 },
        path: dir.path,
    }
}

/// The directories of a tree given the clusters from `first` on.
pub open spec fn allocated_dirs(dirs: Seq<DirView>, per: int, first: int) -> Seq<DirView> {
    Seq::new(
        dirs.len(),
        |i: int| allocated_dir(dirs[i], i, dir_start(dirs, i, per, first), per),
    )
}

/// The first directory from `from` on with more entries than the format allows.
pub open spec fn too_large(dirs: Seq<DirView>, from: int) -> Option<int>
    decreases dirs.len() - from,
{
    if from >= dirs.len() {
        None
    } else if dir_bytes(dirs[from], from) > MAX_DIRECTORY_BYTES {
        Some(from)
    } else {
        too_large(dirs, from + 1)
    }
}

/// A number, or the largest the field holds where it is larger.
pub open spec fn saturated(n: int) -> u64 {
    if n > u64::MAX {
        u64::MAX
    } else {
        n as u64
    }
}

impl TreeView {
    /// Whether every name is as short as the format asks.
    pub open spec fn named(self) -> bool {
        forall|d: int, j: int|
            0 <= d < self.dirs.len() && 0 <= j < self.dirs[d].entries.len() ==> 1 <= (
            #[trigger] self.dirs[d].entries[j]).units.len() <= MAX_NAME_UNITS
    }

    /// The cluster past the last of the tree on a volume of this layout.
    pub open spec fn end_on(self, layout: ExfatLayout) -> int {
        dir_start(
            self.dirs,
            self.dirs.len() as int,
            layout.bytes_per_cluster as int,
            layout.first_cluster_of_root as int,
        )
    }

    /// Why a volume of this layout cannot hold the tree, where it cannot.
    pub open spec fn misfit(self, layout: ExfatLayout) -> Option<ModelFault> {
        let over = first_over(
            self.dirs,
            0,
            layout.bytes_per_cluster as int,
            layout.first_cluster_of_root as int,
            FIRST_CLUSTER + layout.cluster_count,
        );
        match too_large(self.dirs, 0) {
            Some(i) => Some(
                ModelFault::DirectoryTooLarge {
                    path: self.dirs[i].path,
                    needed: saturated(dir_bytes(self.dirs[i], i)),
                    limit: MAX_DIRECTORY_BYTES,
                },
            ),
            None => match over {
                Some(next) => Some(
                    ModelFault::VolumeFull {
                        needed: (next - FIRST_CLUSTER) as u64,
                        available: layout.cluster_count,
                    },
                ),
                None => None,
            },
        }
    }

    /// The tree with the clusters a volume of this layout gives it.
    pub open spec fn allocated_on(self, layout: ExfatLayout) -> TreeView {
        TreeView {
            dirs: allocated_dirs(
                self.dirs,
                layout.bytes_per_cluster as int,
                layout.first_cluster_of_root as int,
            ),
            ..self
        }
    }
}

/// A name the format holds has a unit, and no more than the format allows.
pub proof fn lemma_held_name(units: Seq<u16>)
    requires
        held_name(units),
    ensures
        1 <= units.len() <= MAX_NAME_UNITS,
{
    let name = choose|name: Seq<u8>|
        name_fault(name) is None && #[trigger] name_units(name) == units;
    lemma_utf16_not_empty(vstd::utf8::decode_utf8(name));
}

/// A sound tree has names as short as the format asks.
pub proof fn lemma_sound_is_named(tree: TreeView, mapping: Seq<u16>)
    requires
        tree.sound(mapping),
    ensures
        tree.named(),
{
    assert forall|d: int, j: int|
        0 <= d < tree.dirs.len() && 0 <= j < tree.dirs[d].entries.len() implies 1 <= (
    #[trigger] tree.dirs[d].entries[j]).units.len() <= MAX_NAME_UNITS by {
        assert(tree.entry_sound(mapping, d, tree.dirs[d].entries[j]));
        lemma_held_name(tree.dirs[d].entries[j].units);
    }
}

/// The clusters of one stream are no fewer than none.
pub proof fn lemma_entry_clusters(entry: EntryView, per: int)
    requires
        per >= 512,
    ensures
        0 <= entry_clusters(entry, per) <= 0x80_0000_0000_0000,
{
    match entry.node {
        Node::Dir(_) => {},
        Node::File { size, .. } => {
            let size = size as int;
            assert(0 <= size / per && size / per * 512 <= size) by (nonlinear_arith)
                requires
                    per >= 512,
                    size >= 0,
            ;
        },
    }
}

pub proof fn lemma_clusters_before(entries: Seq<EntryView>, i: int, j: int, per: int)
    requires
        0 <= i <= j <= entries.len(),
        per >= 512,
    ensures
        0 <= clusters_before(entries, i, per) <= clusters_before(entries, j, per),
    decreases j,
{
    if j > i {
        lemma_clusters_before(entries, i, j - 1, per);
        lemma_entry_clusters(entries[j - 1], per);
    } else if j > 0 {
        lemma_clusters_before(entries, i - 1, j - 1, per);
        lemma_entry_clusters(entries[j - 1], per);
    }
}

/// The directories begin in order, none before the first cluster of them all, and each behind
/// every stream of the one before it.
pub proof fn lemma_dir_start(dirs: Seq<DirView>, i: int, j: int, per: int, first: int)
    requires
        0 <= i <= j <= dirs.len(),
        per >= 512,
        first >= 0,
    ensures
        first <= dir_start(dirs, i, per, first) <= dir_start(dirs, j, per, first),
        i < j ==> dir_start(dirs, i, per, first) + dir_total(dirs[i], i, per) <= dir_start(
            dirs,
            j,
            per,
            first,
        ),
    decreases j,
{
    if j > i {
        lemma_dir_start(dirs, i, j - 1, per, first);
        lemma_clusters_before(dirs[j - 1].entries, 0, dirs[j - 1].entries.len() as int, per);
    } else if j > 0 {
        lemma_dir_start(dirs, j - 1, j - 1, per, first);
        lemma_clusters_before(dirs[j - 1].entries, 0, dirs[j - 1].entries.len() as int, per);
    }
}

/// No two streams of a tree share a cluster: each file begins behind its directory and the
/// files before it there, and each directory behind every stream of the directories before it.
pub proof fn lemma_streams_do_not_overlap(
    tree: TreeView,
    layout: ExfatLayout,
    d: int,
    i: int,
    j: int,
)
    requires
        layout.sound(),
        0 <= d < tree.dirs.len(),
        0 <= i < j < tree.dirs[d].entries.len(),
    ensures
        ({
            let per = layout.bytes_per_cluster as int;
            let first = layout.first_cluster_of_root as int;
            let dir = tree.dirs[d];
            let start = dir_start(tree.dirs, d, per, first);
            &&& first <= start
            &&& start + dir_own(dir, d, per) <= entry_start(tree.dirs, d, i, per, first)
            &&& entry_start(tree.dirs, d, i, per, first) + entry_clusters(dir.entries[i], per)
                <= entry_start(tree.dirs, d, j, per, first)
            &&& entry_start(tree.dirs, d, j, per, first) + entry_clusters(dir.entries[j], per)
                <= dir_start(tree.dirs, d + 1, per, first)
            &&& dir_start(tree.dirs, d + 1, per, first) <= tree.end_on(layout)
        }),
{
    let per = layout.bytes_per_cluster as int;
    let first = layout.first_cluster_of_root as int;
    let dir = tree.dirs[d];
    lemma_dir_start(tree.dirs, d, d + 1, per, first);
    lemma_dir_start(tree.dirs, d + 1, tree.dirs.len() as int, per, first);
    lemma_clusters_before(dir.entries, 0, i, per);
    lemma_clusters_before(dir.entries, i + 1, j, per);
    lemma_clusters_before(dir.entries, j + 1, dir.entries.len() as int, per);
}

proof fn lemma_files_over(entries: Seq<EntryView>, j: int, at: int, per: int, limit: int)
    requires
        0 <= j <= entries.len(),
        at <= limit,
        files_over(entries, j, at, per, limit) is None,
    ensures
        at - clusters_before(entries, j, per) + clusters_before(entries, entries.len() as int, per)
            <= limit,
    decreases entries.len() - j,
{
    if j < entries.len() {
        lemma_files_over(entries, j + 1, at + entry_clusters(entries[j], per), per, limit);
    }
}

proof fn lemma_first_over(dirs: Seq<DirView>, index: int, per: int, first: int, limit: int)
    requires
        0 <= index <= dirs.len(),
        dir_start(dirs, index, per, first) <= limit,
        first_over(dirs, index, per, first, limit) is None,
    ensures
        dir_start(dirs, dirs.len() as int, per, first) <= limit,
    decreases dirs.len() - index,
{
    if index < dirs.len() {
        let start = dir_start(dirs, index, per, first);
        let dir = dirs[index];
        lemma_files_over(dir.entries, 0, start + dir_own(dir, index, per), per, limit);
        lemma_first_over(dirs, index + 1, per, first, limit);
    }
}

/// A tree a volume can hold ends inside it.
pub proof fn lemma_fitting_tree_ends_inside(tree: TreeView, layout: ExfatLayout)
    requires
        layout.sound(),
        tree.misfit(layout) is None,
    ensures
        layout.first_cluster_of_root <= tree.end_on(layout) <= FIRST_CLUSTER + layout.cluster_count,
{
    let per = layout.bytes_per_cluster as int;
    let first = layout.first_cluster_of_root as int;
    let limit = FIRST_CLUSTER + layout.cluster_count;
    lemma_first_over(tree.dirs, 0, per, first, limit);
    lemma_dir_start(tree.dirs, 0, tree.dirs.len() as int, per, first);
}

/// Whether two directories differ in their clusters alone.
spec fn same_shape(a: DirView, b: DirView) -> bool {
    &&& a.entries.len() == b.entries.len()
    &&& forall|j: int|
        0 <= j < a.entries.len() ==> {
            &&& (#[trigger] a.entries[j]).units == b.entries[j].units
            &&& forall|per: int| #[trigger]
                entry_clusters(a.entries[j], per) == entry_clusters(b.entries[j], per)
        }
}

/// Whether two lists of directories differ in their clusters alone.
spec fn same_shapes(a: Seq<DirView>, b: Seq<DirView>) -> bool {
    &&& a.len() == b.len()
    &&& forall|i: int| 0 <= i < a.len() ==> same_shape(#[trigger] a[i], b[i])
}

proof fn lemma_same_slots(a: DirView, b: DirView, n: int)
    requires
        same_shape(a, b),
        n <= a.entries.len(),
    ensures
        slots_before(a.entries, n) == slots_before(b.entries, n),
    decreases n,
{
    if n > 0 {
        lemma_same_slots(a, b, n - 1);
        assert(a.entries[n - 1].units == b.entries[n - 1].units);
    }
}

proof fn lemma_same_clusters(a: DirView, b: DirView, n: int, per: int)
    requires
        same_shape(a, b),
        n <= a.entries.len(),
    ensures
        clusters_before(a.entries, n, per) == clusters_before(b.entries, n, per),
    decreases n,
{
    if n > 0 {
        lemma_same_clusters(a, b, n - 1, per);
        assert(a.entries[n - 1].units == b.entries[n - 1].units);
        assert(entry_clusters(a.entries[n - 1], per) == entry_clusters(b.entries[n - 1], per));
    }
}

proof fn lemma_same_dir(a: DirView, b: DirView, index: int, per: int)
    requires
        same_shape(a, b),
    ensures
        dir_bytes(a, index) == dir_bytes(b, index),
        dir_own(a, index, per) == dir_own(b, index, per),
        dir_total(a, index, per) == dir_total(b, index, per),
{
    lemma_same_slots(a, b, a.entries.len() as int);
    lemma_same_clusters(a, b, a.entries.len() as int, per);
}

proof fn lemma_same_start(a: Seq<DirView>, b: Seq<DirView>, index: int, per: int, first: int)
    requires
        same_shapes(a, b),
        index <= a.len(),
    ensures
        dir_start(a, index, per, first) == dir_start(b, index, per, first),
    decreases index,
{
    if index > 0 {
        lemma_same_start(a, b, index - 1, per, first);
        assert(same_shape(a[index - 1], b[index - 1]));
        lemma_same_dir(a[index - 1], b[index - 1], index - 1, per);
    }
}

proof fn lemma_same_too_large(a: Seq<DirView>, b: Seq<DirView>, from: int)
    requires
        same_shapes(a, b),
        0 <= from,
    ensures
        too_large(a, from) == too_large(b, from),
    decreases a.len() - from,
{
    if from < a.len() {
        assert(same_shape(a[from], b[from]));
        lemma_same_dir(a[from], b[from], from, 512);
        lemma_same_too_large(a, b, from + 1);
    }
}

proof fn lemma_same_files_over(a: DirView, b: DirView, j: int, at: int, per: int, limit: int)
    requires
        same_shape(a, b),
        0 <= j,
    ensures
        files_over(a.entries, j, at, per, limit) == files_over(b.entries, j, at, per, limit),
    decreases a.entries.len() - j,
{
    if j < a.entries.len() {
        assert(a.entries[j].units == b.entries[j].units);
        assert(entry_clusters(a.entries[j], per) == entry_clusters(b.entries[j], per));
        lemma_same_files_over(a, b, j + 1, at + entry_clusters(a.entries[j], per), per, limit);
    }
}

proof fn lemma_same_first_over(
    a: Seq<DirView>,
    b: Seq<DirView>,
    index: int,
    per: int,
    first: int,
    limit: int,
)
    requires
        same_shapes(a, b),
        0 <= index,
    ensures
        first_over(a, index, per, first, limit) == first_over(b, index, per, first, limit),
    decreases a.len() - index,
{
    if index < a.len() {
        assert(same_shape(a[index], b[index]));
        lemma_same_start(a, b, index, per, first);
        lemma_same_dir(a[index], b[index], index, per);
        let behind = dir_start(a, index, per, first) + dir_own(a[index], index, per);
        lemma_same_files_over(a[index], b[index], 0, behind, per, limit);
        lemma_same_first_over(a, b, index + 1, per, first, limit);
    }
}

impl TreeView {
    /// Whether the tree is a sound one with the clusters a volume of this layout gives it.
    #[verifier::opaque]
    pub open spec fn settled_on(self, layout: ExfatLayout, mapping: Seq<u16>) -> bool {
        &&& self.sound(mapping)
        &&& self.misfit(layout) is None
        &&& self == self.allocated_on(layout)
    }
}

/// A settled tree is sound, and ends inside the volume.
pub proof fn lemma_settled(tree: TreeView, layout: ExfatLayout, mapping: Seq<u16>)
    requires
        layout.sound(),
        tree.settled_on(layout, mapping),
    ensures
        tree.sound(mapping),
        tree.named(),
        layout.first_cluster_of_root <= tree.end_on(layout) <= FIRST_CLUSTER + layout.cluster_count,
{
    reveal(TreeView::settled_on);
    lemma_sound_is_named(tree, mapping);
    lemma_fitting_tree_ends_inside(tree, layout);
}

/// Giving a tree its clusters leaves it sound.
proof fn lemma_allocated_is_sound(tree: TreeView, layout: ExfatLayout, mapping: Seq<u16>)
    requires
        tree.sound(mapping),
    ensures
        tree.allocated_on(layout).sound(mapping),
{
    let done = tree.allocated_on(layout);
    assert forall|d: int, j: int|
        0 <= d < done.dirs.len() && 0 <= j < done.dirs[d].entries.len() implies done.entry_sound(
        mapping,
        d,
        #[trigger] done.dirs[d].entries[j],
    ) by {
        assert(tree.entry_sound(mapping, d, tree.dirs[d].entries[j]));
    }
    assert forall|d: int, i: int, j: int|
        0 <= d < done.dirs.len() && 0 <= i < j < done.dirs[d].entries.len() implies folded_by(
        mapping,
        (#[trigger] done.dirs[d].entries[i]).units,
    ) != folded_by(mapping, (#[trigger] done.dirs[d].entries[j]).units) by {
        assert(folded_by(mapping, tree.dirs[d].entries[i].units) != folded_by(
            mapping,
            tree.dirs[d].entries[j].units,
        ));
    }
}

/// Giving directories of one shape their clusters gives them the same.
proof fn lemma_allocated_again(a: Seq<DirView>, b: Seq<DirView>, per: int, first: int)
    requires
        same_shapes(a, b),
        b == allocated_dirs(a, per, first),
    ensures
        allocated_dirs(b, per, first) == b,
{
    let again = allocated_dirs(b, per, first);
    assert forall|i: int| 0 <= i < b.len() implies again[i] == b[i] by {
        lemma_same_start(a, b, i, per, first);
        assert(same_shape(a[i], b[i]));
        lemma_same_dir(a[i], b[i], i, per);
        assert forall|j: int| 0 <= j < b[i].entries.len() implies again[i].entries[j]
            == b[i].entries[j] by {
            lemma_same_clusters(a[i], b[i], j, per);
            assert(a[i].entries[j].units == b[i].entries[j].units);
            assert(entry_clusters(a[i].entries[j], per) == entry_clusters(b[i].entries[j], per));
        }
        assert(again[i].entries =~= b[i].entries);
    }
    assert(again =~= b);
}

/// Giving a tree its clusters once settles it: whatever clusters it had does not matter, and
/// giving it the same volume's again changes nothing.
pub proof fn lemma_allocated_is_settled(tree: TreeView, layout: ExfatLayout, mapping: Seq<u16>)
    requires
        tree.sound(mapping),
        tree.misfit(layout) is None,
    ensures
        tree.allocated_on(layout).settled_on(layout, mapping),
        tree.allocated_on(layout).end_on(layout) == tree.end_on(layout),
{
    reveal(TreeView::settled_on);
    let per = layout.bytes_per_cluster as int;
    let first = layout.first_cluster_of_root as int;
    let limit = FIRST_CLUSTER + layout.cluster_count;
    let a = tree.dirs;
    let b = tree.allocated_on(layout).dirs;
    assert(same_shapes(a, b));
    lemma_same_start(a, b, a.len() as int, per, first);
    lemma_same_too_large(a, b, 0);
    lemma_same_first_over(a, b, 0, per, first, limit);
    lemma_allocated_again(a, b, per, first);
    lemma_allocated_is_sound(tree, layout, mapping);
}

proof fn lemma_slots_before(entries: Seq<EntryView>, n: int)
    requires
        0 <= n <= entries.len(),
        forall|j: int| 0 <= j < entries.len() ==> (#[trigger] entries[j]).units.len()
            <= MAX_NAME_UNITS,
    ensures
        0 <= slots_before(entries, n) <= 19 * n,
    decreases n,
{
    if n > 0 {
        lemma_slots_before(entries, n - 1);
        assert(entries[n - 1].units.len() <= MAX_NAME_UNITS);
    }
}

impl ModelDir {
    /// Bytes of entries the directory has, as directory `index` of its tree.
    #[must_use]
    pub fn bytes(&self, index: usize) -> (bytes: u64)
        requires
            forall|j: int|
                0 <= j < self.entries@.len() ==> (#[trigger] self.entries@[j]).name.units@.len()
                    <= MAX_NAME_UNITS,
        ensures
            bytes == saturated(dir_bytes(self@, index as int)),
    {
        let leading: u32 = if index == ROOT_DIR {
            ROOT_LEADING_SLOTS
        } else {
            0
        };
        let ghost views = self@.entries;
        let mut slots: u128 = leading as u128;
        let mut i: usize = 0;
        while i < self.entries.len()
            invariant
                i <= self.entries@.len(),
                views == entry_views(self.entries@),
                slots == leading + slots_before(views, i as int),
                slots <= 4 + 19 * i,
                leading <= 4,
                forall|j: int|
                    0 <= j < self.entries@.len() ==> (#[trigger] self.entries@[j]).name.units@.len()
                        <= MAX_NAME_UNITS,
            decreases self.entries@.len() - i,
        {
            assert(views[i as int].units == self.entries@[i as int].name.units@);
            slots = slots + self.entries[i].name.slots() as u128;
            i += 1;
        }
        let bytes: u128 = slots * 32;
        if bytes > u64::MAX as u128 {
            u64::MAX
        } else {
            bytes as u64
        }
    }
}

/// Whether every name of a directory is as short as the format asks.
spec fn dir_named(dir: DirView) -> bool {
    forall|j: int| 0 <= j < dir.entries.len() ==> (#[trigger] dir.entries[j]).units.len()
        <= MAX_NAME_UNITS
}

/// Take `count` clusters from `next` on.
fn take(next: u64, count: u64, available: u32) -> (r: Result<ClusterRun, ModelError>)
    requires
        next <= FIRST_CLUSTER + available,
        count <= 0x80_0000_0000_0000,
    ensures
        match r {
            Ok(run) => {
                &&& next + count <= FIRST_CLUSTER + available
                &&& run == (ClusterRun {
                    first: if count == 0 {
                        0
                    } else {
                        next as u32
                    },
                    count: count as u32,
                })
            },
            Err(e) => {
                &&& next + count > FIRST_CLUSTER + available
                &&& e@ == (ModelFault::VolumeFull {
                    needed: (next + count - FIRST_CLUSTER) as u64,
                    available,
                })
            },
        },
{
    let behind: u64 = next + count;
    if behind > available as u64 + FIRST_CLUSTER as u64 {
        return Err(
            ModelError::VolumeFull { needed: behind - FIRST_CLUSTER as u64, available },
        );
    }
    Ok(
        ClusterRun {
            first: if count == 0 {
                0
            } else {
                next as u32
            },
            count: count as u32,
        },
    )
}

/// Give directory `index` the clusters from `next` on, and the files in it those behind.
/// Returns the cluster behind the last.
fn allocate_dir(dir: &mut ModelDir, index: usize, next: u64, layout: &ExfatLayout) -> (r: Result<
    u64,
    ModelError,
>)
    requires
        layout.sound(),
        next <= FIRST_CLUSTER + layout.cluster_count,
        dir_named(old(dir)@),
        dir_bytes(old(dir)@, index as int) <= MAX_DIRECTORY_BYTES,
    ensures
        ({
            let per = layout.bytes_per_cluster as int;
            let limit = FIRST_CLUSTER + layout.cluster_count;
            match dir_over(old(dir)@, index as int, next as int, per, limit) {
                None => {
                    &&& r is Ok
                    &&& r->Ok_0 == next + dir_total(old(dir)@, index as int, per)
                    &&& r->Ok_0 <= limit
                    &&& final(dir)@ == allocated_dir(old(dir)@, index as int, next as int, per)
                },
                Some(over) => {
                    &&& r is Err
                    &&& r->Err_0@ == (ModelFault::VolumeFull {
                        needed: (over - FIRST_CLUSTER) as u64,
                        available: layout.cluster_count,
                    })
                },
            }
        }),
{
    let ghost was = dir@;
    let ghost per = layout.bytes_per_cluster as int;
    let ghost limit = FIRST_CLUSTER + layout.cluster_count;
    assert forall|j: int| 0 <= j < dir.entries@.len() implies (
    #[trigger] dir.entries@[j]).name.units@.len() <= MAX_NAME_UNITS by {
        assert(was.entries[j].units == dir.entries@[j].name.units@);
    }
    proof {
        lemma_slots_before(was.entries, was.entries.len() as int);
    }
    let bytes: u64 = dir.bytes(index);
    let needed: u64 = div_ceil(bytes, layout.bytes_per_cluster as u64);
    let own: u64 = if needed < 1 {
        1
    } else {
        needed
    };
    proof {
        let b = bytes as int;
        assert(0 <= b / per <= b) by (nonlinear_arith)
            requires
                per >= 512,
                b >= 0,
        ;
        assert(own == dir_own(was, index as int, per));
    }
    dir.run = take(next, own, layout.cluster_count)?;
    let mut at: u64 = next + own;
    let count: usize = dir.entries.len();
    let mut j: usize = 0;
    let ghost start = next + own;
    while j < count
        invariant
            layout.sound(),
            was == old(dir)@,
            per == layout.bytes_per_cluster,
            limit == FIRST_CLUSTER + layout.cluster_count,
            j <= count,
            count == was.entries.len(),
            dir.entries@.len() == count,
            dir.path@ == was.path,
            dir.run == (ClusterRun { first: next as u32, count: own as u32 }),
            start == next + own,
            own == dir_own(was, index as int, per),
            at == start + clusters_before(was.entries, j as int, per),
            at <= limit,
            dir_over(was, index as int, next as int, per, limit) == files_over(
                was.entries,
                j as int,
                at as int,
                per,
                limit,
            ),
            forall|k: int|
                0 <= k < j ==> (#[trigger] dir.entries@[k])@ == allocated_entry(
                    was.entries[k],
                    start + clusters_before(was.entries, k, per),
                    per,
                ),
            forall|k: int| j <= k < count ==> (#[trigger] dir.entries@[k])@ == was.entries[k],
        decreases count - j,
    {
        let ghost entry = was.entries[j as int];
        let ghost before = dir.entries@;
        proof {
            lemma_entry_clusters(entry, per);
            assert(dir.entries@[j as int]@ == entry);
            assert(dir.entries@[j as int].node == entry.node);
        }
        match dir.entries[j].node {
            Node::Dir(_) => {},
            Node::File { content, size, .. } => {
                let clusters: u64 = div_ceil(size, layout.bytes_per_cluster as u64);
                let run = take(at, clusters, layout.cluster_count)?;
                dir.entries[j].node = Node::File { content, size, run };
                at = at + clusters;
            },
        }
        assert forall|k: int| 0 <= k < j + 1 implies (#[trigger] dir.entries@[k])@
            == allocated_entry(
            was.entries[k],
            start + clusters_before(was.entries, k, per),
            per,
        ) by {
            if k < j {
                assert(dir.entries@[k] == before[k]);
            }
        }
        assert forall|k: int| j < k < count implies (#[trigger] dir.entries@[k])@
            == was.entries[k] by {
            assert(dir.entries@[k] == before[k]);
        }
        j += 1;
    }
    proof {
        let want = allocated_dir(was, index as int, next as int, per);
        assert(dir@.entries =~= want.entries);
    }
    Ok(at)
}

impl PlacedTree {
    /// Refuse a directory with more entries than the format allows.
    fn check_directory_capacity(&self) -> (r: Result<(), ModelError>)
        requires
            self@.named(),
        ensures
            match too_large(self@.dirs, 0) {
                None => r is Ok,
                Some(i) => {
                    &&& r is Err
                    &&& r->Err_0@ == (ModelFault::DirectoryTooLarge {
                        path: self@.dirs[i].path,
                        needed: saturated(dir_bytes(self@.dirs[i], i)),
                        limit: MAX_DIRECTORY_BYTES,
                    })
                },
            },
    {
        let ghost dirs = self@.dirs;
        let mut i: usize = 0;
        while i < self.dirs.len()
            invariant
                i <= self.dirs@.len(),
                dirs == dir_views(self.dirs@),
                self@.named(),
                dirs == self@.dirs,
                too_large(dirs, 0) == too_large(dirs, i as int),
            decreases self.dirs@.len() - i,
        {
            let ghost dir = self.dirs@[i as int];
            proof {
                assert(dirs[i as int] == dir@);
                assert forall|j: int| 0 <= j < dir.entries@.len() implies (
                #[trigger] dir.entries@[j]).name.units@.len() <= MAX_NAME_UNITS by {
                    assert(self@.dirs[i as int].entries[j].units == dir.entries@[j].name.units@);
                }
                lemma_slots_before(dirs[i as int].entries, dirs[i as int].entries.len() as int);
            }
            let needed: u64 = self.dirs[i].bytes(i);
            if needed > MAX_DIRECTORY_BYTES {
                assert(too_large(dirs, i as int) == Some(i as int));
                return Err(
                    ModelError::DirectoryTooLarge {
                        path: copy_of(&self.dirs[i].path),
                        needed,
                        limit: MAX_DIRECTORY_BYTES,
                    },
                );
            }
            i += 1;
        }
        Ok(())
    }

    /// Give every directory and every file the clusters it needs, in one ascending pass.
    fn allocate_clusters(&mut self, layout: &ExfatLayout) -> (r: Result<u32, ModelError>)
        requires
            layout.sound(),
            old(self)@.named(),
            too_large(old(self)@.dirs, 0) is None,
        ensures
            match old(self)@.misfit(*layout) {
                None => {
                    &&& r is Ok
                    &&& r->Ok_0 == old(self)@.end_on(*layout) - FIRST_CLUSTER
                    &&& final(self)@ == old(self)@.allocated_on(*layout)
                },
                Some(fault) => r is Err && r->Err_0@ == fault,
            },
    {
        let ghost was = self@;
        let ghost per = layout.bytes_per_cluster as int;
        let ghost first = layout.first_cluster_of_root as int;
        let ghost limit = FIRST_CLUSTER + layout.cluster_count;
        let mut next: u64 = layout.first_cluster_of_root as u64;
        let count: usize = self.dirs.len();
        let mut i: usize = 0;
        while i < count
            invariant
                layout.sound(),
                per == layout.bytes_per_cluster,
                first == layout.first_cluster_of_root,
                limit == FIRST_CLUSTER + layout.cluster_count,
                was == old(self)@,
                was.named(),
                too_large(was.dirs, 0) is None,
                too_large(was.dirs, i as int) is None,
                i <= count,
                count == was.dirs.len(),
                self.dirs@.len() == count,
                self.contents == old(self).contents,
                self.fidelity == old(self).fidelity,
                next == dir_start(was.dirs, i as int, per, first),
                next <= limit,
                first_over(was.dirs, 0, per, first, limit) == first_over(
                    was.dirs,
                    i as int,
                    per,
                    first,
                    limit,
                ),
                forall|k: int|
                    0 <= k < i ==> (#[trigger] self.dirs@[k])@ == allocated_dir(
                        was.dirs[k],
                        k,
                        dir_start(was.dirs, k, per, first),
                        per,
                    ),
                forall|k: int| i <= k < count ==> (#[trigger] self.dirs@[k])@ == was.dirs[k],
            decreases count - i,
        {
            let ghost before = self.dirs@;
            proof {
                assert(before[i as int]@ == was.dirs[i as int]);
                assert forall|j: int| 0 <= j < before[i as int]@.entries.len() implies (
                #[trigger] before[i as int]@.entries[j]).units.len() <= MAX_NAME_UNITS by {
                    assert(was.dirs[i as int].entries[j].units.len() <= MAX_NAME_UNITS);
                }
            }
            next = allocate_dir(&mut self.dirs[i], i, next, layout)?;
            assert forall|k: int| 0 <= k < i + 1 implies (#[trigger] self.dirs@[k])@
                == allocated_dir(
                was.dirs[k],
                k,
                dir_start(was.dirs, k, per, first),
                per,
            ) by {
                if k < i {
                    assert(self.dirs@[k] == before[k]);
                }
            }
            assert forall|k: int| i < k < count implies (#[trigger] self.dirs@[k])@
                == was.dirs[k] by {
                assert(self.dirs@[k] == before[k]);
            }
            i += 1;
        }
        proof {
            lemma_dir_start(was.dirs, 0, was.dirs.len() as int, per, first);
            assert(self@.dirs =~= was.allocated_on(*layout).dirs);
        }
        Ok((next - FIRST_CLUSTER as u64) as u32)
    }

    /// Give the tree the clusters of a volume, or say why the volume cannot hold it. Returns
    /// how many clusters of the volume are then in use. What clusters the tree had before does
    /// not matter; after a refusal they are not those of any volume.
    pub fn allocate(&mut self, layout: &ExfatLayout) -> (r: Result<u32, ModelError>)
        requires
            layout.sound(),
            old(self)@.named(),
        ensures
            match old(self)@.misfit(*layout) {
                None => {
                    &&& r is Ok
                    &&& r->Ok_0 == old(self)@.end_on(*layout) - FIRST_CLUSTER
                    &&& final(self)@ == old(self)@.allocated_on(*layout)
                },
                Some(fault) => r is Err && r->Err_0@ == fault,
            },
    {
        self.check_directory_capacity()?;
        self.allocate_clusters(layout)
    }

    /// The tree with the clusters it was last given.
    #[must_use]
    pub fn finish(self, used_clusters: u32) -> (model: ExfatModel)
        ensures
            model@ == self@,
            model.used_clusters == used_clusters,
    {
        ExfatModel {
            dirs: self.dirs,
            contents: self.contents,
            fidelity: self.fidelity,
            used_clusters,
        }
    }
}

/// The tree of a source on a volume of this layout, or why there is none.
pub fn build_model(entries: Vec<SourceEntry>, layout: &ExfatLayout, config: &ModelConfig<'_>) -> (r:
    Result<ExfatModel, ModelError>)
    requires
        layout.sound(),
        config.upcase.wf(),
    ensures
        match tree_of(source_views(entries@), config.loss, config.upcase.mapping()) {
            Err(fault) => r is Err && r->Err_0@ == fault,
            Ok(tree) => {
                &&& tree.sound(config.upcase.mapping())
                &&& match tree.misfit(*layout) {
                    Some(fault) => r is Err && r->Err_0@ == fault,
                    None => {
                        &&& r is Ok
                        &&& r->Ok_0@ == tree.allocated_on(*layout)
                        &&& r->Ok_0@.settled_on(*layout, config.upcase.mapping())
                        &&& r->Ok_0@.end_on(*layout) == tree.end_on(*layout)
                        &&& r->Ok_0.used_clusters == tree.end_on(*layout) - FIRST_CLUSTER
                    },
                }
            },
        },
{
    let mut placed = Builder::new(config).place_all(entries)?;
    proof {
        lemma_sound_is_named(placed@, config.upcase.mapping());
    }
    let ghost tree = placed@;
    let used_clusters: u32 = placed.allocate(layout)?;
    proof {
        lemma_allocated_is_settled(tree, *layout, config.upcase.mapping());
    }
    Ok(placed.finish(used_clusters))
}

impl ExfatModel {
    /// The clusters and the length an entry of `node` records: of a directory, all its
    /// clusters, and of a file, its bytes.
    #[must_use]
    pub fn entry_target(&self, node: Node, bytes_per_cluster: u32) -> (target: (ClusterRun, u64))
        requires
            node matches Node::Dir(index) ==> index < self.dirs@.len(),
        ensures
            target == (match node {
                Node::Dir(index) => (
                    self@.dirs[index as int].run,
                    (self@.dirs[index as int].run.count * bytes_per_cluster) as u64,
                ),
                Node::File { size, run, .. } => (run, size),
            }),
    {
        match node {
            Node::Dir(index) => {
                let run = self.dirs[index].run;
                assert(run.count * bytes_per_cluster <= 0xFFFF_FFFF * 0xFFFF_FFFF)
                    by (nonlinear_arith)
                    requires
                        run.count <= 0xFFFF_FFFF,
                        bytes_per_cluster <= 0xFFFF_FFFF,
                ;
                (run, run.count as u64 * bytes_per_cluster as u64)
            },
            Node::File { size, run, .. } => (run, size),
        }
    }
}

} // verus!
