//! What a format writes, a reader reads back.
use vstd::prelude::*;

use crate::allocate::{lemma_allocated_is_settled, lemma_settled, slots_before};
use crate::boot::{boot_fault, lemma_boot_sector_unique, MainBootSector};
use crate::detect::begins_volume;
use crate::dirent::FileAttributes;
use crate::fidelity::LossPolicy;
use crate::fresh::Fresh;
use crate::geometry::ExfatLayout;
use crate::image::residents_lead;
use crate::lookup::{folded_name, folding_at, found_in, named_at, Nowhere};
use crate::materialize::{format_mapping, formatted, planned};
use crate::model::{TreeView, MAX_DIRECTORY_ENTRIES};
use crate::name::{folded_by, lemma_held_name_reads_back, name_fault, name_units};
use crate::node::{Named, Node};
use crate::open::boot_at;
use crate::options::FormatOptions;
use crate::parse::DirRead;
use crate::path::{
    components_of, joined, key_of, lemma_components_are_plain, lemma_joined_parts, name_of,
    parent_of, plain,
};
use crate::place::{attributes_of, path_fault, times_of_meta, tree_of};
use crate::placed::{
    contents_of, holds_at, holds_source, is_declared, is_held, is_sourced, lemma_tree_holds_source,
    placeable,
};
use crate::policy::OpenOptions;
use crate::read_error::ReadError;
use crate::reader::{from_base, name_cap, opened, opened_boot, room_for_names, Opened, Reader};
use crate::recover::{boot_defect, lemma_planned_layout_is_sound};
use crate::reread::times_back;
use crate::soundness::{countable, lemma_no_path_fault, lemma_tree_is_sound};
use crate::sort::{
    distinct_keys, lemma_distinct_by_multiset, lemma_sorted_source,
    lemma_source_order_does_not_matter, sorted_source,
};
use crate::source::SourceView;
use crate::unicode::utf8_of_units;
use crate::volume::Vol;
use crate::written::lemma_image_is_written;

verus! {

/// The volume a format writes of a source.
pub open spec fn fresh_of(
    source: Seq<SourceView>,
    volume_bytes: u64,
    options: FormatOptions,
) -> Fresh {
    Fresh {
        bytes: formatted(source, volume_bytes, options),
        layout: options.request(volume_bytes).layout(),
        options,
        tree: planned(source, volume_bytes, options)->Ok_0,
    }
}

/// Giving a tree its clusters leaves it holding what it held.
proof fn lemma_allocated_holds_source(
    tree: TreeView,
    layout: ExfatLayout,
    source: Seq<SourceView>,
)
    requires
        holds_source(tree, source),
    ensures
        holds_source(tree.allocated_on(layout), source),
{
    reveal(holds_source);
    let done = tree.allocated_on(layout);
    assert forall|d: int| 1 <= d < done.dirs.len() implies #[trigger] is_declared(
        done,
        source,
        d,
    ) by {
        assert(is_declared(tree, source, d));
    }
    assert forall|i: int| 0 <= i < source.len() && placeable(sorted_source(source), source[i]) implies #[trigger] is_held(
        done,
        source,
        i,
    ) by {
        assert(is_held(tree, source, i));
        let (p, j) = choose|p: int, j: int| #[trigger] holds_at(tree, source, i, p, j);
        assert(holds_at(done, source, i, p, j));
    }
    assert forall|p: int, j: int|
        0 <= p < done.dirs.len() && 0 <= j < done.dirs[p].entries.len() implies
        #[trigger] is_sourced(done, source, p, j) by {
        assert(is_sourced(tree, source, p, j));
        let i = choose|i: int| 0 <= i < source.len() && #[trigger] holds_at(tree, source, i, p, j);
        assert(holds_at(done, source, i, p, j));
    }
    assert forall|d: int, e: int| 0 <= d < e < done.dirs.len() implies key_of(
        (#[trigger] done.dirs[d]).path,
    ) != key_of((#[trigger] done.dirs[e]).path) by {
        assert(key_of(tree.dirs[d].path) != key_of(tree.dirs[e].path));
    }
}

/// What a format writes is a volume that holds the source.
pub proof fn lemma_fresh(source: Seq<SourceView>, volume_bytes: u64, options: FormatOptions)
    requires
        countable(source),
        options.label.wf(),
        planned(source, volume_bytes, options) is Ok,
    ensures
        fresh_of(source, volume_bytes, options).wf(),
        fresh_of(source, volume_bytes, options).bytes.len() == volume_bytes,
        holds_source(fresh_of(source, volume_bytes, options).tree, source),
{
    reveal(planned);
    let request = options.request(volume_bytes);
    let layout = request.layout();
    let mapping = format_mapping();
    let placed = tree_of(source, options.loss(), mapping)->Ok_0;
    let tree = planned(source, volume_bytes, options)->Ok_0;
    lemma_planned_layout_is_sound(request);
    lemma_tree_is_sound(source, options.loss(), mapping);
    lemma_allocated_is_settled(placed, layout, mapping);
    lemma_tree_holds_source(source, options.loss(), mapping);
    lemma_allocated_holds_source(placed, layout, source);
    assert(residents_lead(layout));
    lemma_image_is_written(volume_bytes as nat, layout, options, tree, mapping);
}

/// A volume a format writes opens, with nothing wrong with it: the layout is the one planned,
/// names are compared through the table the format wrote, and the volume has the name it was
/// given.
pub proof fn lemma_formatted_volume_opens(
    source: Seq<SourceView>,
    volume_bytes: u64,
    options: FormatOptions,
)
    requires
        countable(source),
        options.label.wf(),
        planned(source, volume_bytes, options) is Ok,
    ensures
        opened(formatted(source, volume_bytes, options)) matches Ok(found) && {
            &&& found.log == Seq::<ReadError>::empty()
            &&& found.layout == options.request(volume_bytes).layout()
            &&& found.mapping == format_mapping()
            &&& found.label == (if options.label.name().len() == 0 {
                None
            } else {
                Some(utf8_of_units(options.label.name()))
            })
            &&& found == fresh_of(source, volume_bytes, options).found()
        },
{
    lemma_fresh(source, volume_bytes, options);
    fresh_of(source, volume_bytes, options).lemma_opens();
}

impl<'a> Reader<'a> {
    /// Whether this is a volume a format has written, opened, and takes on as many names as any
    /// directory of it has.
    pub open spec fn reads_back(&self, fresh: Fresh) -> bool {
        &&& self.wf()
        &&& self.vol() == (Vol { bytes: fresh.bytes, layout: fresh.layout })
        &&& self.mapping() == format_mapping()
        &&& self.root_size() == fresh.length(0)
        &&& forall|d: int|
            0 <= d < fresh.tree.dirs.len() ==> (#[trigger] fresh.tree.dirs[d]).entries.len()
                <= self.taken_on().max_walk_entries
    }

    /// A reader of the bytes a format wrote reads them back.
    pub proof fn lemma_reads_back(
        &self,
        src: Seq<u8>,
        fresh: Fresh,
        options: OpenOptions,
    )
        requires
            fresh.wf(),
            from_base(src, options.base) == fresh.bytes,
            self.holds(src, fresh.found(), options),
            forall|d: int|
                0 <= d < fresh.tree.dirs.len() ==> (#[trigger] fresh.tree.dirs[d]).entries.len()
                    <= options.limits.max_walk_entries,
        ensures
            self.reads_back(fresh),
    {
    }
}

/// Whether a node is directory `d` of a volume a format has written.
pub open spec fn is_directory(fresh: Fresh, node: Node, d: int) -> bool {
    &&& node.directory()
    &&& node.storage == fresh.place(d)
    &&& node.data_length == fresh.length(d)
    &&& node.times is None <==> d == 0
}

/// An entry takes three slots at least.
pub proof fn lemma_slots_of_entries(fresh: Fresh, d: int, n: int)
    requires
        fresh.wf(),
        0 <= d < fresh.tree.dirs.len(),
        0 <= n <= fresh.tree.dirs[d].entries.len(),
    ensures
        3 * n <= slots_before(fresh.tree.dirs[d].entries, n),
    decreases n,
{
    if n > 0 {
        lemma_slots_of_entries(fresh, d, n - 1);
        fresh.lemma_set_slots(d, n - 1);
    }
}

/// A volume has room for the names of any directory of it.
proof fn lemma_room(fresh: Fresh, vol: Vol, d: int)
    requires
        fresh.wf(),
        fresh.is(vol),
        0 <= d < fresh.tree.dirs.len(),
    ensures
        fresh.tree.dirs[d].entries.len() <= room_for_names(fresh.layout),
{
    let count = fresh.tree.dirs[d].entries.len() as int;
    let heap = fresh.layout.cluster_count * fresh.layout.bytes_per_cluster;
    fresh.lemma_slot_count(vol, d);
    fresh.lemma_vol(vol);
    lemma_slots_of_entries(fresh, d, count);
    crate::slots::lemma_slots(vol);
    let clusters = fresh.tree.dirs[d].run.count as int;
    assert(clusters * fresh.per() == 32 * (clusters * vol.slots())) by (nonlinear_arith)
        requires
            fresh.per() == vol.slots() * 32,
    ;
    assert(96 * count <= heap);
}

/// The name an entry of a tree was given is the one its units are read as.
proof fn lemma_name_back(source: Seq<SourceView>, fresh: Fresh, i: int, p: int, j: int)
    requires
        holds_at(fresh.tree, source, i, p, j),
    ensures
        fresh.named(p, j).name == name_of(key_of(source[i].path)),
{
    lemma_held_name_reads_back(name_of(key_of(source[i].path)));
}

/// The entries of a directory are found by their names.
proof fn lemma_named_at(fresh: Fresh, d: int, j: int, from: int)
    requires
        fresh.wf(),
        0 <= d < fresh.tree.dirs.len(),
        0 <= from <= j < fresh.tree.dirs[d].entries.len(),
    ensures
        named_at(
            fresh.names(d, fresh.tree.dirs[d].entries.len() as int),
            fresh.named(d, j).name,
            from,
        ) == Some(fresh.named(d, j).node),
    decreases j - from,
{
    let count = fresh.tree.dirs[d].entries.len() as int;
    let names = fresh.names(d, count);
    if from < j {
        lemma_named_at(fresh, d, j, from + 1);
        assert(names[from].name != fresh.named(d, j).name) by {
            let a = fresh.tree.dirs[d].entries[from];
            let b = fresh.tree.dirs[d].entries[j];
            lemma_settled(fresh.tree, fresh.layout, format_mapping());
            assert(fresh.tree.entry_sound(format_mapping(), d, a));
            assert(fresh.tree.entry_sound(format_mapping(), d, b));
            let x = choose|x: Seq<u8>|
                name_fault(x) is None && #[trigger] name_units(x) == a.units;
            let y = choose|y: Seq<u8>|
                name_fault(y) is None && #[trigger] name_units(y) == b.units;
            lemma_held_name_reads_back(x);
            lemma_held_name_reads_back(y);
            assert(folded_by(format_mapping(), a.units) != folded_by(format_mapping(), b.units));
        }
    }
}

impl<'a> Reader<'a> {
    /// A directory of a volume a format has written is read with nothing wrong with it.
    pub proof fn lemma_directory_back(&self, fresh: Fresh, node: Node, d: int)
        requires
            fresh.wf(),
            self.reads_back(fresh),
            0 <= d < fresh.tree.dirs.len(),
            is_directory(fresh, node, d),
        ensures
            self.directory(node) == (DirRead {
                log: Seq::empty(),
                entries: Ok(fresh.names(d, fresh.tree.dirs[d].entries.len() as int)),
            }),
    {
        let vol = self.vol();
        assert(fresh.is(vol));
        lemma_room(fresh, vol, d);
        assert(fresh.tree.dirs[d].entries.len() <= name_cap(self.taken_on(), vol.layout));
        fresh.lemma_directory_reads_back(vol, self.reading(node), d);
    }

    /// A directory of a volume a format has written reads back as its entries, in the order they
    /// were written.
    pub proof fn lemma_directory_lists_back(&self, fresh: Fresh, node: Node, d: int)
        requires
            fresh.wf(),
            self.reads_back(fresh),
            0 <= d < fresh.tree.dirs.len(),
            is_directory(fresh, node, d),
        ensures
            self.listing(node) == Ok::<Seq<Named>, ReadError>(
                fresh.names(d, fresh.tree.dirs[d].entries.len() as int),
            ),
    {
        self.lemma_directory_back(fresh, node, d);
    }

    /// A name of a directory finds its entry.
    proof fn lemma_finds(&self, fresh: Fresh, source: Seq<SourceView>, i: int, p: int, j: int)
        requires
            fresh.wf(),
            holds_at(fresh.tree, source, i, p, j),
        ensures
            found_in(
                fresh.names(p, fresh.tree.dirs[p].entries.len() as int),
                self.mapping(),
                name_of(key_of(source[i].path)),
            ) == Some(fresh.named(p, j).node),
    {
        lemma_name_back(source, fresh, i, p, j);
        lemma_named_at(fresh, p, j, 0);
    }

    /// A path of plain components leads, component by component, through the directories whose
    /// keys they spell.
    proof fn lemma_reaches(
        &self,
        fresh: Fresh,
        source: Seq<SourceView>,
        components: Seq<Seq<u8>>,
        k: int,
        d: int,
    ) -> (passed: Seq<Node>)
        requires
            fresh.wf(),
            self.reads_back(fresh),
            holds_source(fresh.tree, source),
            plain(components),
            forall|i: int|
                0 <= i < components.len() ==> !crate::path::is_ascent(#[trigger] components[i]),
            0 <= k <= components.len(),
            0 <= d < fresh.tree.dirs.len(),
            key_of(fresh.tree.dirs[d].path) == joined(components.take(k)),
        ensures
            passed.len() > 0,
            is_directory(fresh, passed.last(), d),
            self.resolved(components, 0, seq![self.root_node()]) == self.resolved(
                components,
                k,
                passed,
            ),
        decreases k,
    {
        reveal(holds_source);
        let some = components.take(k);
        if k == 0 {
            assert(some =~= Seq::<Seq<u8>>::empty());
            assert(d == 0) by {
                if d > 0 {
                    assert(key_of(fresh.tree.dirs[0].path) =~= key_of(fresh.tree.dirs[d].path));
                }
            }
            self.lemma_root_is_a_directory(fresh);
            seq![self.root_node()]
        } else {
            lemma_joined_parts(some);
            assert(some.drop_last() =~= components.take(k - 1));
            assert(some.last() == components[k - 1]);
            assert(d >= 1);
            assert(is_declared(fresh.tree, source, d));
            let i = choose|i: int|
                0 <= i < source.len() && (#[trigger] source[i]).kind is Directory && key_of(
                    source[i].path,
                ).len() > 0 && key_of(source[i].path) == key_of(fresh.tree.dirs[d].path);
            assert(is_held(fresh.tree, source, i));
            let (p, j) = choose|p: int, j: int| #[trigger] holds_at(fresh.tree, source, i, p, j);
            let before = self.lemma_reaches(fresh, source, components, k - 1, p);
            self.lemma_directory_lists_back(fresh, before.last(), p);
            self.lemma_finds(fresh, source, i, p, j);
            let node = fresh.named(p, j).node;
            let entry = fresh.tree.dirs[p].entries[j];
            let e = entry.node->Dir_0 as int;
            assert(e == d) by {
                if e < d {
                    assert(key_of(fresh.tree.dirs[e].path) != key_of(fresh.tree.dirs[d].path));
                } else if d < e {
                    assert(key_of(fresh.tree.dirs[d].path) != key_of(fresh.tree.dirs[e].path));
                }
            }
            lemma_entry_is_a_directory(fresh, p, j, d);
            before.push(node)
        }
    }

    /// The root directory of a volume a format has written is its first directory.
    pub proof fn lemma_root_is_a_directory(&self, fresh: Fresh)
        requires
            fresh.wf(),
            self.reads_back(fresh),
        ensures
            is_directory(fresh, self.root_node(), 0),
    {
        broadcast use FileAttributes::lemma_of_word;

        assert(0x10u16 & 0x10 == 0x10) by (bit_vector);
    }

    /// The path of a source's directory or file leads to the entry it went to.
    pub proof fn lemma_path_leads_to(&self, fresh: Fresh, source: Seq<SourceView>, i: int) -> (place:
        (int, int))
        requires
            fresh.wf(),
            self.reads_back(fresh),
            holds_source(fresh.tree, source),
            0 <= i < source.len(),
            placeable(sorted_source(source), source[i]),
        ensures
            holds_at(fresh.tree, source, i, place.0, place.1),
            self.at_path(source[i].path) == Ok::<Node, Nowhere>(
                fresh.named(place.0, place.1).node,
            ),
    {
        reveal(holds_source);
        let components = components_of(source[i].path);
        lemma_components_are_plain(source[i].path);
        assert(is_held(fresh.tree, source, i));
        let (p, j) = choose|p: int, j: int| #[trigger] holds_at(fresh.tree, source, i, p, j);
        assert(components.len() > 0) by {
            if components.len() == 0 {
                assert(joined(components).len() == 0);
            }
        }
        lemma_joined_parts(components);
        let k = components.len() - 1;
        assert(components.drop_last() =~= components.take(k));
        let before = self.lemma_reaches(fresh, source, components, k, p);
        self.lemma_directory_lists_back(fresh, before.last(), p);
        self.lemma_finds(fresh, source, i, p, j);
        let node = fresh.named(p, j).node;
        let passed = before.push(node);
        assert(self.resolved(components, k, before) == self.resolved(components, k + 1, passed));
        assert(passed.last() == node);
        (p, j)
    }

    /// What a source has at a path is what a volume a format has written of it has there: a
    /// directory is a directory, and a file, or a second name of one, has its contents. Each has
    /// the permissions the format carries, and its times to the precision the format has.
    pub proof fn lemma_source_reads_back(
        &self,
        fresh: Fresh,
        source: Seq<SourceView>,
        i: int,
    )
        requires
            fresh.wf(),
            self.reads_back(fresh),
            holds_source(fresh.tree, source),
            0 <= i < source.len(),
            placeable(sorted_source(source), source[i]),
        ensures
            self.at_path(source[i].path) matches Ok(node) && {
                &&& node.directory() == (source[i].kind is Directory)
                &&& node.attributes == attributes_of(
                    source[i].kind is Directory,
                    source[i].meta.mode,
                )
                &&& node.times == Some(
                    times_back(times_of_meta(source[i].meta)),
                )
                &&& match contents_of(sorted_source(source), source[i]) {
                    Some(bytes) => {
                        &&& node.data_length == bytes.len()
                        &&& self.vol().file_read(node, 0, bytes.len() as int) == Ok::<
                            Seq<u8>,
                            ReadError,
                        >(bytes)
                    },
                    None => true,
                }
            },
    {
        let (p, j) = self.lemma_path_leads_to(fresh, source, i);
        let node = fresh.named(p, j).node;
        let entry = fresh.tree.dirs[p].entries[j];
        lemma_settled(fresh.tree, fresh.layout, format_mapping());
        assert(fresh.tree.entry_sound(format_mapping(), p, entry));
        match contents_of(sorted_source(source), source[i]) {
            Some(bytes) => {
                let size = node.data_length as int;
                fresh.lemma_file_reads_back(self.vol(), p, j, 0, size);
                assert(bytes.subrange(0, size) =~= bytes);
            },
            None => {},
        }
    }
}

/// The entry that names a directory is read as it.
pub proof fn lemma_entry_is_a_directory(fresh: Fresh, p: int, j: int, d: int)
    requires
        fresh.wf(),
        0 <= p < fresh.tree.dirs.len(),
        0 <= j < fresh.tree.dirs[p].entries.len(),
        fresh.tree.dirs[p].entries[j].node == crate::model::Node::Dir(d as usize),
        0 < d < fresh.tree.dirs.len(),
        d == d as usize,
    ensures
        is_directory(fresh, fresh.named(p, j).node, d),
{
    let entry = fresh.tree.dirs[p].entries[j];
    lemma_settled(fresh.tree, fresh.layout, format_mapping());
    assert(fresh.tree.entry_sound(format_mapping(), p, entry));
    crate::image::lemma_directory_fits(
        fresh.tree,
        fresh.layout,
        fresh.options.label,
        format_mapping(),
        d,
    );
}

/// A directory of a volume a format has written has no more names than the format has room for.
pub proof fn lemma_directory_fits_the_format(fresh: Fresh, d: int)
    requires
        fresh.wf(),
        0 <= d < fresh.tree.dirs.len(),
    ensures
        3 * fresh.tree.dirs[d].entries.len() <= MAX_DIRECTORY_ENTRIES,
{
    let count = fresh.tree.dirs[d].entries.len() as int;
    let vol = Vol { bytes: fresh.bytes, layout: fresh.layout };
    fresh.lemma_slot_count(vol, d);
    fresh.lemma_length_held(d);
    fresh.lemma_vol(vol);
    lemma_slots_of_entries(fresh, d, count);
    crate::slots::lemma_slots(vol);
    let clusters = fresh.tree.dirs[d].run.count as int;
    assert(clusters * fresh.per() == 32 * (clusters * vol.slots())) by (nonlinear_arith)
        requires
            fresh.per() == vol.slots() * 32,
    ;
}

impl<'a> Reader<'a> {
    /// Formatting a source and opening the bytes reads the source back: whatever the policy, a
    /// reader that takes on as many names as a directory can have finds, at the path of each
    /// directory and file of the source, that directory or file.
    pub proof fn lemma_formatted_source_reads_back(
        &self,
        source: Seq<SourceView>,
        volume_bytes: u64,
        options: FormatOptions,
        src: Seq<u8>,
        opening: OpenOptions,
        found: Opened,
        i: int,
    )
        requires
            countable(source),
            options.label.wf(),
            planned(source, volume_bytes, options) is Ok,
            from_base(src, opening.base) == formatted(source, volume_bytes, options),
            opened(from_base(src, opening.base)) == Ok::<Opened, ReadError>(found),
            self.holds(src, found, opening),
            MAX_DIRECTORY_ENTRIES <= 3 * opening.limits.max_walk_entries,
            0 <= i < source.len(),
            placeable(sorted_source(source), source[i]),
        ensures
            self.at_path(source[i].path) matches Ok(node) && {
                &&& node.directory() == (source[i].kind is Directory)
                &&& node.attributes == attributes_of(
                    source[i].kind is Directory,
                    source[i].meta.mode,
                )
                &&& node.times == Some(times_back(times_of_meta(source[i].meta)))
                &&& match contents_of(sorted_source(source), source[i]) {
                    Some(bytes) => {
                        &&& node.data_length == bytes.len()
                        &&& self.vol().file_read(node, 0, bytes.len() as int) == Ok::<
                            Seq<u8>,
                            ReadError,
                        >(bytes)
                    },
                    None => true,
                }
            },
    {
        let fresh = fresh_of(source, volume_bytes, options);
        lemma_fresh(source, volume_bytes, options);
        lemma_formatted_volume_opens(source, volume_bytes, options);
        assert forall|d: int| 0 <= d < fresh.tree.dirs.len() implies (
        #[trigger] fresh.tree.dirs[d]).entries.len() <= opening.limits.max_walk_entries by {
            lemma_directory_fits_the_format(fresh, d);
        }
        self.lemma_reads_back(src, fresh, opening);
        self.lemma_source_reads_back(fresh, source, i);
    }

    /// A volume a format has written has no name the source has not: every entry of every
    /// directory is one of the source's, in the directory its path says.
    pub proof fn lemma_nothing_else_reads_back(
        &self,
        fresh: Fresh,
        source: Seq<SourceView>,
        node: Node,
        d: int,
        j: int,
    )
        requires
            fresh.wf(),
            self.reads_back(fresh),
            holds_source(fresh.tree, source),
            0 <= d < fresh.tree.dirs.len(),
            is_directory(fresh, node, d),
            0 <= j < fresh.tree.dirs[d].entries.len(),
        ensures
            self.listing(node) matches Ok(entries) && entries.len()
                == fresh.tree.dirs[d].entries.len() && exists|i: int|
                #![trigger source[i]]
                0 <= i < source.len() && parent_of(key_of(source[i].path)) == key_of(
                    fresh.tree.dirs[d].path,
                ) && name_of(key_of(source[i].path)) == entries[j].name,
    {
        self.lemma_directory_lists_back(fresh, node, d);
        assert(is_sourced(fresh.tree, source, d, j)) by {
            reveal(holds_source);
        }
        let i = choose|i: int|
            0 <= i < source.len() && #[trigger] holds_at(fresh.tree, source, i, d, j);
        lemma_name_back(source, fresh, i, d, j);
        let entries = self.listing(node)->Ok_0;
        assert(entries[j].name == name_of(key_of(source[i].path)));
    }

    /// A name that folds as an entry's does finds that entry.
    pub proof fn lemma_folded_name_finds(&self, fresh: Fresh, d: int, j: int, name: Seq<u8>)
        requires
            fresh.wf(),
            self.reads_back(fresh),
            0 <= d < fresh.tree.dirs.len(),
            0 <= j < fresh.tree.dirs[d].entries.len(),
            folded_name(self.mapping(), name) == folded_by(
                self.mapping(),
                fresh.tree.dirs[d].entries[j].units,
            ),
        ensures
            found_in(
                fresh.names(d, fresh.tree.dirs[d].entries.len() as int),
                self.mapping(),
                name,
            ) == Some(fresh.named(d, j).node),
    {
        let count = fresh.tree.dirs[d].entries.len() as int;
        let names = fresh.names(d, count);
        lemma_named_or_not(names, name, 0);
        match named_at(names, name, 0) {
            Some(_) => {
                let i = choose|i: int|
                    0 <= i < names.len() && (#[trigger] names[i]).name == name && named_at(
                        names,
                        name,
                        0,
                    ) == Some(names[i].node);
                lemma_name_folds(fresh, d, i);
                lemma_folds_apart(fresh, d, i, j);
            },
            None => {
                lemma_folding_at(fresh, d, j, folded_name(self.mapping(), name), 0);
            },
        }
    }
}

/// What a search by name finds is an entry of that name.
proof fn lemma_named_or_not(names: Seq<Named>, name: Seq<u8>, from: int)
    requires
        0 <= from,
    ensures
        match named_at(names, name, from) {
            Some(node) => exists|i: int|
                0 <= i < names.len() && (#[trigger] names[i]).name == name && node
                    == names[i].node,
            None => true,
        },
    decreases names.len() - from,
{
    if from < names.len() {
        if names[from].name != name {
            lemma_named_or_not(names, name, from + 1);
        }
    }
}

/// The name of an entry folds as its units do.
proof fn lemma_name_folds(fresh: Fresh, d: int, j: int)
    requires
        fresh.wf(),
        0 <= d < fresh.tree.dirs.len(),
        0 <= j < fresh.tree.dirs[d].entries.len(),
    ensures
        folded_name(format_mapping(), fresh.named(d, j).name) == folded_by(
            format_mapping(),
            fresh.tree.dirs[d].entries[j].units,
        ),
{
    let entry = fresh.tree.dirs[d].entries[j];
    lemma_settled(fresh.tree, fresh.layout, format_mapping());
    assert(fresh.tree.entry_sound(format_mapping(), d, entry));
    let name = choose|name: Seq<u8>|
        name_fault(name) is None && #[trigger] name_units(name) == entry.units;
    lemma_held_name_reads_back(name);
}

/// Two entries of a directory that fold to one name are one entry.
proof fn lemma_folds_apart(fresh: Fresh, d: int, i: int, j: int)
    requires
        fresh.wf(),
        0 <= d < fresh.tree.dirs.len(),
        0 <= i < fresh.tree.dirs[d].entries.len(),
        0 <= j < fresh.tree.dirs[d].entries.len(),
        folded_by(format_mapping(), fresh.tree.dirs[d].entries[i].units) == folded_by(
            format_mapping(),
            fresh.tree.dirs[d].entries[j].units,
        ),
    ensures
        i == j,
{
    lemma_settled(fresh.tree, fresh.layout, format_mapping());
    let entries = fresh.tree.dirs[d].entries;
    if i < j {
        assert(folded_by(format_mapping(), entries[i].units) != folded_by(
            format_mapping(),
            entries[j].units,
        ));
    } else if j < i {
        assert(folded_by(format_mapping(), entries[j].units) != folded_by(
            format_mapping(),
            entries[i].units,
        ));
    }
}

/// A search by folding finds the entry that folds so.
proof fn lemma_folding_at(fresh: Fresh, d: int, j: int, folded: Seq<u16>, from: int)
    requires
        fresh.wf(),
        0 <= d < fresh.tree.dirs.len(),
        0 <= from <= j < fresh.tree.dirs[d].entries.len(),
        folded == folded_by(format_mapping(), fresh.tree.dirs[d].entries[j].units),
    ensures
        folding_at(
            fresh.names(d, fresh.tree.dirs[d].entries.len() as int),
            format_mapping(),
            folded,
            from,
        ) == Some(fresh.named(d, j).node),
    decreases j - from,
{
    let names = fresh.names(d, fresh.tree.dirs[d].entries.len() as int);
    lemma_name_folds(fresh, d, from);
    assert(names[from] == fresh.named(d, from));
    if from < j {
        if folded_name(format_mapping(), names[from].name) == folded {
            lemma_folds_apart(fresh, d, from, j);
        }
        lemma_folding_at(fresh, d, j, folded, from + 1);
    }
}

/// A source a tree can be made of has no two entries at one path.
pub proof fn lemma_accepted_source_has_distinct_keys(
    source: Seq<SourceView>,
    loss: LossPolicy,
    mapping: Seq<u16>,
)
    requires
        tree_of(source, loss, mapping) is Ok,
    ensures
        distinct_keys(source),
{
    let sorted = sorted_source(source);
    lemma_no_path_fault(sorted, 0);
    assert forall|i: int, j: int|
        0 <= i < sorted.len() && 0 <= j < sorted.len() && i != j implies key_of(
        #[trigger] sorted[i].path,
    ) != key_of(#[trigger] sorted[j].path) by {
        assert(path_fault(sorted, i) is None && path_fault(sorted, j) is None);
    }
    lemma_sorted_source(source);
    lemma_distinct_by_multiset(sorted, source);
}

/// The order a source yields its entries in does not reach the plan: two sources of the same
/// entries, no two of them at one path, are refused alike or planned alike.
pub proof fn lemma_planned_whatever_the_order(
    a: Seq<SourceView>,
    b: Seq<SourceView>,
    volume_bytes: u64,
    options: FormatOptions,
)
    requires
        a.to_multiset() == b.to_multiset(),
        distinct_keys(a),
    ensures
        planned(a, volume_bytes, options) == planned(b, volume_bytes, options),
        formatted(a, volume_bytes, options) == formatted(b, volume_bytes, options),
{
    lemma_source_order_does_not_matter(a, b);
    reveal(planned);
}

/// The order a source yields its entries in does not reach the volume: where a source is
/// accepted, so is any other of the same entries, and the two give the same bytes, as many as the
/// volume was asked to have.
pub proof fn lemma_formatted_whatever_the_order(
    a: Seq<SourceView>,
    b: Seq<SourceView>,
    volume_bytes: u64,
    options: FormatOptions,
)
    requires
        a.to_multiset() == b.to_multiset(),
        planned(a, volume_bytes, options) is Ok,
    ensures
        planned(a, volume_bytes, options) == planned(b, volume_bytes, options),
        formatted(a, volume_bytes, options) == formatted(b, volume_bytes, options),
        countable(a) && options.label.wf() ==> formatted(a, volume_bytes, options).len()
            == volume_bytes,
{
    assert(distinct_keys(a)) by {
        reveal(planned);
        lemma_accepted_source_has_distinct_keys(a, options.loss(), format_mapping());
    }
    lemma_planned_whatever_the_order(a, b, volume_bytes, options);
    if countable(a) && options.label.wf() {
        lemma_fresh(a, volume_bytes, options);
    }
}

/// A volume a format has written is recognized as one.
pub proof fn lemma_formatted_volume_is_claimed(
    source: Seq<SourceView>,
    volume_bytes: u64,
    options: FormatOptions,
)
    requires
        countable(source),
        options.label.wf(),
        planned(source, volume_bytes, options) is Ok,
    ensures
        ({
            let bytes = formatted(source, volume_bytes, options);
            begins_volume(bytes.take(512), bytes.len() as int)
        }),
{
    let fresh = fresh_of(source, volume_bytes, options);
    lemma_fresh(source, volume_bytes, options);
    fresh.lemma_boot();
    assert forall|boot: MainBootSector| #[trigger] boot.is_at(fresh.bytes.take(512)) implies
        boot_defect(boot, fresh.bytes.len() as int) is None by {
        fresh.lemma_boot_is_at();
        lemma_boot_sector_unique(boot, fresh.boot(), fresh.bytes.take(512));
    }
}

/// A source whose first sector has these fields is recognized as a volume exactly where opening
/// it gets past that sector.
pub proof fn lemma_claimed_is_openable(bytes: Seq<u8>, boot: MainBootSector)
    requires
        bytes.len() >= 512,
        boot.is_at(bytes.take(512)),
    ensures
        begins_volume(bytes.take(512), bytes.len() as int) ==> opened(bytes) == opened_boot(
            bytes,
            boot,
        ) && boot_defect(boot, bytes.len() as int) is None,
        !begins_volume(bytes.take(512), bytes.len() as int) ==> match opened(bytes) {
            Err(ReadError::Parse(_)) => true,
            Err(ReadError::BadBootSector { .. }) => true,
            _ => false,
        },
{
    let sector = bytes.take(512);
    let found = boot_at(sector);
    assert(found.is_at(sector));
    lemma_boot_sector_unique(found, boot, sector);
    if boot_fault(sector) is None && boot_defect(boot, bytes.len() as int) is None {
        assert forall|other: MainBootSector| #[trigger] other.is_at(sector) implies boot_defect(
            other,
            bytes.len() as int,
        ) is None by {
            lemma_boot_sector_unique(other, boot, sector);
        }
    }
}

} // verus!
