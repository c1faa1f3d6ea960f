//! Directories read back as they were written.
use vstd::prelude::*;

use crate::allocate::{dir_bytes, leading_slots, lemma_settled, slots_before};
use crate::bytes::zeros;
use crate::csum::upcase_sum;
use crate::deviation::Noted;
use crate::dirent::{
    lemma_bitmap_entry_round_trip, lemma_label_entry_round_trip, lemma_upcase_entry_round_trip,
    AllocationBitmapEntry, EntryType, FileEntry, UpcaseTableEntry,
};
use crate::entryset::{set_read, slot_of, SetRead};
use crate::fresh::{lemma_slot_run, runs, Fresh};
use crate::geometry::ExfatLayout;
use crate::image::{
    directory_of, lemma_ceil_div, lemma_directory_fits, lemma_directory_len, lemma_file_fits,
    lemma_sets_len, root_head, sets_of, target_of, upcase_of,
};
use crate::label::VolumeLabel;
use crate::materialize::format_mapping;
use crate::model::{TreeView, MAX_DIRECTORY_BYTES};
use crate::name::PlacedName;
use crate::node::{Named, Node};
use crate::number::ceil_div;
use crate::parse::{
    dir_read, parsed, step, step_ended, step_primary, step_set, DirRead, Parsed, Pending, Reading,
};
use crate::reread::{continues, lemma_set_kinds, lemma_set_reads_back, node_back, set_sound};
use crate::set::{set_of, set_with};
use crate::slots::{lemma_slots, SlotView};
use crate::unicode::utf8_of_units;
use crate::volume::{Storage, Vol};
use crate::written::{directory_written, padded, written};

verus! {

impl Fresh {
    /// Where the entries of directory `d` are.
    pub open spec fn place(self, d: int) -> Storage {
        if d == 0 {
            Storage::Chain(self.layout.first_cluster_of_root)
        } else {
            Storage::Contiguous(self.tree.dirs[d].run.first)
        }
    }

    /// Bytes of the clusters of directory `d`.
    pub open spec fn length(self, d: int) -> u64 {
        (self.tree.dirs[d].run.count * self.layout.bytes_per_cluster) as u64
    }

    /// What entry `j` of directory `d` is read as.
    pub open spec fn named(self, d: int, j: int) -> Named {
        let entry = self.tree.dirs[d].entries[j];
        let target = target_of(self.tree, self.layout, entry);
        Named {
            name: utf8_of_units(entry.units),
            node: node_back(entry, target.0, target.1),
        }
    }

    /// What the first `n` entries of directory `d` are read as.
    pub open spec fn names(self, d: int, n: int) -> Seq<Named> {
        Seq::new(n as nat, |j: int| self.named(d, j))
    }

    /// The bytes of the entries of directory `d`.
    pub open spec fn entries_of(self, d: int) -> Seq<u8> {
        directory_of(self.tree, self.layout, self.options.label, d)
    }

    /// Slot `n` of directory `d`: one of its entries, or zeros behind them.
    pub proof fn lemma_slot(self, vol: Vol, d: int, n: int)
        requires
            self.wf(),
            self.is(vol),
            0 <= d < self.tree.dirs.len(),
            0 <= n < self.tree.dirs[d].run.count * vol.slots(),
        ensures
            vol.slot_at(self.place(d), self.length(d), n) is Ok,
            ({
                let slot = vol.slot_at(self.place(d), self.length(d), n)->Ok_0;
                let bytes = self.entries_of(d);
                &&& slot.bytes.len() == 32
                &&& 32 * n + 32 <= bytes.len() ==> slot.bytes == bytes.subrange(
                    32 * n,
                    32 * n + 32,
                )
                &&& 32 * n >= bytes.len() ==> slot.bytes == zeros(32)
            }),
    {
        let dir = self.tree.dirs[d];
        let first = dir.run.first as int;
        let count = dir.run.count as int;
        let per = self.per();
        let bytes = self.entries_of(d);
        self.lemma_vol(vol);
        self.lemma_chains(vol);
        lemma_directory_fits(self.tree, self.layout, self.options.label, format_mapping(), d);
        assert(runs(vol, self.place(d), first, count));
        lemma_slot_run(vol, self.place(d), first, count, self.length(d), n);
        assert(directory_written(
            self.bytes,
            self.tree,
            self.layout,
            self.options.label,
            d,
        )) by {
            reveal(written);
        }
        let at = self.layout.byte_of(first);
        let len = count * per;
        let slot = vol.slot_at(self.place(d), self.length(d), n)->Ok_0;
        let region = self.bytes.subrange(at, at + len);
        assert(region == padded(bytes, len));
        assert(slot.bytes =~= region.subrange(32 * n, 32 * n + 32));
        if 32 * n + 32 <= bytes.len() {
            assert(slot.bytes =~= bytes.subrange(32 * n, 32 * n + 32));
        }
        if 32 * n >= bytes.len() {
            assert(slot.bytes =~= zeros(32));
        }
    }

    /// Directory `d` has as many slots as its clusters have, and its entries are in them.
    pub proof fn lemma_slot_count(self, vol: Vol, d: int)
        requires
            self.wf(),
            self.is(vol),
            0 <= d < self.tree.dirs.len(),
        ensures
            vol.slot_count(self.place(d), self.length(d)) == self.tree.dirs[d].run.count
                * vol.slots(),
            self.length(d) == self.tree.dirs[d].run.count * self.layout.bytes_per_cluster,
            0 < self.length(d),
            self.length(d) as int % self.per() == 0,
            self.length(d) <= self.layout.cluster_count * self.layout.bytes_per_cluster,
            self.entries_of(d).len() == 32 * (leading_slots(d) + slots_before(
                self.tree.dirs[d].entries,
                self.tree.dirs[d].entries.len() as int,
            )),
            leading_slots(d) + slots_before(
                self.tree.dirs[d].entries,
                self.tree.dirs[d].entries.len() as int,
            ) <= self.tree.dirs[d].run.count * vol.slots(),
    {
        let dir = self.tree.dirs[d];
        let count = dir.run.count as int;
        let per = self.per();
        self.lemma_vol(vol);
        lemma_directory_fits(self.tree, self.layout, self.options.label, format_mapping(), d);
        lemma_directory_len(self.tree, self.layout, self.options.label, d);
        lemma_slots(vol);
        assert(count * per <= self.layout.cluster_count * per) by (nonlinear_arith)
            requires
                count <= self.layout.cluster_count,
                per >= 0,
        ;
        assert(0 < count * per <= 0xFFFF_FFFF * 0xFFFF_FFFF) by (nonlinear_arith)
            requires
                1 <= count <= 0xFFFF_FFFF,
                0 < per <= 0xFFFF_FFFF,
        ;
        vstd::arithmetic::div_mod::lemma_mod_multiples_basic(count, per);
        vstd::arithmetic::div_mod::lemma_div_multiples_vanish(count, per);
        assert(count * per == 32 * (count * vol.slots())) by (nonlinear_arith)
            requires
                per == vol.slots() * 32,
        ;
        assert(per * count == count * per) by (nonlinear_arith);
    }
}

/// A directory no larger than the format allows, where it is not found to be too large.
proof fn lemma_not_too_large(tree: TreeView, from: int, d: int)
    requires
        0 <= from <= d < tree.dirs.len(),
        crate::allocate::too_large(tree.dirs, from) is None,
    ensures
        dir_bytes(tree.dirs[d], d) <= MAX_DIRECTORY_BYTES,
    decreases d - from,
{
    if from < d {
        lemma_not_too_large(tree, from + 1, d);
    }
}

/// Whole clusters for no more than the most a directory has are no more than that.
proof fn lemma_rounded_length(bytes: int, own: int, per: int)
    requires
        crate::number::is_pow2(per),
        512 <= per <= 0x0200_0000,
        0 <= bytes <= MAX_DIRECTORY_BYTES,
        own == (if ceil_div(bytes, per) < 1 {
            1
        } else {
            ceil_div(bytes, per)
        }),
    ensures
        own * per <= MAX_DIRECTORY_BYTES,
{
    let most = MAX_DIRECTORY_BYTES as int;
    assert(crate::number::is_pow2(most)) by {
        reveal_with_fuel(crate::number::is_pow2, 30);
    }
    crate::number::lemma_pow2_divides(per, most);
    let q = most / per;
    vstd::arithmetic::div_mod::lemma_fundamental_div_mod(most, per);
    lemma_ceil_div(bytes, per);
    assert(own <= q) by (nonlinear_arith)
        requires
            most == per * q,
            per <= most,
            bytes <= most,
            per > 0,
            own == 1 || own * per < bytes + per,
    ;
    assert(own * per <= most) by (nonlinear_arith)
        requires
            own <= q,
            most == per * q,
            per > 0,
    ;
}

impl Fresh {
    /// A directory is no longer than the format allows.
    pub proof fn lemma_length_held(self, d: int)
        requires
            self.wf(),
            0 <= d < self.tree.dirs.len(),
        ensures
            self.tree.dirs[d].run.count * self.layout.bytes_per_cluster <= MAX_DIRECTORY_BYTES,
    {
        reveal(TreeView::settled_on);
        lemma_directory_fits(self.tree, self.layout, self.options.label, format_mapping(), d);
        lemma_not_too_large(self.tree, 0, d);
        lemma_directory_len(self.tree, self.layout, self.options.label, d);
        let dir = self.tree.dirs[d];
        lemma_rounded_length(dir_bytes(dir, d), dir.run.count as int, self.per());
    }

    /// Every entry of the tree is one its volume may have.
    pub proof fn lemma_entry_sound(self, d: int, j: int)
        requires
            self.wf(),
            0 <= d < self.tree.dirs.len(),
            0 <= j < self.tree.dirs[d].entries.len(),
        ensures
            ({
                let entry = self.tree.dirs[d].entries[j];
                let target = target_of(self.tree, self.layout, entry);
                set_sound(self.layout, format_mapping(), entry, target.0, target.1)
            }),
    {
        let entry = self.tree.dirs[d].entries[j];
        let target = target_of(self.tree, self.layout, entry);
        let per = self.per();
        lemma_settled(self.tree, self.layout, format_mapping());
        assert(self.tree.entry_sound(format_mapping(), d, entry));
        match entry.node {
            crate::model::Node::Dir(k) => {
                let k = k as int;
                lemma_directory_fits(
                    self.tree,
                    self.layout,
                    self.options.label,
                    format_mapping(),
                    k,
                );
                self.lemma_length_held(k);
                let count = self.tree.dirs[k].run.count as int;
                assert(0 < count * per <= self.layout.cluster_count * per) by (nonlinear_arith)
                    requires
                        1 <= count <= self.layout.cluster_count,
                        per > 0,
                ;
                vstd::arithmetic::div_mod::lemma_mod_multiples_basic(count, per);
            },
            crate::model::Node::File { size, run, .. } => {
                lemma_file_fits(self.tree, self.layout, format_mapping(), d, j);
                lemma_directory_fits(
                    self.tree,
                    self.layout,
                    self.options.label,
                    format_mapping(),
                    d,
                );
                assert(run.count * per <= self.layout.cluster_count * per) by (nonlinear_arith)
                    requires
                        run.count <= self.layout.cluster_count,
                        per > 0,
                ;
            },
        }
    }
}

/// The slots of entry `j` among those of the first `n` entries.
proof fn lemma_sets_slot(tree: TreeView, layout: ExfatLayout, d: int, n: int, j: int, k: int)
    requires
        0 <= j < n,
        0 <= k < PlacedName::slots_of(tree.dirs[d].entries[j].units.len() as int),
    ensures
        ({
            let entry = tree.dirs[d].entries[j];
            let target = target_of(tree, layout, entry);
            let at = slots_before(tree.dirs[d].entries, j) + k;
            &&& 0 <= at
            &&& 32 * at + 32 <= sets_of(tree, layout, d, n).len()
            &&& sets_of(tree, layout, d, n).subrange(32 * at, 32 * at + 32) == slot_of(
                set_of(entry, target.0, target.1),
                k,
            )
        }),
    decreases n,
{
    let last = tree.dirs[d].entries[n - 1];
    let aim = target_of(tree, layout, last);
    let before = sets_of(tree, layout, d, n - 1);
    let set = set_of(last, aim.0, aim.1);
    let all = sets_of(tree, layout, d, n);
    lemma_sets_len(tree, layout, d, n - 1);
    lemma_sets_len(tree, layout, d, j);
    crate::set::lemma_set_len(last, aim.0, aim.1, crate::csum::set_sum(
        set_with(last, aim.0, aim.1, 0),
    ));
    assert(all == before + set);
    let at = slots_before(tree.dirs[d].entries, j) + k;
    if j < n - 1 {
        lemma_sets_slot(tree, layout, d, n - 1, j, k);
        assert(all.subrange(32 * at, 32 * at + 32) =~= before.subrange(32 * at, 32 * at + 32));
    } else {
        assert(all.subrange(32 * at, 32 * at + 32) =~= slot_of(set, k));
    }
}

/// A directory under way, with nothing wrong with it.
pub open spec fn under_way(out: Seq<Named>) -> Parsed {
    Parsed { out, ..Parsed::start() }
}

/// A directory under way, with a set of its under way.
pub open spec fn with_set(out: Seq<Named>, pending: Pending) -> Parsed {
    Parsed { set: Some(pending), ..under_way(out) }
}

/// Reading one more slot.
proof fn lemma_parsed_step(
    reading: Reading,
    vol: Vol,
    storage: Storage,
    declared: u64,
    n: int,
    state: Parsed,
)
    requires
        0 <= n,
        parsed(reading, vol, storage, declared, n) == state,
        !state.done(),
        vol.slot_at(storage, declared, n) is Ok,
    ensures
        parsed(reading, vol, storage, declared, n + 1) == step(
            reading,
            state,
            vol.slot_at(storage, declared, n)->Ok_0,
        ),
{
}

/// Reading the first slot of a set.
proof fn lemma_step_file(reading: Reading, out: Seq<Named>, slot: SlotView)
    requires
        out.len() < reading.cap,
        slot.bytes[0] == EntryType::FILE,
        FileEntry::decoded(slot.bytes).secondary_count > 0,
    ensures
        step(reading, under_way(out), slot) == with_set(
            out,
            Pending {
                index: slot.index,
                want: FileEntry::decoded(slot.bytes).secondary_count as int,
                bytes: slot.bytes,
            },
        ),
{
    reveal(step_primary);
}

/// Reading a slot of a set that is not its last.
proof fn lemma_step_more(reading: Reading, out: Seq<Named>, slot: SlotView, pending: Pending)
    requires
        continues(slot.bytes),
        pending.with(slot.bytes).have() < pending.want,
    ensures
        step(reading, with_set(out, pending), slot) == with_set(out, pending.with(slot.bytes)),
{
    reveal(step_set);
}

/// Reading the last slot of a set with nothing wrong with it.
proof fn lemma_step_last(
    reading: Reading,
    out: Seq<Named>,
    slot: SlotView,
    pending: Pending,
    named: Named,
)
    requires
        continues(slot.bytes),
        pending.with(slot.bytes).have() >= pending.want,
        set_read(
            reading.layout,
            reading.mapping,
            pending.with(slot.bytes).bytes,
            pending.index,
        ) == (SetRead { log: Seq::empty(), entry: Some(named) }),
    ensures
        step(reading, with_set(out, pending), slot) == under_way(out.push(named)),
{
    reveal(step_set);
    let after = step(reading, with_set(out, pending), slot);
    assert(after.log =~= Seq::<Noted>::empty());
}

impl Fresh {
    /// What reading directory `d` depends on.
    pub open spec fn reads(self, reading: Reading, d: int) -> bool {
        &&& reading.layout == self.layout
        &&& reading.mapping == format_mapping()
        &&& reading.is_root == (d == 0)
        &&& self.tree.dirs[d].entries.len() <= reading.cap
    }

    /// Slots of entry `j` of directory `d`.
    pub open spec fn slots_of(self, d: int, j: int) -> int {
        PlacedName::slots_of(self.tree.dirs[d].entries[j].units.len() as int)
    }

    /// The slot entry `j` of directory `d` begins at.
    pub open spec fn slot_before(self, d: int, j: int) -> int {
        leading_slots(d) + slots_before(self.tree.dirs[d].entries, j)
    }

    /// The set of entry `j` of directory `d`.
    pub open spec fn set(self, d: int, j: int) -> Seq<u8> {
        let entry = self.tree.dirs[d].entries[j];
        let target = target_of(self.tree, self.layout, entry);
        set_of(entry, target.0, target.1)
    }

    /// Slot `k` of entry `j` of directory `d`.
    pub proof fn lemma_entry_slot(self, vol: Vol, d: int, j: int, k: int)
        requires
            self.wf(),
            self.is(vol),
            0 <= d < self.tree.dirs.len(),
            0 <= j < self.tree.dirs[d].entries.len(),
            0 <= k < self.slots_of(d, j),
        ensures
            ({
                let n = self.slot_before(d, j) + k;
                &&& 0 <= n < self.tree.dirs[d].run.count * vol.slots()
                &&& vol.slot_at(self.place(d), self.length(d), n) is Ok
                &&& vol.slot_at(self.place(d), self.length(d), n)->Ok_0.bytes == slot_of(
                    self.set(d, j),
                    k,
                )
            }),
    {
        let count = self.tree.dirs[d].entries.len() as int;
        let n = self.slot_before(d, j) + k;
        let sets = sets_of(self.tree, self.layout, d, count);
        self.lemma_slot_count(vol, d);
        lemma_sets_slot(self.tree, self.layout, d, count, j, k);
        lemma_sets_len(self.tree, self.layout, d, count);
        let bytes = self.entries_of(d);
        reveal(directory_of);
        let at = slots_before(self.tree.dirs[d].entries, j) + k;
        assert(bytes.subrange(32 * n, 32 * n + 32) =~= sets.subrange(32 * at, 32 * at + 32));
        self.lemma_slot(vol, d, n);
    }

    /// The set of entry `j` of directory `d` under way, with `k` of its slots read.
    spec fn pending(self, vol: Vol, d: int, j: int, k: int) -> Pending {
        Pending {
            index: vol.slot_at(self.place(d), self.length(d), self.slot_before(d, j))->Ok_0.index,
            want: self.slots_of(d, j) - 1,
            bytes: self.set(d, j).take(32 * k),
        }
    }

    /// The slots of entry `j` lie behind the leading ones.
    pub proof fn lemma_slot_bounds(self, d: int, j: int)
        requires
            self.wf(),
            0 <= d < self.tree.dirs.len(),
            0 <= j <= self.tree.dirs[d].entries.len(),
        ensures
            0 <= leading_slots(d) <= self.slot_before(d, j),
    {
        lemma_sets_len(self.tree, self.layout, d, j);
    }

    /// The slots of the set of entry `j` of directory `d`.
    pub proof fn lemma_set_slots(self, d: int, j: int)
        requires
            self.wf(),
            0 <= d < self.tree.dirs.len(),
            0 <= j < self.tree.dirs[d].entries.len(),
        ensures
            3 <= self.slots_of(d, j) <= 19,
            self.set(d, j).len() == 32 * self.slots_of(d, j),
            slot_of(self.set(d, j), 0)[0] == EntryType::FILE,
            FileEntry::decoded(slot_of(self.set(d, j), 0)).secondary_count == self.slots_of(d, j)
                - 1,
            forall|k: int|
                1 <= k < self.slots_of(d, j) ==> continues((#[trigger] slot_of(self.set(d, j), k))),
    {
        let entry = self.tree.dirs[d].entries[j];
        let target = target_of(self.tree, self.layout, entry);
        lemma_settled(self.tree, self.layout, format_mapping());
        assert(1 <= entry.units.len() <= 255);
        lemma_set_kinds(entry, target.0, target.1);
    }

    /// Reading the first `k` slots of entry `j` of directory `d`.
    proof fn lemma_parse_within(self, vol: Vol, reading: Reading, d: int, j: int, k: int)
        requires
            self.wf(),
            self.is(vol),
            0 <= d < self.tree.dirs.len(),
            self.reads(reading, d),
            0 <= j < self.tree.dirs[d].entries.len(),
            1 <= k < self.slots_of(d, j),
            parsed(reading, vol, self.place(d), self.length(d), self.slot_before(d, j))
                == under_way(self.names(d, j)),
        ensures
            parsed(reading, vol, self.place(d), self.length(d), self.slot_before(d, j) + k)
                == with_set(self.names(d, j), self.pending(vol, d, j, k)),
        decreases k,
    {
        let set = self.set(d, j);
        let at = self.slot_before(d, j);
        let out = self.names(d, j);
        self.lemma_set_slots(d, j);
        self.lemma_slot_bounds(d, j);
        self.lemma_entry_slot(vol, d, j, k - 1);
        let slot = vol.slot_at(self.place(d), self.length(d), at + (k - 1))->Ok_0;
        if k == 1 {
            lemma_parsed_step(reading, vol, self.place(d), self.length(d), at, under_way(out));
            lemma_step_file(reading, out, slot);
            assert(set.take(32) =~= slot_of(set, 0));
        } else {
            let pending = self.pending(vol, d, j, k - 1);
            self.lemma_parse_within(vol, reading, d, j, k - 1);
            lemma_parsed_step(
                reading,
                vol,
                self.place(d),
                self.length(d),
                at + (k - 1),
                with_set(out, pending),
            );
            assert(set.take(32 * (k - 1)) + slot_of(set, k - 1) =~= set.take(32 * k));
            lemma_step_more(reading, out, slot, pending);
        }
    }

    /// Reading entry `j` of directory `d` adds it to those before.
    proof fn lemma_parse_entry(self, vol: Vol, reading: Reading, d: int, j: int)
        requires
            self.wf(),
            self.is(vol),
            0 <= d < self.tree.dirs.len(),
            self.reads(reading, d),
            0 <= j < self.tree.dirs[d].entries.len(),
            parsed(reading, vol, self.place(d), self.length(d), self.slot_before(d, j))
                == under_way(self.names(d, j)),
        ensures
            parsed(reading, vol, self.place(d), self.length(d), self.slot_before(d, j + 1))
                == under_way(self.names(d, j + 1)),
    {
        let entry = self.tree.dirs[d].entries[j];
        let target = target_of(self.tree, self.layout, entry);
        let set = self.set(d, j);
        let total = self.slots_of(d, j);
        let at = self.slot_before(d, j);
        let out = self.names(d, j);
        let pending = self.pending(vol, d, j, total - 1);
        self.lemma_set_slots(d, j);
        self.lemma_slot_bounds(d, j);
        self.lemma_parse_within(vol, reading, d, j, total - 1);
        self.lemma_entry_slot(vol, d, j, total - 1);
        let slot = vol.slot_at(self.place(d), self.length(d), at + (total - 1))->Ok_0;
        assert(set.take(32 * (total - 1)) + slot_of(set, total - 1) =~= set);
        self.lemma_entry_sound(d, j);
        lemma_set_reads_back(
            self.layout,
            format_mapping(),
            entry,
            target.0,
            target.1,
            pending.index,
        );
        lemma_parsed_step(
            reading,
            vol,
            self.place(d),
            self.length(d),
            at + (total - 1),
            with_set(out, pending),
        );
        lemma_step_last(reading, out, slot, pending, self.named(d, j));
        assert(out.push(self.named(d, j)) =~= self.names(d, j + 1));
        assert(self.slot_before(d, j + 1) == at + total);
    }
}

/// Reading a slot of the root directory that describes the whole volume, or is not in use.
proof fn lemma_step_resident(reading: Reading, out: Seq<Named>, slot: SlotView)
    requires
        reading.is_root,
        slot.bytes[0] == EntryType::VOLUME_LABEL || slot.bytes[0] == 0x20 || slot.bytes[0]
            == EntryType::ALLOCATION_BITMAP || slot.bytes[0] == EntryType::UPCASE_TABLE,
    ensures
        step(reading, under_way(out), slot) == under_way(out),
{
    reveal(step_primary);
    let after = step(reading, under_way(out), slot);
    assert(after.log =~= Seq::<Noted>::empty());
}

/// The slots a root directory begins with.
pub proof fn lemma_root_head(layout: ExfatLayout, label: VolumeLabel)
    ensures
        ({
            let head = root_head(layout, label);
            &&& head.len() == 128
            &&& slot_of(head, 0) == label.label_entry().encoded()
            &&& slot_of(head, 1) == seq![0x20u8] + zeros(31)
            &&& slot_of(head, 2) == bitmap_entry(layout).encoded()
            &&& slot_of(head, 3) == upcase_entry(layout).encoded()
            &&& slot_of(head, 0)[0] == EntryType::VOLUME_LABEL
            &&& slot_of(head, 1)[0] == 0x20
            &&& slot_of(head, 2)[0] == EntryType::ALLOCATION_BITMAP
            &&& slot_of(head, 3)[0] == EntryType::UPCASE_TABLE
        }),
{
    let head = root_head(layout, label);
    lemma_label_entry_round_trip(label.label_entry());
    lemma_bitmap_entry_round_trip(bitmap_entry(layout));
    lemma_upcase_entry_round_trip(upcase_entry(layout));
    lemma_four_parts(
        label.label_entry().encoded(),
        seq![0x20u8] + zeros(31),
        bitmap_entry(layout).encoded(),
        upcase_entry(layout).encoded(),
    );
}

/// Four slots one behind the other.
proof fn lemma_four_parts(a: Seq<u8>, b: Seq<u8>, c: Seq<u8>, d: Seq<u8>)
    requires
        a.len() == 32,
        b.len() == 32,
        c.len() == 32,
        d.len() == 32,
    ensures
        (a + b + c + d).len() == 128,
        slot_of(a + b + c + d, 0) == a,
        slot_of(a + b + c + d, 1) == b,
        slot_of(a + b + c + d, 2) == c,
        slot_of(a + b + c + d, 3) == d,
{
    let s = a + b + c + d;
    assert(slot_of(s, 0) =~= a);
    assert(slot_of(s, 1) =~= b);
    assert(slot_of(s, 2) =~= c);
    assert(slot_of(s, 3) =~= d);
}

/// The entry of the bitmap.
pub open spec fn bitmap_entry(layout: ExfatLayout) -> AllocationBitmapEntry {
    AllocationBitmapEntry {
        bitmap_flags: 0,
        first_cluster: layout.bitmap_cluster,
        data_length: layout.bitmap_bytes,
    }
}

/// The entry of the up-case table.
pub open spec fn upcase_entry(layout: ExfatLayout) -> UpcaseTableEntry {
    UpcaseTableEntry {
        table_checksum: upcase_sum(upcase_of()),
        first_cluster: layout.upcase_cluster,
        data_length: layout.upcase_bytes,
    }
}

/// Whether a directory has been read with these entries and nothing wrong, whether or not its
/// end marker has been reached.
spec fn quiet(state: Parsed, out: Seq<Named>) -> bool {
    &&& state.out == out
    &&& state.set is None
    &&& !state.reported
    &&& !state.full
    &&& state.log == Seq::<Noted>::empty()
    &&& state.failed is None
}

/// Reading zeros behind the entries changes nothing.
proof fn lemma_step_quiet(reading: Reading, state: Parsed, slot: SlotView)
    requires
        quiet(state, state.out),
        slot.bytes[0] == 0,
    ensures
        quiet(step(reading, state, slot), state.out),
{
    reveal(step_primary);
    reveal(step_ended);
    let after = step(reading, state, slot);
    assert(after.log =~= Seq::<Noted>::empty());
}

impl Fresh {
    /// The first slots of the root directory.
    pub proof fn lemma_root_slot(self, vol: Vol, n: int)
        requires
            self.wf(),
            self.is(vol),
            0 <= n < 4,
        ensures
            self.tree.dirs.len() > 0,
            n < self.tree.dirs[0].run.count * vol.slots(),
            vol.slot_at(self.place(0), self.length(0), n) is Ok,
            vol.slot_at(self.place(0), self.length(0), n)->Ok_0.bytes == slot_of(
                root_head(self.layout, self.options.label),
                n,
            ),
    {
        let head = root_head(self.layout, self.options.label);
        lemma_settled(self.tree, self.layout, format_mapping());
        lemma_root_head(self.layout, self.options.label);
        self.lemma_slot_count(vol, 0);
        self.lemma_slot_bounds(0, self.tree.dirs[0].entries.len() as int);
        reveal(directory_of);
        let bytes = self.entries_of(0);
        assert(bytes.subrange(32 * n, 32 * n + 32) =~= slot_of(head, n));
        self.lemma_slot(vol, 0, n);
    }

    /// Reading the slots a directory begins with gives no entry.
    proof fn lemma_parse_leading(self, vol: Vol, reading: Reading, d: int, n: int)
        requires
            self.wf(),
            self.is(vol),
            0 <= d < self.tree.dirs.len(),
            self.reads(reading, d),
            0 <= n <= leading_slots(d),
        ensures
            parsed(reading, vol, self.place(d), self.length(d), n) == under_way(Seq::empty()),
        decreases n,
    {
        if n > 0 {
            self.lemma_parse_leading(vol, reading, d, n - 1);
            self.lemma_root_slot(vol, n - 1);
            lemma_root_head(self.layout, self.options.label);
            lemma_parsed_step(
                reading,
                vol,
                self.place(d),
                self.length(d),
                n - 1,
                under_way(Seq::empty()),
            );
            let slot = vol.slot_at(self.place(d), self.length(d), n - 1)->Ok_0;
            assert(n - 1 == 0 || n - 1 == 1 || n - 1 == 2 || n - 1 == 3);
            lemma_step_resident(reading, Seq::empty(), slot);
        }
    }

    /// Reading the first `j` entries of a directory.
    proof fn lemma_parse_entries(self, vol: Vol, reading: Reading, d: int, j: int)
        requires
            self.wf(),
            self.is(vol),
            0 <= d < self.tree.dirs.len(),
            self.reads(reading, d),
            0 <= j <= self.tree.dirs[d].entries.len(),
        ensures
            parsed(reading, vol, self.place(d), self.length(d), self.slot_before(d, j))
                == under_way(self.names(d, j)),
        decreases j,
    {
        if j > 0 {
            self.lemma_parse_entries(vol, reading, d, j - 1);
            self.lemma_parse_entry(vol, reading, d, j - 1);
        } else {
            self.lemma_parse_leading(vol, reading, d, leading_slots(d));
            assert(self.names(d, 0) =~= Seq::<Named>::empty());
        }
    }

    /// Reading the zeros behind the entries of a directory.
    proof fn lemma_parse_tail(self, vol: Vol, reading: Reading, d: int, n: int)
        requires
            self.wf(),
            self.is(vol),
            0 <= d < self.tree.dirs.len(),
            self.reads(reading, d),
            self.slot_before(d, self.tree.dirs[d].entries.len() as int) <= n,
            n <= self.tree.dirs[d].run.count * vol.slots(),
        ensures
            quiet(
                parsed(reading, vol, self.place(d), self.length(d), n),
                self.names(d, self.tree.dirs[d].entries.len() as int),
            ),
        decreases n,
    {
        let count = self.tree.dirs[d].entries.len() as int;
        self.lemma_slot_bounds(d, count);
        if n == self.slot_before(d, count) {
            self.lemma_parse_entries(vol, reading, d, count);
        } else {
            self.lemma_parse_tail(vol, reading, d, n - 1);
            self.lemma_slot_count(vol, d);
            self.lemma_slot(vol, d, n - 1);
            let state = parsed(reading, vol, self.place(d), self.length(d), n - 1);
            let slot = vol.slot_at(self.place(d), self.length(d), n - 1)->Ok_0;
            if !state.done() {
                lemma_parsed_step(reading, vol, self.place(d), self.length(d), n - 1, state);
                lemma_step_quiet(reading, state, slot);
            }
        }
    }

    /// A directory reads back as its entries, in the order they were written, with nothing wrong
    /// with it.
    pub proof fn lemma_directory_reads_back(self, vol: Vol, reading: Reading, d: int)
        requires
            self.wf(),
            self.is(vol),
            0 <= d < self.tree.dirs.len(),
            self.reads(reading, d),
        ensures
            dir_read(reading, vol, self.place(d), self.length(d)) == (DirRead {
                log: Seq::empty(),
                entries: Ok(self.names(d, self.tree.dirs[d].entries.len() as int)),
            }),
    {
        self.lemma_slot_count(vol, d);
        self.lemma_parse_tail(vol, reading, d, self.tree.dirs[d].run.count * vol.slots());
    }
}

} // verus!
