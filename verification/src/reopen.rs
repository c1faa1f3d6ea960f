//! A volume a format has written, opened and read back.
use vstd::prelude::*;

use crate::allocate::lemma_settled;
use crate::bytes::{le16_all, lemma_units_at};
use crate::dirent::{
    lemma_bitmap_entry_round_trip, lemma_label_entry_round_trip, lemma_upcase_entry_round_trip,
};
use crate::entryset::slot_of;
use crate::fresh::{lemma_stream_bytes, lemma_stream_run, runs, upcase_clusters, Fresh};
use crate::geometry::ExfatLayout;
use crate::image::{
    head_pieces, lemma_ceil_div, lemma_clusters_lie_inside, lemma_directory_fits, lemma_file_fits,
    lemma_resident_lens, upcase_of,
};
use crate::label::VolumeLabel;
use crate::materialize::{format_mapping, used_by};
use crate::node::Node;
use crate::number::ceil_div;
use crate::open::{
    label_in, label_log, label_units, resident_step, residents, table_read, Residents, TableRead,
};
use crate::read_error::ReadError;
use crate::reader::{opened, opened_with, Opened};
use crate::recover::described;
use crate::relist::{bitmap_entry, lemma_root_head, upcase_entry};
use crate::reread::continues;
use crate::unicode::utf8_of_units;
use crate::upcase_table::{lemma_recommended_words, recommended_words, RECOMMENDED_UPCASE_BYTES};
use crate::volume::{Resident, Storage, Vol};
use crate::written::{file_written, padded, written};

verus! {

/// No cluster of a stream in consecutive ones is missing.
proof fn lemma_no_gap_in_run(vol: Vol, node: Node, first: int, count: int, k: int, end: int)
    requires
        runs(vol, node.storage, first, count),
        vol.layout.cluster_count <= 0xFFFF_FFF5,
        0 <= k,
        end <= count,
    ensures
        vol.first_gap(node, k, end) is None,
    decreases end - k,
{
    if k < end {
        lemma_stream_run(vol, node.storage, first, count, k);
        lemma_no_gap_in_run(vol, node, first, count, k + 1, end);
    }
}

impl Fresh {
    /// Any part of a file reads back as that part of its contents.
    pub proof fn lemma_file_reads_back(self, vol: Vol, d: int, j: int, from: int, to: int)
        requires
            self.wf(),
            self.is(vol),
            0 <= d < self.tree.dirs.len(),
            0 <= j < self.tree.dirs[d].entries.len(),
            self.tree.dirs[d].entries[j].node is File,
            0 <= from <= to <= self.named(d, j).node.data_length,
        ensures
            ({
                let content = self.tree.dirs[d].entries[j].node->File_content as int;
                &&& 0 <= content < self.tree.contents.len()
                &&& self.named(d, j).node.data_length == self.tree.contents[content].len()
                &&& vol.file_read(self.named(d, j).node, from, to) == Ok::<Seq<u8>, ReadError>(
                    self.tree.contents[content].subrange(from, to),
                )
            }),
    {
        let entry = self.tree.dirs[d].entries[j];
        let node = self.named(d, j).node;
        let per = self.per();
        lemma_file_fits(self.tree, self.layout, format_mapping(), d, j);
        lemma_directory_fits(self.tree, self.layout, self.options.label, format_mapping(), d);
        self.lemma_vol(vol);
        let content = entry.node->File_content as int;
        let run = entry.node->File_run;
        let bytes = self.tree.contents[content];
        let first = run.first as int;
        let count = run.count as int;
        if from < to {
            assert(runs(vol, node.storage, first, count));
            lemma_ceil_div(to, per);
            assert(ceil_div(to, per) <= count) by (nonlinear_arith)
                requires
                    to <= count * per,
                    ceil_div(to, per) * per < to + per,
                    per > 0,
            ;
            assert(0 <= from / per) by {
                vstd::arithmetic::div_mod::lemma_div_pos_is_pos(from, per);
            }
            lemma_no_gap_in_run(vol, node, first, count, from / per, ceil_div(to, per));
            assert(file_written(self.bytes, self.tree, self.layout, d, j)) by {
                reveal(written);
            }
            let at = self.layout.byte_of(first);
            let region = self.bytes.subrange(at, at + count * per);
            assert(region == padded(bytes, count * per));
            lemma_clusters_lie_inside(self.layout, first, count);
            assert forall|p: int| from <= p < to implies #[trigger] vol.file_byte(node, p)
                == bytes[p] by {
                let k = p / per;
                let i = p % per;
                vstd::arithmetic::div_mod::lemma_fundamental_div_mod(p, per);
                vstd::arithmetic::div_mod::lemma_mod_bound(p, per);
                vstd::arithmetic::div_mod::lemma_div_pos_is_pos(p, per);
                assert(per * k == k * per) by (nonlinear_arith);
                assert(k < count) by (nonlinear_arith)
                    requires
                        k * per <= p,
                        p < count * per,
                        per > 0,
                ;
                lemma_stream_run(vol, node.storage, first, count, k);
                lemma_clusters_lie_inside(self.layout, first, k);
                lemma_clusters_lie_inside(self.layout, first + k, 1);
                assert(1 * per == per);
                assert(vol.cluster(first + k)[i] == self.bytes[at + p]);
                assert(region[p] == self.bytes[at + p]);
                assert(padded(bytes, count * per)[p] == bytes[p]);
            }
        }
        assert(vol.file_span(node, from, to) =~= bytes.subrange(from, to));
    }
}

/// What the root directory says of a volume a format has written.
pub open spec fn residents_of(layout: ExfatLayout, label: VolumeLabel) -> Residents {
    Residents {
        bitmap: Some(bitmap_entry(layout)),
        upcase: Some(upcase_entry(layout)),
        label: Some(label.label_entry().encoded()),
        log: Seq::empty(),
        stopped: false,
        failed: None,
    }
}

/// Reading one more slot.
proof fn lemma_residents_step(vol: Vol, root: Storage, declared: u64, n: int)
    requires
        0 <= n,
        !residents(vol, root, declared, n).stopped,
        residents(vol, root, declared, n).failed is None,
        vol.slot_at(root, declared, n) is Ok,
    ensures
        residents(vol, root, declared, n + 1) == resident_step(
            residents(vol, root, declared, n),
            vol.slot_at(root, declared, n)->Ok_0,
        ),
{
}

impl Fresh {
    /// What the first four slots of the root directory say.
    proof fn lemma_residents_head(self, vol: Vol)
        requires
            self.wf(),
            self.is(vol),
        ensures
            residents(vol, self.place(0), self.length(0), 4) == residents_of(
                self.layout,
                self.options.label,
            ),
    {
        let root = self.place(0);
        let declared = self.length(0);
        self.lemma_root_slot(vol, 0);
        self.lemma_root_slot(vol, 1);
        self.lemma_root_slot(vol, 2);
        self.lemma_root_slot(vol, 3);
        lemma_root_head(self.layout, self.options.label);
        lemma_bitmap_entry_round_trip(bitmap_entry(self.layout));
        lemma_upcase_entry_round_trip(upcase_entry(self.layout));
        lemma_residents_step(vol, root, declared, 0);
        lemma_residents_step(vol, root, declared, 1);
        lemma_residents_step(vol, root, declared, 2);
        lemma_residents_step(vol, root, declared, 3);
    }

    /// The slots of the tree's entries say nothing of the whole volume.
    proof fn lemma_residents_entries(self, vol: Vol, j: int, k: int)
        requires
            self.wf(),
            self.is(vol),
            self.tree.dirs.len() > 0,
            0 <= j <= self.tree.dirs[0].entries.len(),
            0 <= k,
            k == 0 || j < self.tree.dirs[0].entries.len() && k <= self.slots_of(0, j),
        ensures
            residents(vol, self.place(0), self.length(0), self.slot_before(0, j) + k)
                == residents_of(self.layout, self.options.label),
        decreases j, k,
    {
        let root = self.place(0);
        let declared = self.length(0);
        let at = self.slot_before(0, j) + k;
        if k > 0 {
            self.lemma_residents_entries(vol, j, k - 1);
            self.lemma_set_slots(0, j);
            self.lemma_entry_slot(vol, 0, j, k - 1);
            self.lemma_slot_bounds(0, j);
            lemma_residents_step(vol, root, declared, at - 1);
            if k - 1 >= 1 {
                assert(continues(slot_of(self.set(0, j), k - 1)));
            }
        } else if j > 0 {
            self.lemma_set_slots(0, j - 1);
            self.lemma_residents_entries(vol, j - 1, self.slots_of(0, j - 1));
            assert(self.slot_before(0, j) == self.slot_before(0, j - 1) + self.slots_of(0, j - 1));
        } else {
            self.lemma_residents_head(vol);
        }
    }

    /// What the root directory says of the whole volume.
    proof fn lemma_residents(self, vol: Vol, n: int)
        requires
            self.wf(),
            self.is(vol),
            self.tree.dirs.len() > 0,
            self.slot_before(0, self.tree.dirs[0].entries.len() as int) <= n,
            n <= self.tree.dirs[0].run.count * vol.slots(),
        ensures
            residents(vol, self.place(0), self.length(0), n) == (Residents {
                stopped: residents(vol, self.place(0), self.length(0), n).stopped,
                ..residents_of(self.layout, self.options.label)
            }),
        decreases n,
    {
        let count = self.tree.dirs[0].entries.len() as int;
        self.lemma_slot_bounds(0, count);
        if n == self.slot_before(0, count) {
            self.lemma_residents_entries(vol, count, 0);
        } else {
            self.lemma_residents(vol, n - 1);
            self.lemma_slot_count(vol, 0);
            self.lemma_slot(vol, 0, n - 1);
            if !residents(vol, self.place(0), self.length(0), n - 1).stopped {
                lemma_residents_step(vol, self.place(0), self.length(0), n - 1);
            }
        }
    }

    /// The up-case table reads back as the words written.
    proof fn lemma_table_reads_back(self, vol: Vol)
        requires
            self.wf(),
            self.is(vol),
        ensures
            table_read(vol, upcase_entry(self.layout)) == Ok::<TableRead, ReadError>(
                TableRead { words: recommended_words(), log: Seq::empty() },
            ),
    {
        let layout = self.layout;
        let first = layout.upcase_cluster;
        let len = RECOMMENDED_UPCASE_BYTES as int;
        let count = upcase_clusters(layout);
        let pieces = head_pieces(layout, self.options, self.tree, used_by(self.tree, layout));
        self.lemma_head();
        self.lemma_vol(vol);
        self.lemma_chains(vol);
        lemma_resident_lens(layout, 0, 0);
        lemma_ceil_div(len, self.per());
        assert(runs(vol, Storage::Chain(first), first as int, count));
        lemma_stream_bytes(vol, Storage::Chain(first), first as int, count, len as u64, count);
        let at = layout.byte_of(first as int);
        let all = vol.bytes.subrange(at, at + count * self.per());
        assert(self.bytes.subrange(pieces[4].at, pieces[4].at + pieces[4].bytes.len())
            == pieces[4].bytes);
        assert(all.take(len) =~= upcase_of());
        reveal(upcase_of);
        lemma_recommended_words();
        let words = recommended_words();
        assert(upcase_of().subrange(0, 2 * words.len() as int) =~= le16_all(words));
        lemma_units_at(upcase_of(), 0, words);
        let read = table_read(vol, upcase_entry(layout))->Ok_0;
        assert(read.words =~= words);
        assert(read.log =~= Seq::<ReadError>::empty());
    }

    /// The name of the volume, where it has one.
    pub open spec fn label(self) -> Option<Seq<u8>> {
        let units = self.options.label.name();
        if units.len() == 0 {
            None
        } else {
            Some(utf8_of_units(units))
        }
    }

    /// The name of the volume reads back.
    proof fn lemma_label_reads_back(self)
        requires
            self.wf(),
        ensures
            label_in(self.options.label.label_entry().encoded()) == self.label(),
            label_log(self.options.label.label_entry().encoded()) == Seq::<ReadError>::empty(),
    {
        let label = self.options.label;
        let entry = label.label_entry().encoded();
        label.lemma_label_entry();
        lemma_label_entry_round_trip(label.label_entry());
        assert(label_units(entry) =~= label.name());
        assert(label_log(entry) =~= Seq::<ReadError>::empty());
    }

    /// What opening the volume finds.
    pub open spec fn found(self) -> Opened {
        Opened {
            boot: self.boot(),
            layout: self.layout,
            mapping: format_mapping(),
            bitmap: Resident {
                first_cluster: self.layout.bitmap_cluster,
                bytes: self.layout.bitmap_bytes,
            },
            label: self.label(),
            root_bytes: self.length(0),
            log: Seq::empty(),
        }
    }

    /// A volume a format has written opens, with nothing wrong with it, as what was written.
    pub proof fn lemma_opens(self)
        requires
            self.wf(),
        ensures
            opened(self.bytes) == Ok::<Opened, ReadError>(self.found()),
    {
        let boot = self.boot();
        let vol = Vol { bytes: self.bytes, layout: described(boot) };
        let root = self.place(0);
        let count = self.tree.dirs[0].run.count * vol.slots();
        self.lemma_boot();
        assert(self.is(vol));
        lemma_settled(self.tree, self.layout, format_mapping());
        self.lemma_root_len(vol);
        self.lemma_slot_count(vol, 0);
        self.lemma_residents(vol, count);
        self.lemma_table_reads_back(vol);
        self.lemma_label_reads_back();
        self.lemma_boot_log(vol);
        let state = residents(vol, root, self.length(0), count);
        let found = opened_with(vol, boot, self.length(0), state)->Ok_0;
        assert(found.log =~= Seq::<ReadError>::empty());
        assert(found == self.found());
    }
}

} // verus!
