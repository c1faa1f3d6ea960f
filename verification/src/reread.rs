//! Entry sets read back as they were written.
use vstd::prelude::*;

use crate::bytes::{le16_all, lemma_units_at, u32_at, units_at};
use crate::csum::{hash_of, set_sum};
use crate::deviation::Noted;
use crate::dirent::{
    lemma_file_entry_round_trip, lemma_stream_entry_round_trip, padded_units, EntryType,
    FileAttributes, FileEntry,
};
use crate::entryset::{
    carried_units, checksum_log, name_log, named_read, set_read, slot_of, slots_log, SetRead,
};
use crate::geometry::ExfatLayout;
use crate::model::{held_name, ClusterRun, EntryTimes, EntryView, MAX_DIRECTORY_BYTES};
use crate::name::{folded_by, lemma_held_name_reads_back, name_fault, name_units, PlacedName};
use crate::node::{
    attributes_log, bounded, length_log, node_in, node_log, reserved_bits, storage_log, times_in,
    times_log, valid_log, Named, Node, Times,
};
use crate::set::{
    file_entry_of, lemma_name_slot, lemma_name_slots, lemma_set_checksum, lemma_set_len, name_chunk,
    name_entries, name_slot, name_slots, set_of, set_with, stream_entry_of,
};
use crate::time::{lemma_unpack_undoes_pack, DosTimestamp, Timestamp};
use crate::unicode::utf8_of_units;
use crate::volume::Storage;

verus! {

/// The instant a recorded time is read as.
pub open spec fn stamped(stamp: DosTimestamp) -> Timestamp {
    Timestamp { secs: stamp.instant_secs() as i64, nanos: stamp.instant_nanos() as u32 }
}

/// The times an entry is read with: those it has, in UTC.
pub open spec fn times_back(times: EntryTimes) -> Times {
    Times {
        create: stamped(times.create),
        access: stamped(times.access),
        modify: stamped(times.modify),
        create_offset: Some(0),
        access_offset: Some(0),
        modify_offset: Some(0),
    }
}

/// Where the bytes of an entry are read from.
pub open spec fn storage_back(run: ClusterRun) -> Storage {
    if run.count == 0 {
        Storage::Empty
    } else {
        Storage::Contiguous(run.first)
    }
}

/// What an entry of these clusters and this length is read as.
pub open spec fn node_back(entry: EntryView, run: ClusterRun, length: u64) -> Node {
    Node {
        storage: storage_back(run),
        attributes: entry.attributes,
        data_length: length,
        valid_data_length: length,
        times: Some(times_back(entry.times)),
    }
}

/// Whether an entry of these clusters and this length is one a volume of this layout may have.
pub open spec fn set_sound(
    layout: ExfatLayout,
    mapping: Seq<u16>,
    entry: EntryView,
    run: ClusterRun,
    length: u64,
) -> bool {
    &&& held_name(entry.units)
    &&& entry.hash == hash_of(folded_by(mapping, entry.units))
    &&& reserved_bits(entry.attributes) == 0
    &&& entry.times.held()
    &&& run.count == 0 <==> length == 0
    &&& run.count == 0 <==> run.first == 0
    &&& length <= layout.cluster_count * layout.bytes_per_cluster
    &&& layout.bytes_per_cluster > 0
    &&& entry.attributes.has(FileAttributes::DIRECTORY) ==> {
        &&& 0 < length <= MAX_DIRECTORY_BYTES
        &&& length as int % layout.bytes_per_cluster as int == 0
    }
}

/// Slot `i` of the slots of a name.
proof fn lemma_name_slots_parts(units: Seq<u16>, m: int, i: int)
    requires
        0 <= i < m,
    ensures
        name_slots(units, m).len() == 32 * m,
        name_slots(units, m).subrange(32 * i, 32 * i + 32) == name_slot(units, i),
    decreases m,
{
    lemma_name_slots(units, m);
    lemma_name_slots(units, m - 1);
    lemma_name_slot(units, m - 1);
    let before = name_slots(units, m - 1);
    let last = name_slot(units, m - 1);
    assert(name_slots(units, m) == before + last);
    if i < m - 1 {
        lemma_name_slots_parts(units, m - 1, i);
        assert((before + last).subrange(32 * i, 32 * i + 32) =~= before.subrange(
            32 * i,
            32 * i + 32,
        ));
    } else {
        assert((before + last).subrange(32 * i, 32 * i + 32) =~= last);
    }
}

/// The slots of a set: its file entry, its stream extension, and its name.
pub proof fn lemma_set_parts(entry: EntryView, run: ClusterRun, length: u64, checksum: u16)
    ensures
        ({
            let set = set_with(entry, run, length, checksum);
            let count = name_entries(entry.units);
            &&& 0 <= count
            &&& set.len() == 32 * (2 + count)
            &&& slot_of(set, 0) == file_entry_of(entry, checksum).encoded()
            &&& slot_of(set, 1) == stream_entry_of(entry, run, length).encoded()
            &&& forall|i: int|
                0 <= i < count ==> #[trigger] slot_of(set, 2 + i) == name_slot(entry.units, i)
        }),
{
    let set = set_with(entry, run, length, checksum);
    let count = name_entries(entry.units);
    let file = file_entry_of(entry, checksum).encoded();
    let stream = stream_entry_of(entry, run, length).encoded();
    let names = name_slots(entry.units, count);
    lemma_set_len(entry, run, length, checksum);
    lemma_file_entry_round_trip(file_entry_of(entry, checksum));
    lemma_stream_entry_round_trip(stream_entry_of(entry, run, length));
    lemma_name_slots(entry.units, count);
    assert(slot_of(set, 0) =~= file);
    assert(slot_of(set, 1) =~= stream);
    assert forall|i: int| 0 <= i < count implies #[trigger] slot_of(set, 2 + i) == name_slot(
        entry.units,
        i,
    ) by {
        lemma_name_slots_parts(entry.units, count, i);
        assert(slot_of(set, 2 + i) =~= names.subrange(32 * i, 32 * i + 32));
    }
}

/// The units a name entry of a set carries.
proof fn lemma_name_slot_units(units: Seq<u16>, i: int)
    ensures
        name_slot(units, i)[0] == EntryType::FILE_NAME,
        units_at(name_slot(units, i), 2, 15) == padded_units(name_chunk(units, i)),
{
    let chunk = padded_units(name_chunk(units, i));
    lemma_name_slot(units, i);
    assert(name_slot(units, i).subrange(2, 2 + 2 * chunk.len() as int) =~= le16_all(chunk));
    lemma_units_at(name_slot(units, i), 2, chunk);
}

/// The first units a set carries are those of its name.
proof fn lemma_carried(
    entry: EntryView,
    run: ClusterRun,
    length: u64,
    checksum: u16,
    k: int,
    index: u32,
)
    requires
        0 <= k <= name_entries(entry.units),
    ensures
        ({
            let set = set_with(entry, run, length, checksum);
            let carried = carried_units(set, 2 + k);
            &&& carried.len() == 15 * k
            &&& forall|i: int|
                0 <= i < 15 * k && i < entry.units.len() ==> #[trigger] carried[i]
                    == entry.units[i]
            &&& slots_log(set, 2 + k, index) == Seq::<Noted>::empty()
        }),
    decreases k,
{
    if k > 0 {
        let set = set_with(entry, run, length, checksum);
        lemma_carried(entry, run, length, checksum, k - 1, index);
        lemma_set_parts(entry, run, length, checksum);
        lemma_name_slot_units(entry.units, k - 1);
        let slot = slot_of(set, 2 + (k - 1));
        assert(slot == name_slot(entry.units, k - 1));
        assert(slot[0] == set[32 * (k + 1)]);
        let before = carried_units(set, 2 + (k - 1));
        let carried = carried_units(set, 2 + k);
        let chunk = name_chunk(entry.units, k - 1);
        assert(carried == before + units_at(slot, 2, 15));
        assert forall|i: int| 0 <= i < 15 * k && i < entry.units.len() implies #[trigger] carried[i]
            == entry.units[i] by {
            if i < 15 * (k - 1) {
                assert(carried[i] == before[i]);
            } else {
                let at = i - 15 * (k - 1);
                assert(carried[i] == padded_units(chunk)[at]);
                assert(chunk[at] == entry.units[i]);
            }
        }
        assert(slots_log(set, 2 + k, index) =~= Seq::<Noted>::empty());
    }
}

/// The entry of a set is decoded as it was written.
proof fn lemma_file_decoded(set: Seq<u8>, file: FileEntry)
    requires
        set.len() >= 32,
        slot_of(set, 0) == file.encoded(),
    ensures
        FileEntry::decoded(set) == file,
        set[0] == EntryType::FILE,
{
    lemma_file_entry_round_trip(file);
    let enc = file.encoded();
    assert forall|i: int| 0 <= i < 32 implies set[i] == enc[i] by {
        assert(set[i] == slot_of(set, 0)[i]);
    }
    assert(set[0] == enc[0] && set[1] == enc[1] && set[2] == enc[2] && set[3] == enc[3] && set[4]
        == enc[4] && set[5] == enc[5]);
    assert(u32_at(set, 8) == u32_at(enc, 8) && u32_at(set, 12) == u32_at(enc, 12) && u32_at(set, 16)
        == u32_at(enc, 16));
    assert(set[20] == enc[20] && set[21] == enc[21] && set[22] == enc[22] && set[23] == enc[23]
        && set[24] == enc[24]);
    assert(FileEntry::decoded(set) == FileEntry::decoded(enc));
}

/// Nothing is wrong with the node of a sound entry.
proof fn lemma_node_back(
    layout: ExfatLayout,
    mapping: Seq<u16>,
    entry: EntryView,
    run: ClusterRun,
    length: u64,
    checksum: u16,
    index: u32,
)
    requires
        set_sound(layout, mapping, entry, run, length),
    ensures
        ({
            let file = file_entry_of(entry, checksum);
            let stream = stream_entry_of(entry, run, length);
            &&& node_log(layout, file, stream, index) == Seq::<Noted>::empty()
            &&& node_in(layout, file, stream) == node_back(entry, run, length)
        }),
{
    let file = file_entry_of(entry, checksum);
    let stream = stream_entry_of(entry, run, length);
    let is_dir = entry.attributes.has(FileAttributes::DIRECTORY);
    assert(layout.cluster_count * layout.bytes_per_cluster <= 0xFFFF_FFFF * 0xFFFF_FFFF)
        by (nonlinear_arith)
        requires
            layout.cluster_count <= 0xFFFF_FFFF,
            layout.bytes_per_cluster <= 0xFFFF_FFFF,
    ;
    lemma_unpack_undoes_pack(entry.times.create);
    lemma_unpack_undoes_pack(entry.times.modify);
    lemma_unpack_undoes_pack(entry.times.access);
    assert(bounded(layout, length, is_dir) == length);
    assert(attributes_log(file, index) =~= Seq::<Noted>::empty()) by {
        reveal(attributes_log);
    }
    assert(times_log(file, index) =~= Seq::<Noted>::empty()) by {
        reveal(times_log);
    }
    assert(storage_log(stream, is_dir, index) =~= Seq::<Noted>::empty()) by {
        reveal(storage_log);
    }
    assert(length_log(layout, length, is_dir, index) =~= Seq::<Noted>::empty()) by {
        reveal(length_log);
    }
    assert(valid_log(length, length, index) =~= Seq::<Noted>::empty()) by {
        reveal(valid_log);
    }
    assert(node_log(layout, file, stream, index) =~= Seq::<Noted>::empty());
    assert(times_in(file) == times_back(entry.times));
}

/// The set of a sound entry reads back as the entry, with nothing wrong with it.
pub proof fn lemma_set_reads_back(
    layout: ExfatLayout,
    mapping: Seq<u16>,
    entry: EntryView,
    run: ClusterRun,
    length: u64,
    index: u32,
)
    requires
        set_sound(layout, mapping, entry, run, length),
    ensures
        set_read(layout, mapping, set_of(entry, run, length), index) == (SetRead {
            log: Seq::empty(),
            entry: Some(
                Named {
                    name: utf8_of_units(entry.units),
                    node: node_back(entry, run, length),
                },
            ),
        }),
{
    let checksum = set_sum(set_with(entry, run, length, 0));
    let set = set_of(entry, run, length);
    let file = file_entry_of(entry, checksum);
    let stream = stream_entry_of(entry, run, length);
    let count = name_entries(entry.units);
    let carried = carried_units(set, 2 + count);
    let name = choose|name: Seq<u8>|
        name_fault(name) is None && #[trigger] name_units(name) == entry.units;
    lemma_held_name_reads_back(name);
    crate::allocate::lemma_held_name(entry.units);
    lemma_set_parts(entry, run, length, checksum);
    lemma_set_checksum(entry, run, length);
    lemma_file_decoded(set, file);
    lemma_stream_entry_round_trip(stream);
    lemma_carried(entry, run, length, checksum, count, index);
    lemma_node_back(layout, mapping, entry, run, length, checksum, index);
    assert(set[32] == slot_of(set, 1)[0]);
    assert(set.len() as int / 32 == 2 + count);
    assert(entry.units.len() <= 15 * count);
    assert(carried.take(entry.units.len() as int) =~= entry.units);
    assert(checksum_log(set, index) =~= Seq::<Noted>::empty());
    let log = name_log(mapping, entry.units, carried.len() as int, stream.name_hash, index);
    assert(log =~= Seq::<Noted>::empty());
    let read = set_read(layout, mapping, set, index);
    assert(named_read(layout, mapping, set, index).log =~= Seq::<Noted>::empty());
    assert(read.log =~= Seq::<Noted>::empty());
}

/// Whether a slot continues a set.
pub open spec fn continues(bytes: Seq<u8>) -> bool {
    bytes[0] == EntryType::STREAM_EXTENSION || bytes[0] == EntryType::FILE_NAME
}

/// The kinds of the slots of a set.
pub proof fn lemma_set_kinds(entry: EntryView, run: ClusterRun, length: u64)
    requires
        1 <= entry.units.len() <= 255,
    ensures
        ({
            let set = set_of(entry, run, length);
            let count = PlacedName::slots_of(entry.units.len() as int);
            &&& 3 <= count <= 19
            &&& set.len() == 32 * count
            &&& slot_of(set, 0)[0] == EntryType::FILE
            &&& FileEntry::decoded(slot_of(set, 0)).secondary_count == count - 1
            &&& forall|k: int| 1 <= k < count ==> continues(#[trigger] slot_of(set, k))
        }),
{
    let set = set_of(entry, run, length);
    let count = PlacedName::slots_of(entry.units.len() as int);
    let checksum = set_sum(set_with(entry, run, length, 0));
    lemma_set_parts(entry, run, length, checksum);
    lemma_file_entry_round_trip(file_entry_of(entry, checksum));
    lemma_stream_entry_round_trip(stream_entry_of(entry, run, length));
    assert forall|k: int| 1 <= k < count implies continues(#[trigger] slot_of(set, k)) by {
        if k >= 2 {
            lemma_name_slot_units(entry.units, k - 2);
            assert(slot_of(set, 2 + (k - 2)) == name_slot(entry.units, k - 2));
        }
    }
}

} // verus!
