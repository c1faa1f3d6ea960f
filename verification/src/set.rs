//! The set of directory entries one file or directory has.
use vstd::prelude::*;

use crate::bytes::{le16_all, push_all};
use crate::csum::{entry_set_checksum, lemma_set_sum_ignores_skips, set_sum};
use crate::dirent::{
    padded_units, EntryType, FileEntry, FileNameEntry, StreamExtensionEntry, DIR_ENTRY_SIZE,
    MAX_NAME_UNITS, NAME_UNITS_PER_ENTRY, SECONDARY_ALLOCATION_POSSIBLE, SECONDARY_NO_FAT_CHAIN,
};
use crate::model::{ClusterRun, EntryView, ModelEntry};
use crate::name::PlacedName;
use crate::number::ceil_div;
use crate::time::{pack_timestamp, DosTimestamp, UTC_OFFSET};

verus! {

/// A date and a time as one field.
pub open spec fn packed(stamp: DosTimestamp) -> u32 {
    (stamp.date * 0x1_0000 + stamp.time) as u32
}

/// The first entry of a set, with this checksum.
pub open spec fn file_entry_of(entry: EntryView, checksum: u16) -> FileEntry {
    FileEntry {
        secondary_count: (PlacedName::slots_of(entry.units.len() as int) - 1) as u8,
        set_checksum: checksum,
        attributes: entry.attributes,
        create: packed(entry.times.create),
        modify: packed(entry.times.modify),
        access: packed(entry.times.access),
        create_tenth: entry.times.create.tenth,
        modify_tenth: entry.times.modify.tenth,
        create_utc_offset: UTC_OFFSET,
        modify_utc_offset: UTC_OFFSET,
        access_utc_offset: UTC_OFFSET,
    }
}

/// The flags of a stream with these clusters: an allocation is possible, and where there is one
/// its clusters are consecutive.
pub open spec fn flags_of(run: ClusterRun) -> u8 {
    if run.count == 0 {
        SECONDARY_ALLOCATION_POSSIBLE
    } else {
        0x03
    }
}

/// The second entry of a set of a stream with these clusters and this length.
pub open spec fn stream_entry_of(
    entry: EntryView,
    run: ClusterRun,
    length: u64,
) -> StreamExtensionEntry {
    StreamExtensionEntry {
        flags: flags_of(run),
        name_length: entry.units.len() as u8,
        name_hash: entry.hash,
        valid_data_length: length,
        first_cluster: run.first,
        data_length: length,
    }
}

/// The units name entry `n` carries: the next fifteen, or what is left of them.
pub open spec fn name_chunk(units: Seq<u16>, n: int) -> Seq<u16> {
    units.subrange(
        15 * n,
        if 15 * n + 15 <= units.len() {
            15 * n + 15
        } else {
            units.len() as int
        },
    )
}

/// The bytes of name entry `n`.
pub open spec fn name_slot(units: Seq<u16>, n: int) -> Seq<u8> {
    seq![EntryType::FILE_NAME, 0u8] + le16_all(padded_units(name_chunk(units, n)))
}

/// The bytes of the first `n` name entries.
pub open spec fn name_slots(units: Seq<u16>, n: int) -> Seq<u8>
    decreases n,
{
    if n <= 0 {
        Seq::empty()
    } else {
        name_slots(units, n - 1) + name_slot(units, n - 1)
    }
}

/// The name entries of a name.
pub open spec fn name_entries(units: Seq<u16>) -> int {
    ceil_div(units.len() as int, NAME_UNITS_PER_ENTRY as int)
}

/// The bytes of a set with this checksum.
pub open spec fn set_with(entry: EntryView, run: ClusterRun, length: u64, checksum: u16) -> Seq<u8> {
    file_entry_of(entry, checksum).encoded() + stream_entry_of(entry, run, length).encoded()
        + name_slots(entry.units, name_entries(entry.units))
}

/// The bytes of a set: its checksum is that of the set without one.
pub open spec fn set_of(entry: EntryView, run: ClusterRun, length: u64) -> Seq<u8> {
    set_with(entry, run, length, set_sum(set_with(entry, run, length, 0)))
}

/// A name slot is 32 bytes.
pub proof fn lemma_name_slot(units: Seq<u16>, n: int)
    ensures
        name_slot(units, n).len() == DIR_ENTRY_SIZE,
{
}

/// Name slots are 32 bytes each.
pub proof fn lemma_name_slots(units: Seq<u16>, n: int)
    requires
        0 <= n,
    ensures
        name_slots(units, n).len() == 32 * n,
    decreases n,
{
    if n > 0 {
        lemma_name_slots(units, n - 1);
    }
}

/// A set is as many slots as its name asks.
pub proof fn lemma_set_len(entry: EntryView, run: ClusterRun, length: u64, checksum: u16)
    ensures
        set_with(entry, run, length, checksum).len() == 32 * PlacedName::slots_of(
            entry.units.len() as int,
        ),
{
    lemma_name_slots(entry.units, name_entries(entry.units));
}

/// The checksum a set carries is the checksum of the set as it stands.
pub proof fn lemma_set_checksum(entry: EntryView, run: ClusterRun, length: u64)
    ensures
        set_sum(set_of(entry, run, length)) == file_entry_of(
            entry,
            set_sum(set_with(entry, run, length, 0)),
        ).set_checksum,
{
    let plain = set_with(entry, run, length, 0);
    let set = set_of(entry, run, length);
    lemma_set_len(entry, run, length, 0);
    lemma_set_len(entry, run, length, set_sum(plain));
    assert forall|i: int| 0 <= i < plain.len() && i != 2 && i != 3 implies plain[i] == set[i] by {
        if i < 32 {
            let a = file_entry_of(entry, 0).encoded();
            let b = file_entry_of(entry, set_sum(plain)).encoded();
            assert(plain[i] == a[i]);
            assert(set[i] == b[i]);
        }
    }
    lemma_set_sum_ignores_skips(plain, set);
}

/// The flags of a stream with these clusters.
#[must_use]
pub fn stream_flags(run: ClusterRun) -> (flags: u8)
    ensures
        flags == flags_of(run),
{
    if run.is_empty() {
        SECONDARY_ALLOCATION_POSSIBLE
    } else {
        assert(0x01u8 | 0x02u8 == 0x03u8) by (bit_vector);
        SECONDARY_ALLOCATION_POSSIBLE | SECONDARY_NO_FAT_CHAIN
    }
}

/// Append the set of an entry with these clusters and this length.
pub fn push_entry_set(out: &mut Vec<u8>, entry: &ModelEntry, run: ClusterRun, length: u64)
    requires
        entry.name.units@.len() <= MAX_NAME_UNITS,
    ensures
        final(out)@ == old(out)@ + set_of(entry@, run, length),
{
    let ghost view = entry@;
    let units: &[u16] = &entry.name.units;
    let count: usize = units.len();
    let file = FileEntry {
        secondary_count: entry.name.secondary_count(),
        set_checksum: 0,
        attributes: entry.attributes,
        create: pack_timestamp(entry.times.create),
        modify: pack_timestamp(entry.times.modify),
        access: pack_timestamp(entry.times.access),
        create_tenth: entry.times.create.tenth,
        modify_tenth: entry.times.modify.tenth,
        create_utc_offset: UTC_OFFSET,
        modify_utc_offset: UTC_OFFSET,
        access_utc_offset: UTC_OFFSET,
    };
    let stream = StreamExtensionEntry {
        flags: stream_flags(run),
        name_length: count as u8,
        name_hash: entry.name.hash,
        valid_data_length: length,
        first_cluster: run.first,
        data_length: length,
    };
    let mut rest = stream.encode();
    let mut n: usize = 0;
    let mut at: usize = 0;
    assert(rest@ =~= stream_entry_of(view, run, length).encoded() + name_slots(view.units, 0));
    while at < count
        invariant
            units@ == view.units,
            count == units@.len(),
            count <= MAX_NAME_UNITS,
            n <= MAX_NAME_UNITS,
            at == (if 15 * n <= count {
                15 * n
            } else {
                count as int
            }),
            15 * n < count + 15,
            rest@ == stream_entry_of(view, run, length).encoded() + name_slots(
                view.units,
                n as int,
            ),
        decreases count - at,
    {
        let to: usize = if count - at > NAME_UNITS_PER_ENTRY {
            at + NAME_UNITS_PER_ENTRY
        } else {
            count
        };
        let chunk = vstd::slice::slice_subrange(units, at, to);
        assert(chunk@ == name_chunk(view.units, n as int));
        let slot = FileNameEntry::new(chunk).encode();
        assert(slot@ =~= name_slot(view.units, n as int));
        push_all(&mut rest, &slot);
        assert(rest@ =~= stream_entry_of(view, run, length).encoded() + name_slots(
            view.units,
            n + 1,
        ));
        n += 1;
        at = to;
    }
    assert(n == name_entries(view.units));
    let head = file.encode();
    let mut plain: Vec<u8> = Vec::new();
    push_all(&mut plain, &head);
    push_all(&mut plain, &rest);
    assert(file == file_entry_of(view, 0));
    assert(plain@ =~= set_with(view, run, length, 0));
    let checksum: u16 = entry_set_checksum(&plain);
    let head = FileEntry { set_checksum: checksum, ..file }.encode();
    push_all(out, &head);
    push_all(out, &rest);
    assert(out@ =~= old(out)@ + set_of(view, run, length));
}

} // verus!
