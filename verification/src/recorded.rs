//! What the slots of a file record, byte by byte.
use vstd::prelude::*;

use crate::bytes::units_at;
use crate::chains::word_at;
use crate::csum::{hash_of, set_sum};
use crate::deviation::{lemma_refused_concat, lemma_refused_one, noted, refused, Noted};
use crate::dirent::{FileAttributes, FileEntry, StreamExtensionEntry};
use crate::entryset::{carried_units, checksum_log, name_log, set_read, slot_of, slots_log};
use crate::finding::Location;
use crate::geometry::ExfatLayout;
use crate::image::lemma_ceil_div;
use crate::model::MAX_DIRECTORY_BYTES;
use crate::name::folded_by;
use crate::node::{
    attributes_log, length_log, lemma_times_are_local_times_less_their_zones, node_log, recorded_as,
    reserved_bits, storage_log, time_log, times_log, valid_log,
};
use crate::number::ceil_div;
use crate::path::is_hostile;
use crate::policy::ReadPolicy;
use crate::read_error::ReadError;
use crate::time::DosTimestamp;
use crate::unicode::{utf8_of_units, well_formed_units};
use crate::volume::Storage;

verus! {

/// The number two bytes spell, the lower first.
pub open spec fn half_at(bytes: Seq<u8>, at: int) -> int {
    bytes[at] + 256 * bytes[at + 1]
}

/// The number eight bytes spell, the lowest first.
pub open spec fn long_at(bytes: Seq<u8>, at: int) -> int {
    word_at(bytes, at) + 0x1_0000_0000 * word_at(bytes, at + 4)
}

/// The date and time two words and the hundredths beside them are.
pub open spec fn stamp_at(bytes: Seq<u8>, at: int, tenth: u8) -> DosTimestamp {
    DosTimestamp {
        date: half_at(bytes, at + 2) as u16,
        time: half_at(bytes, at) as u16,
        tenth,
    }
}

/// Whether slots are those of a file and of nothing else: the first, then one that says where its
/// bytes are, then those of its name.
pub open spec fn is_plain_set(bytes: Seq<u8>, count: int) -> bool {
    &&& count > 0
    &&& bytes.len() == 32 * (2 + count)
    &&& bytes[0] == 0x85
    &&& bytes[32] == 0xC0
    &&& forall|k: int| 2 <= k < 2 + count ==> #[trigger] bytes[32 * k] == 0xC1
}

/// The units the name slots of a file carry, fifteen in each behind its first two bytes.
pub open spec fn units_in(bytes: Seq<u8>, count: int) -> Seq<u16> {
    Seq::new(
        (15 * count) as nat,
        |i: int| half_at(bytes, 64 + 32 * (i / 15) + 2 + 2 * (i % 15)) as u16,
    )
}

/// The units of the name of a file.
pub open spec fn name_in(bytes: Seq<u8>, count: int) -> Seq<u16> {
    units_in(bytes, count).take(bytes[35] as int)
}

/// The units the first name slots of a file carry.
proof fn lemma_carried(bytes: Seq<u8>, count: int, n: int)
    requires
        is_plain_set(bytes, count),
        0 <= n <= count,
    ensures
        carried_units(bytes, 2 + n) == units_in(bytes, count).take(15 * n),
    decreases n,
{
    let all = units_in(bytes, count);
    if n > 0 {
        lemma_carried(bytes, count, n - 1);
        let k = 2 + n - 1;
        assert(bytes[32 * k] == 0xC1);
        let own = units_at(slot_of(bytes, k), 2, 15);
        assert forall|i: int| 0 <= i < 15 implies own[i] == all[15 * (n - 1) + i] by {
            let at = 15 * (n - 1) + i;
            assert(at / 15 == n - 1 && at % 15 == i);
        }
        assert(all.take(15 * (n - 1)) + own =~= all.take(15 * n));
    } else {
        assert(all.take(0) =~= Seq::empty());
    }
}

/// Nothing is wrong with slots that are names.
proof fn lemma_slots_are_names(bytes: Seq<u8>, count: int, n: int, index: u32)
    requires
        is_plain_set(bytes, count),
        0 <= n <= count,
    ensures
        slots_log(bytes, 2 + n, index).len() == 0,
    decreases n,
{
    if n > 0 {
        lemma_slots_are_names(bytes, count, n - 1, index);
        let k = 2 + n - 1;
        assert(bytes[32 * k] == 0xC1);
    }
}

/// Whether the bit of a directory is set.
proof fn lemma_directory_bit(word: u16)
    ensures
        (word & 0x10 == 0x10) == ((word / 16) % 2 == 1),
{
    assert((word & 0x10 == 0x10) == ((word / 16) % 2 == 1)) by (bit_vector);
}

/// What a set says of its first two slots and of the units of its name.
proof fn lemma_fields(bytes: Seq<u8>, count: int)
    requires
        is_plain_set(bytes, count),
    ensures
        ({
            let file = FileEntry::decoded(bytes);
            let stream = StreamExtensionEntry::decoded(slot_of(bytes, 1));
            &&& file.set_checksum == half_at(bytes, 2)
            &&& file.attributes.word() == half_at(bytes, 4)
            &&& file.create == word_at(bytes, 8)
            &&& file.modify == word_at(bytes, 12)
            &&& file.access == word_at(bytes, 16)
            &&& stream.flags == bytes[33]
            &&& stream.name_length == bytes[35]
            &&& stream.name_hash == half_at(bytes, 36)
            &&& stream.valid_data_length == long_at(bytes, 40)
            &&& stream.first_cluster == word_at(bytes, 52)
            &&& stream.data_length == long_at(bytes, 56)
            &&& carried_units(bytes, bytes.len() as int / 32) == units_in(bytes, count)
        }),
{
    broadcast use FileAttributes::lemma_of_word;

    lemma_carried(bytes, count, count);
    let second = slot_of(bytes, 1);
    assert forall|i: int| 0 <= i < 32 implies second[i] == bytes[32 + i] by {}
    assert(units_in(bytes, count).take(15 * count) =~= units_in(bytes, count));
    assert(bytes.len() as int / 32 == 2 + count);
}

/// A file is what its slots record: its name is as many of the units they carry as they say, as
/// UTF-8; its bytes begin on the cluster they name, and are in consecutive clusters where the
/// second bit of the flags says so and else in those the table chains; it is as long as they say,
/// though no longer than the heap, nor a directory longer than 256 MiB, and was written as far as
/// they say, though no further than it is long; and its times are theirs.
pub proof fn lemma_a_file_is_what_its_slots_record(
    layout: ExfatLayout,
    mapping: Seq<u16>,
    bytes: Seq<u8>,
    count: int,
    index: u32,
)
    requires
        is_plain_set(bytes, count),
        bytes[35] <= 15 * count,
        !is_hostile(utf8_of_units(name_in(bytes, count))),
        layout.cluster_count * layout.bytes_per_cluster <= u64::MAX,
    ensures
        ({
            let read = set_read(layout, mapping, bytes, index).entry;
            let heap = layout.cluster_count * layout.bytes_per_cluster;
            let first = word_at(bytes, 52) as u32;
            let declared = long_at(bytes, 56);
            let node = read->Some_0.node;
            let directory = half_at(bytes, 4) / 16 % 2 == 1;
            let held = if declared <= heap {
                declared
            } else {
                heap
            };
            let length = if directory && held > 0x1000_0000 {
                0x1000_0000
            } else {
                held
            };
            &&& read is Some
            &&& read->Some_0.name == utf8_of_units(name_in(bytes, count))
            &&& node.attributes.word() == half_at(bytes, 4)
            &&& node.directory() == directory
            &&& node.storage == (if first == 0 || declared == 0 {
                Storage::Empty
            } else if bytes[33] as int / 2 % 2 == 1 {
                Storage::Contiguous(first)
            } else {
                Storage::Chain(first)
            })
            &&& node.data_length == length
            &&& node.valid_data_length == (if long_at(bytes, 40) <= length {
                long_at(bytes, 40)
            } else {
                length
            })
            &&& node.times matches Some(times) && {
                &&& recorded_as(
                    times.create,
                    times.create_offset,
                    stamp_at(bytes, 8, bytes[20]),
                    bytes[22],
                )
                &&& recorded_as(
                    times.modify,
                    times.modify_offset,
                    stamp_at(bytes, 12, bytes[21]),
                    bytes[23],
                )
                &&& recorded_as(
                    times.access,
                    times.access_offset,
                    stamp_at(bytes, 16, 0),
                    bytes[24],
                )
            }
        }),
{
    lemma_fields(bytes, count);
    let file = FileEntry::decoded(bytes);
    lemma_times_are_local_times_less_their_zones(file);
    lemma_stamp(bytes, 8, bytes[20]);
    lemma_stamp(bytes, 12, bytes[21]);
    lemma_stamp(bytes, 16, 0);
    lemma_directory_bit(file.attributes.word());
    assert(0 <= layout.cluster_count * layout.bytes_per_cluster) by (nonlinear_arith);
}

/// A date and time field is its two words.
proof fn lemma_stamp(bytes: Seq<u8>, at: int, tenth: u8)
    ensures
        ({
            let field = word_at(bytes, at) as u32;
            (DosTimestamp {
                date: (field / 0x1_0000) as u16,
                time: (field % 0x1_0000) as u16,
                tenth,
            }) == stamp_at(bytes, at, tenth)
        }),
{
}

/// Whether all that a file's slots record agrees, with itself and with the volume: their checksum,
/// the hash of the name and how many slots it takes, that its units are characters, that the
/// attributes are of those the format defines, that the times are on the calendar, that it has
/// clusters where it has a length and only there, and may have them, and that it is no longer than
/// there is room, a directory being whole clusters.
pub open spec fn agrees(
    layout: ExfatLayout,
    mapping: Seq<u16>,
    bytes: Seq<u8>,
    count: int,
) -> bool {
    let first = word_at(bytes, 52);
    let declared = long_at(bytes, 56);
    let directory = half_at(bytes, 4) / 16 % 2 == 1;
    let name = name_in(bytes, count);
    &&& set_sum(bytes) == half_at(bytes, 2)
    &&& 15 * (count - 1) < name.len() <= 15 * count
    &&& hash_of(folded_by(mapping, name)) == half_at(bytes, 36)
    &&& well_formed_units(name)
    &&& (half_at(bytes, 4) as u16) & !0x37u16 == 0
    &&& stamp_at(bytes, 8, bytes[20]).on_the_calendar()
    &&& stamp_at(bytes, 12, bytes[21]).on_the_calendar()
    &&& stamp_at(bytes, 16, 0).on_the_calendar()
    &&& (first == 0) == (declared == 0)
    &&& directory ==> declared != 0
    &&& declared != 0 ==> bytes[33] % 2 == 1
    &&& declared <= layout.cluster_count * layout.bytes_per_cluster
    &&& directory ==> declared <= 0x1000_0000 && declared % (layout.bytes_per_cluster as int) == 0
}

/// What two lists hold is refused where neither's is.
proof fn lemma_strict_concat(a: Seq<Noted>, b: Seq<Noted>)
    ensures
        refused(Some(ReadPolicy::Strict), a + b) is None <==> refused(
            Some(ReadPolicy::Strict),
            a,
        ) is None && refused(Some(ReadPolicy::Strict), b) is None,
        (a + b).len() == 0 <==> a.len() == 0 && b.len() == 0,
{
    lemma_refused_concat(Some(ReadPolicy::Strict), a, b);
}

/// What is wrong is refused by a strict read, unless it is something a driver leaves behind.
proof fn lemma_strict_one(there: bool, at: Location, err: ReadError)
    requires
        !(err is ValidLengthTrails || err is PercentInUseStale || err is VolumeDirty
            || err is MediaFailure),
    ensures
        refused(Some(ReadPolicy::Strict), noted(there, at, err)) is None <==> !there,
        noted(there, at, err).len() == 0 <==> !there,
{
    reveal(ReadError::severity_of);
    lemma_refused_one(Some(ReadPolicy::Strict), there, at, err);
}

/// What is wrong with the attributes and the times.
proof fn lemma_attributes_and_times(bytes: Seq<u8>, count: int, index: u32)
    requires
        is_plain_set(bytes, count),
    ensures
        ({
            let file = FileEntry::decoded(bytes);
            let strict = Some(ReadPolicy::Strict);
            let sound = (half_at(bytes, 4) as u16) & !0x37u16 == 0;
            let dated = stamp_at(bytes, 8, bytes[20]).on_the_calendar() && stamp_at(
                bytes,
                12,
                bytes[21],
            ).on_the_calendar() && stamp_at(bytes, 16, 0).on_the_calendar();
            &&& refused(strict, attributes_log(file, index)) is None <==> sound
            &&& attributes_log(file, index).len() == 0 <==> sound
            &&& refused(strict, times_log(file, index)) is None <==> dated
            &&& times_log(file, index).len() == 0 <==> dated
        }),
{
    lemma_fields(bytes, count);
    lemma_stamp(bytes, 8, bytes[20]);
    lemma_stamp(bytes, 12, bytes[21]);
    lemma_stamp(bytes, 16, 0);
    reveal(attributes_log);
    reveal(times_log);
    let file = FileEntry::decoded(bytes);
    let at = Location::of_entry(index);
    let bits = reserved_bits(file.attributes);
    lemma_strict_one(bits != 0, at, ReadError::ReservedAttributes { index, bits });
    let a = time_log(file.create, file.create_tenth, "creation time", index);
    let b = time_log(file.modify, file.modify_tenth, "modification time", index);
    let c = time_log(file.access, 0, "access time", index);
    lemma_strict_one(
        !stamp_at(bytes, 8, bytes[20]).on_the_calendar(),
        at,
        ReadError::MalformedTimestamp { index, field: "creation time" },
    );
    lemma_strict_one(
        !stamp_at(bytes, 12, bytes[21]).on_the_calendar(),
        at,
        ReadError::MalformedTimestamp { index, field: "modification time" },
    );
    lemma_strict_one(
        !stamp_at(bytes, 16, 0).on_the_calendar(),
        at,
        ReadError::MalformedTimestamp { index, field: "access time" },
    );
    lemma_strict_concat(a, b);
    lemma_strict_concat(a + b, c);
}

/// What is wrong with the clusters and with the length.
proof fn lemma_clusters_and_length(layout: ExfatLayout, bytes: Seq<u8>, count: int, index: u32)
    requires
        is_plain_set(bytes, count),
        layout.bytes_per_cluster > 0,
        layout.cluster_count * layout.bytes_per_cluster <= u64::MAX,
    ensures
        ({
            let stream = StreamExtensionEntry::decoded(slot_of(bytes, 1));
            let strict = Some(ReadPolicy::Strict);
            let first = word_at(bytes, 52);
            let declared = long_at(bytes, 56);
            let directory = half_at(bytes, 4) / 16 % 2 == 1;
            let placed = (first == 0) == (declared == 0) && (directory ==> declared != 0) && (
            declared != 0 ==> bytes[33] % 2 == 1);
            let fits = declared <= layout.cluster_count * layout.bytes_per_cluster && (directory
                ==> declared <= 0x1000_0000 && declared % (layout.bytes_per_cluster as int) == 0);
            let storage = storage_log(stream, directory, index);
            let length = length_log(layout, stream.data_length, directory, index);
            &&& refused(strict, storage) is None <==> placed
            &&& storage.len() == 0 <==> placed
            &&& fits ==> length.len() == 0 && refused(strict, length) is None
            &&& !fits ==> length.len() != 0 && refused(strict, length) is Some
        }),
{
    lemma_fields(bytes, count);
    reveal(storage_log);
    reveal(length_log);
    let stream = StreamExtensionEntry::decoded(slot_of(bytes, 1));
    let directory = half_at(bytes, 4) / 16 % 2 == 1;
    let at = Location::of_entry(index);
    let none = stream.first_cluster == 0 || stream.data_length == 0;
    let without = ReadError::StreamWithoutAllocation { index, declared: stream.data_length };
    let unused = ReadError::AllocationWithoutLength { index, first_cluster: stream.first_cluster };
    let bare = ReadError::DirectoryWithoutAllocation { index };
    let denied = ReadError::AllocationNotPossible { index };
    let headless = stream.first_cluster == 0 && stream.data_length != 0;
    let lengthless = stream.first_cluster != 0 && stream.data_length == 0;
    let impossible = !none && !stream.allocation_possible();
    lemma_strict_one(headless, at, without);
    lemma_strict_one(lengthless, at, unused);
    lemma_strict_one(none && directory, at, bare);
    lemma_strict_one(impossible, at, denied);
    let a = noted(headless, at, without);
    let b = noted(lengthless, at, unused);
    let c = noted(none && directory, at, bare);
    let d = noted(impossible, at, denied);
    lemma_strict_concat(a, b);
    lemma_strict_concat(a + b, c);
    lemma_strict_concat(a + b + c, d);
    assert(0 <= layout.cluster_count * layout.bytes_per_cluster) by (nonlinear_arith);
    let heap = crate::node::heap_of(layout);
    let declared = stream.data_length;
    let held = crate::node::at_most(declared, heap);
    let length = crate::node::bounded(layout, declared, directory);
    let past = ReadError::StreamPastHeap { declared, limit: heap };
    let long = ReadError::DirectoryTooLong { index, declared: held, limit: MAX_DIRECTORY_BYTES };
    let partial = ReadError::DirectoryLengthNotClusters {
        index,
        declared: length,
        bytes_per_cluster: layout.bytes_per_cluster,
    };
    let too_long = directory && held > MAX_DIRECTORY_BYTES;
    let is_partial = directory && length as int % layout.bytes_per_cluster as int != 0;
    lemma_strict_one(declared > heap, at, past);
    lemma_strict_one(too_long, at, long);
    lemma_strict_one(is_partial, at, partial);
    let e = noted(declared > heap, at, past);
    let f = noted(too_long, at, long);
    let g = noted(is_partial, at, partial);
    lemma_strict_concat(e, f);
    lemma_strict_concat(e + f, g);
}

/// Nothing is wrong with a file exactly where all that its slots record agrees and it was written
/// as far as it is long; and a strict read refuses it exactly where something does not agree, or
/// where it says it was written further than it is long. One that was written less far than it is
/// long is something a driver leaves behind.
pub proof fn lemma_a_file_is_refused_where_its_slots_do_not_agree(
    layout: ExfatLayout,
    mapping: Seq<u16>,
    bytes: Seq<u8>,
    count: int,
    index: u32,
)
    requires
        is_plain_set(bytes, count),
        bytes[35] <= 15 * count,
        !is_hostile(utf8_of_units(name_in(bytes, count))),
        layout.bytes_per_cluster > 0,
        layout.cluster_count * layout.bytes_per_cluster <= u64::MAX,
    ensures
        ({
            let log = set_read(layout, mapping, bytes, index).log;
            let sound = agrees(layout, mapping, bytes, count);
            &&& log.len() == 0 <==> sound && long_at(bytes, 40) == long_at(bytes, 56)
            &&& refused(Some(ReadPolicy::Strict), log) is None <==> sound && long_at(bytes, 40)
                <= long_at(bytes, 56)
        }),
{
    lemma_fields(bytes, count);
    lemma_slots_are_names(bytes, count, count, index);
    lemma_attributes_and_times(bytes, count, index);
    lemma_clusters_and_length(layout, bytes, count, index);
    let strict = Some(ReadPolicy::Strict);
    let at = Location::of_entry(index);
    let file = FileEntry::decoded(bytes);
    let stream = StreamExtensionEntry::decoded(slot_of(bytes, 1));
    lemma_directory_bit(file.attributes.word());
    let directory = half_at(bytes, 4) / 16 % 2 == 1;
    let sum = set_sum(bytes);
    let stored = file.set_checksum;
    lemma_strict_one(
        sum != stored,
        at,
        ReadError::SetChecksumMismatch { index, computed: sum, stored },
    );
    let units = name_in(bytes, count);
    let want = ceil_div(units.len() as int, 15);
    lemma_ceil_div(units.len() as int, 15);
    let computed = hash_of(folded_by(mapping, units));
    let excess = ReadError::ExcessNameEntries {
        want: want as usize,
        have: count as usize,
        index,
    };
    let mismatch = ReadError::NameHashMismatch { index, computed, stored: stream.name_hash };
    lemma_strict_one(count > want, at, excess);
    lemma_strict_one(computed != stream.name_hash, at, mismatch);
    lemma_strict_one(!well_formed_units(units), at, ReadError::IllFormedName { index });
    let a = noted(count > want, at, excess);
    let b = noted(computed != stream.name_hash, at, mismatch);
    let c = noted(!well_formed_units(units), at, ReadError::IllFormedName { index });
    lemma_strict_concat(a, b);
    lemma_strict_concat(a + b, c);
    let named = name_log(mapping, units, 15 * count, stream.name_hash, index);
    assert(15 * count / 15 == count);
    assert(named == a + b + c);
    let length = crate::node::bounded(layout, stream.data_length, directory);
    let valid = valid_log(stream.valid_data_length, length, index);
    assert((valid.len() == 0 <==> stream.valid_data_length == length) && (refused(strict, valid)
        is None <==> stream.valid_data_length <= length)) by {
        reveal(valid_log);
        reveal(ReadError::severity_of);
        let past = ReadError::ValidLengthPastEnd {
            valid: stream.valid_data_length,
            declared: length,
        };
        let trails = ReadError::ValidLengthTrails {
            valid: stream.valid_data_length,
            declared: length,
        };
        lemma_strict_one(stream.valid_data_length > length, at, past);
        lemma_refused_one(strict, stream.valid_data_length < length, at, trails);
        lemma_strict_concat(
            noted(stream.valid_data_length > length, at, past),
            noted(stream.valid_data_length < length, at, trails),
        );
    }
    let p = attributes_log(file, index);
    let q = times_log(file, index);
    let r = storage_log(stream, directory, index);
    let s = length_log(layout, stream.data_length, directory, index);
    lemma_strict_concat(p, q);
    lemma_strict_concat(p + q, r);
    lemma_strict_concat(p + q + r, s);
    lemma_strict_concat(p + q + r + s, valid);
    let node = node_log(layout, file, stream, index);
    assert(node == p + q + r + s + valid);
    lemma_strict_concat(named, node);
    let check = checksum_log(bytes, index);
    let slots = slots_log(bytes, 2 + count, index);
    assert(slots =~= Seq::empty());
    lemma_strict_concat(check, slots);
    lemma_strict_concat(check + slots, named + node);
    assert(bytes.len() as int / 32 == 2 + count);
    assert(set_read(layout, mapping, bytes, index).log == check + slots + (named + node));
}

/// A slot of a file that is none of its name, such as a vendor's, changes nothing of what the file
/// is, wherever behind the first two slots it is.
pub proof fn lemma_a_slot_of_another_kind_changes_no_file(
    layout: ExfatLayout,
    mapping: Seq<u16>,
    before: Seq<u8>,
    slot: Seq<u8>,
    after: Seq<u8>,
    index: u32,
)
    requires
        before.len() % 32 == 0,
        64 <= before.len(),
        slot.len() == 32,
        slot[0] != 0xC1,
        after.len() % 32 == 0,
    ensures
        set_read(layout, mapping, before + slot + after, index).entry == set_read(
            layout,
            mapping,
            before + after,
            index,
        ).entry,
{
    let long = before + slot + after;
    let short = before + after;
    let j = before.len() as int / 32;
    lemma_carried_past(before, slot, after, after.len() as int / 32);
    assert(slot_of(long, 1) =~= slot_of(short, 1));
    assert(FileEntry::decoded(long) == FileEntry::decoded(short));
    assert(long[32] == short[32]);
    assert(long.len() as int / 32 == j + 1 + after.len() as int / 32);
    assert(short.len() as int / 32 == j + after.len() as int / 32);
}

/// The units carried up to a slot are those of the bytes up to it.
proof fn lemma_carried_prefix(a: Seq<u8>, b: Seq<u8>, k: int)
    requires
        32 * k <= a.len(),
        32 * k <= b.len(),
        forall|i: int| 0 <= i < 32 * k ==> a[i] == b[i],
    ensures
        carried_units(a, k) == carried_units(b, k),
    decreases k,
{
    if k > 2 {
        lemma_carried_prefix(a, b, k - 1);
        assert(slot_of(a, k - 1) =~= slot_of(b, k - 1));
    }
}

/// A slot that is no name carries no units.
proof fn lemma_carried_past(before: Seq<u8>, slot: Seq<u8>, after: Seq<u8>, n: int)
    requires
        before.len() % 32 == 0,
        64 <= before.len(),
        slot.len() == 32,
        slot[0] != 0xC1,
        after.len() % 32 == 0,
        0 <= n <= after.len() as int / 32,
    ensures
        carried_units(before + slot + after, before.len() as int / 32 + 1 + n) == carried_units(
            before + after,
            before.len() as int / 32 + n,
        ),
    decreases n,
{
    let long = before + slot + after;
    let short = before + after;
    let j = before.len() as int / 32;
    if n > 0 {
        lemma_carried_past(before, slot, after, n - 1);
        assert(slot_of(long, j + n) =~= slot_of(short, j + n - 1));
        assert(long[32 * (j + n)] == short[32 * (j + n - 1)]);
    } else {
        lemma_carried_prefix(long, short, j);
        assert(long[32 * j] == slot[0]);
    }
}

/// A slot behind the second that is not of the name is remarked on where it says it is essential:
/// where the third of its upper bits is clear.
pub proof fn lemma_an_essential_slot_no_file_has_is_remarked_on(bytes: Seq<u8>, n: int, index: u32)
    requires
        2 <= n,
    ensures
        slots_log(bytes, n, index).len() == 0 <==> forall|k: int|
            2 <= k < n ==> #[trigger] bytes[32 * k] == 0xC1 || bytes[32 * k] as int / 32 % 2 == 1,
    decreases n,
{
    if n > 2 {
        lemma_an_essential_slot_no_file_has_is_remarked_on(bytes, n - 1, index);
        let last = bytes[32 * (n - 1)];
        let there = last == 0xC1 || last as int / 32 % 2 == 1;
        if slots_log(bytes, n, index).len() == 0 {
            assert forall|k: int| 2 <= k < n implies #[trigger] bytes[32 * k] == 0xC1 || bytes[32
                * k] as int / 32 % 2 == 1 by {
                if k == n - 1 {
                    assert(there);
                }
            }
        } else if slots_log(bytes, n - 1, index).len() == 0 {
            assert(!there);
            assert(bytes[32 * (n - 1)] == last);
        }
    }
}

/// Whether one of some remarks is that a file lacks a part.
pub open spec fn says_incomplete(log: Seq<Noted>) -> bool {
    exists|k: int| 0 <= k < log.len() && (#[trigger] log[k]).err is IncompleteEntrySet
}

/// A file that lacks a part is not listed, and that is remarked on: one with no second slot, one
/// whose second slot does not say where its bytes are, and one whose slots carry fewer units than
/// its name has. Nor is one listed whose name cannot be joined onto a path, and that is remarked on
/// too.
pub proof fn lemma_which_files_are_not_listed(
    layout: ExfatLayout,
    mapping: Seq<u16>,
    bytes: Seq<u8>,
    count: int,
    index: u32,
)
    ensures
        ({
            let read = set_read(layout, mapping, bytes, index);
            &&& bytes.len() < 64 ==> read.entry is None && says_incomplete(read.log)
            &&& bytes.len() >= 64 && bytes[32] != 0xC0 ==> read.entry is None && says_incomplete(
                read.log,
            )
            &&& is_plain_set(bytes, count) && bytes[35] > 15 * count ==> read.entry is None
                && says_incomplete(read.log)
            &&& is_plain_set(bytes, count) && bytes[35] <= 15 * count && is_hostile(
                utf8_of_units(name_in(bytes, count)),
            ) ==> read.entry is None && read.log.last().err == (ReadError::HostileName { index })
        }),
{
    let read = set_read(layout, mapping, bytes, index);
    if is_plain_set(bytes, count) {
        lemma_fields(bytes, count);
    }
    if bytes.len() < 64 || bytes[32] != 0xC0 || (is_plain_set(bytes, count) && bytes[35] > 15
        * count) {
        assert(read.log[read.log.len() - 1].err is IncompleteEntrySet);
    }
}

} // verus!
