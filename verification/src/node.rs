//! What an entry set says of its file or directory.
use vstd::prelude::*;

use crate::deviation::{lemma_refused_concat, noted, refused, Deviations, Noted};
use crate::dirent::{FileAttributes, FileEntry, StreamExtensionEntry, SECONDARY_ALLOCATION_POSSIBLE};
use crate::finding::Location;
use crate::geometry::ExfatLayout;
use crate::model::MAX_DIRECTORY_BYTES;
use crate::read_error::ReadError;
use crate::time::{
    lemma_instant_range, offset_minutes, unpack_timestamp, unpacked, utc_offset_minutes,
    DosTimestamp, Timestamp,
};
use crate::volume::Storage;

verus! {

/// The times of a file or directory, as instants, and the zone each was recorded in.
#[derive(Clone, Copy, PartialEq, Eq, Debug, Structural)]
pub struct Times {
    /// When it was created.
    pub create: Timestamp,
    /// When it was last read.
    pub access: Timestamp,
    /// When it was last written.
    pub modify: Timestamp,
    /// Minutes east of UTC its creation was recorded at, where that was.
    pub create_offset: Option<i32>,
    /// Minutes east of UTC its last reading was recorded at, where that was.
    pub access_offset: Option<i32>,
    /// Minutes east of UTC its last writing was recorded at, where that was.
    pub modify_offset: Option<i32>,
}

/// A file or a directory.
#[derive(Clone, Copy, PartialEq, Eq, Debug, Structural)]
pub struct Node {
    /// Where its bytes are.
    pub storage: Storage,
    /// Its attributes.
    pub attributes: FileAttributes,
    /// Bytes it has.
    pub data_length: u64,
    /// Bytes of it that were written; the rest are zeros.
    pub valid_data_length: u64,
    /// Its times. The root directory has none.
    pub times: Option<Times>,
}

impl Node {
    /// Whether it is a directory.
    pub open spec fn directory(self) -> bool {
        self.attributes.has(FileAttributes::DIRECTORY)
    }

    /// Whether it is a directory.
    #[must_use]
    pub fn is_dir(&self) -> (yes: bool)
        ensures
            yes == self.directory(),
    {
        broadcast use FileAttributes::lemma_of_word;

        self.attributes.contains(FileAttributes::from_bits(FileAttributes::DIRECTORY))
    }
}

/// A name of a directory, and what it is of.
#[derive(Clone, PartialEq, Eq, Debug)]
pub struct Entry {
    /// The name.
    pub name: Vec<u8>,
    /// What it is of.
    pub node: Node,
}

/// A name of a directory, and what it is of.
pub struct Named {
    /// The name.
    pub name: Seq<u8>,
    /// What it is of.
    pub node: Node,
}

impl View for Entry {
    type V = Named;

    open spec fn view(&self) -> Named {
        Named { name: self.name@, node: self.node }
    }
}

/// What each entry is.
pub open spec fn named_views(entries: Seq<Entry>) -> Seq<Named> {
    Seq::new(entries.len(), |i: int| entries[i]@)
}

/// The instant of a date and time recorded in a zone.
pub open spec fn instant_of(field: u32, tenth: u8, offset: u8) -> Timestamp {
    let stamp = unpacked(field, tenth);
    let minutes = match offset_minutes(offset) {
        Some(minutes) => minutes as int,
        None => 0,
    };
    Timestamp {
        secs: (stamp.instant_secs() - minutes * 60) as i64,
        nanos: stamp.instant_nanos() as u32,
    }
}

/// The times a file entry records.
pub open spec fn times_in(file: FileEntry) -> Times {
    Times {
        create: instant_of(file.create, file.create_tenth, file.create_utc_offset),
        access: instant_of(file.access, 0, file.access_utc_offset),
        modify: instant_of(file.modify, file.modify_tenth, file.modify_utc_offset),
        create_offset: offset_minutes(file.create_utc_offset),
        access_offset: offset_minutes(file.access_utc_offset),
        modify_offset: offset_minutes(file.modify_utc_offset),
    }
}

/// The instant of a date and time recorded in a zone.
fn instant(field: u32, tenth: u8, offset: u8) -> (time: Timestamp)
    ensures
        time == instant_of(field, tenth, offset),
{
    let local = unpack_timestamp(field, tenth).decode();
    let minutes: i64 = match utc_offset_minutes(offset) {
        Some(minutes) => minutes as i64,
        None => 0,
    };
    Timestamp { secs: local.secs - minutes * 60, nanos: local.nanos }
}

/// Whether an instant and the minutes beside it are those of a date and time recorded in a zone:
/// moved east by the zone, the instant is the date and time the words spell. A zone is a number of
/// quarter hours in seven bits, the upper half of them west of UTC, and one whose eighth bit is
/// clear was not recorded.
pub open spec fn recorded_as(
    time: Timestamp,
    minutes: Option<i32>,
    words: DosTimestamp,
    offset: u8,
) -> bool {
    let quarters = if offset as int % 128 < 64 {
        offset as int % 128
    } else {
        offset as int % 128 - 128
    };
    &&& time.nanos == words.instant_nanos()
    &&& if offset < 128 {
        minutes is None && time.secs == words.instant_secs()
    } else {
        &&& minutes is Some
        &&& minutes->Some_0 == 15 * quarters
        &&& time.secs + 900 * quarters == words.instant_secs()
    }
}

/// A recorded time is a local time: moved east by the zone recorded beside it, the instant is the
/// date and time the words spell.
pub proof fn lemma_instant_is_local_time_less_the_zone(field: u32, tenth: u8, offset: u8)
    ensures
        recorded_as(
            instant_of(field, tenth, offset),
            offset_minutes(offset),
            unpacked(field, tenth),
            offset,
        ),
{
    lemma_instant_range(unpacked(field, tenth));
    let quarters = if offset as int % 128 < 64 {
        offset as int % 128
    } else {
        offset as int % 128 - 128
    };
    if offset >= 128 {
        assert(offset_minutes(offset)->Some_0 == 15 * quarters);
    }
}

/// A time recorded further east by some minutes is of an instant earlier by as many, and in the
/// same place of its second; one recorded without a zone is taken to be in UTC.
pub proof fn lemma_further_east_is_earlier(field: u32, tenth: u8, a: u8, b: u8)
    requires
        128 <= a,
    ensures
        instant_of(field, tenth, a).secs + 60 * offset_minutes(a)->Some_0 == instant_of(
            field,
            tenth,
            b,
        ).secs + (if b < 128 {
            0int
        } else {
            60 * offset_minutes(b)->Some_0
        }),
        instant_of(field, tenth, a).nanos == instant_of(field, tenth, b).nanos,
{
    lemma_instant_is_local_time_less_the_zone(field, tenth, a);
    lemma_instant_is_local_time_less_the_zone(field, tenth, b);
}

/// Each of the three times of an entry is the local time its own words spell, less the zone its
/// own offset byte records; the access time has no hundredths.
pub proof fn lemma_times_are_local_times_less_their_zones(file: FileEntry)
    ensures
        ({
            let times = times_in(file);
            let words = |field: u32, tenth: u8|
                DosTimestamp {
                    date: (field / 0x1_0000) as u16,
                    time: (field % 0x1_0000) as u16,
                    tenth,
                };
            &&& recorded_as(
                times.create,
                times.create_offset,
                words(file.create, file.create_tenth),
                file.create_utc_offset,
            )
            &&& recorded_as(
                times.modify,
                times.modify_offset,
                words(file.modify, file.modify_tenth),
                file.modify_utc_offset,
            )
            &&& recorded_as(
                times.access,
                times.access_offset,
                words(file.access, 0),
                file.access_utc_offset,
            )
        }),
{
    lemma_instant_is_local_time_less_the_zone(
        file.create,
        file.create_tenth,
        file.create_utc_offset,
    );
    lemma_instant_is_local_time_less_the_zone(
        file.modify,
        file.modify_tenth,
        file.modify_utc_offset,
    );
    lemma_instant_is_local_time_less_the_zone(file.access, 0, file.access_utc_offset);
}

/// The times a file entry records.
#[must_use]
pub fn times_of(file: &FileEntry) -> (times: Times)
    ensures
        times == times_in(*file),
{
    Times {
        create: instant(file.create, file.create_tenth, file.create_utc_offset),
        access: instant(file.access, 0, file.access_utc_offset),
        modify: instant(file.modify, file.modify_tenth, file.modify_utc_offset),
        create_offset: utc_offset_minutes(file.create_utc_offset),
        access_offset: utc_offset_minutes(file.access_utc_offset),
        modify_offset: utc_offset_minutes(file.modify_utc_offset),
    }
}

/// What is wrong with one of the times of the set at `index`.
pub open spec fn time_log(field: u32, tenth: u8, name: &'static str, index: u32) -> Seq<Noted> {
    noted(
        !unpacked(field, tenth).on_the_calendar(),
        Location::of_entry(index),
        ReadError::MalformedTimestamp { index, field: name },
    )
}

/// What is wrong with the times of the set at `index`.
#[verifier::opaque]
pub open spec fn times_log(file: FileEntry, index: u32) -> Seq<Noted> {
    time_log(file.create, file.create_tenth, "creation time", index) + time_log(
        file.modify,
        file.modify_tenth,
        "modification time",
        index,
    ) + time_log(file.access, 0, "access time", index)
}

/// Note what is wrong with the times of the set at `index`.
pub fn check_times(file: &FileEntry, index: u32, deviations: &mut Deviations) -> (r: Result<
    (),
    ReadError,
>)
    requires
        old(deviations).wf(),
    ensures
        match refused(old(deviations).policy(), times_log(*file, index)) {
            Some(e) => r == Err::<(), ReadError>(e),
            None => r is Ok && final(deviations).having(*old(deviations), times_log(*file, index)),
        },
{
    reveal(times_log);
    let at = Location::at_entry(index);
    let ghost policy = deviations.policy();
    let ghost a = time_log(file.create, file.create_tenth, "creation time", index);
    let ghost b = time_log(file.modify, file.modify_tenth, "modification time", index);
    let ghost c = time_log(file.access, 0, "access time", index);
    proof {
        lemma_refused_concat(policy, a, b);
        lemma_refused_concat(policy, a + b, c);
    }
    deviations.record_if(
        !unpack_timestamp(file.create, file.create_tenth).is_well_formed(),
        at,
        ReadError::MalformedTimestamp { index, field: "creation time" },
    )?;
    deviations.record_if(
        !unpack_timestamp(file.modify, file.modify_tenth).is_well_formed(),
        at,
        ReadError::MalformedTimestamp { index, field: "modification time" },
    )?;
    deviations.record_if(
        !unpack_timestamp(file.access, 0).is_well_formed(),
        at,
        ReadError::MalformedTimestamp { index, field: "access time" },
    )?;
    assert(deviations.log() =~= old(deviations).log() + times_log(*file, index));
    Ok(())
}

/// The smaller of two.
pub open spec fn at_most(n: u64, limit: u64) -> u64 {
    if n > limit {
        limit
    } else {
        n
    }
}

/// Bytes of the heap.
pub open spec fn heap_of(layout: ExfatLayout) -> u64 {
    (layout.cluster_count * layout.bytes_per_cluster) as u64
}

/// The length a stream is taken to have: no more than the heap, and for a directory no more
/// than the format allows one.
pub open spec fn bounded(layout: ExfatLayout, declared: u64, is_dir: bool) -> u64 {
    let held = at_most(declared, heap_of(layout));
    if is_dir {
        at_most(held, MAX_DIRECTORY_BYTES)
    } else {
        held
    }
}

/// What is wrong with the length of the stream of the set at `index`.
#[verifier::opaque]
pub open spec fn length_log(layout: ExfatLayout, declared: u64, is_dir: bool, index: u32) -> Seq<
    Noted,
> {
    let at = Location::of_entry(index);
    let heap = heap_of(layout);
    let held = at_most(declared, heap);
    let length = bounded(layout, declared, is_dir);
    noted(
        declared > heap,
        at,
        ReadError::StreamPastHeap { declared, limit: heap },
    ) + noted(
        is_dir && held > MAX_DIRECTORY_BYTES,
        at,
        ReadError::DirectoryTooLong { index, declared: held, limit: MAX_DIRECTORY_BYTES },
    ) + noted(
        is_dir && length as int % layout.bytes_per_cluster as int != 0,
        at,
        ReadError::DirectoryLengthNotClusters {
            index,
            declared: length,
            bytes_per_cluster: layout.bytes_per_cluster,
        },
    )
}

/// The length a stream of the set at `index` is taken to have, noting what is wrong with the
/// one it declares.
pub fn bound_length(
    layout: &ExfatLayout,
    declared: u64,
    is_dir: bool,
    index: u32,
    deviations: &mut Deviations,
) -> (r: Result<u64, ReadError>)
    requires
        old(deviations).wf(),
        layout.bytes_per_cluster > 0,
    ensures
        match refused(old(deviations).policy(), length_log(*layout, declared, is_dir, index)) {
            Some(e) => r == Err::<u64, ReadError>(e),
            None => {
                &&& r == Ok::<u64, ReadError>(bounded(*layout, declared, is_dir))
                &&& final(deviations).having(
                    *old(deviations),
                    length_log(*layout, declared, is_dir, index),
                )
            },
        },
{
    reveal(length_log);
    let at = Location::at_entry(index);
    let heap: u64 = layout.heap_bytes();
    let held: u64 = if declared > heap {
        heap
    } else {
        declared
    };
    let too_long: bool = is_dir && held > MAX_DIRECTORY_BYTES;
    let length: u64 = if too_long {
        MAX_DIRECTORY_BYTES
    } else {
        held
    };
    let ghost policy = deviations.policy();
    let past = ReadError::StreamPastHeap { declared, limit: heap };
    let long = ReadError::DirectoryTooLong { index, declared: held, limit: MAX_DIRECTORY_BYTES };
    let partial = ReadError::DirectoryLengthNotClusters {
        index,
        declared: length,
        bytes_per_cluster: layout.bytes_per_cluster,
    };
    let is_partial: bool = is_dir && length % layout.bytes_per_cluster as u64 != 0;
    proof {
        let a = noted(declared > heap, at, past);
        let b = noted(too_long, at, long);
        let c = noted(is_partial, at, partial);
        lemma_refused_concat(policy, a, b);
        lemma_refused_concat(policy, a + b, c);
        assert(length_log(*layout, declared, is_dir, index) == a + b + c);
    }
    deviations.record_if(declared > heap, at, past)?;
    deviations.record_if(too_long, at, long)?;
    deviations.record_if(is_partial, at, partial)?;
    assert(deviations.log() =~= old(deviations).log() + length_log(
        *layout,
        declared,
        is_dir,
        index,
    ));
    Ok(length)
}

/// Whether a stream has no clusters.
pub open spec fn without_clusters(stream: StreamExtensionEntry) -> bool {
    stream.first_cluster == 0 || stream.data_length == 0
}

/// Where the bytes of a stream are.
pub open spec fn storage_in(stream: StreamExtensionEntry) -> Storage {
    if without_clusters(stream) {
        Storage::Empty
    } else if stream.consecutive() {
        Storage::Contiguous(stream.first_cluster)
    } else {
        Storage::Chain(stream.first_cluster)
    }
}

/// What is wrong with the clusters of the stream of the set at `index`.
#[verifier::opaque]
pub open spec fn storage_log(stream: StreamExtensionEntry, is_dir: bool, index: u32) -> Seq<Noted> {
    let at = Location::of_entry(index);
    noted(
        stream.first_cluster == 0 && stream.data_length != 0,
        at,
        ReadError::StreamWithoutAllocation { index, declared: stream.data_length },
    ) + noted(
        stream.first_cluster != 0 && stream.data_length == 0,
        at,
        ReadError::AllocationWithoutLength { index, first_cluster: stream.first_cluster },
    ) + noted(
        without_clusters(stream) && is_dir,
        at,
        ReadError::DirectoryWithoutAllocation { index },
    ) + noted(
        !without_clusters(stream) && !stream.allocation_possible(),
        at,
        ReadError::AllocationNotPossible { index },
    )
}

/// Where the bytes of the stream of the set at `index` are, noting what is wrong with it.
fn check_storage(
    stream: &StreamExtensionEntry,
    is_dir: bool,
    index: u32,
    deviations: &mut Deviations,
) -> (r: Result<Storage, ReadError>)
    requires
        old(deviations).wf(),
    ensures
        match refused(old(deviations).policy(), storage_log(*stream, is_dir, index)) {
            Some(e) => r == Err::<Storage, ReadError>(e),
            None => {
                &&& r == Ok::<Storage, ReadError>(storage_in(*stream))
                &&& final(deviations).having(
                    *old(deviations),
                    storage_log(*stream, is_dir, index),
                )
            },
        },
{
    reveal(storage_log);
    let at = Location::at_entry(index);
    let ghost policy = deviations.policy();
    let none: bool = stream.first_cluster == 0 || stream.data_length == 0;
    let headless: bool = stream.first_cluster == 0 && stream.data_length != 0;
    let lengthless: bool = stream.first_cluster != 0 && stream.data_length == 0;
    let impossible: bool = !none && stream.flags & SECONDARY_ALLOCATION_POSSIBLE == 0;
    let flags: u8 = stream.flags;
    assert((flags & 0x01 == 0) == (flags % 2 == 0)) by (bit_vector);
    let without = ReadError::StreamWithoutAllocation { index, declared: stream.data_length };
    let unused = ReadError::AllocationWithoutLength { index, first_cluster: stream.first_cluster };
    let bare = ReadError::DirectoryWithoutAllocation { index };
    let denied = ReadError::AllocationNotPossible { index };
    proof {
        let a = noted(headless, at, without);
        let b = noted(lengthless, at, unused);
        let c = noted(none && is_dir, at, bare);
        let d = noted(impossible, at, denied);
        lemma_refused_concat(policy, a, b);
        lemma_refused_concat(policy, a + b, c);
        lemma_refused_concat(policy, a + b + c, d);
        assert(storage_log(*stream, is_dir, index) == a + b + c + d);
    }
    deviations.record_if(headless, at, without)?;
    deviations.record_if(lengthless, at, unused)?;
    deviations.record_if(none && is_dir, at, bare)?;
    deviations.record_if(impossible, at, denied)?;
    assert(deviations.log() =~= old(deviations).log() + storage_log(*stream, is_dir, index));
    if none {
        Ok(Storage::Empty)
    } else if stream.no_fat_chain() {
        Ok(Storage::Contiguous(stream.first_cluster))
    } else {
        Ok(Storage::Chain(stream.first_cluster))
    }
}

/// The node of a set.
pub open spec fn node_in(
    layout: ExfatLayout,
    file: FileEntry,
    stream: StreamExtensionEntry,
) -> Node {
    let is_dir = file.attributes.has(FileAttributes::DIRECTORY);
    let length = bounded(layout, stream.data_length, is_dir);
    Node {
        storage: storage_in(stream),
        attributes: file.attributes,
        data_length: length,
        valid_data_length: at_most(stream.valid_data_length, length),
        times: Some(times_in(file)),
    }
}

/// The attributes the format does not define.
pub open spec fn reserved_bits(attributes: FileAttributes) -> u16 {
    attributes.word() & !FileAttributes::DEFINED
}

/// What is wrong with the attributes of the set at `index`.
#[verifier::opaque]
pub open spec fn attributes_log(file: FileEntry, index: u32) -> Seq<Noted> {
    noted(
        reserved_bits(file.attributes) != 0,
        Location::of_entry(index),
        ReadError::ReservedAttributes { index, bits: reserved_bits(file.attributes) },
    )
}

/// What is wrong with how much of the stream of the set at `index` was written.
#[verifier::opaque]
pub open spec fn valid_log(valid: u64, declared: u64, index: u32) -> Seq<Noted> {
    let at = Location::of_entry(index);
    noted(valid > declared, at, ReadError::ValidLengthPastEnd { valid, declared }) + noted(
        valid < declared,
        at,
        ReadError::ValidLengthTrails { valid, declared },
    )
}

/// What is wrong with the node of the set at `index`.
pub open spec fn node_log(
    layout: ExfatLayout,
    file: FileEntry,
    stream: StreamExtensionEntry,
    index: u32,
) -> Seq<Noted> {
    let is_dir = file.attributes.has(FileAttributes::DIRECTORY);
    let length = bounded(layout, stream.data_length, is_dir);
    attributes_log(file, index) + times_log(file, index) + storage_log(stream, is_dir, index)
        + length_log(layout, stream.data_length, is_dir, index) + valid_log(
        stream.valid_data_length,
        length,
        index,
    )
}

/// Note what is wrong with how much of the stream of the set at `index` was written.
fn check_valid(valid: u64, declared: u64, index: u32, deviations: &mut Deviations) -> (r: Result<
    (),
    ReadError,
>)
    requires
        old(deviations).wf(),
    ensures
        match refused(old(deviations).policy(), valid_log(valid, declared, index)) {
            Some(e) => r == Err::<(), ReadError>(e),
            None => {
                &&& r is Ok
                &&& final(deviations).having(*old(deviations), valid_log(valid, declared, index))
            },
        },
{
    reveal(valid_log);
    let at = Location::at_entry(index);
    let ghost policy = deviations.policy();
    proof {
        lemma_refused_concat(
            policy,
            noted(valid > declared, at, ReadError::ValidLengthPastEnd { valid, declared }),
            noted(valid < declared, at, ReadError::ValidLengthTrails { valid, declared }),
        );
    }
    deviations.record_if(
        valid > declared,
        at,
        ReadError::ValidLengthPastEnd { valid, declared },
    )?;
    deviations.record_if(
        valid < declared,
        at,
        ReadError::ValidLengthTrails { valid, declared },
    )?;
    assert(deviations.log() =~= old(deviations).log() + valid_log(valid, declared, index));
    Ok(())
}

/// The node of the set at `index`, noting what is wrong with it.
pub fn node_of(
    layout: &ExfatLayout,
    file: &FileEntry,
    stream: &StreamExtensionEntry,
    index: u32,
    deviations: &mut Deviations,
) -> (r: Result<Node, ReadError>)
    requires
        old(deviations).wf(),
        layout.bytes_per_cluster > 0,
    ensures
        match refused(old(deviations).policy(), node_log(*layout, *file, *stream, index)) {
            Some(e) => r == Err::<Node, ReadError>(e),
            None => {
                &&& r == Ok::<Node, ReadError>(node_in(*layout, *file, *stream))
                &&& final(deviations).having(
                    *old(deviations),
                    node_log(*layout, *file, *stream, index),
                )
            },
        },
{
    broadcast use FileAttributes::lemma_of_word;

    reveal(attributes_log);
    let at = Location::at_entry(index);
    let ghost policy = deviations.policy();
    let is_dir: bool = file.attributes.contains(
        FileAttributes::from_bits(FileAttributes::DIRECTORY),
    );
    let bits: u16 = file.attributes.bits() & !FileAttributes::DEFINED;
    proof {
        let length = bounded(*layout, stream.data_length, is_dir);
        let a = attributes_log(*file, index);
        let b = times_log(*file, index);
        let c = storage_log(*stream, is_dir, index);
        let d = length_log(*layout, stream.data_length, is_dir, index);
        let e = valid_log(stream.valid_data_length, length, index);
        lemma_refused_concat(policy, a, b);
        lemma_refused_concat(policy, a + b, c);
        lemma_refused_concat(policy, a + b + c, d);
        lemma_refused_concat(policy, a + b + c + d, e);
        assert(node_log(*layout, *file, *stream, index) == a + b + c + d + e);
    }
    deviations.record_if(bits != 0, at, ReadError::ReservedAttributes { index, bits })?;
    check_times(file, index, deviations)?;
    let storage = check_storage(stream, is_dir, index, deviations)?;
    let declared: u64 = bound_length(layout, stream.data_length, is_dir, index, deviations)?;
    check_valid(stream.valid_data_length, declared, index, deviations)?;
    assert(deviations.log() =~= old(deviations).log() + node_log(*layout, *file, *stream, index));
    let valid: u64 = if stream.valid_data_length > declared {
        declared
    } else {
        stream.valid_data_length
    };
    Ok(
        Node {
            storage,
            attributes: file.attributes,
            data_length: declared,
            valid_data_length: valid,
            times: Some(times_of(file)),
        },
    )
}

} // verus!
