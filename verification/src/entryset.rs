//! Reading an entry set.
use vstd::prelude::*;

use crate::bytes::units_at;
use crate::csum::{entry_set_checksum, hash_of, name_hash, set_sum};
use crate::deviation::{lemma_refused_concat, noted, refused, Deviations, Noted};
use crate::dirent::{
    EntryType, FileEntry, FileNameEntry, StreamExtensionEntry, DIR_ENTRY_SIZE, NAME_UNITS_PER_ENTRY,
};
use crate::finding::Location;
use crate::geometry::ExfatLayout;
use crate::name::folded_by;
use crate::node::{node_in, node_log, node_of, Entry, Named};
use crate::number::{ceil_div, div_ceil};
use crate::path::{is_hostile, is_hostile_component};
use crate::policy::ReadPolicy;
use crate::read_error::{ReadError, SetDetail};
use crate::unicode::{decode_utf16, utf8_of_units, well_formed_units};
use crate::upcase::UpcaseTable;

verus! {

/// Slot `k` of a set.
pub open spec fn slot_of(bytes: Seq<u8>, k: int) -> Seq<u8> {
    bytes.subrange(32 * k, 32 * k + 32)
}

/// The units the name entries among the slots from 2 to `k` carry.
pub open spec fn carried_units(bytes: Seq<u8>, k: int) -> Seq<u16>
    decreases k,
{
    if k <= 2 {
        Seq::empty()
    } else if bytes[32 * (k - 1)] == EntryType::FILE_NAME {
        carried_units(bytes, k - 1) + units_at(slot_of(bytes, k - 1), 2, 15)
    } else {
        carried_units(bytes, k - 1)
    }
}

/// What is wrong with the slots from 2 to `k`: those that are neither a name nor to be passed
/// over.
pub open spec fn slots_log(bytes: Seq<u8>, k: int, index: u32) -> Seq<Noted>
    decreases k,
{
    if k <= 2 {
        Seq::empty()
    } else {
        let entry_type = EntryType(bytes[32 * (k - 1)]);
        slots_log(bytes, k - 1, index) + noted(
            entry_type.0 != EntryType::FILE_NAME && !entry_type.benign(),
            Location::of_entry(index),
            ReadError::UnknownCriticalEntry { index, entry_type: entry_type.0 },
        )
    }
}

/// What a set says, and what is wrong with it.
pub struct SetRead {
    /// What is wrong with it.
    pub log: Seq<Noted>,
    /// The entry, where there is one.
    pub entry: Option<Named>,
}

/// The refusal of a set that lacks something.
pub open spec fn lacking(index: u32, detail: SetDetail) -> Seq<Noted> {
    noted(true, Location::of_entry(index), ReadError::IncompleteEntrySet { index, detail })
}

/// What is wrong with the checksum of a set.
pub open spec fn checksum_log(bytes: Seq<u8>, index: u32) -> Seq<Noted> {
    let stored = FileEntry::decoded(bytes).set_checksum;
    noted(
        set_sum(bytes) != stored,
        Location::of_entry(index),
        ReadError::SetChecksumMismatch { index, computed: set_sum(bytes), stored },
    )
}

/// What is wrong with a name of these units, where more may be carried than it has.
pub open spec fn name_log(
    mapping: Seq<u16>,
    units: Seq<u16>,
    carried: int,
    hash: u16,
    index: u32,
) -> Seq<Noted> {
    let at = Location::of_entry(index);
    let have = carried / 15;
    let want = ceil_div(units.len() as int, 15);
    let computed = hash_of(folded_by(mapping, units));
    noted(
        have > want,
        at,
        ReadError::ExcessNameEntries { want: want as usize, have: have as usize, index },
    ) + noted(
        computed != hash,
        at,
        ReadError::NameHashMismatch { index, computed, stored: hash },
    ) + noted(!well_formed_units(units), at, ReadError::IllFormedName { index })
}

/// What a set says of a name of these units, and what is wrong with it.
pub open spec fn named_read(
    layout: ExfatLayout,
    mapping: Seq<u16>,
    bytes: Seq<u8>,
    index: u32,
) -> SetRead {
    let file = FileEntry::decoded(bytes);
    let stream = StreamExtensionEntry::decoded(slot_of(bytes, 1));
    let carried = carried_units(bytes, bytes.len() as int / 32);
    let units = carried.take(stream.name_length as int);
    let name = utf8_of_units(units);
    let log = name_log(mapping, units, carried.len() as int, stream.name_hash, index);
    if carried.len() < stream.name_length {
        SetRead {
            log: lacking(
                index,
                SetDetail::NameUnits {
                    want: stream.name_length as usize,
                    have: carried.len() as usize,
                },
            ),
            entry: None,
        }
    } else if is_hostile(name) {
        SetRead {
            log: log + noted(true, Location::of_entry(index), ReadError::HostileName { index }),
            entry: None,
        }
    } else {
        SetRead {
            log: log + node_log(layout, file, stream, index),
            entry: Some(Named { name, node: node_in(layout, file, stream) }),
        }
    }
}

/// What a set says, and what is wrong with it.
pub open spec fn set_read(
    layout: ExfatLayout,
    mapping: Seq<u16>,
    bytes: Seq<u8>,
    index: u32,
) -> SetRead {
    let checksum = checksum_log(bytes, index);
    let named = named_read(layout, mapping, bytes, index);
    if bytes.len() < 64 {
        SetRead { log: checksum + lacking(index, SetDetail::NoStream), entry: None }
    } else if bytes[32] != EntryType::STREAM_EXTENSION {
        SetRead { log: checksum + lacking(index, SetDetail::NotStream), entry: None }
    } else {
        SetRead {
            log: checksum + slots_log(bytes, bytes.len() as int / 32, index) + named.log,
            entry: named.entry,
        }
    }
}

/// What is refused of the first slots is refused of all.
proof fn lemma_slots_log(policy: Option<ReadPolicy>, bytes: Seq<u8>, k: int, n: int, index: u32)
    requires
        k <= n,
    ensures
        refused(policy, slots_log(bytes, k, index)) is Some ==> refused(
            policy,
            slots_log(bytes, n, index),
        ) == refused(policy, slots_log(bytes, k, index)),
    decreases n - k,
{
    if k < n {
        lemma_slots_log(policy, bytes, k, n - 1, index);
        if n > 2 {
            let entry_type = EntryType(bytes[32 * (n - 1)]);
            lemma_refused_concat(
                policy,
                slots_log(bytes, n - 1, index),
                noted(
                    entry_type.0 != EntryType::FILE_NAME && !entry_type.benign(),
                    Location::of_entry(index),
                    ReadError::UnknownCriticalEntry { index, entry_type: entry_type.0 },
                ),
            );
        }
    }
}

/// The units the name entries of a set carry, noting the slots that are not to be passed over.
fn gather_names(bytes: &[u8], index: u32, deviations: &mut Deviations) -> (r: Result<
    Vec<u16>,
    ReadError,
>)
    requires
        old(deviations).wf(),
        bytes@.len() >= 64,
        bytes@.len() % 32 == 0,
        bytes@.len() <= 0x1_0000,
    ensures
        ({
            let log = slots_log(bytes@, bytes@.len() as int / 32, index);
            match refused(old(deviations).policy(), log) {
                Some(e) => r == Err::<Vec<u16>, ReadError>(e),
                None => {
                    &&& r is Ok
                    &&& r->Ok_0@ == carried_units(bytes@, bytes@.len() as int / 32)
                    &&& final(deviations).having(*old(deviations), log)
                },
            }
        }),
{
    let ghost policy = deviations.policy();
    let slots: usize = bytes.len() / 32;
    let mut units: Vec<u16> = Vec::new();
    let mut k: usize = 2;
    assert(deviations.log() =~= old(deviations).log() + slots_log(bytes@, 2, index));
    while k < slots
        invariant
            2 <= k <= slots,
            slots == bytes@.len() / 32,
            bytes@.len() % 32 == 0,
            bytes@.len() <= 0x1_0000,
            policy == old(deviations).policy(),
            deviations.having(*old(deviations), slots_log(bytes@, k as int, index)),
            refused(policy, slots_log(bytes@, k as int, index)) is None,
            units@ == carried_units(bytes@, k as int),
        decreases slots - k,
    {
        let slot = vstd::slice::slice_subrange(bytes, 32 * k, 32 * k + 32);
        let entry_type = EntryType(slot[0]);
        let is_name: bool = entry_type.0 == EntryType::FILE_NAME;
        let err = ReadError::UnknownCriticalEntry { index, entry_type: entry_type.0 };
        let unknown: bool = !is_name && !entry_type.is_benign();
        proof {
            assert(slot@ == slot_of(bytes@, k as int));
            assert(slot@[0] == bytes@[32 * k as int]);
            let one = noted(unknown, Location::of_entry(index), err);
            lemma_refused_concat(policy, slots_log(bytes@, k as int, index), one);
            lemma_slots_log(policy, bytes@, k + 1, slots as int, index);
            assert(slots_log(bytes@, k + 1, index) == slots_log(bytes@, k as int, index) + one);
        }
        deviations.record_if(unknown, Location::at_entry(index), err)?;
        assert(deviations.log() =~= old(deviations).log() + slots_log(bytes@, k + 1, index));
        if is_name {
            match FileNameEntry::read_from(slot) {
                Ok(name) => {
                    units.extend_from_slice(&name.units);
                    assert(units@ =~= carried_units(bytes@, k + 1));
                },
                Err(e) => {
                    assert(false);
                },
            }
        }
        k += 1;
    }
    Ok(units)
}

/// The entry of a name of these units, noting what is wrong with the name and the node.
fn finish_name(
    layout: &ExfatLayout,
    upcase: &UpcaseTable,
    bytes: &[u8],
    index: u32,
    file: &FileEntry,
    stream: &StreamExtensionEntry,
    carried: Vec<u16>,
    deviations: &mut Deviations,
) -> (r: Result<Option<Entry>, ReadError>)
    requires
        old(deviations).wf(),
        upcase.wf(),
        layout.bytes_per_cluster > 0,
        bytes@.len() >= 64,
        carried@ == carried_units(bytes@, bytes@.len() as int / 32),
        *file == FileEntry::decoded(bytes@),
        *stream == StreamExtensionEntry::decoded(slot_of(bytes@, 1)),
    ensures
        ({
            let read = named_read(*layout, upcase.mapping(), bytes@, index);
            match refused(old(deviations).policy(), read.log) {
                Some(e) => r == Err::<Option<Entry>, ReadError>(e),
                None => {
                    &&& r is Ok
                    &&& match read.entry {
                        Some(named) => r->Ok_0 is Some && r->Ok_0->Some_0@ == named,
                        None => r->Ok_0 is None,
                    }
                    &&& final(deviations).having(*old(deviations), read.log)
                },
            }
        }),
{
    let ghost policy = deviations.policy();
    let ghost mapping = upcase.mapping();
    let at = Location::at_entry(index);
    let want: usize = stream.name_length as usize;
    let have: usize = carried.len();
    if have < want {
        deviations.record(
            at,
            ReadError::IncompleteEntrySet { index, detail: SetDetail::NameUnits { want, have } },
        )?;
        return Ok(None);
    }
    let entries: usize = have / NAME_UNITS_PER_ENTRY;
    let needed: usize = div_ceil(want as u64, NAME_UNITS_PER_ENTRY as u64) as usize;
    let units = vstd::slice::slice_subrange(carried.as_slice(), 0, want);
    assert(units@ == carried@.take(want as int));
    let folded = upcase.fold(units);
    assert(folded@ =~= folded_by(mapping, units@));
    let computed: u16 = name_hash(&folded);
    let (name, well_formed) = decode_utf16(units);
    let excess = ReadError::ExcessNameEntries { want: needed, have: entries, index };
    let mismatch = ReadError::NameHashMismatch { index, computed, stored: stream.name_hash };
    let ill_formed = ReadError::IllFormedName { index };
    let ghost log = name_log(mapping, units@, have as int, stream.name_hash, index);
    proof {
        let a = noted(entries > needed, at, excess);
        let b = noted(computed != stream.name_hash, at, mismatch);
        let c = noted(!well_formed, at, ill_formed);
        lemma_refused_concat(policy, a, b);
        lemma_refused_concat(policy, a + b, c);
        assert(log == a + b + c);
        lemma_refused_concat(policy, log, noted(true, at, ReadError::HostileName { index }));
        lemma_refused_concat(policy, log, node_log(*layout, *file, *stream, index));
    }
    deviations.record_if(entries > needed, at, excess)?;
    deviations.record_if(computed != stream.name_hash, at, mismatch)?;
    deviations.record_if(!well_formed, at, ill_formed)?;
    assert(deviations.log() =~= old(deviations).log() + log);
    if is_hostile_component(&name) {
        deviations.record(at, ReadError::HostileName { index })?;
        assert(deviations.log() =~= old(deviations).log() + (log + noted(
            true,
            at,
            ReadError::HostileName { index },
        )));
        return Ok(None);
    }
    let node = node_of(layout, file, stream, index, deviations)?;
    assert(deviations.log() =~= old(deviations).log() + (log + node_log(
        *layout,
        *file,
        *stream,
        index,
    )));
    Ok(Some(Entry { name, node }))
}

/// The entry of a set, noting what is wrong with it.
pub fn finish_set(
    layout: &ExfatLayout,
    upcase: &UpcaseTable,
    bytes: &[u8],
    index: u32,
    deviations: &mut Deviations,
) -> (r: Result<Option<Entry>, ReadError>)
    requires
        old(deviations).wf(),
        upcase.wf(),
        layout.bytes_per_cluster > 0,
        bytes@.len() >= 32,
        bytes@.len() % 32 == 0,
        bytes@.len() <= 0x1_0000,
        bytes@[0] == EntryType::FILE,
    ensures
        ({
            let read = set_read(*layout, upcase.mapping(), bytes@, index);
            match refused(old(deviations).policy(), read.log) {
                Some(e) => r == Err::<Option<Entry>, ReadError>(e),
                None => {
                    &&& r is Ok
                    &&& match read.entry {
                        Some(named) => r->Ok_0 is Some && r->Ok_0->Some_0@ == named,
                        None => r->Ok_0 is None,
                    }
                    &&& final(deviations).having(*old(deviations), read.log)
                },
            }
        }),
{
    let ghost policy = deviations.policy();
    let ghost mapping = upcase.mapping();
    let at = Location::at_entry(index);
    let computed: u16 = entry_set_checksum(bytes);
    let file = match FileEntry::read_from(bytes) {
        Ok(file) => file,
        Err(e) => return Err(ReadError::Parse(e)),
    };
    let mismatch = ReadError::SetChecksumMismatch { index, computed, stored: file.set_checksum };
    let ghost a = checksum_log(bytes@, index);
    let ghost b = slots_log(bytes@, bytes@.len() as int / 32, index);
    let ghost c = named_read(*layout, mapping, bytes@, index).log;
    proof {
        lemma_refused_concat(policy, a, lacking(index, SetDetail::NoStream));
        lemma_refused_concat(policy, a, lacking(index, SetDetail::NotStream));
        lemma_refused_concat(policy, a, b);
        lemma_refused_concat(policy, a + b, c);
    }
    deviations.record_if(computed != file.set_checksum, at, mismatch)?;
    if bytes.len() < 2 * DIR_ENTRY_SIZE {
        deviations.record(
            at,
            ReadError::IncompleteEntrySet { index, detail: SetDetail::NoStream },
        )?;
        assert(deviations.log() =~= old(deviations).log() + (a + lacking(
            index,
            SetDetail::NoStream,
        )));
        return Ok(None);
    }
    let second = vstd::slice::slice_subrange(bytes, DIR_ENTRY_SIZE, 2 * DIR_ENTRY_SIZE);
    assert(second@ == slot_of(bytes@, 1));
    assert(second@[0] == bytes@[32]);
    match StreamExtensionEntry::read_from(second) {
        Err(_) => {
            deviations.record(
                at,
                ReadError::IncompleteEntrySet { index, detail: SetDetail::NotStream },
            )?;
            assert(deviations.log() =~= old(deviations).log() + (a + lacking(
                index,
                SetDetail::NotStream,
            )));
            Ok(None)
        },
        Ok(stream) => {
            let carried = gather_names(bytes, index, deviations)?;
            let entry = finish_name(
                layout,
                upcase,
                bytes,
                index,
                &file,
                &stream,
                carried,
                deviations,
            )?;
            assert(deviations.log() =~= old(deviations).log() + (a + b + c));
            Ok(entry)
        },
    }
}

} // verus!
