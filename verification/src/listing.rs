//! What a directory lists, whatever lies between its files.
use vstd::prelude::*;

use crate::chains::lemma_a_slot_is_32_bytes_of_the_directory;
use crate::deviation::Noted;
use crate::dirent::{EntryType, FileEntry};
use crate::entryset::set_read;
use crate::node::{Named, Node};
use crate::number::ceil_div;
use crate::parse::{
    dir_read, parsed, resident_name, step, step_ended, step_primary, step_set, Parsed, Pending,
    Reading,
};
use crate::read_error::{ReadError, SetDetail};
use crate::reader::Reader;
use crate::slots::{lemma_slots, SlotView};
use crate::volume::{Storage, Vol};

verus! {

/// A part of a directory: what a reader takes in at once.
pub enum Part {
    /// A slot that is no file's: one that is not in use, one of another kind, or one that belongs
    /// to a file but has none before it.
    Single(Seq<u8>),
    /// A file: its first slot, and as many behind it as that one says.
    File(Seq<Seq<u8>>),
    /// The first slots of a file, of which the rest are missing.
    Broken(Seq<Seq<u8>>),
}

/// Slots, one behind another.
pub open spec fn flat(slots: Seq<Seq<u8>>) -> Seq<u8>
    decreases slots.len(),
{
    if slots.len() == 0 {
        Seq::empty()
    } else {
        flat(slots.drop_last()) + slots.last()
    }
}

impl Part {
    /// The slots of the part.
    pub open spec fn slots(self) -> Seq<Seq<u8>> {
        match self {
            Part::Single(slot) => seq![slot],
            Part::File(slots) => slots,
            Part::Broken(slots) => slots,
        }
    }

    /// Whether the part is what it says: a file's first slot has the type byte 0x85 and behind it
    /// the number of slots that follow, each of which has the two highest bits of its type byte
    /// set.
    pub open spec fn wf(self) -> bool {
        &&& self.slots().len() > 0
        &&& forall|i: int| 0 <= i < self.slots().len() ==> (#[trigger] self.slots()[i]).len() == 32
        &&& match self {
            Part::Single(slot) => slot[0] != 0 && slot[0] != 0x85,
            Part::File(slots) => {
                &&& slots.len() >= 2
                &&& slots[0][0] == 0x85
                &&& slots[0][1] == slots.len() - 1
                &&& forall|i: int| 1 <= i < slots.len() ==> (#[trigger] slots[i])[0] >= 0xC0
            },
            Part::Broken(slots) => {
                &&& slots[0][0] == 0x85
                &&& slots[0][1] >= slots.len()
                &&& forall|i: int| 1 <= i < slots.len() ==> (#[trigger] slots[i])[0] >= 0xC0
            },
        }
    }
}

/// The slots of parts, one behind another.
pub open spec fn slots_of(parts: Seq<Part>) -> Seq<Seq<u8>>
    decreases parts.len(),
{
    if parts.len() == 0 {
        Seq::empty()
    } else {
        slots_of(parts.drop_last()) + parts.last().slots()
    }
}

/// The files among parts, one behind another.
pub open spec fn sets_of(parts: Seq<Part>) -> Seq<Seq<Seq<u8>>>
    decreases parts.len(),
{
    if parts.len() == 0 {
        Seq::empty()
    } else {
        match parts.last() {
            Part::File(slots) => sets_of(parts.drop_last()).push(slots),
            _ => sets_of(parts.drop_last()),
        }
    }
}

/// How many parts begin as a file does.
pub open spec fn files_in(parts: Seq<Part>) -> int
    decreases parts.len(),
{
    if parts.len() == 0 {
        0
    } else {
        files_in(parts.drop_last()) + if parts.last() is Single {
            0int
        } else {
            1int
        }
    }
}

/// Whether each part is what it says, and what follows a broken file does not belong to it.
pub open spec fn parts_wf(parts: Seq<Part>) -> bool {
    &&& forall|i: int| 0 <= i < parts.len() ==> (#[trigger] parts[i]).wf()
    &&& forall|i: int|
        0 < i < parts.len() && parts[i - 1] is Broken ==> (#[trigger] parts[i]).slots()[0][0]
            < 0xC0
}

/// What files say they are, in turn; one that says nothing gives nothing.
pub open spec fn names_in(reading: Reading, sets: Seq<Seq<Seq<u8>>>) -> Seq<Named>
    decreases sets.len(),
{
    if sets.len() == 0 {
        Seq::empty()
    } else {
        let before = names_in(reading, sets.drop_last());
        match set_read(reading.layout, reading.mapping, flat(sets.last()), 0).entry {
            Some(named) => before.push(named),
            None => before,
        }
    }
}

/// Whether a directory has these slots first.
spec fn begins(vol: Vol, storage: Storage, declared: u64, slots: Seq<Seq<u8>>) -> bool {
    forall|n: int|
        0 <= n < slots.len() ==> (#[trigger] vol.slot_at(storage, declared, n)) is Ok
            && vol.slot_at(storage, declared, n)->Ok_0.bytes == slots[n]
}

/// Whether a reading goes on behind some slots with nothing but the files of them listed.
spec fn has_listed(reading: Reading, state: Parsed, parts: Seq<Part>) -> bool {
    &&& !state.done()
    &&& state.ended is None
    &&& !state.full
    &&& state.out == names_in(reading, sets_of(parts))
    &&& state.out.len() <= files_in(parts)
    &&& state.set is Some ==> parts.len() > 0 && parts.last() is Broken
}

/// Whether nothing is wrong with a part, whichever slot it begins at.
pub open spec fn is_sound(reading: Reading, part: Part) -> bool {
    match part {
        Part::Single(slot) => slot[0] < 0x80,
        Part::File(slots) => forall|index: u32|
            (#[trigger] set_read(reading.layout, reading.mapping, flat(slots), index)).log.len()
                == 0,
        Part::Broken(_) => false,
    }
}

/// Slots of 32 bytes are as many bytes.
proof fn lemma_flat_len(slots: Seq<Seq<u8>>)
    requires
        forall|i: int| 0 <= i < slots.len() ==> (#[trigger] slots[i]).len() == 32,
    ensures
        flat(slots).len() == 32 * slots.len(),
    decreases slots.len(),
{
    if slots.len() > 0 {
        assert forall|i: int| 0 <= i < slots.drop_last().len() implies (
        #[trigger] slots.drop_last()[i]).len() == 32 by {
            assert(slots.drop_last()[i] == slots[i]);
        }
        lemma_flat_len(slots.drop_last());
    }
}

/// The bytes of slot `n` of slots one behind another.
proof fn lemma_flat_slot(slots: Seq<Seq<u8>>, n: int)
    requires
        forall|i: int| 0 <= i < slots.len() ==> (#[trigger] slots[i]).len() == 32,
        0 <= n < slots.len(),
    ensures
        flat(slots).len() == 32 * slots.len(),
        flat(slots).subrange(32 * n, 32 * n + 32) == slots[n],
    decreases slots.len(),
{
    lemma_flat_len(slots);
    let before = slots.drop_last();
    assert forall|i: int| 0 <= i < before.len() implies (#[trigger] before[i]).len() == 32 by {
        assert(before[i] == slots[i]);
    }
    lemma_flat_len(before);
    if n < slots.len() - 1 {
        lemma_flat_slot(before, n);
        assert(flat(slots).subrange(32 * n, 32 * n + 32) =~= flat(before).subrange(
            32 * n,
            32 * n + 32,
        ));
    } else {
        assert(flat(slots).subrange(32 * n, 32 * n + 32) =~= slots[n]);
    }
}

/// Reading the first slot of a part, or an end marker, is the same whether or not the file before
/// it is broken.
proof fn lemma_first_slot(reading: Reading, state: Parsed, slot: SlotView, parts: Seq<Part>)
    requires
        has_listed(reading, state, parts),
        slot.bytes[0] < 0xC0,
    ensures
        ({
            let base = match state.set {
                Some(pending) => Parsed { set: None, ..state.noting(pending.broken()) },
                None => state,
            };
            step(reading, state, slot) == step_primary(reading, base, slot)
        }),
{
}

/// A part of a single slot lists nothing.
proof fn lemma_single(
    reading: Reading,
    vol: Vol,
    storage: Storage,
    declared: u64,
    parts: Seq<Part>,
)
    requires
        parts.len() > 0,
        parts.last() is Single,
        parts_wf(parts),
        begins(vol, storage, declared, slots_of(parts)),
        has_listed(
            reading,
            parsed(reading, vol, storage, declared, slots_of(parts.drop_last()).len() as int),
            parts.drop_last(),
        ),
    ensures
        ({
            let at = slots_of(parts.drop_last()).len() as int;
            let before = parsed(reading, vol, storage, declared, at);
            let after = parsed(reading, vol, storage, declared, slots_of(parts).len() as int);
            &&& has_listed(reading, after, parts)
            &&& before.log.len() == 0 && is_sound(reading, parts.last()) && before.set is None
                ==> after.log.len() == 0
        }),
{
    reveal(step_primary);
    let at = slots_of(parts.drop_last()).len() as int;
    let slots = slots_of(parts);
    let before = parsed(reading, vol, storage, declared, at);
    let slot = vol.slot_at(storage, declared, at)->Ok_0;
    assert(slots[at] == parts.last().slots()[0]);
    assert(parts[parts.len() - 1].wf());
    assert(slot.bytes == slots[at]);
    if slot.bytes[0] >= 0xC0 {
        assert(before.set is None);
    } else {
        lemma_first_slot(reading, before, slot, parts.drop_last());
    }
}

/// The slots of a file so far are kept until all of them have been read.
#[verifier::rlimit(30)]
proof fn lemma_members(
    reading: Reading,
    vol: Vol,
    storage: Storage,
    declared: u64,
    parts: Seq<Part>,
    t: int,
)
    requires
        parts.len() > 0,
        !(parts.last() is Single),
        parts_wf(parts),
        begins(vol, storage, declared, slots_of(parts)),
        files_in(parts) <= reading.cap,
        has_listed(
            reading,
            parsed(reading, vol, storage, declared, slots_of(parts.drop_last()).len() as int),
            parts.drop_last(),
        ),
        1 <= t <= parts.last().slots().len(),
        parts.last() is File ==> t < parts.last().slots().len(),
    ensures
        ({
            let at = slots_of(parts.drop_last()).len() as int;
            let before = parsed(reading, vol, storage, declared, at);
            let state = parsed(reading, vol, storage, declared, at + t);
            &&& !state.done()
            &&& state.ended is None
            &&& !state.full
            &&& state.out == before.out
            &&& state.set == Some(
                Pending {
                    index: vol.slot_at(storage, declared, at)->Ok_0.index,
                    want: parts.last().slots()[0][1] as int,
                    bytes: flat(parts.last().slots().take(t)),
                },
            )
            &&& before.log.len() == 0 && before.set is None ==> state.log.len() == 0
        }),
    decreases t,
{
    let at = slots_of(parts.drop_last()).len() as int;
    let slots = slots_of(parts);
    let own = parts.last().slots();
    assert(parts[parts.len() - 1].wf());
    let slot = vol.slot_at(storage, declared, at + t - 1)->Ok_0;
    assert(slots[at + t - 1] == own[t - 1]);
    assert(slot.bytes == own[t - 1]);
    assert(own.take(t).drop_last() =~= own.take(t - 1));
    assert(flat(own.take(t)) == flat(own.take(t - 1)) + own[t - 1]);
    if t == 1 {
        let before = parsed(reading, vol, storage, declared, at);
        assert(own.take(0) =~= Seq::empty());
        assert(flat(own.take(1)) =~= own[0]);
        assert(parsed(reading, vol, storage, declared, at + 1) == step(reading, before, slot));
        lemma_begins_a_file(reading, before, slot, parts.drop_last());
    } else {
        lemma_members(reading, vol, storage, declared, parts, t - 1);
        let state = parsed(reading, vol, storage, declared, at + t - 1);
        let pending = state.set->Some_0;
        assert(parsed(reading, vol, storage, declared, at + t) == step(reading, state, slot));
        assert forall|i: int| 0 <= i < own.take(t).len() implies (#[trigger] own.take(t)[i]).len()
            == 32 by {
            assert(own.take(t)[i] == own[i]);
        }
        lemma_flat_len(own.take(t));
        assert(pending.with(slot.bytes).bytes == flat(own.take(t)));
        assert(slot.bytes[0] >= 0xC0);
        lemma_goes_on(reading, state, slot);
    }
}

/// The first slot of a file begins it.
proof fn lemma_begins_a_file(reading: Reading, state: Parsed, slot: SlotView, parts: Seq<Part>)
    requires
        has_listed(reading, state, parts),
        slot.bytes[0] == 0x85,
        slot.bytes[1] > 0,
        state.out.len() < reading.cap,
    ensures
        ({
            let after = step(reading, state, slot);
            &&& !after.done()
            &&& after.ended is None
            &&& !after.full
            &&& after.out == state.out
            &&& after.set == Some(
                Pending { index: slot.index, want: slot.bytes[1] as int, bytes: slot.bytes },
            )
            &&& state.log.len() == 0 && state.set is None ==> after.log.len() == 0
        }),
{
    reveal(step_primary);
    lemma_first_slot(reading, state, slot, parts);
    assert(FileEntry::decoded(slot.bytes).secondary_count == slot.bytes[1]);
}

/// A slot of a file that has more to come is kept with those before it.
proof fn lemma_goes_on(reading: Reading, state: Parsed, slot: SlotView)
    requires
        state.ended is None,
        state.set is Some,
        slot.bytes[0] >= 0xC0,
        state.set->Some_0.with(slot.bytes).have() < state.set->Some_0.want,
    ensures
        step(reading, state, slot) == (Parsed {
            set: Some(state.set->Some_0.with(slot.bytes)),
            ..state
        }),
{
    reveal(step_set);
    assert(EntryType(slot.bytes[0]).secondary());
}

/// A file is listed once all its slots have been read.
proof fn lemma_set(
    reading: Reading,
    vol: Vol,
    storage: Storage,
    declared: u64,
    parts: Seq<Part>,
)
    requires
        parts.len() > 0,
        parts.last() is File,
        parts_wf(parts),
        begins(vol, storage, declared, slots_of(parts)),
        files_in(parts) <= reading.cap,
        has_listed(
            reading,
            parsed(reading, vol, storage, declared, slots_of(parts.drop_last()).len() as int),
            parts.drop_last(),
        ),
    ensures
        ({
            let at = slots_of(parts.drop_last()).len() as int;
            let before = parsed(reading, vol, storage, declared, at);
            let after = parsed(reading, vol, storage, declared, slots_of(parts).len() as int);
            &&& has_listed(reading, after, parts)
            &&& after.set is None
            &&& before.log.len() == 0 && is_sound(reading, parts.last()) && before.set is None
                ==> after.log.len() == 0
        }),
{
    let at = slots_of(parts.drop_last()).len() as int;
    let slots = slots_of(parts);
    let own = parts.last().slots();
    assert(parts[parts.len() - 1].wf());
    let t = own.len() as int;
    lemma_members(reading, vol, storage, declared, parts, t - 1);
    let state = parsed(reading, vol, storage, declared, at + t - 1);
    let slot = vol.slot_at(storage, declared, at + t - 1)->Ok_0;
    assert(slots[at + t - 1] == own[t - 1]);
    assert(slot.bytes == own[t - 1]);
    assert(own.take(t - 1) =~= own.drop_last());
    lemma_flat_len(own);
    let pending = state.set->Some_0;
    assert(pending.with(slot.bytes).bytes == flat(own));
    assert(slot.bytes[0] >= 0xC0);
    assert(slots.len() == at + t);
    assert(parsed(reading, vol, storage, declared, at + t) == step(reading, state, slot));
    lemma_ends_a_file(reading, state, slot, flat(own));
    let sets = sets_of(parts);
    assert(sets.drop_last() =~= sets_of(parts.drop_last()));
    assert(sets.last() == own);
}

/// The last slot of a file lists it.
proof fn lemma_ends_a_file(reading: Reading, state: Parsed, slot: SlotView, own: Seq<u8>)
    requires
        state.ended is None,
        state.set is Some,
        slot.bytes[0] >= 0xC0,
        state.set->Some_0.with(slot.bytes).bytes == own,
        state.set->Some_0.with(slot.bytes).have() >= state.set->Some_0.want,
    ensures
        ({
            let after = step(reading, state, slot);
            &&& after.set is None
            &&& after.out == (match set_read(reading.layout, reading.mapping, own, 0).entry {
                Some(named) => state.out.push(named),
                None => state.out,
            })
            &&& after.log == state.log + set_read(
                reading.layout,
                reading.mapping,
                own,
                state.set->Some_0.index,
            ).log
            &&& after.done() == state.done()
            &&& after.ended is None
            &&& after.full == state.full
        }),
{
    reveal(step_set);
    assert(EntryType(slot.bytes[0]).secondary());
    let index = state.set->Some_0.index;
    assert(set_read(reading.layout, reading.mapping, own, index).entry == set_read(
        reading.layout,
        reading.mapping,
        own,
        0,
    ).entry);
}

/// The first slots of a directory list the files among them.
proof fn lemma_parts(
    reading: Reading,
    vol: Vol,
    storage: Storage,
    declared: u64,
    parts: Seq<Part>,
)
    requires
        parts_wf(parts),
        begins(vol, storage, declared, slots_of(parts)),
        files_in(parts) <= reading.cap,
    ensures
        has_listed(
            reading,
            parsed(reading, vol, storage, declared, slots_of(parts).len() as int),
            parts,
        ),
        (forall|i: int| 0 <= i < parts.len() ==> is_sound(reading, #[trigger] parts[i])) ==> parsed(
            reading,
            vol,
            storage,
            declared,
            slots_of(parts).len() as int,
        ).log.len() == 0,
    decreases parts.len(),
{
    if parts.len() > 0 {
        let rest = parts.drop_last();
        assert(parts_wf(rest)) by {
            assert forall|i: int| 0 <= i < rest.len() implies (#[trigger] rest[i]).wf() by {
                assert(rest[i] == parts[i]);
            }
            assert forall|i: int| 0 < i < rest.len() && rest[i - 1] is Broken implies (
            #[trigger] rest[i]).slots()[0][0] < 0xC0 by {
                assert(rest[i] == parts[i]);
                assert(parts[i - 1] is Broken);
            }
        }
        assert(begins(vol, storage, declared, slots_of(rest))) by {
            assert forall|n: int| 0 <= n < slots_of(rest).len() implies (#[trigger] vol.slot_at(
                storage,
                declared,
                n,
            )) is Ok && vol.slot_at(storage, declared, n)->Ok_0.bytes == slots_of(rest)[n] by {
                assert(slots_of(parts)[n] == slots_of(rest)[n]);
            }
        }
        lemma_parts(reading, vol, storage, declared, rest);
        if forall|i: int| 0 <= i < parts.len() ==> is_sound(reading, #[trigger] parts[i]) {
            assert forall|i: int| 0 <= i < rest.len() implies is_sound(
                reading,
                #[trigger] rest[i],
            ) by {
                assert(rest[i] == parts[i]);
            }
            if rest.len() > 0 {
                assert(is_sound(reading, parts[rest.len() - 1]));
            }
            assert(is_sound(reading, parts[parts.len() - 1]));
        }
        match parts.last() {
            Part::Single(_) => {
                lemma_single(reading, vol, storage, declared, parts);
            },
            Part::File(_) => {
                lemma_set(reading, vol, storage, declared, parts);
            },
            Part::Broken(own) => {
                assert(parts[parts.len() - 1].wf());
                lemma_members(reading, vol, storage, declared, parts, own.len() as int);
            },
        }
    }
}

/// Behind the end marker nothing more is listed.
proof fn lemma_behind_the_end(
    reading: Reading,
    vol: Vol,
    storage: Storage,
    declared: u64,
    n: int,
    more: int,
)
    requires
        0 <= n <= more,
        parsed(reading, vol, storage, declared, n).ended is Some,
        parsed(reading, vol, storage, declared, n).failed is None,
        !parsed(reading, vol, storage, declared, n).full,
        forall|i: int| n <= i < more ==> (#[trigger] vol.slot_at(storage, declared, i)) is Ok,
    ensures
        ({
            let before = parsed(reading, vol, storage, declared, n);
            let after = parsed(reading, vol, storage, declared, more);
            &&& after.ended is Some
            &&& after.failed is None
            &&& !after.full
            &&& after.out == before.out
            &&& after.set == before.set
            &&& before.log.len() == 0 && (forall|i: int|
                n <= i < more ==> (#[trigger] vol.slot_at(storage, declared, i))->Ok_0.bytes[0]
                    == 0) ==> after.log.len() == 0
        }),
    decreases more - n,
{
    if n < more {
        lemma_behind_the_end(reading, vol, storage, declared, n, more - 1);
        reveal(step_ended);
        assert(vol.slot_at(storage, declared, more - 1) is Ok);
    }
}

/// Whether a directory is these parts, and behind them an end marker or nothing: the bytes of its
/// clusters in turn are the slots of the parts, and where there is a byte behind them it is zero.
pub open spec fn is_made_of(
    vol: Vol,
    storage: Storage,
    declared: u64,
    clusters: Seq<u32>,
    parts: Seq<Part>,
) -> bool {
    let bytes = vol.joined(clusters);
    let end = 32 * slots_of(parts).len();
    &&& vol.has_clusters(storage, clusters)
    &&& ceil_div(declared as int, vol.layout.bytes_per_cluster as int) == clusters.len()
    &&& parts_wf(parts)
    &&& end <= bytes.len()
    &&& bytes.take(end as int) == flat(slots_of(parts))
    &&& end < bytes.len() ==> bytes[end as int] == 0
}

/// The slots of parts are of 32 bytes.
proof fn lemma_slot_lens(parts: Seq<Part>)
    requires
        forall|i: int| 0 <= i < parts.len() ==> (#[trigger] parts[i]).wf(),
    ensures
        forall|n: int| 0 <= n < slots_of(parts).len() ==> (#[trigger] slots_of(parts)[n]).len() == 32,
    decreases parts.len(),
{
    if parts.len() > 0 {
        let rest = parts.drop_last();
        assert forall|i: int| 0 <= i < rest.len() implies (#[trigger] rest[i]).wf() by {
            assert(rest[i] == parts[i]);
        }
        lemma_slot_lens(rest);
        assert(parts[parts.len() - 1].wf());
        assert forall|n: int| 0 <= n < slots_of(parts).len() implies (
        #[trigger] slots_of(parts)[n]).len() == 32 by {
            if n < slots_of(rest).len() {
                assert(slots_of(parts)[n] == slots_of(rest)[n]);
            } else {
                assert(slots_of(parts)[n] == parts.last().slots()[n - slots_of(rest).len()]);
            }
        }
    }
}

/// A directory lists every file of it that is in use, in turn and each once, whatever lies between
/// them: slots that are not in use, as those of a deleted file are, slots of other kinds, and
/// files some of whose slots are missing. Only an end marker or the end of its clusters ends it.
/// And where nothing is wrong with its files and only slots that are not in use lie between them,
/// nothing is wrong with the directory.
pub proof fn lemma_a_directory_lists_every_file_in_use(
    reading: Reading,
    vol: Vol,
    storage: Storage,
    declared: u64,
    clusters: Seq<u32>,
    parts: Seq<Part>,
)
    requires
        vol.wf(),
        is_made_of(vol, storage, declared, clusters, parts),
        files_in(parts) <= reading.cap,
    ensures
        dir_read(reading, vol, storage, declared).entries == Ok::<Seq<Named>, ReadError>(
            names_in(reading, sets_of(parts)),
        ),
        (forall|i: int| 0 <= i < parts.len() ==> is_sound(reading, #[trigger] parts[i])) && (forall|
            n: int,
        |
            slots_of(parts).len() <= n && 32 * n < vol.joined(clusters).len()
                ==> #[trigger] vol.joined(clusters)[32 * n] == 0) ==> dir_read(
            reading,
            vol,
            storage,
            declared,
        ).log.len() == 0,
{
    let slots = slots_of(parts);
    let bytes = vol.joined(clusters);
    let total = vol.slot_count(storage, declared);
    let at = slots.len() as int;
    let per = vol.per();
    lemma_slots(vol);
    lemma_slot_lens(parts);
    assert(bytes.len() == 32 * total) by (nonlinear_arith)
        requires
            bytes.len() == clusters.len() * per,
            total == clusters.len() * vol.slots(),
            vol.slots() * 32 == per,
    ;
    assert forall|n: int| 0 <= n < total implies (#[trigger] vol.slot_at(storage, declared, n))
        is Ok && vol.slot_at(storage, declared, n)->Ok_0.bytes == bytes.subrange(
        32 * n,
        32 * n + 32,
    ) by {
        lemma_a_slot_is_32_bytes_of_the_directory(vol, storage, clusters, declared, n);
    }
    assert(begins(vol, storage, declared, slots)) by {
        assert forall|n: int| 0 <= n < slots.len() implies (#[trigger] vol.slot_at(
            storage,
            declared,
            n,
        )) is Ok && vol.slot_at(storage, declared, n)->Ok_0.bytes == slots[n] by {
            lemma_flat_slot(slots, n);
            assert(bytes.subrange(32 * n, 32 * n + 32) =~= bytes.take(32 * at).subrange(
                32 * n,
                32 * n + 32,
            ));
        }
    }
    lemma_parts(reading, vol, storage, declared, parts);
    let state = parsed(reading, vol, storage, declared, at);
    if at < total {
        let slot = vol.slot_at(storage, declared, at)->Ok_0;
        assert(slot.bytes[0] == bytes[32 * at]);
        lemma_first_slot(reading, state, slot, parts);
        let next = parsed(reading, vol, storage, declared, at + 1);
        assert(next.ended is Some && next.out == state.out && next.failed is None && !next.full
            && next.set is None && (state.set is None && state.log.len() == 0 ==> next.log.len()
            == 0)) by {
            reveal(step_primary);
        }
        assert forall|i: int| at + 1 <= i < total implies (#[trigger] vol.slot_at(
            storage,
            declared,
            i,
        ))->Ok_0.bytes[0] == bytes[32 * i] by {}
        lemma_behind_the_end(reading, vol, storage, declared, at + 1, total);
    }
    if forall|i: int| 0 <= i < parts.len() ==> is_sound(reading, #[trigger] parts[i]) {
        if parts.len() > 0 {
            assert(is_sound(reading, parts[parts.len() - 1]));
        }
        assert(state.set is None);
    }
}

/// Two directories with the same files in use, in the same order, list the same, whatever else
/// lies between the files of either: inserting slots that are not in use, or taking them out,
/// changes nothing that is listed.
pub proof fn lemma_what_lies_between_files_changes_no_listing(
    reading: Reading,
    a: Vol,
    a_storage: Storage,
    a_declared: u64,
    a_clusters: Seq<u32>,
    a_parts: Seq<Part>,
    b: Vol,
    b_storage: Storage,
    b_declared: u64,
    b_clusters: Seq<u32>,
    b_parts: Seq<Part>,
)
    requires
        a.wf(),
        b.wf(),
        is_made_of(a, a_storage, a_declared, a_clusters, a_parts),
        is_made_of(b, b_storage, b_declared, b_clusters, b_parts),
        sets_of(a_parts) == sets_of(b_parts),
        files_in(a_parts) <= reading.cap,
        files_in(b_parts) <= reading.cap,
    ensures
        dir_read(reading, a, a_storage, a_declared).entries is Ok,
        dir_read(reading, a, a_storage, a_declared).entries == dir_read(
            reading,
            b,
            b_storage,
            b_declared,
        ).entries,
{
    lemma_a_directory_lists_every_file_in_use(
        reading,
        a,
        a_storage,
        a_declared,
        a_clusters,
        a_parts,
    );
    lemma_a_directory_lists_every_file_in_use(
        reading,
        b,
        b_storage,
        b_declared,
        b_clusters,
        b_parts,
    );
}

/// The slots of a deleted file: each with the in-use bit of its type byte cleared.
pub open spec fn deleted(slots: Seq<Seq<u8>>) -> Seq<Part> {
    Seq::new(
        slots.len(),
        |i: int| Part::Single(slots[i].update(0, (slots[i][0] - 0x80) as u8)),
    )
}

/// Single slots are no files.
proof fn lemma_singles(parts: Seq<Part>, singles: Seq<Part>)
    requires
        forall|i: int| 0 <= i < singles.len() ==> #[trigger] singles[i] is Single,
    ensures
        sets_of(parts + singles) == sets_of(parts),
        files_in(parts + singles) == files_in(parts),
    decreases singles.len(),
{
    if singles.len() == 0 {
        assert(parts + singles =~= parts);
    } else {
        assert((parts + singles).drop_last() =~= parts + singles.drop_last());
        assert(singles[singles.len() - 1] is Single);
        assert forall|i: int| 0 <= i < singles.drop_last().len() implies
            #[trigger] singles.drop_last()[i] is Single by {
            assert(singles.drop_last()[i] == singles[i]);
        }
        lemma_singles(parts, singles.drop_last());
    }
}

/// The files of parts one behind another.
proof fn lemma_sets_concat(a: Seq<Part>, b: Seq<Part>)
    ensures
        sets_of(a + b) == sets_of(a) + sets_of(b),
        files_in(a + b) == files_in(a) + files_in(b),
    decreases b.len(),
{
    if b.len() == 0 {
        assert(a + b =~= a);
        assert(sets_of(a) + sets_of(b) =~= sets_of(a));
    } else {
        assert((a + b).drop_last() =~= a + b.drop_last());
        lemma_sets_concat(a, b.drop_last());
        assert(sets_of(a + b) =~= sets_of(a) + sets_of(b));
    }
}

/// Deleting a file, as a driver does, by clearing the in-use bit of each of its slots, takes that
/// file from the listing and leaves every other, those behind it as those before it.
pub proof fn lemma_deleting_a_file_leaves_the_others(
    reading: Reading,
    vol: Vol,
    storage: Storage,
    declared: u64,
    clusters: Seq<u32>,
    before: Seq<Part>,
    file: Seq<Seq<u8>>,
    after: Seq<Part>,
)
    requires
        vol.wf(),
        Part::File(file).wf(),
        is_made_of(vol, storage, declared, clusters, before + deleted(file) + after),
        files_in(before) + files_in(after) <= reading.cap,
    ensures
        dir_read(reading, vol, storage, declared).entries == Ok::<Seq<Named>, ReadError>(
            names_in(reading, sets_of(before) + sets_of(after)),
        ),
{
    let gone = deleted(file);
    lemma_singles(before, gone);
    lemma_sets_concat(before + gone, after);
    lemma_a_directory_lists_every_file_in_use(
        reading,
        vol,
        storage,
        declared,
        clusters,
        before + gone + after,
    );
}

impl<'a> Reader<'a> {
    /// A reader lists every file of a directory that is in use, in turn and each once, where
    /// nothing is wrong with any of them and only slots that are not in use lie between them,
    /// however strict it is.
    pub proof fn lemma_a_listing_is_every_file_in_use(
        &self,
        node: Node,
        clusters: Seq<u32>,
        parts: Seq<Part>,
    )
        requires
            self.wf(),
            is_made_of(self.vol(), node.storage, node.data_length, clusters, parts),
            files_in(parts) <= self.reading(node).cap,
            forall|i: int| 0 <= i < parts.len() ==> is_sound(self.reading(node), #[trigger] parts[i]),
            forall|n: int|
                slots_of(parts).len() <= n && 32 * n < self.vol().joined(clusters).len()
                    ==> #[trigger] self.vol().joined(clusters)[32 * n] == 0,
        ensures
            self.listing(node) == Ok::<Seq<Named>, ReadError>(
                names_in(self.reading(node), sets_of(parts)),
            ),
    {
        self.lemma_sound();
        lemma_a_directory_lists_every_file_in_use(
            self.reading(node),
            self.vol(),
            node.storage,
            node.data_length,
            clusters,
            parts,
        );
        assert(self.directory(node).log =~= Seq::empty());
    }
}

/// What is remarked on stays remarked on.
proof fn lemma_remarks_stay(
    reading: Reading,
    vol: Vol,
    storage: Storage,
    declared: u64,
    n: int,
    more: int,
)
    requires
        0 <= n <= more,
    ensures
        ({
            let a = parsed(reading, vol, storage, declared, n).log;
            let b = parsed(reading, vol, storage, declared, more).log;
            a.len() <= b.len() && b.take(a.len() as int) == a
        }),
    decreases more - n,
{
    let a = parsed(reading, vol, storage, declared, n).log;
    if n < more {
        lemma_remarks_stay(reading, vol, storage, declared, n, more - 1);
        let state = parsed(reading, vol, storage, declared, more - 1);
        let after = parsed(reading, vol, storage, declared, more);
        reveal(step_ended);
        reveal(step_set);
        reveal(step_primary);
        assert(state.log.len() <= after.log.len() && after.log.take(state.log.len() as int)
            =~= state.log);
        assert(after.log.take(a.len() as int) =~= state.log.take(a.len() as int));
    } else {
        assert(a.take(a.len() as int) =~= a);
    }
}

/// A remark of the first slots is one of the directory.
proof fn lemma_remark_is_kept(
    reading: Reading,
    vol: Vol,
    storage: Storage,
    declared: u64,
    n: int,
    remark: Noted,
)
    requires
        0 <= n <= vol.slot_count(storage, declared),
        parsed(reading, vol, storage, declared, n).log.len() > 0,
        parsed(reading, vol, storage, declared, n).log.last() == remark,
    ensures
        dir_read(reading, vol, storage, declared).log.contains(remark),
{
    let total = vol.slot_count(storage, declared);
    let a = parsed(reading, vol, storage, declared, n).log;
    let b = parsed(reading, vol, storage, declared, total).log;
    let all = dir_read(reading, vol, storage, declared).log;
    lemma_remarks_stay(reading, vol, storage, declared, n, total);
    assert(b.take(a.len() as int)[a.len() - 1] == b[a.len() - 1]);
    assert(all[a.len() - 1] == remark);
}

/// A slot that is no file's is remarked on where it should not be there: one that belongs to a file
/// but has none before it, one that says it is essential and is of no kind the format has, and one
/// that only the root directory has, in another; and so is a file that says no slot follows it. A
/// slot that is not in use is not remarked on, nor one that says it is not essential.
pub proof fn lemma_a_slot_out_of_place_is_remarked_on(
    reading: Reading,
    vol: Vol,
    storage: Storage,
    declared: u64,
    n: int,
)
    requires
        0 <= n < vol.slot_count(storage, declared),
        vol.slot_at(storage, declared, n) is Ok,
        !parsed(reading, vol, storage, declared, n).done(),
        parsed(reading, vol, storage, declared, n).ended is None,
        parsed(reading, vol, storage, declared, n).set is None,
    ensures
        ({
            let slot = vol.slot_at(storage, declared, n)->Ok_0;
            let kind = slot.bytes[0];
            let index = slot.index;
            let at = slot.location();
            let before = parsed(reading, vol, storage, declared, n);
            let after = parsed(reading, vol, storage, declared, n + 1);
            let all = dir_read(reading, vol, storage, declared).log;
            &&& kind >= 0xC0 ==> all.contains(
                Noted { at, err: ReadError::StraySecondaryEntry { index } },
            )
            &&& (kind == 0x80 || kind == 0x84 || 0x86 <= kind < 0xA0) ==> all.contains(
                Noted { at, err: ReadError::UnknownCriticalEntry { index, entry_type: kind } },
            )
            &&& 0x81 <= kind <= 0x83 && !reading.is_root ==> exists|entry_type: &'static str|
                all.contains(
                    Noted {
                        at,
                        err: #[trigger] misplaced(index, entry_type),
                    },
                )
            &&& kind == 0x85 && slot.bytes[1] == 0 && before.out.len() < reading.cap
                ==> all.contains(
                Noted {
                    at,
                    err: ReadError::IncompleteEntrySet { index, detail: SetDetail::NoneDeclared },
                },
            )
            &&& kind < 0x80 || 0xA0 <= kind < 0xC0 || 0x81 <= kind <= 0x83 && reading.is_root
                ==> after.log == before.log && after.out == before.out
            &&& kind != 0x85 ==> after.out == before.out && after.set is None && !after.done()
        }),
{
    reveal(step_primary);
    let slot = vol.slot_at(storage, declared, n)->Ok_0;
    let kind = slot.bytes[0];
    let index = slot.index;
    let at = slot.location();
    let before = parsed(reading, vol, storage, declared, n);
    let after = parsed(reading, vol, storage, declared, n + 1);
    let none = Seq::<Noted>::empty();
    assert(before.log + none =~= before.log);
    assert(after == step_primary(reading, before, slot));
    if kind >= 0xC0 {
        let remark = Noted { at, err: ReadError::StraySecondaryEntry { index } };
        assert(after.log.last() == remark);
        lemma_remark_is_kept(reading, vol, storage, declared, n + 1, remark);
    } else if kind == 0x80 || kind == 0x84 || 0x86 <= kind < 0xA0 {
        let remark = Noted {
            at,
            err: ReadError::UnknownCriticalEntry { index, entry_type: kind },
        };
        assert(after.log.last() == remark);
        lemma_remark_is_kept(reading, vol, storage, declared, n + 1, remark);
    } else if 0x81 <= kind <= 0x83 && !reading.is_root {
        let entry_type = resident_name(kind);
        let remark = Noted { at, err: misplaced(index, entry_type) };
        assert(after.log.last() == remark);
        lemma_remark_is_kept(reading, vol, storage, declared, n + 1, remark);
    } else if kind == 0x85 && slot.bytes[1] == 0 && before.out.len() < reading.cap {
        let remark = Noted {
            at,
            err: ReadError::IncompleteEntrySet { index, detail: SetDetail::NoneDeclared },
        };
        assert(after.log.last() == remark);
        lemma_remark_is_kept(reading, vol, storage, declared, n + 1, remark);
    }
}

/// The remark on a slot only the root directory has, in another directory.
pub open spec fn misplaced(index: u32, entry_type: &'static str) -> ReadError {
    ReadError::MisplacedRootEntry { index, entry_type }
}

/// A file some of whose slots are missing is remarked on: where a slot that does not belong to it
/// comes before the last of them, and where the directory ends before it.
pub proof fn lemma_a_file_cut_short_is_remarked_on(
    reading: Reading,
    vol: Vol,
    storage: Storage,
    declared: u64,
    n: int,
)
    requires
        0 <= n <= vol.slot_count(storage, declared),
        !parsed(reading, vol, storage, declared, n).done(),
        parsed(reading, vol, storage, declared, n).ended is None,
        parsed(reading, vol, storage, declared, n).set is Some,
        !parsed(reading, vol, storage, declared, n).full,
        n < vol.slot_count(storage, declared) ==> vol.slot_at(storage, declared, n) is Ok
            && vol.slot_at(storage, declared, n)->Ok_0.bytes[0] < 0xC0,
    ensures
        exists|k: int|
            0 <= k < dir_read(reading, vol, storage, declared).log.len() && (
            #[trigger] dir_read(reading, vol, storage, declared).log[k]).err is IncompleteEntrySet,
{
    reveal(step_primary);
    let before = parsed(reading, vol, storage, declared, n);
    let pending = before.set->Some_0;
    let all = dir_read(reading, vol, storage, declared).log;
    let at = before.log.len() as int;
    if n < vol.slot_count(storage, declared) {
        let slot = vol.slot_at(storage, declared, n)->Ok_0;
        let after = parsed(reading, vol, storage, declared, n + 1);
        let total = vol.slot_count(storage, declared);
        let end = parsed(reading, vol, storage, declared, total).log;
        assert(after.log[at] == pending.broken()[0]);
        lemma_remarks_stay(reading, vol, storage, declared, n + 1, total);
        assert(end.take(after.log.len() as int)[at] == end[at]);
        assert(all[at] == pending.broken()[0]);
    } else {
        assert(all[at] == pending.unfinished()[0]);
    }
}

/// The first slot in use behind the end marker, of those in its cluster, is remarked on, and lists
/// nothing.
pub proof fn lemma_a_slot_behind_the_end_is_remarked_on(
    reading: Reading,
    vol: Vol,
    storage: Storage,
    declared: u64,
    n: int,
)
    requires
        0 <= n < vol.slot_count(storage, declared),
        vol.slot_at(storage, declared, n) is Ok,
        !parsed(reading, vol, storage, declared, n).done(),
        parsed(reading, vol, storage, declared, n).ended is Some,
    ensures
        ({
            let slot = vol.slot_at(storage, declared, n)->Ok_0;
            let before = parsed(reading, vol, storage, declared, n);
            let after = parsed(reading, vol, storage, declared, n + 1);
            let inside = before.ended == Some(slot.cluster);
            &&& inside && slot.bytes[0] != 0 && !before.reported ==> after.reported && dir_read(
                reading,
                vol,
                storage,
                declared,
            ).log.contains(
                Noted {
                    at: slot.location(),
                    err: ReadError::EntriesAfterEnd { index: slot.index },
                },
            )
            &&& inside && slot.bytes[0] == 0 ==> after.log == before.log && after.reported
                == before.reported
            &&& before.reported || !inside ==> after.log == before.log
            &&& !inside ==> after.stopped
            &&& after.out == before.out && after.set == before.set
        }),
{
    reveal(step_ended);
    let slot = vol.slot_at(storage, declared, n)->Ok_0;
    let before = parsed(reading, vol, storage, declared, n);
    let after = parsed(reading, vol, storage, declared, n + 1);
    let none = Seq::<Noted>::empty();
    assert(before.log + none =~= before.log);
    if before.ended == Some(slot.cluster) && slot.bytes[0] != 0 && !before.reported {
        let remark = Noted {
            at: slot.location(),
            err: ReadError::EntriesAfterEnd { index: slot.index },
        };
        assert(after.log.last() == remark);
        lemma_remark_is_kept(reading, vol, storage, declared, n + 1, remark);
    }
}

} // verus!
