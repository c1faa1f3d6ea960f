//! Reading a directory.
use vstd::prelude::*;

use crate::bytes::{copy_of, push_all};
use crate::deviation::{lemma_refused_concat, noted, refused, Deviations, Noted};
use crate::dirent::{EntryType, FileEntry, DIR_ENTRY_SIZE};
use crate::entryset::{finish_set, set_read};
use crate::finding::Location;
use crate::geometry::ExfatLayout;
use crate::node::{named_views, Entry, Named, Node};
use crate::path::is_hostile;
use crate::policy::ReadPolicy;
use crate::read_error::{ReadError, SetDetail};
use crate::slots::{Slot, SlotView, SlotWalk};
use crate::upcase::UpcaseTable;
use crate::volume::{Storage, Vol, Volume};

verus! {

/// A set some of whose entries are still to come.
#[derive(Clone, Debug)]
pub struct PendingSet {
    /// Its first entry.
    pub index: u32,
    /// Entries behind the first it declares.
    pub want: usize,
    /// The entries so far.
    pub bytes: Vec<u8>,
}

/// A set some of whose entries are still to come.
pub struct Pending {
    /// Its first entry.
    pub index: u32,
    /// Entries behind the first it declares.
    pub want: int,
    /// The entries so far.
    pub bytes: Seq<u8>,
}

impl Pending {
    /// Entries behind the first it has.
    pub open spec fn have(self) -> int {
        self.bytes.len() as int / 32 - 1
    }

    /// With one more entry.
    pub open spec fn with(self, entry: Seq<u8>) -> Self {
        Pending { bytes: self.bytes + entry, ..self }
    }

    /// Whether it is a set under way.
    pub open spec fn wf(self) -> bool {
        &&& 32 <= self.bytes.len()
        &&& self.bytes.len() % 32 == 0
        &&& self.bytes[0] == EntryType::FILE
        &&& self.have() < self.want <= 255
    }

    /// What is wrong with it where it goes no further.
    pub open spec fn broken(self) -> Seq<Noted> {
        noted(
            true,
            Location::of_entry(self.index),
            ReadError::IncompleteEntrySet {
                index: self.index,
                detail: SetDetail::Follow { want: self.want as usize, have: self.have() as usize },
            },
        )
    }

    /// What is wrong with it where the directory ends.
    pub open spec fn unfinished(self) -> Seq<Noted> {
        noted(
            true,
            Location::of_entry(self.index),
            ReadError::IncompleteEntrySet {
                index: self.index,
                detail: SetDetail::Ends { want: self.want as usize, have: self.have() as usize },
            },
        )
    }
}

impl View for PendingSet {
    type V = Pending;

    open spec fn view(&self) -> Pending {
        Pending { index: self.index, want: self.want as int, bytes: self.bytes@ }
    }
}

impl PendingSet {
    /// A set whose first entry this is.
    fn new(index: u32, secondary: u8, file: &[u8]) -> (set: Self)
        ensures
            set@ == (Pending { index, want: secondary as int, bytes: file@ }),
    {
        PendingSet { index, want: secondary as usize, bytes: copy_of(file) }
    }

    /// Add an entry.
    fn push(&mut self, entry: &[u8])
        ensures
            final(self)@ == old(self)@.with(entry@),
    {
        push_all(&mut self.bytes, entry);
    }

    /// Entries behind the first it has.
    fn have(&self) -> (have: usize)
        requires
            self.bytes@.len() >= 32,
        ensures
            have == self@.have(),
    {
        self.bytes.len() / DIR_ENTRY_SIZE - 1
    }
}

/// What reading a directory depends on beside its slots.
pub struct Reading {
    /// Where everything on the volume is.
    pub layout: ExfatLayout,
    /// What each unit of a name folds to.
    pub mapping: Seq<u16>,
    /// Whether it is the root directory.
    pub is_root: bool,
    /// The most entries it may have.
    pub cap: int,
}

/// A directory read so far.
pub struct Parsed {
    /// Its entries.
    pub out: Seq<Named>,
    /// The set under way.
    pub set: Option<Pending>,
    /// The cluster its end marker is in, where it has ended.
    pub ended: Option<u32>,
    /// Whether an entry behind the end marker has been noted.
    pub reported: bool,
    /// Whether it has more entries than it may have.
    pub full: bool,
    /// Whether no further slot is read.
    pub stopped: bool,
    /// What is wrong with it.
    pub log: Seq<Noted>,
    /// Why it cannot be read further.
    pub failed: Option<ReadError>,
}

impl Parsed {
    /// A directory of which nothing has been read.
    pub open spec fn start() -> Self {
        Parsed {
            out: Seq::empty(),
            set: None,
            ended: None,
            reported: false,
            full: false,
            stopped: false,
            log: Seq::empty(),
            failed: None,
        }
    }

    /// Whether no further slot is read.
    pub open spec fn done(self) -> bool {
        self.stopped || self.failed is Some
    }

    /// With more wrong with it.
    pub open spec fn noting(self, log: Seq<Noted>) -> Self {
        Parsed { log: self.log + log, ..self }
    }
}

/// What an entry of the root directory describes.
pub open spec fn resident_name(entry_type: u8) -> &'static str {
    if entry_type == EntryType::ALLOCATION_BITMAP {
        "allocation bitmap"
    } else if entry_type == EntryType::UPCASE_TABLE {
        "up-case table"
    } else {
        "volume label"
    }
}

/// Whether an entry is one only the root directory has.
pub open spec fn is_resident(entry_type: u8) -> bool {
    entry_type == EntryType::ALLOCATION_BITMAP || entry_type == EntryType::UPCASE_TABLE
        || entry_type == EntryType::VOLUME_LABEL
}

/// A directory with one more slot read, behind its end marker.
#[verifier::opaque]
pub open spec fn step_ended(state: Parsed, slot: SlotView, marker: u32) -> Parsed {
    let stray = slot.bytes[0] != 0 && !state.reported;
    if slot.cluster != marker {
        Parsed { stopped: true, ..state }
    } else {
        Parsed {
            reported: state.reported || slot.bytes[0] != 0,
            ..state.noting(
                noted(
                    stray,
                    slot.location(),
                    ReadError::EntriesAfterEnd { index: slot.index },
                ),
            )
        }
    }
}

/// A directory with one more slot read, that belongs to the set under way.
#[verifier::opaque]
pub open spec fn step_set(reading: Reading, state: Parsed, slot: SlotView, pending: Pending) -> Parsed {
    let set = pending.with(slot.bytes);
    let read = set_read(reading.layout, reading.mapping, set.bytes, set.index);
    if set.have() >= set.want {
        Parsed {
            set: None,
            out: match read.entry {
                Some(named) => state.out.push(named),
                None => state.out,
            },
            ..state.noting(read.log)
        }
    } else {
        Parsed { set: Some(set), ..state }
    }
}

/// A directory with one more slot read, that begins something.
#[verifier::opaque]
pub open spec fn step_primary(reading: Reading, state: Parsed, slot: SlotView) -> Parsed {
    let entry_type = EntryType(slot.bytes[0]);
    let at = slot.location();
    let index = slot.index;
    if entry_type.0 == 0 {
        Parsed { ended: Some(slot.cluster), ..state }
    } else if !entry_type.used() {
        state
    } else if entry_type.secondary() {
        state.noting(noted(true, at, ReadError::StraySecondaryEntry { index }))
    } else if entry_type.0 == EntryType::FILE {
        if state.out.len() >= reading.cap {
            Parsed { full: true, stopped: true, ..state }
        } else if FileEntry::decoded(slot.bytes).secondary_count == 0 {
            state.noting(
                noted(
                    true,
                    at,
                    ReadError::IncompleteEntrySet { index, detail: SetDetail::NoneDeclared },
                ),
            )
        } else {
            Parsed {
                set: Some(
                    Pending {
                        index,
                        want: FileEntry::decoded(slot.bytes).secondary_count as int,
                        bytes: slot.bytes,
                    },
                ),
                ..state
            }
        }
    } else if is_resident(entry_type.0) {
        state.noting(
            noted(
                !reading.is_root,
                at,
                ReadError::MisplacedRootEntry { index, entry_type: resident_name(entry_type.0) },
            ),
        )
    } else {
        state.noting(
            noted(
                !entry_type.benign(),
                at,
                ReadError::UnknownCriticalEntry { index, entry_type: entry_type.0 },
            ),
        )
    }
}

/// A directory with one more slot read.
pub open spec fn step(reading: Reading, state: Parsed, slot: SlotView) -> Parsed {
    let entry_type = EntryType(slot.bytes[0]);
    match state.ended {
        Some(marker) => step_ended(state, slot, marker),
        None => match state.set {
            Some(pending) => if entry_type.used() && entry_type.secondary() {
                step_set(reading, state, slot, pending)
            } else {
                step_primary(
                    reading,
                    Parsed { set: None, ..state.noting(pending.broken()) },
                    slot,
                )
            },
            None => step_primary(reading, state, slot),
        },
    }
}

/// A directory with the first `n` of its slots read.
pub open spec fn parsed(
    reading: Reading,
    vol: Vol,
    storage: Storage,
    declared: u64,
    n: int,
) -> Parsed
    decreases n,
{
    if n <= 0 {
        Parsed::start()
    } else {
        let state = parsed(reading, vol, storage, declared, n - 1);
        if state.done() {
            state
        } else {
            match vol.slot_at(storage, declared, n - 1) {
                Err(e) => Parsed { failed: Some(e), ..state },
                Ok(slot) => step(reading, state, slot),
            }
        }
    }
}

/// A directory read to its end.
pub struct DirRead {
    /// What is wrong with it.
    pub log: Seq<Noted>,
    /// Its entries, or why it cannot be read.
    pub entries: Result<Seq<Named>, ReadError>,
}

/// The directory a state has come to.
pub open spec fn concluded(reading: Reading, state: Parsed) -> DirRead {
    if state.failed is Some {
        DirRead { log: state.log, entries: Err(state.failed->Some_0) }
    } else if state.full {
        DirRead {
            log: state.log,
            entries: Err(ReadError::WalkTooLarge { limit: reading.cap as usize }),
        }
    } else {
        DirRead {
            log: match state.set {
                Some(pending) => state.log + pending.unfinished(),
                None => state.log,
            },
            entries: Ok(state.out),
        }
    }
}

/// A directory, read.
pub open spec fn dir_read(reading: Reading, vol: Vol, storage: Storage, declared: u64) -> DirRead {
    concluded(
        reading,
        parsed(reading, vol, storage, declared, vol.slot_count(storage, declared)),
    )
}

/// Whether no name names anything but an entry of its directory.
pub open spec fn harmless(entries: Seq<Named>) -> bool {
    forall|i: int| 0 <= i < entries.len() ==> !is_hostile((#[trigger] entries[i]).name)
}

/// Reading one more slot gives no name that names anything but an entry of its directory, and no
/// more entries than a directory may have.
proof fn lemma_step_is_harmless(reading: Reading, state: Parsed, slot: SlotView)
    requires
        harmless(state.out),
        state.out.len() <= reading.cap,
        state.set is Some ==> state.out.len() < reading.cap,
    ensures
        harmless(step(reading, state, slot).out),
        step(reading, state, slot).out.len() <= reading.cap,
        step(reading, state, slot).set is Some ==> step(reading, state, slot).out.len()
            < reading.cap,
{
    reveal(step_ended);
    reveal(step_set);
    reveal(step_primary);
}

/// The first slots of a directory give no name that names anything but an entry of it.
proof fn lemma_parsed_is_harmless(
    reading: Reading,
    vol: Vol,
    storage: Storage,
    declared: u64,
    n: int,
)
    requires
        0 <= reading.cap,
    ensures
        ({
            let state = parsed(reading, vol, storage, declared, n);
            &&& harmless(state.out)
            &&& state.out.len() <= reading.cap
            &&& state.set is Some ==> state.out.len() < reading.cap
        }),
    decreases n,
{
    if n > 0 {
        lemma_parsed_is_harmless(reading, vol, storage, declared, n - 1);
        let state = parsed(reading, vol, storage, declared, n - 1);
        match vol.slot_at(storage, declared, n - 1) {
            Ok(slot) => {
                lemma_step_is_harmless(reading, state, slot);
            },
            Err(_) => {},
        }
    }
}

/// However a directory is damaged, no name it is read with names anything but an entry of it,
/// and it is read with no more entries than it may have.
pub proof fn lemma_names_are_harmless(
    reading: Reading,
    vol: Vol,
    storage: Storage,
    declared: u64,
)
    requires
        0 <= reading.cap,
    ensures
        match dir_read(reading, vol, storage, declared).entries {
            Ok(entries) => harmless(entries) && entries.len() <= reading.cap,
            Err(_) => true,
        },
{
    lemma_parsed_is_harmless(
        reading,
        vol,
        storage,
        declared,
        vol.slot_count(storage, declared),
    );
}

/// What reading one more slot finds wrong.
pub proof fn lemma_step_appends(
    policy: Option<ReadPolicy>,
    reading: Reading,
    state: Parsed,
    slot: SlotView,
)
    ensures
        refused(policy, state.log) is Some ==> refused(policy, step(reading, state, slot).log)
            == refused(policy, state.log),
{
    reveal(step_ended);
    reveal(step_set);
    reveal(step_primary);
    let entry_type = EntryType(slot.bytes[0]);
    let at = slot.location();
    let index = slot.index;
    let base = match state.set {
        Some(pending) => Parsed { set: None, ..state.noting(pending.broken()) },
        None => state,
    };
    match state.set {
        Some(pending) => {
            let set = pending.with(slot.bytes);
            let read = set_read(reading.layout, reading.mapping, set.bytes, set.index);
            lemma_refused_concat(policy, state.log, read.log);
            lemma_refused_concat(policy, state.log, pending.broken());
        },
        None => {},
    }
    lemma_refused_concat(
        policy,
        state.log,
        noted(
            slot.bytes[0] != 0 && !state.reported,
            at,
            ReadError::EntriesAfterEnd { index },
        ),
    );
    lemma_refused_concat(
        policy,
        base.log,
        noted(true, at, ReadError::StraySecondaryEntry { index }),
    );
    lemma_refused_concat(
        policy,
        base.log,
        noted(
            true,
            at,
            ReadError::IncompleteEntrySet { index, detail: SetDetail::NoneDeclared },
        ),
    );
    lemma_refused_concat(
        policy,
        base.log,
        noted(
            !reading.is_root,
            at,
            ReadError::MisplacedRootEntry { index, entry_type: resident_name(entry_type.0) },
        ),
    );
    lemma_refused_concat(
        policy,
        base.log,
        noted(
            !entry_type.benign(),
            at,
            ReadError::UnknownCriticalEntry { index, entry_type: entry_type.0 },
        ),
    );
}

/// What is refused of the first slots is refused of all.
proof fn lemma_parsed_appends(
    policy: Option<ReadPolicy>,
    reading: Reading,
    vol: Vol,
    storage: Storage,
    declared: u64,
    n: int,
    more: int,
)
    requires
        n <= more,
    ensures
        refused(policy, parsed(reading, vol, storage, declared, n).log) is Some ==> refused(
            policy,
            parsed(reading, vol, storage, declared, more).log,
        ) == refused(policy, parsed(reading, vol, storage, declared, n).log),
        parsed(reading, vol, storage, declared, n).done() ==> parsed(
            reading,
            vol,
            storage,
            declared,
            more,
        ) == parsed(reading, vol, storage, declared, n),
    decreases more - n,
{
    if n < more {
        lemma_parsed_appends(policy, reading, vol, storage, declared, n, more - 1);
        if more > 0 {
            let state = parsed(reading, vol, storage, declared, more - 1);
            match vol.slot_at(storage, declared, more - 1) {
                Ok(slot) => {
                    lemma_step_appends(policy, reading, state, slot);
                },
                Err(_) => {},
            }
        }
    }
}

/// A directory read so far.
struct Parser<'p> {
    layout: &'p ExfatLayout,
    upcase: &'p UpcaseTable,
    is_root: bool,
    cap: usize,
    out: Vec<Entry>,
    set: Option<PendingSet>,
    ended: Option<u32>,
    reported: bool,
    full: bool,
    stopped: bool,
}

impl<'p> Parser<'p> {
    /// What the reading depends on.
    spec fn reading(&self) -> Reading {
        Reading {
            layout: *self.layout,
            mapping: self.upcase.mapping(),
            is_root: self.is_root,
            cap: self.cap as int,
        }
    }

    /// What has been read, with this much wrong with it.
    spec fn state(&self, log: Seq<Noted>) -> Parsed {
        Parsed {
            out: named_views(self.out@),
            set: match self.set {
                Some(set) => Some(set@),
                None => None,
            },
            ended: self.ended,
            reported: self.reported,
            full: self.full,
            stopped: self.stopped,
            log,
            failed: None,
        }
    }

    /// Whether what the reading depends on can be used, and the set under way is one.
    spec fn wf(&self) -> bool {
        &&& self.upcase.wf()
        &&& self.layout.bytes_per_cluster > 0
        &&& match self.set {
            Some(set) => set@.wf(),
            None => true,
        }
        &&& self.ended is Some || self.stopped ==> self.set is None
    }

    /// Read a slot that belongs to the set under way.
    fn take_secondary(&mut self, pending: PendingSet, slot: Slot, deviations: &mut Deviations) -> (r:
        Result<(), ReadError>)
        requires
            old(self).wf(),
            old(self).set is None,
            old(self).ended is None,
            !old(self).stopped,
            pending@.wf(),
            old(deviations).wf(),
            slot.bytes@.len() == 32,
        ensures
            ({
                let log = old(deviations).log();
                let none = Seq::<Noted>::empty();
                let state = Parsed { set: Some(pending@), ..old(self).state(log) };
                let more = step_set(
                    old(self).reading(),
                    Parsed { log: none, ..state },
                    slot@,
                    pending@,
                ).log;
                match refused(old(deviations).policy(), more) {
                    Some(e) => r == Err::<(), ReadError>(e),
                    None => {
                        &&& r is Ok
                        &&& final(self).wf()
                        &&& final(self).reading() == old(self).reading()
                        &&& final(deviations).having(*old(deviations), more)
                        &&& final(self).state(final(deviations).log()) == step_set(
                            old(self).reading(),
                            state,
                            slot@,
                            pending@,
                        )
                    },
                }
            }),
    {
        reveal(step_set);
        let ghost log = deviations.log();
        let ghost none = Seq::<Noted>::empty();
        let mut set = pending;
        set.push(slot.bytes);
        let ghost view = set@;
        assert(view.bytes[0] == EntryType::FILE);
        assert(log + none =~= log);
        assert forall|more: Seq<Noted>| none + more == more by {
            assert(none + more =~= more);
        }
        if set.have() < set.want {
            self.set = Some(set);
            return Ok(());
        }
        let found = finish_set(self.layout, self.upcase, &set.bytes, set.index, deviations)?;
        match found {
            Some(entry) => {
                let ghost before = self.out@;
                self.out.push(entry);
                assert(named_views(self.out@) =~= named_views(before).push(entry@));
            },
            None => {},
        }
        Ok(())
    }

    /// Read a slot that begins something.
    fn take_primary(&mut self, slot: Slot, deviations: &mut Deviations) -> (r: Result<(), ReadError>)
        requires
            old(self).wf(),
            old(self).set is None,
            old(self).ended is None,
            !old(self).stopped,
            old(deviations).wf(),
            slot.bytes@.len() == 32,
        ensures
            ({
                let log = old(deviations).log();
                let none = Seq::<Noted>::empty();
                let more = step_primary(
                    old(self).reading(),
                    Parsed { log: none, ..old(self).state(log) },
                    slot@,
                ).log;
                match refused(old(deviations).policy(), more) {
                    Some(e) => r == Err::<(), ReadError>(e),
                    None => {
                        &&& r is Ok
                        &&& final(self).wf()
                        &&& final(self).reading() == old(self).reading()
                        &&& final(deviations).having(*old(deviations), more)
                        &&& final(self).state(final(deviations).log()) == step_primary(
                            old(self).reading(),
                            old(self).state(log),
                            slot@,
                        )
                    },
                }
            }),
    {
        reveal(step_primary);
        let ghost log = deviations.log();
        let ghost none = Seq::<Noted>::empty();
        let at = slot.location();
        let index: u32 = slot.index;
        let entry_type = EntryType(slot.bytes[0]);
        assert(log + none =~= log);
        assert forall|more: Seq<Noted>| none + more == more by {
            assert(none + more =~= more);
        }
        if entry_type.is_end_of_directory() {
            self.ended = Some(slot.cluster);
            return Ok(());
        }
        if !entry_type.in_use() {
            return Ok(());
        }
        if entry_type.is_secondary() {
            return deviations.record(at, ReadError::StraySecondaryEntry { index });
        }
        if entry_type.0 == EntryType::FILE {
            if self.out.len() >= self.cap {
                self.full = true;
                self.stopped = true;
                return Ok(());
            }
            let file = match FileEntry::read_from(slot.bytes) {
                Ok(file) => file,
                Err(e) => return Err(ReadError::Parse(e)),
            };
            if file.secondary_count == 0 {
                return deviations.record(
                    at,
                    ReadError::IncompleteEntrySet { index, detail: SetDetail::NoneDeclared },
                );
            }
            self.set = Some(PendingSet::new(index, file.secondary_count, slot.bytes));
            return Ok(());
        }
        if entry_type.0 == EntryType::ALLOCATION_BITMAP || entry_type.0 == EntryType::UPCASE_TABLE
            || entry_type.0 == EntryType::VOLUME_LABEL {
            let named = if entry_type.0 == EntryType::ALLOCATION_BITMAP {
                "allocation bitmap"
            } else if entry_type.0 == EntryType::UPCASE_TABLE {
                "up-case table"
            } else {
                "volume label"
            };
            return deviations.record_if(
                !self.is_root,
                at,
                ReadError::MisplacedRootEntry { index, entry_type: named },
            );
        }
        deviations.record_if(
            !entry_type.is_benign(),
            at,
            ReadError::UnknownCriticalEntry { index, entry_type: entry_type.0 },
        )
    }

    /// Read a slot behind the end marker.
    fn take_ended(&mut self, slot: Slot, marker: u32, deviations: &mut Deviations) -> (r: Result<
        (),
        ReadError,
    >)
        requires
            old(self).wf(),
            old(self).ended == Some(marker),
            !old(self).stopped,
            old(deviations).wf(),
            slot.bytes@.len() == 32,
        ensures
            ({
                let log = old(deviations).log();
                let none = Seq::<Noted>::empty();
                let more = step_ended(
                    Parsed { log: none, ..old(self).state(log) },
                    slot@,
                    marker,
                ).log;
                match refused(old(deviations).policy(), more) {
                    Some(e) => r == Err::<(), ReadError>(e),
                    None => {
                        &&& r is Ok
                        &&& final(self).wf()
                        &&& final(self).reading() == old(self).reading()
                        &&& final(deviations).having(*old(deviations), more)
                        &&& final(self).state(final(deviations).log()) == step_ended(
                            old(self).state(log),
                            slot@,
                            marker,
                        )
                    },
                }
            }),
    {
        reveal(step_ended);
        let ghost log = deviations.log();
        let ghost none = Seq::<Noted>::empty();
        assert(log + none =~= log);
        assert forall|more: Seq<Noted>| none + more == more by {
            assert(none + more =~= more);
        }
        if slot.cluster != marker {
            self.stopped = true;
            return Ok(());
        }
        let is_entry: bool = slot.bytes[0] != 0;
        let stray: bool = is_entry && !self.reported;
        deviations.record_if(
            stray,
            slot.location(),
            ReadError::EntriesAfterEnd { index: slot.index },
        )?;
        if stray {
            self.reported = true;
        }
        Ok(())
    }

    /// Read a slot.
    fn take(&mut self, slot: Slot, deviations: &mut Deviations) -> (r: Result<(), ReadError>)
        requires
            old(self).wf(),
            !old(self).stopped,
            old(deviations).wf(),
            slot.bytes@.len() == 32,
        ensures
            ({
                let log = old(deviations).log();
                let none = Seq::<Noted>::empty();
                let more = step(
                    old(self).reading(),
                    Parsed { log: none, ..old(self).state(log) },
                    slot@,
                ).log;
                match refused(old(deviations).policy(), more) {
                    Some(e) => r == Err::<(), ReadError>(e),
                    None => {
                        &&& r is Ok
                        &&& final(self).wf()
                        &&& final(self).reading() == old(self).reading()
                        &&& final(deviations).having(*old(deviations), more)
                        &&& final(self).state(final(deviations).log()) == step(
                            old(self).reading(),
                            old(self).state(log),
                            slot@,
                        )
                    },
                }
            }),
    {
        let ghost log = deviations.log();
        let ghost policy = deviations.policy();
        let ghost none = Seq::<Noted>::empty();
        assert(log + none =~= log);
        assert forall|more: Seq<Noted>| none + more == more by {
            assert(none + more =~= more);
        }
        let entry_type = EntryType(slot.bytes[0]);
        if let Some(marker) = self.ended {
            return self.take_ended(slot, marker, deviations);
        }
        let pending = self.set.take();
        if let Some(set) = pending {
            if entry_type.in_use() && entry_type.is_secondary() {
                return self.take_secondary(set, slot, deviations);
            }
            let have: usize = set.have();
            let err = ReadError::IncompleteEntrySet {
                index: set.index,
                detail: SetDetail::Follow { want: set.want, have },
            };
            let ghost broken = set@.broken();
            let ghost more = step_primary(
                self.reading(),
                Parsed { log: none, ..self.state(log) },
                slot@,
            ).log;
            proof {
                assert(broken == noted(true, Location::of_entry(set.index), err));
                lemma_refused_concat(policy, broken, more);
                lemma_step_primary_log(
                    self.reading(),
                    Parsed { log: none, ..self.state(log) },
                    Parsed { log: broken, ..self.state(log) },
                    slot@,
                );
                lemma_step_primary_log(
                    self.reading(),
                    Parsed { log: none, ..self.state(log) },
                    Parsed { log: log + broken, ..self.state(log) },
                    slot@,
                );
                assert(log + broken + more =~= log + (broken + more));
            }
            deviations.record(Location::at_entry(set.index), err)?;
            return self.take_primary(slot, deviations);
        }
        self.take_primary(slot, deviations)
    }
}

/// What a slot adds to what is wrong does not depend on what was wrong before.
proof fn lemma_step_primary_log(reading: Reading, a: Parsed, b: Parsed, slot: SlotView)
    requires
        a.log.len() == 0,
        a == (Parsed { log: a.log, ..b }),
    ensures
        step_primary(reading, b, slot).log == b.log + step_primary(reading, a, slot).log,
        step_primary(reading, b, slot) == (Parsed {
            log: b.log + step_primary(reading, a, slot).log,
            ..step_primary(reading, a, slot)
        }),
{
    reveal(step_primary);
    assert forall|more: Seq<Noted>| a.log + more == more by {
        assert(a.log + more =~= more);
    }
    assert(b.log + a.log =~= b.log);
}

/// What a slot adds to what is wrong does not depend on what was wrong before.
proof fn lemma_step_log(reading: Reading, a: Parsed, b: Parsed, slot: SlotView)
    requires
        a.log.len() == 0,
        a == (Parsed { log: a.log, ..b }),
    ensures
        step(reading, b, slot).log == b.log + step(reading, a, slot).log,
{
    assert forall|more: Seq<Noted>| a.log + more == more by {
        assert(a.log + more =~= more);
    }
    assert(b.log + a.log =~= b.log);
    match b.ended {
        Some(_) => {
            reveal(step_ended);
        },
        None => {
            match b.set {
                Some(pending) => {
                    let entry_type = EntryType(slot.bytes[0]);
                    if entry_type.used() && entry_type.secondary() {
                        reveal(step_set);
                    } else {
                        let none = Parsed { set: None, ..a };
                        let one = Parsed { set: None, ..a.noting(pending.broken()) };
                        let two = Parsed { set: None, ..b.noting(pending.broken()) };
                        lemma_step_primary_log(reading, none, one, slot);
                        lemma_step_primary_log(reading, none, two, slot);
                        let more = step_primary(reading, none, slot).log;
                        assert(b.log + pending.broken() + more =~= b.log + (pending.broken()
                            + more));
                    }
                },
                None => {
                    lemma_step_primary_log(reading, a, b, slot);
                },
            }
        },
    }
}

/// The entries of a directory, noting what is wrong with it.
pub fn parse_dir(
    volume: &Volume<'_>,
    upcase: &UpcaseTable,
    node: &Node,
    cap: usize,
    deviations: &mut Deviations,
) -> (r: Result<Vec<Entry>, ReadError>)
    requires
        volume.wf(),
        upcase.wf(),
        old(deviations).wf(),
    ensures
        if !node.directory() {
            &&& r matches Err(ReadError::NotADirectory { path })
            &&& path@.len() == 0
            &&& *final(deviations) == *old(deviations)
        } else {
            let reading = Reading {
                layout: volume.layout,
                mapping: upcase.mapping(),
                is_root: node.times is None,
                cap: cap as int,
            };
            let read = dir_read(reading, volume@, node.storage, node.data_length);
            match refused(old(deviations).policy(), read.log) {
                Some(e) => r == Err::<Vec<Entry>, ReadError>(e),
                None => {
                    &&& final(deviations).having(*old(deviations), read.log)
                    &&& match read.entries {
                        Ok(entries) => r is Ok && named_views(r->Ok_0@) == entries,
                        Err(e) => r == Err::<Vec<Entry>, ReadError>(e),
                    }
                },
            }
        },
{
    if !node.is_dir() {
        return Err(ReadError::NotADirectory { path: Vec::new() });
    }
    let ghost policy = deviations.policy();
    let ghost vol = volume@;
    let ghost storage = node.storage;
    let ghost declared = node.data_length;
    let ghost total = vol.slot_count(storage, declared);
    let ghost none = Seq::<Noted>::empty();
    let ghost log = deviations.log();
    let mut parser = Parser {
        layout: &volume.layout,
        upcase,
        is_root: node.times.is_none(),
        cap,
        out: Vec::new(),
        set: None,
        ended: None,
        reported: false,
        full: false,
        stopped: false,
    };
    let ghost reading = parser.reading();
    let ghost mut n: int = 0;
    let mut walk = SlotWalk::new(volume, node.storage, node.data_length);
    let mut more: bool = true;
    proof {
        assert(named_views(parser.out@) =~= Seq::empty());
        assert(log + none =~= log);
        crate::slots::lemma_slots(vol);
        crate::image::lemma_ceil_div(declared as int, vol.per());
        assert(total >= 0) by (nonlinear_arith)
            requires
                total == 0 || total == crate::number::ceil_div(declared as int, vol.per())
                    * vol.slots(),
                crate::number::ceil_div(declared as int, vol.per()) >= 0,
                vol.slots() >= 0,
        ;
    }
    while more
        invariant
            policy == old(deviations).policy(),
            log == old(deviations).log(),
            none == Seq::<Noted>::empty(),
            vol == volume@,
            storage == node.storage,
            declared == node.data_length,
            total == vol.slot_count(storage, declared),
            0 <= n <= total,
            node.directory(),
            reading == (Reading {
                layout: volume.layout,
                mapping: upcase.mapping(),
                is_root: node.times is None,
                cap: cap as int,
            }),
            parser.wf(),
            parser.reading() == reading,
            deviations.having(*old(deviations), parsed(reading, vol, storage, declared, n).log),
            refused(policy, parsed(reading, vol, storage, declared, n).log) is None,
            parser.state(parsed(reading, vol, storage, declared, n).log) == parsed(
                reading,
                vol,
                storage,
                declared,
                n,
            ),
            more ==> {
                &&& walk.wf()
                &&& walk.vol() == vol
                &&& walk.place() == storage
                &&& walk.length() == declared
                &&& walk.next_slot() == n
                &&& !parser.stopped
            },
            !more ==> n == total || parser.stopped,
        decreases total - n, (if more { 1int } else { 0int }),
    {
        let ghost state = parsed(reading, vol, storage, declared, n);
        match walk.next() {
            Err(e) => {
                proof {
                    lemma_parsed_appends(policy, reading, vol, storage, declared, n + 1, total);
                }
                return Err(e);
            },
            Ok(None) => {
                more = false;
            },
            Ok(Some(slot)) => {
                proof {
                    let a = Parsed { log: none, ..state };
                    let added = step(reading, a, slot@).log;
                    lemma_step_log(reading, a, state, slot@);
                    lemma_refused_concat(policy, state.log, added);
                    lemma_parsed_appends(policy, reading, vol, storage, declared, n + 1, total);
                    lemma_step_log(
                        reading,
                        a,
                        Parsed { log: deviations.log(), ..state },
                        slot@,
                    );
                    assert(log + state.log + added =~= log + (state.log + added));
                    lemma_conclusion(policy, reading, vol, storage, declared);
                    lemma_step_rest(
                        reading,
                        Parsed { log: deviations.log(), ..state },
                        state,
                        slot@,
                    );
                }
                parser.take(slot, deviations)?;
                proof {
                    n = n + 1;
                }
                if parser.stopped {
                    more = false;
                }
            },
        }
    }
    proof {
        lemma_parsed_appends(policy, reading, vol, storage, declared, n, total);
    }
    if parser.full {
        return Err(ReadError::WalkTooLarge { limit: cap });
    }
    if let Some(set) = parser.set {
        let have: usize = set.have();
        proof {
            let state = parsed(reading, vol, storage, declared, total);
            lemma_refused_concat(policy, state.log, set@.unfinished());
            assert(log + state.log + set@.unfinished() =~= log + (state.log
                + set@.unfinished()));
        }
        deviations.record(
            Location::at_entry(set.index),
            ReadError::IncompleteEntrySet {
                index: set.index,
                detail: SetDetail::Ends { want: set.want, have },
            },
        )?;
    }
    Ok(parser.out)
}

/// What is refused of a directory's slots is refused of the directory.
proof fn lemma_conclusion(
    policy: Option<ReadPolicy>,
    reading: Reading,
    vol: Vol,
    storage: Storage,
    declared: u64,
)
    ensures
        ({
            let total = vol.slot_count(storage, declared);
            let log = parsed(reading, vol, storage, declared, total).log;
            refused(policy, log) is Some ==> refused(
                policy,
                dir_read(reading, vol, storage, declared).log,
            ) == refused(policy, log)
        }),
{
    let state = parsed(reading, vol, storage, declared, vol.slot_count(storage, declared));
    match state.set {
        Some(pending) => {
            lemma_refused_concat(policy, state.log, pending.unfinished());
        },
        None => {},
    }
}

/// What a slot does beside adding to what is wrong does not depend on what was wrong before.
proof fn lemma_step_rest(reading: Reading, a: Parsed, b: Parsed, slot: SlotView)
    requires
        a == (Parsed { log: a.log, ..b }),
    ensures
        step(reading, a, slot) == (Parsed {
            log: step(reading, a, slot).log,
            ..step(reading, b, slot)
        }),
{
    reveal(step_ended);
    reveal(step_set);
    reveal(step_primary);
}

} // verus!
