//! A tree as a volume holds it: directories of entry sets, and the clusters each stream has.
use vstd::prelude::*;

use crate::csum::hash_of;
use crate::dirent::FileAttributes;
use crate::fidelity::{FidelityReport, LossPolicy, LossView, Property};
use crate::name::{folded_by, name_fault, name_units, NameError, PlacedName};
use crate::text::{dec, printable_text, push_dec, push_printable};
use crate::time::DosTimestamp;
use crate::upcase::UpcaseTable;

verus! {

/// The largest a directory may be.
pub const MAX_DIRECTORY_BYTES: u64 = 0x1000_0000;

/// Directory entries the largest directory holds.
pub const MAX_DIRECTORY_ENTRIES: u64 = 0x80_0000;

/// Entries a format writes into the root directory ahead of the tree's: the volume label, the
/// slot kept for the volume's identifier, and the two that describe the bitmap and the up-case
/// table.
pub const ROOT_LEADING_SLOTS: u32 = 4;

/// Which directory of a tree the root is.
pub const ROOT_DIR: usize = 0;

/// Which of an entry's times a refusal is about.
#[derive(Clone, Copy, PartialEq, Eq, Debug, Structural)]
pub enum TimeField {
    /// The modification time.
    Modification,
    /// The access time.
    Access,
}

impl TimeField {
    /// The name of the field, for a message.
    pub open spec fn name(self) -> &'static str {
        match self {
            TimeField::Modification => "modification time",
            TimeField::Access => "access time",
        }
    }

    /// The name of the field, for a message.
    #[must_use]
    pub fn as_str(self) -> (name: &'static str)
        ensures
            name == self.name(),
    {
        match self {
            TimeField::Modification => "modification time",
            TimeField::Access => "access time",
        }
    }
}

/// A source an exFAT volume cannot hold.
#[derive(Clone, PartialEq, Eq, Debug)]
pub enum ModelError {
    /// A name the format cannot hold.
    Name {
        /// The entry.
        path: Vec<u8>,
        /// Why its name cannot be held.
        source: NameError,
    },
    /// A path that ascends, which the place of an entry may not.
    InvalidComponent {
        /// The path.
        path: Vec<u8>,
    },
    /// Two entries at one path.
    Duplicate {
        /// The path.
        path: Vec<u8>,
    },
    /// Two entries of a directory whose names fold to one.
    Indistinguishable {
        /// The entry that could not be placed.
        path: Vec<u8>,
        /// The entry already there.
        other: Vec<u8>,
    },
    /// An entry in a directory that was not declared.
    ParentMissing {
        /// The entry.
        path: Vec<u8>,
    },
    /// An entry inside something that is not a directory.
    ParentNotDir {
        /// The entry.
        path: Vec<u8>,
    },
    /// An entry at the root that is not a directory.
    RootNotDirectory {
        /// The entry.
        path: Vec<u8>,
    },
    /// A hard link to nothing.
    HardlinkTargetMissing {
        /// The link.
        path: Vec<u8>,
        /// What it names.
        target: Vec<u8>,
    },
    /// A hard link to a directory.
    HardlinkTargetIsDirectory {
        /// The link.
        path: Vec<u8>,
        /// What it names.
        target: Vec<u8>,
    },
    /// A hard link whose chain of links returns to itself.
    HardlinkCycle {
        /// The link.
        path: Vec<u8>,
    },
    /// A time outside the range an entry holds.
    TimeOutOfRange {
        /// The entry.
        path: Vec<u8>,
        /// Which of its times.
        field: TimeField,
        /// The time, in seconds since the beginning of 1970.
        secs: i64,
        /// The earliest an entry holds.
        min: i64,
        /// The latest an entry holds.
        max: i64,
    },
    /// A property the volume does not carry and the caller has not accepted losing.
    LossNotAccepted {
        /// The entry.
        path: Vec<u8>,
        /// What it would lose.
        property: Property,
    },
    /// A directory larger than the format allows.
    DirectoryTooLarge {
        /// The directory.
        path: Vec<u8>,
        /// Bytes of entries it has.
        needed: u64,
        /// Bytes the format allows.
        limit: u64,
    },
    /// A tree larger than the volume.
    VolumeFull {
        /// Clusters in use once it no longer fits.
        needed: u64,
        /// Clusters of the volume.
        available: u32,
    },
}

/// A source an exFAT volume cannot hold, with what its paths hold.
pub enum ModelFault {
    /// A name the format cannot hold.
    Name { path: Seq<u8>, source: NameError },
    /// A path that ascends.
    InvalidComponent { path: Seq<u8> },
    /// Two entries at one path.
    Duplicate { path: Seq<u8> },
    /// Two entries of a directory whose names fold to one.
    Indistinguishable { path: Seq<u8>, other: Seq<u8> },
    /// An entry in a directory that was not declared.
    ParentMissing { path: Seq<u8> },
    /// An entry inside something that is not a directory.
    ParentNotDir { path: Seq<u8> },
    /// An entry at the root that is not a directory.
    RootNotDirectory { path: Seq<u8> },
    /// A hard link to nothing.
    HardlinkTargetMissing { path: Seq<u8>, target: Seq<u8> },
    /// A hard link to a directory.
    HardlinkTargetIsDirectory { path: Seq<u8>, target: Seq<u8> },
    /// A hard link whose chain of links returns to itself.
    HardlinkCycle { path: Seq<u8> },
    /// A time outside the range an entry holds.
    TimeOutOfRange { path: Seq<u8>, field: TimeField, secs: i64, min: i64, max: i64 },
    /// A property the volume does not carry and the caller has not accepted losing.
    LossNotAccepted { path: Seq<u8>, property: Property },
    /// A directory larger than the format allows.
    DirectoryTooLarge { path: Seq<u8>, needed: u64, limit: u64 },
    /// A tree larger than the volume.
    VolumeFull { needed: u64, available: u32 },
}

impl View for ModelError {
    type V = ModelFault;

    open spec fn view(&self) -> ModelFault {
        match *self {
            ModelError::Name { path, source } => ModelFault::Name { path: path@, source },
            ModelError::InvalidComponent { path } => ModelFault::InvalidComponent { path: path@ },
            ModelError::Duplicate { path } => ModelFault::Duplicate { path: path@ },
            ModelError::Indistinguishable { path, other } => ModelFault::Indistinguishable {
                path: path@,
                other: other@,
            },
            ModelError::ParentMissing { path } => ModelFault::ParentMissing { path: path@ },
            ModelError::ParentNotDir { path } => ModelFault::ParentNotDir { path: path@ },
            ModelError::RootNotDirectory { path } => ModelFault::RootNotDirectory { path: path@ },
            ModelError::HardlinkTargetMissing { path, target } =>
                ModelFault::HardlinkTargetMissing { path: path@, target: target@ },
            ModelError::HardlinkTargetIsDirectory { path, target } =>
                ModelFault::HardlinkTargetIsDirectory { path: path@, target: target@ },
            ModelError::HardlinkCycle { path } => ModelFault::HardlinkCycle { path: path@ },
            ModelError::TimeOutOfRange { path, field, secs, min, max } =>
                ModelFault::TimeOutOfRange { path: path@, field, secs, min, max },
            ModelError::LossNotAccepted { path, property } => ModelFault::LossNotAccepted {
                path: path@,
                property,
            },
            ModelError::DirectoryTooLarge { path, needed, limit } =>
                ModelFault::DirectoryTooLarge { path: path@, needed, limit },
            ModelError::VolumeFull { needed, available } => ModelFault::VolumeFull {
                needed,
                available,
            },
        }
    }
}

/// A signed number in decimal.
pub open spec fn signed_dec(n: int) -> Seq<char> {
    if n < 0 {
        "-"@ + dec((-n) as nat)
    } else {
        dec(n as nat)
    }
}

/// Append a signed number in decimal.
fn push_signed(out: &mut String, n: i64)
    ensures
        final(out)@ == old(out)@ + signed_dec(n as int),
{
    if n < 0 {
        out.append("-");
        let magnitude: u64 = if n == i64::MIN {
            0x8000_0000_0000_0000
        } else {
            (-n) as u64
        };
        push_dec(out, magnitude);
    } else {
        push_dec(out, n as u64);
    }
    assert(out@ =~= old(out)@ + signed_dec(n as int));
}

impl ModelFault {
    /// The message of the fault.
    pub open spec fn text(self) -> Seq<char> {
        match self {
            ModelFault::Name { path, source } => printable_text(path) + ": "@ + source.text(),
            ModelFault::InvalidComponent { path } => "path "@ + printable_text(path)
                + " has a `..` component"@,
            ModelFault::Duplicate { path } => "path "@ + printable_text(path)
                + " is used by more than one entry"@,
            ModelFault::Indistinguishable { path, other } => printable_text(path) + " and "@
                + printable_text(other)
                + " fold to one name through this volume's up-case table, which is what every exFAT lookup compares through"@,
            ModelFault::ParentMissing { path } => "path "@ + printable_text(path)
                + " has no parent directory"@,
            ModelFault::ParentNotDir { path } => "path "@ + printable_text(path)
                + " has a parent that is not a directory"@,
            ModelFault::RootNotDirectory { path } => "entry "@ + printable_text(path)
                + " names the root but is not a directory"@,
            ModelFault::HardlinkTargetMissing { path, target } => "hard link "@ + printable_text(
                path,
            ) + " targets "@ + printable_text(target) + ", which does not exist"@,
            ModelFault::HardlinkTargetIsDirectory { path, target } => "hard link "@
                + printable_text(path) + " targets the directory "@ + printable_text(target),
            ModelFault::HardlinkCycle { path } => "hard link "@ + printable_text(path)
                + " names a chain of links that returns to itself"@,
            ModelFault::TimeOutOfRange { path, field, secs, min, max } => printable_text(path)
                + ": a "@ + field.name()@ + " of "@ + signed_dec(secs as int)
                + " seconds past the epoch is outside the "@ + signed_dec(min as int) + " to "@
                + signed_dec(max as int) + " an exFAT directory entry represents"@,
            ModelFault::LossNotAccepted { path, property } => printable_text(path)
                + ": an exFAT volume cannot carry the "@ + property.name()@ + " of this entry"@,
            ModelFault::DirectoryTooLarge { path, needed, limit } => "the directory "@
                + printable_text(path) + " needs "@ + dec(needed as nat)
                + " bytes of entries and the format holds "@ + dec(limit as nat) + " in one"@,
            ModelFault::VolumeFull { needed, available } => "the tree needs "@ + dec(needed as nat)
                + " clusters and the volume has "@ + dec(available as nat),
        }
    }
}

impl ModelError {
    /// The message of the error.
    #[must_use]
    pub fn message(&self) -> (text: String)
        ensures
            text@ == self@.text(),
    {
        let mut out = String::new();
        match self {
            ModelError::Name { path, source } => {
                push_printable(&mut out, path);
                out.append(": ");
                source.push_message(&mut out);
            },
            ModelError::InvalidComponent { path } => {
                out.append("path ");
                push_printable(&mut out, path);
                out.append(" has a `..` component");
            },
            ModelError::Duplicate { path } => {
                out.append("path ");
                push_printable(&mut out, path);
                out.append(" is used by more than one entry");
            },
            ModelError::Indistinguishable { path, other } => {
                push_printable(&mut out, path);
                out.append(" and ");
                push_printable(&mut out, other);
                out.append(
                    " fold to one name through this volume's up-case table, which is what every exFAT lookup compares through",
                );
            },
            ModelError::ParentMissing { path } => {
                out.append("path ");
                push_printable(&mut out, path);
                out.append(" has no parent directory");
            },
            ModelError::ParentNotDir { path } => {
                out.append("path ");
                push_printable(&mut out, path);
                out.append(" has a parent that is not a directory");
            },
            ModelError::RootNotDirectory { path } => {
                out.append("entry ");
                push_printable(&mut out, path);
                out.append(" names the root but is not a directory");
            },
            ModelError::HardlinkTargetMissing { path, target } => {
                out.append("hard link ");
                push_printable(&mut out, path);
                out.append(" targets ");
                push_printable(&mut out, target);
                out.append(", which does not exist");
            },
            ModelError::HardlinkTargetIsDirectory { path, target } => {
                out.append("hard link ");
                push_printable(&mut out, path);
                out.append(" targets the directory ");
                push_printable(&mut out, target);
            },
            ModelError::HardlinkCycle { path } => {
                out.append("hard link ");
                push_printable(&mut out, path);
                out.append(" names a chain of links that returns to itself");
            },
            ModelError::TimeOutOfRange { path, field, secs, min, max } => {
                push_printable(&mut out, path);
                out.append(": a ");
                out.append(field.as_str());
                out.append(" of ");
                push_signed(&mut out, *secs);
                out.append(" seconds past the epoch is outside the ");
                push_signed(&mut out, *min);
                out.append(" to ");
                push_signed(&mut out, *max);
                out.append(" an exFAT directory entry represents");
            },
            ModelError::LossNotAccepted { path, property } => {
                push_printable(&mut out, path);
                out.append(": an exFAT volume cannot carry the ");
                out.append(property.as_str());
                out.append(" of this entry");
            },
            ModelError::DirectoryTooLarge { path, needed, limit } => {
                out.append("the directory ");
                push_printable(&mut out, path);
                out.append(" needs ");
                push_dec(&mut out, *needed);
                out.append(" bytes of entries and the format holds ");
                push_dec(&mut out, *limit);
                out.append(" in one");
            },
            ModelError::VolumeFull { needed, available } => {
                out.append("the tree needs ");
                push_dec(&mut out, *needed);
                out.append(" clusters and the volume has ");
                push_dec(&mut out, *available as u64);
            },
        }
        assert(out@ =~= self@.text());
        out
    }
}

/// Consecutive clusters: everything one stream has.
#[derive(Clone, Copy, PartialEq, Eq, Debug, Structural)]
pub struct ClusterRun {
    /// The first cluster, or zero where there is none.
    pub first: u32,
    /// How many there are.
    pub count: u32,
}

impl ClusterRun {
    /// The run of no clusters.
    pub open spec fn none() -> Self {
        ClusterRun { first: 0, count: 0 }
    }

    /// Whether the run has no clusters.
    #[must_use]
    pub fn is_empty(self) -> (yes: bool)
        ensures
            yes == (self.count == 0),
    {
        self.count == 0
    }
}

impl Default for ClusterRun {
    fn default() -> (run: Self)
        ensures
            run == Self::none(),
    {
        ClusterRun { first: 0, count: 0 }
    }
}

/// The three times of an entry, as it stores them.
#[derive(Clone, Copy, PartialEq, Eq, Debug, Structural)]
pub struct EntryTimes {
    /// The creation time.
    pub create: DosTimestamp,
    /// The modification time.
    pub modify: DosTimestamp,
    /// The access time, which has no hundredths.
    pub access: DosTimestamp,
}

impl EntryTimes {
    /// Whether the times are ones an entry can hold.
    pub open spec fn held(self) -> bool {
        &&& self.create.on_the_calendar()
        &&& self.modify.on_the_calendar()
        &&& self.access.on_the_calendar()
        &&& self.access.tenth == 0
    }
}

/// What an entry is of.
#[derive(Clone, Copy, PartialEq, Eq, Debug, Structural)]
pub enum Node {
    /// The directory of this index.
    Dir(usize),
    /// A file.
    File {
        /// Which contents it has.
        content: usize,
        /// How long it is.
        size: u64,
        /// The clusters it has.
        run: ClusterRun,
    },
}

/// An entry of a directory.
#[derive(Clone, PartialEq, Eq, Debug)]
pub struct ModelEntry {
    /// Its name.
    pub name: PlacedName,
    /// Its attributes.
    pub attributes: FileAttributes,
    /// Its times.
    pub times: EntryTimes,
    /// What it is of.
    pub node: Node,
}

/// A directory.
#[derive(Clone, PartialEq, Eq, Debug)]
pub struct ModelDir {
    /// Its entries, by name.
    pub entries: Vec<ModelEntry>,
    /// The clusters it has.
    pub run: ClusterRun,
    /// Where it was declared.
    pub path: Vec<u8>,
}

/// An entry of a directory.
pub struct EntryView {
    /// The units of its name.
    pub units: Seq<u16>,
    /// The hash of its name.
    pub hash: u16,
    /// Its attributes.
    pub attributes: FileAttributes,
    /// Its times.
    pub times: EntryTimes,
    /// What it is of.
    pub node: Node,
}

/// A directory.
pub struct DirView {
    /// Its entries, by name.
    pub entries: Seq<EntryView>,
    /// The clusters it has.
    pub run: ClusterRun,
    /// Where it was declared.
    pub path: Seq<u8>,
}

/// A tree.
pub struct TreeView {
    /// Its directories, the root first and every other behind the one it is in.
    pub dirs: Seq<DirView>,
    /// The contents of its files.
    pub contents: Seq<Seq<u8>>,
    /// What the format does not carry of it.
    pub losses: Seq<LossView>,
}

/// Whether `units` are those of a name the format holds.
pub open spec fn held_name(units: Seq<u16>) -> bool {
    exists|name: Seq<u8>| name_fault(name) is None && #[trigger] name_units(name) == units
}

impl TreeView {
    /// Whether an entry of directory `d` is one a tree may have: its name is one the format
    /// holds, with the hash of its folded units, its attributes are ones the format defines, its
    /// times are ones an entry can hold, and it is of a directory further on, or of a file as
    /// long as its contents.
    pub open spec fn entry_sound(self, mapping: Seq<u16>, d: int, entry: EntryView) -> bool {
        &&& held_name(entry.units)
        &&& entry.hash == hash_of(folded_by(mapping, entry.units))
        &&& entry.attributes.has(FileAttributes::DIRECTORY) == (entry.node is Dir)
        &&& entry.attributes.word() & !FileAttributes::DEFINED == 0
        &&& entry.times.held()
        &&& match entry.node {
            Node::Dir(k) => d < k < self.dirs.len(),
            Node::File { content, size, .. } => {
                &&& content < self.contents.len()
                &&& size == self.contents[content as int].len()
            },
        }
    }

    /// Whether the tree is one: it has a root, every entry is one it may have, and no two
    /// entries of a directory have names that fold to one.
    pub open spec fn sound(self, mapping: Seq<u16>) -> bool {
        &&& self.dirs.len() > 0
        &&& forall|d: int, j: int|
            0 <= d < self.dirs.len() && 0 <= j < self.dirs[d].entries.len() ==> self.entry_sound(
                mapping,
                d,
                #[trigger] self.dirs[d].entries[j],
            )
        &&& forall|d: int, i: int, j: int|
            0 <= d < self.dirs.len() && 0 <= i < j < self.dirs[d].entries.len() ==> folded_by(
                mapping,
                (#[trigger] self.dirs[d].entries[i]).units,
            ) != folded_by(mapping, (#[trigger] self.dirs[d].entries[j]).units)
    }
}

impl View for ModelEntry {
    type V = EntryView;

    open spec fn view(&self) -> EntryView {
        EntryView {
            units: self.name.units@,
            hash: self.name.hash,
            attributes: self.attributes,
            times: self.times,
            node: self.node,
        }
    }
}

/// What each entry of a directory is.
pub open spec fn entry_views(entries: Seq<ModelEntry>) -> Seq<EntryView> {
    Seq::new(entries.len(), |i: int| entries[i]@)
}

impl View for ModelDir {
    type V = DirView;

    open spec fn view(&self) -> DirView {
        DirView { entries: entry_views(self.entries@), run: self.run, path: self.path@ }
    }
}

/// What each directory of a tree is.
pub open spec fn dir_views(dirs: Seq<ModelDir>) -> Seq<DirView> {
    Seq::new(dirs.len(), |i: int| dirs[i]@)
}

/// A tree with the clusters of every stream decided.
#[derive(Clone, PartialEq, Eq, Debug)]
pub struct ExfatModel {
    /// Its directories, the root first.
    pub dirs: Vec<ModelDir>,
    /// The contents of its files.
    pub contents: Vec<Vec<u8>>,
    /// What the format does not carry of it.
    pub fidelity: FidelityReport,
    /// Clusters in use: those a format itself puts in the heap, and those of the tree.
    pub used_clusters: u32,
}

impl View for ExfatModel {
    type V = TreeView;

    open spec fn view(&self) -> TreeView {
        TreeView {
            dirs: dir_views(self.dirs@),
            contents: crate::path::views(self.contents@),
            losses: self.fidelity@,
        }
    }
}

/// A tree with everything decided but its clusters.
#[derive(Clone, PartialEq, Eq, Debug)]
pub struct PlacedTree {
    /// Its directories, the root first.
    pub dirs: Vec<ModelDir>,
    /// The contents of its files.
    pub contents: Vec<Vec<u8>>,
    /// What the format does not carry of it.
    pub fidelity: FidelityReport,
}

impl View for PlacedTree {
    type V = TreeView;

    open spec fn view(&self) -> TreeView {
        TreeView {
            dirs: dir_views(self.dirs@),
            contents: crate::path::views(self.contents@),
            losses: self.fidelity@,
        }
    }
}

/// What a tree is built with beside its source.
#[derive(Clone, Copy, Debug)]
pub struct ModelConfig<'a> {
    /// The losses accepted, and what a read would give in their place.
    pub loss: LossPolicy,
    /// The table the volume's names are compared through.
    pub upcase: &'a UpcaseTable,
}

} // verus!
