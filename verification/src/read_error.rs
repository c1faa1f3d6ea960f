//! What a read of a volume refuses, and what it remarks on.
use vstd::prelude::*;

use crate::boot::MAIN_BOOT_REGION_SECTOR;
use crate::error::ParseError;
use crate::finding::{Anomaly, AnomalyView, Category, Location, Severity};
use crate::recover::BootDefect;
use crate::text::{dec, hex, printable_text, push_dec, push_hex, push_printable};

verus! {

/// What kind of failure a source met.
#[derive(Clone, Copy, PartialEq, Eq, Debug, Structural)]
pub enum IoKind {
    /// The source ends before what was to be read.
    UnexpectedEof,
    /// Any other.
    Other,
}

/// What a backup boot region does not share with the main one.
#[derive(Clone, Copy, PartialEq, Eq, Debug)]
pub enum BackupDetail {
    /// It is not a boot sector.
    Unreadable(ParseError),
    /// A field is another.
    Field(&'static str),
}

impl BackupDetail {
    /// The message of the detail.
    pub open spec fn text(self) -> Seq<char> {
        match self {
            BackupDetail::Unreadable(e) => e.text(),
            BackupDetail::Field(name) => name@ + " differs from the main region's"@,
        }
    }

    /// The message of the detail.
    #[must_use]
    pub fn message(&self) -> (text: String)
        ensures
            text@ == self.text(),
    {
        match self {
            BackupDetail::Unreadable(e) => e.message(),
            BackupDetail::Field(name) => {
                let mut out = String::new();
                out.append(name);
                out.append(" differs from the main region's");
                assert(out@ =~= self.text());
                out
            },
        }
    }
}

/// What an entry set lacks.
#[derive(Clone, Copy, PartialEq, Eq, Debug, Structural)]
pub enum SetDetail {
    /// Entries behind the first.
    Follow {
        /// How many it declares.
        want: usize,
        /// How many follow.
        have: usize,
    },
    /// Entries behind the first, where the directory ends.
    Ends {
        /// How many it declares.
        want: usize,
        /// How many follow.
        have: usize,
    },
    /// A count of entries behind the first.
    NoneDeclared,
    /// A second entry.
    NoStream,
    /// A second entry that is a stream extension.
    NotStream,
    /// Units of its name.
    NameUnits {
        /// Units of the name.
        want: usize,
        /// Units its entries carry.
        have: usize,
    },
}

impl SetDetail {
    /// The message of the detail.
    pub open spec fn text(self) -> Seq<char> {
        match self {
            SetDetail::Follow { want, have } => "it declares "@ + dec(want as nat)
                + " entries behind it and "@ + dec(have as nat) + " follow"@,
            SetDetail::Ends { want, have } => "it declares "@ + dec(want as nat)
                + " entries behind it and the directory ends after "@ + dec(have as nat),
            SetDetail::NoneDeclared =>
                "it declares no entries behind it, and a file needs a stream extension and a name"@,
            SetDetail::NoStream => "it holds no stream extension"@,
            SetDetail::NotStream => "its first secondary entry is not a stream extension"@,
            SetDetail::NameUnits { want, have } => "its name is "@ + dec(want as nat)
                + " code units and its entries carry "@ + dec(have as nat),
        }
    }

    /// The message of the detail.
    #[must_use]
    pub fn message(&self) -> (text: String)
        ensures
            text@ == self.text(),
    {
        let mut out = String::new();
        match self {
            SetDetail::Follow { want, have } => {
                out.append("it declares ");
                push_dec(&mut out, *want as u64);
                out.append(" entries behind it and ");
                push_dec(&mut out, *have as u64);
                out.append(" follow");
            },
            SetDetail::Ends { want, have } => {
                out.append("it declares ");
                push_dec(&mut out, *want as u64);
                out.append(" entries behind it and the directory ends after ");
                push_dec(&mut out, *have as u64);
            },
            SetDetail::NoneDeclared => {
                out.append(
                    "it declares no entries behind it, and a file needs a stream extension and a name",
                );
            },
            SetDetail::NoStream => {
                out.append("it holds no stream extension");
            },
            SetDetail::NotStream => {
                out.append("its first secondary entry is not a stream extension");
            },
            SetDetail::NameUnits { want, have } => {
                out.append("its name is ");
                push_dec(&mut out, *want as u64);
                out.append(" code units and its entries carry ");
                push_dec(&mut out, *have as u64);
            },
        }
        assert(out@ =~= self.text());
        out
    }
}

/// What a read of a volume refuses, or remarks on.
#[allow(inconsistent_fields)]
#[derive(Clone, PartialEq, Eq, Debug)]
pub enum ReadError {
    /// A source that could not be read.
    Io {
        /// What kind of failure it was.
        kind: IoKind,
        /// What the failure was.
        message: &'static str,
    },
    /// Bytes that are not the structure they should be.
    Parse(ParseError),
    /// A boot sector that does not describe a volume.
    BadBootSector {
        /// What is wrong with it.
        detail: BootDefect,
    },
    /// A volume of the transaction-safe variant.
    TexFat,
    /// A volume with a number of tables the format does not define.
    FatCount {
        /// The tables.
        count: u8,
    },
    /// A boot region whose checksum is not the one it records.
    BootChecksumMismatch {
        /// The first sector of the region.
        sector: u64,
        /// The checksum.
        computed: u32,
        /// The one recorded.
        stored: u32,
    },
    /// A checksum sector that does not repeat one value.
    BootChecksumSectorSplit {
        /// The first sector of the region.
        sector: u64,
    },
    /// A backup that does not describe the volume the main boot sector does.
    BackupBootRegionDiffers {
        /// The first sector of the region.
        sector: u64,
        /// What differs.
        detail: BackupDetail,
    },
    /// A minor revision that is not known.
    UnknownMinorRevision {
        /// The revision.
        minor: u8,
    },
    /// An extended boot sector without its signature.
    BadExtendedBootSignature {
        /// The sector.
        sector: u64,
        /// What is there.
        found: u32,
        /// The signature.
        expected: u32,
    },
    /// A cluster the volume does not have.
    ClusterOutOfRange {
        /// The cluster.
        cluster: u32,
    },
    /// A chain that leads to a cluster marked bad.
    BadClusterInChain {
        /// The table entry.
        cluster: u32,
    },
    /// A table entry no chain may have.
    BadChainEntry {
        /// The cluster whose entry it is.
        cluster: u32,
        /// The entry.
        entry: u32,
    },
    /// A chain that does not end.
    ChainTooLong {
        /// Its first cluster.
        start: u32,
        /// Clusters of the volume.
        clusters: u32,
    },
    /// A stream with fewer clusters than its length needs.
    StreamTooShort {
        /// Its first cluster.
        start: u32,
        /// Bytes it should have.
        declared: u64,
        /// Bytes its clusters hold.
        held: u64,
    },
    /// One of the first two table entries that is not what the format fixes.
    BadReservedEntry {
        /// Which of them.
        index: u32,
        /// What is there.
        found: u32,
        /// What the format fixes.
        expected: u32,
    },
    /// A root directory without an entry every volume has.
    MissingResident {
        /// What the entry would describe.
        resident: &'static str,
    },
    /// An up-case table whose checksum is not the one its entry records.
    UpcaseChecksumMismatch {
        /// The checksum.
        computed: u32,
        /// The one recorded.
        stored: u32,
    },
    /// An up-case table longer than one can be.
    UpcaseTooLong {
        /// Bytes of the table.
        bytes: u64,
        /// The most one has.
        limit: u64,
    },
    /// A bitmap that does not have one bit for each cluster.
    BitmapWrongSize {
        /// Bytes of the bitmap.
        bytes: u64,
        /// Clusters of the volume.
        clusters: u32,
    },
    /// An entry set whose checksum is not the one it records.
    SetChecksumMismatch {
        /// Its first entry.
        index: u32,
        /// The checksum.
        computed: u16,
        /// The one recorded.
        stored: u16,
    },
    /// An entry set that is not whole.
    IncompleteEntrySet {
        /// Its first entry.
        index: u32,
        /// What it lacks.
        detail: SetDetail,
    },
    /// A secondary entry of no set.
    StraySecondaryEntry {
        /// The entry.
        index: u32,
    },
    /// A critical entry of a type that is not known.
    UnknownCriticalEntry {
        /// The entry, or the first of its set.
        index: u32,
        /// The type.
        entry_type: u8,
    },
    /// A name that is not well-formed UTF-16.
    IllFormedName {
        /// The first entry of the set.
        index: u32,
    },
    /// A name whose hash is not the one recorded.
    NameHashMismatch {
        /// The first entry of the set.
        index: u32,
        /// The hash.
        computed: u16,
        /// The one recorded.
        stored: u16,
    },
    /// A name no directory can have.
    HostileName {
        /// The first entry of the set.
        index: u32,
    },
    /// A set with more name entries than its name needs.
    ExcessNameEntries {
        /// Name entries it needs.
        want: usize,
        /// Name entries it has.
        have: usize,
        /// The first entry of the set.
        index: u32,
    },
    /// An entry of the root directory in another.
    MisplacedRootEntry {
        /// The entry.
        index: u32,
        /// What it describes.
        entry_type: &'static str,
    },
    /// A second entry of which the root directory has one.
    DuplicateRootEntry {
        /// The entry.
        index: u32,
        /// What it describes.
        entry_type: &'static str,
    },
    /// A volume name longer than its field.
    LabelTooLong {
        /// Units recorded.
        count: u8,
        /// Units of the field.
        limit: usize,
    },
    /// A volume name with the unit zero.
    LabelNulUnit,
    /// An entry behind the end of its directory.
    EntriesAfterEnd {
        /// The entry.
        index: u32,
    },
    /// A directory without clusters.
    DirectoryWithoutAllocation {
        /// The first entry of the set.
        index: u32,
    },
    /// A stream with a length and no clusters.
    StreamWithoutAllocation {
        /// The first entry of the set.
        index: u32,
        /// The length.
        declared: u64,
    },
    /// A stream with clusters and no length.
    AllocationWithoutLength {
        /// The first entry of the set.
        index: u32,
        /// The first cluster.
        first_cluster: u32,
    },
    /// A stream longer than the heap.
    StreamPastHeap {
        /// The length.
        declared: u64,
        /// Bytes of the heap.
        limit: u64,
    },
    /// A directory longer than one may be.
    DirectoryTooLong {
        /// The first entry of the set.
        index: u32,
        /// The length.
        declared: u64,
        /// The longest there is.
        limit: u64,
    },
    /// A directory that is not whole clusters long.
    DirectoryLengthNotClusters {
        /// The first entry of the set.
        index: u32,
        /// The length.
        declared: u64,
        /// Bytes of a cluster.
        bytes_per_cluster: u32,
    },
    /// Attributes the format reserves.
    ReservedAttributes {
        /// The first entry of the set.
        index: u32,
        /// The bits.
        bits: u16,
    },
    /// A stream with clusters that says it can have none.
    AllocationNotPossible {
        /// The first entry of the set.
        index: u32,
    },
    /// A time the encoding does not define.
    MalformedTimestamp {
        /// The first entry of the set.
        index: u32,
        /// Which time.
        field: &'static str,
    },
    /// A stream with more bytes written than it has.
    ValidLengthPastEnd {
        /// Bytes written.
        valid: u64,
        /// Bytes it has.
        declared: u64,
    },
    /// A stream with fewer bytes written than it has.
    ValidLengthTrails {
        /// Bytes written.
        valid: u64,
        /// Bytes it has.
        declared: u64,
    },
    /// A cluster a stream has and the bitmap calls free.
    ClusterNotAllocated {
        /// The cluster.
        cluster: u32,
    },
    /// Clusters the bitmap calls in use and no stream has.
    LostClusters {
        /// How many.
        count: u64,
        /// The first of them.
        first: u32,
    },
    /// A cluster two streams have.
    CrossLinkedCluster {
        /// The cluster.
        cluster: u32,
    },
    /// A percentage the field does not hold.
    PercentInUseOutOfRange {
        /// The percentage.
        stated: u8,
    },
    /// A percentage that is not the one the bitmap gives.
    PercentInUseStale {
        /// The percentage recorded.
        stated: u8,
        /// Clusters in use.
        in_use: u64,
        /// Clusters of the volume.
        clusters: u32,
        /// The percentage.
        actual: u8,
    },
    /// A volume a driver did not put down.
    VolumeDirty,
    /// A volume a driver met a failing medium on.
    MediaFailure,
    /// A path with nothing at it.
    NotFound {
        /// The path.
        path: Vec<u8>,
    },
    /// A path through something that is not a directory.
    NotADirectory {
        /// The path.
        path: Vec<u8>,
    },
    /// A file longer than a read takes on.
    FileTooLarge {
        /// Bytes of the file.
        size: u64,
        /// The most a read takes on.
        limit: u64,
    },
    /// A path longer than a walk gives.
    PathTooLong {
        /// The longest it gives.
        limit: usize,
    },
    /// More names than a walk gives.
    WalkTooLarge {
        /// The most it gives.
        limit: usize,
    },
}

/// Append a text to another.
fn push_text(out: &mut String, text: &String)
    ensures
        final(out)@ == old(out)@ + text@,
{
    out.append(text.as_str());
}

impl ReadError {
    /// The message of the error.
    #[verifier::opaque]
    pub open spec fn text(self) -> Seq<char> {
        match self {
            ReadError::Io { message, .. } => "i/o error: "@ + message@,
            ReadError::Parse(e) => e.text(),
            ReadError::BadBootSector { detail } =>
                "the boot sector does not describe an exFAT volume: "@ + detail.text(),
            ReadError::TexFat =>
                "this volume records two allocation tables, which is the transaction-safe variant"@,
            ReadError::FatCount { count } => "a volume with "@ + dec(count as nat)
                + " allocation tables is not one the format defines"@,
            ReadError::BootChecksumMismatch { sector, computed, stored } =>
                "the boot region at sector "@ + dec(sector as nat) + " checksums to "@
                + hex(computed as nat, 8) + " and records "@ + hex(stored as nat, 8),
            ReadError::BootChecksumSectorSplit { sector } =>
                "the checksum sector of the boot region at sector "@ + dec(sector as nat)
                + " does not repeat one value"@,
            ReadError::BackupBootRegionDiffers { sector, detail } =>
                "the backup boot region at sector "@ + dec(sector as nat)
                + " does not describe the same volume: "@ + detail.text(),
            ReadError::UnknownMinorRevision { minor } => "this volume records minor revision "@
                + dec(minor as nat) + " of the format, which this reader does not know"@,
            ReadError::BadExtendedBootSignature { sector, found, expected } =>
                "the extended boot sector at sector "@ + dec(sector as nat) + " ends with "@
                + hex(found as nat, 8) + " and the format requires "@ + hex(expected as nat, 8),
            ReadError::ClusterOutOfRange { cluster } => "cluster "@ + dec(cluster as nat)
                + " is not a cluster this volume has"@,
            ReadError::BadClusterInChain { cluster } => "the chain reaches cluster "@
                + dec(cluster as nat) + ", which the allocation table marks bad"@,
            ReadError::BadChainEntry { cluster, entry } => "the table entry for cluster "@
                + dec(cluster as nat) + " is "@ + hex(entry as nat, 8)
                + ", which no chain may contain"@,
            ReadError::ChainTooLong { start, clusters } => "the chain from cluster "@
                + dec(start as nat) + " does not end within the volume's "@ + dec(clusters as nat)
                + " clusters"@,
            ReadError::StreamTooShort { start, declared, held } => "a stream from cluster "@
                + dec(start as nat) + " holds "@ + dec(held as nat)
                + " bytes and its entry records "@ + dec(declared as nat),
            ReadError::BadReservedEntry { index, found, expected } => "table entry "@
                + dec(index as nat) + " is "@ + hex(found as nat, 8)
                + " where the format defines "@ + hex(expected as nat, 8),
            ReadError::MissingResident { resident } => "the root directory describes no "@
                + resident@ + ", which every volume carries"@,
            ReadError::UpcaseChecksumMismatch { computed, stored } =>
                "the up-case table checksums to "@ + hex(computed as nat, 8)
                + " and its entry records "@ + hex(stored as nat, 8),
            ReadError::UpcaseTooLong { bytes, limit } => "an up-case table of "@
                + dec(bytes as nat) + " bytes is longer than the "@ + dec(limit as nat)
                + " a mapping can need"@,
            ReadError::BitmapWrongSize { bytes, clusters } => "an allocation bitmap of "@
                + dec(bytes as nat) + " bytes does not hold one bit for each of "@
                + dec(clusters as nat) + " clusters"@,
            ReadError::SetChecksumMismatch { index, computed, stored } => "the entry set at entry "@
                + dec(index as nat) + " checksums to "@ + hex(computed as nat, 4)
                + " and records "@ + hex(stored as nat, 4),
            ReadError::IncompleteEntrySet { index, detail } => "the entry set at entry "@
                + dec(index as nat) + " is not complete: "@ + detail.text(),
            ReadError::StraySecondaryEntry { index } => "entry "@ + dec(index as nat)
                + " continues a set that no entry opened"@,
            ReadError::UnknownCriticalEntry { index, entry_type } => "entry "@ + dec(index as nat)
                + " is of critical type "@ + hex(entry_type as nat, 2)
                + ", which this reader does not know"@,
            ReadError::IllFormedName { index } => "the name at entry "@ + dec(index as nat)
                + " is not well-formed UTF-16"@,
            ReadError::NameHashMismatch { index, computed, stored } => "the name at entry "@
                + dec(index as nat) + " hashes to "@ + hex(computed as nat, 4)
                + " and its entry records "@ + hex(stored as nat, 4),
            ReadError::HostileName { index } => "the name at entry "@ + dec(index as nat)
                + " is one no directory can hold"@,
            ReadError::ExcessNameEntries { want, have, index } => "the entry set at entry "@
                + dec(index as nat) + " carries "@ + dec(have as nat)
                + " name entries and its name needs "@ + dec(want as nat),
            ReadError::MisplacedRootEntry { index, entry_type } => "a "@ + entry_type@
                + " entry sits at entry "@ + dec(index as nat)
                + " of a directory that is not the root"@,
            ReadError::DuplicateRootEntry { index, entry_type } => "a second "@ + entry_type@
                + " entry sits at entry "@ + dec(index as nat) + " of the root directory"@,
            ReadError::LabelTooLong { count, limit } => "a volume label of "@ + dec(count as nat)
                + " characters is longer than the "@ + dec(limit as nat) + " the field holds"@,
            ReadError::LabelNulUnit =>
                "the volume label carries a NUL, which is what the field's padding is"@,
            ReadError::EntriesAfterEnd { index } => "directory entry "@ + dec(index as nat)
                + " follows the end marker and no reader reaches it"@,
            ReadError::DirectoryWithoutAllocation { index } => "the directory at entry "@
                + dec(index as nat) + " records no clusters, so it holds no entries at all"@,
            ReadError::StreamWithoutAllocation { index, declared } => "the stream at entry "@
                + dec(index as nat) + " records "@ + dec(declared as nat)
                + " bytes and no first cluster"@,
            ReadError::AllocationWithoutLength { index, first_cluster } => "the stream at entry "@
                + dec(index as nat) + " records no bytes and a first cluster of "@
                + dec(first_cluster as nat),
            ReadError::StreamPastHeap { declared, limit } => "a stream of "@ + dec(declared as nat)
                + " bytes is longer than the "@ + dec(limit as nat)
                + " bytes the cluster heap holds"@,
            ReadError::DirectoryTooLong { index, declared, limit } => "the directory at entry "@
                + dec(index as nat) + " records "@ + dec(declared as nat)
                + " bytes, more than the "@ + dec(limit as nat) + " the format allows one"@,
            ReadError::DirectoryLengthNotClusters { index, declared, bytes_per_cluster } =>
                "the directory at entry "@ + dec(index as nat) + " records "@
                + dec(declared as nat) + " bytes, which is not whole clusters of "@
                + dec(bytes_per_cluster as nat),
            ReadError::ReservedAttributes { index, bits } => "the entry at entry "@
                + dec(index as nat) + " sets attribute bits "@ + hex(bits as nat, 4)
                + ", which the format reserves"@,
            ReadError::AllocationNotPossible { index } => "the stream at entry "@
                + dec(index as nat) + " records an allocation and does not declare one possible"@,
            ReadError::MalformedTimestamp { index, field } => "the "@ + field@ + " at entry "@
                + dec(index as nat) + " holds a value the encoding does not define"@,
            ReadError::ValidLengthPastEnd { valid, declared } => "a stream records "@
                + dec(valid as nat) + " bytes written of a length of "@ + dec(declared as nat),
            ReadError::ValidLengthTrails { valid, declared } => "a stream of "@
                + dec(declared as nat) + " bytes has "@ + dec(valid as nat)
                + " of them written; the rest reads as zeros"@,
            ReadError::ClusterNotAllocated { cluster } => "cluster "@ + dec(cluster as nat)
                + " is occupied and the allocation bitmap says it is free"@,
            ReadError::LostClusters { count, first } => dec(count as nat)
                + " clusters are marked in use and reached by nothing, the first at "@
                + dec(first as nat),
            ReadError::CrossLinkedCluster { cluster } => "cluster "@ + dec(cluster as nat)
                + " is occupied by more than one stream"@,
            ReadError::PercentInUseOutOfRange { stated } => "the volume records a PercentInUse of "@
                + dec(stated as nat) + ", and the field holds 0 to 100 or 255 for not known"@,
            ReadError::PercentInUseStale { stated, in_use, clusters, actual } =>
                "the volume records that it is "@ + dec(stated as nat) + "% in use and "@
                + dec(in_use as nat) + " of its "@ + dec(clusters as nat)
                + " clusters are, which is "@ + dec(actual as nat) + "%"@,
            ReadError::VolumeDirty =>
                "this volume was not cleanly unmounted, so its metadata may not describe its contents"@,
            ReadError::MediaFailure =>
                "a driver recorded a failure of the medium this volume is on"@,
            ReadError::NotFound { path } => "no such path: "@ + printable_text(path@),
            ReadError::NotADirectory { path } => "not a directory: "@ + printable_text(path@),
            ReadError::FileTooLarge { size, limit } => "a file of "@ + dec(size as nat)
                + " bytes exceeds the "@ + dec(limit as nat) + "-byte read limit"@,
            ReadError::PathTooLong { limit } => "a walked path is longer than the "@
                + dec(limit as nat) + " bytes a path may be"@,
            ReadError::WalkTooLarge { limit } => "the tree holds more than "@ + dec(limit as nat)
                + " names"@,
        }
    }

    /// How much it matters.
    #[verifier::opaque]
    pub open spec fn severity_of(self) -> Severity {
        match self {
            ReadError::Io { .. }
            | ReadError::Parse(_)
            | ReadError::BadBootSector { .. }
            | ReadError::TexFat
            | ReadError::FatCount { .. }
            | ReadError::ClusterOutOfRange { .. }
            | ReadError::BadClusterInChain { .. }
            | ReadError::BadChainEntry { .. }
            | ReadError::ChainTooLong { .. }
            | ReadError::StreamTooShort { .. }
            | ReadError::MissingResident { .. }
            | ReadError::UpcaseTooLong { .. }
            | ReadError::BitmapWrongSize { .. }
            | ReadError::IncompleteEntrySet { .. }
            | ReadError::StraySecondaryEntry { .. }
            | ReadError::HostileName { .. }
            | ReadError::DirectoryWithoutAllocation { .. }
            | ReadError::StreamWithoutAllocation { .. }
            | ReadError::StreamPastHeap { .. }
            | ReadError::DirectoryTooLong { .. }
            | ReadError::ValidLengthPastEnd { .. }
            | ReadError::NotFound { .. }
            | ReadError::NotADirectory { .. }
            | ReadError::FileTooLarge { .. }
            | ReadError::PathTooLong { .. }
            | ReadError::WalkTooLarge { .. } => Severity::Malformed,
            ReadError::BootChecksumMismatch { .. }
            | ReadError::BootChecksumSectorSplit { .. }
            | ReadError::UpcaseChecksumMismatch { .. }
            | ReadError::SetChecksumMismatch { .. }
            | ReadError::NameHashMismatch { .. }
            | ReadError::ClusterNotAllocated { .. }
            | ReadError::CrossLinkedCluster { .. } => Severity::Integrity,
            ReadError::BackupBootRegionDiffers { .. }
            | ReadError::UnknownMinorRevision { .. }
            | ReadError::BadExtendedBootSignature { .. }
            | ReadError::BadReservedEntry { .. }
            | ReadError::UnknownCriticalEntry { .. }
            | ReadError::IllFormedName { .. }
            | ReadError::ExcessNameEntries { .. }
            | ReadError::MisplacedRootEntry { .. }
            | ReadError::DuplicateRootEntry { .. }
            | ReadError::LabelTooLong { .. }
            | ReadError::LabelNulUnit
            | ReadError::EntriesAfterEnd { .. }
            | ReadError::AllocationWithoutLength { .. }
            | ReadError::DirectoryLengthNotClusters { .. }
            | ReadError::ReservedAttributes { .. }
            | ReadError::AllocationNotPossible { .. }
            | ReadError::MalformedTimestamp { .. }
            | ReadError::LostClusters { .. }
            | ReadError::PercentInUseOutOfRange { .. } => Severity::Conformance,
            ReadError::ValidLengthTrails { .. }
            | ReadError::PercentInUseStale { .. }
            | ReadError::VolumeDirty
            | ReadError::MediaFailure => Severity::Cosmetic,
        }
    }

    /// The part of the volume it is in.
    #[verifier::opaque]
    pub open spec fn category_of(self) -> Category {
        match self {
            ReadError::Io { .. }
            | ReadError::Parse(_)
            | ReadError::BadBootSector { .. }
            | ReadError::TexFat
            | ReadError::FatCount { .. }
            | ReadError::BootChecksumMismatch { .. }
            | ReadError::BootChecksumSectorSplit { .. }
            | ReadError::BackupBootRegionDiffers { .. }
            | ReadError::UnknownMinorRevision { .. }
            | ReadError::BadExtendedBootSignature { .. }
            | ReadError::PercentInUseOutOfRange { .. }
            | ReadError::PercentInUseStale { .. }
            | ReadError::VolumeDirty
            | ReadError::MediaFailure => Category::BootRegion,
            ReadError::ClusterOutOfRange { .. }
            | ReadError::BadClusterInChain { .. }
            | ReadError::BadChainEntry { .. }
            | ReadError::ChainTooLong { .. }
            | ReadError::StreamTooShort { .. }
            | ReadError::BadReservedEntry { .. } => Category::AllocationTable,
            ReadError::MissingResident { .. }
            | ReadError::SetChecksumMismatch { .. }
            | ReadError::IncompleteEntrySet { .. }
            | ReadError::StraySecondaryEntry { .. }
            | ReadError::UnknownCriticalEntry { .. }
            | ReadError::IllFormedName { .. }
            | ReadError::NameHashMismatch { .. }
            | ReadError::HostileName { .. }
            | ReadError::ExcessNameEntries { .. }
            | ReadError::MisplacedRootEntry { .. }
            | ReadError::DuplicateRootEntry { .. }
            | ReadError::LabelTooLong { .. }
            | ReadError::LabelNulUnit
            | ReadError::EntriesAfterEnd { .. }
            | ReadError::DirectoryWithoutAllocation { .. }
            | ReadError::StreamWithoutAllocation { .. }
            | ReadError::AllocationWithoutLength { .. }
            | ReadError::StreamPastHeap { .. }
            | ReadError::DirectoryTooLong { .. }
            | ReadError::DirectoryLengthNotClusters { .. }
            | ReadError::ReservedAttributes { .. }
            | ReadError::AllocationNotPossible { .. }
            | ReadError::MalformedTimestamp { .. }
            | ReadError::ValidLengthPastEnd { .. }
            | ReadError::ValidLengthTrails { .. }
            | ReadError::NotFound { .. }
            | ReadError::NotADirectory { .. }
            | ReadError::FileTooLarge { .. }
            | ReadError::PathTooLong { .. }
            | ReadError::WalkTooLarge { .. } => Category::Directory,
            ReadError::UpcaseChecksumMismatch { .. }
            | ReadError::UpcaseTooLong { .. } => Category::UpcaseTable,
            ReadError::BitmapWrongSize { .. }
            | ReadError::ClusterNotAllocated { .. }
            | ReadError::LostClusters { .. }
            | ReadError::CrossLinkedCluster { .. } => Category::AllocationBitmap,
        }
    }

    /// Where it is, as far as it says.
    #[verifier::opaque]
    pub open spec fn location_of(self) -> Location {
        match self {
            ReadError::Io { .. }
            | ReadError::BadReservedEntry { .. }
            | ReadError::MissingResident { .. }
            | ReadError::UpcaseChecksumMismatch { .. }
            | ReadError::UpcaseTooLong { .. }
            | ReadError::BitmapWrongSize { .. }
            | ReadError::LabelTooLong { .. }
            | ReadError::LabelNulUnit
            | ReadError::StreamPastHeap { .. }
            | ReadError::ValidLengthPastEnd { .. }
            | ReadError::ValidLengthTrails { .. }
            | ReadError::NotFound { .. }
            | ReadError::NotADirectory { .. }
            | ReadError::FileTooLarge { .. }
            | ReadError::PathTooLong { .. }
            | ReadError::WalkTooLarge { .. } => Location::nowhere(),
            ReadError::Parse(_)
            | ReadError::BadBootSector { .. }
            | ReadError::TexFat
            | ReadError::FatCount { .. }
            | ReadError::UnknownMinorRevision { .. }
            | ReadError::PercentInUseOutOfRange { .. }
            | ReadError::PercentInUseStale { .. }
            | ReadError::VolumeDirty
            | ReadError::MediaFailure => Location::of_sector(MAIN_BOOT_REGION_SECTOR),
            ReadError::BootChecksumMismatch { sector, .. }
            | ReadError::BootChecksumSectorSplit { sector }
            | ReadError::BackupBootRegionDiffers { sector, .. }
            | ReadError::BadExtendedBootSignature { sector, .. } => Location::of_sector(sector),
            ReadError::ClusterOutOfRange { cluster }
            | ReadError::BadClusterInChain { cluster }
            | ReadError::BadChainEntry { cluster, .. }
            | ReadError::ChainTooLong { start: cluster, .. }
            | ReadError::StreamTooShort { start: cluster, .. }
            | ReadError::ClusterNotAllocated { cluster }
            | ReadError::CrossLinkedCluster { cluster } => Location::of_cluster(cluster),
            ReadError::SetChecksumMismatch { index, .. }
            | ReadError::IncompleteEntrySet { index, .. }
            | ReadError::StraySecondaryEntry { index }
            | ReadError::UnknownCriticalEntry { index, .. }
            | ReadError::IllFormedName { index }
            | ReadError::NameHashMismatch { index, .. }
            | ReadError::HostileName { index }
            | ReadError::ExcessNameEntries { index, .. }
            | ReadError::MisplacedRootEntry { index, .. }
            | ReadError::DuplicateRootEntry { index, .. }
            | ReadError::EntriesAfterEnd { index }
            | ReadError::DirectoryWithoutAllocation { index }
            | ReadError::StreamWithoutAllocation { index, .. }
            | ReadError::AllocationWithoutLength { index, .. }
            | ReadError::DirectoryTooLong { index, .. }
            | ReadError::DirectoryLengthNotClusters { index, .. }
            | ReadError::ReservedAttributes { index, .. }
            | ReadError::AllocationNotPossible { index }
            | ReadError::MalformedTimestamp { index, .. } => Location::of_entry(index),
            ReadError::LostClusters { first, .. } => Location::of_cluster(first),
        }
    }

    /// The deviation it is.
    pub open spec fn anomaly_of(self) -> AnomalyView {
        AnomalyView {
            severity: self.severity_of(),
            category: self.category_of(),
            location: self.location_of(),
            detail: self.text(),
        }
    }

    /// The message of the error.
    #[must_use]
    pub fn message(&self) -> (text: String)
        ensures
            text@ == self.text(),
    {
        reveal(ReadError::text);
        let mut out = String::new();
        match self {
            ReadError::Io { message, .. } => {
                out.append("i/o error: ");
                out.append(message);
            },
            ReadError::Parse(e) => {
                push_text(&mut out, &e.message());
            },
            ReadError::BadBootSector { detail } => {
                out.append("the boot sector does not describe an exFAT volume: ");
                push_text(&mut out, &detail.message());
            },
            ReadError::TexFat => {
                out.append("this volume records two allocation tables, which is the transaction-safe variant");
            },
            ReadError::FatCount { count } => {
                out.append("a volume with ");
                push_dec(&mut out, *count as u64);
                out.append(" allocation tables is not one the format defines");
            },
            ReadError::BootChecksumMismatch { sector, computed, stored } => {
                out.append("the boot region at sector ");
                push_dec(&mut out, *sector as u64);
                out.append(" checksums to ");
                push_hex(&mut out, *computed as u64, 8);
                out.append(" and records ");
                push_hex(&mut out, *stored as u64, 8);
            },
            ReadError::BootChecksumSectorSplit { sector } => {
                out.append("the checksum sector of the boot region at sector ");
                push_dec(&mut out, *sector as u64);
                out.append(" does not repeat one value");
            },
            ReadError::BackupBootRegionDiffers { sector, detail } => {
                out.append("the backup boot region at sector ");
                push_dec(&mut out, *sector as u64);
                out.append(" does not describe the same volume: ");
                push_text(&mut out, &detail.message());
            },
            ReadError::UnknownMinorRevision { minor } => {
                out.append("this volume records minor revision ");
                push_dec(&mut out, *minor as u64);
                out.append(" of the format, which this reader does not know");
            },
            ReadError::BadExtendedBootSignature { sector, found, expected } => {
                out.append("the extended boot sector at sector ");
                push_dec(&mut out, *sector as u64);
                out.append(" ends with ");
                push_hex(&mut out, *found as u64, 8);
                out.append(" and the format requires ");
                push_hex(&mut out, *expected as u64, 8);
            },
            ReadError::ClusterOutOfRange { cluster } => {
                out.append("cluster ");
                push_dec(&mut out, *cluster as u64);
                out.append(" is not a cluster this volume has");
            },
            ReadError::BadClusterInChain { cluster } => {
                out.append("the chain reaches cluster ");
                push_dec(&mut out, *cluster as u64);
                out.append(", which the allocation table marks bad");
            },
            ReadError::BadChainEntry { cluster, entry } => {
                out.append("the table entry for cluster ");
                push_dec(&mut out, *cluster as u64);
                out.append(" is ");
                push_hex(&mut out, *entry as u64, 8);
                out.append(", which no chain may contain");
            },
            ReadError::ChainTooLong { start, clusters } => {
                out.append("the chain from cluster ");
                push_dec(&mut out, *start as u64);
                out.append(" does not end within the volume's ");
                push_dec(&mut out, *clusters as u64);
                out.append(" clusters");
            },
            ReadError::StreamTooShort { start, declared, held } => {
                out.append("a stream from cluster ");
                push_dec(&mut out, *start as u64);
                out.append(" holds ");
                push_dec(&mut out, *held as u64);
                out.append(" bytes and its entry records ");
                push_dec(&mut out, *declared as u64);
            },
            ReadError::BadReservedEntry { index, found, expected } => {
                out.append("table entry ");
                push_dec(&mut out, *index as u64);
                out.append(" is ");
                push_hex(&mut out, *found as u64, 8);
                out.append(" where the format defines ");
                push_hex(&mut out, *expected as u64, 8);
            },
            ReadError::MissingResident { resident } => {
                out.append("the root directory describes no ");
                out.append(resident);
                out.append(", which every volume carries");
            },
            ReadError::UpcaseChecksumMismatch { computed, stored } => {
                out.append("the up-case table checksums to ");
                push_hex(&mut out, *computed as u64, 8);
                out.append(" and its entry records ");
                push_hex(&mut out, *stored as u64, 8);
            },
            ReadError::UpcaseTooLong { bytes, limit } => {
                out.append("an up-case table of ");
                push_dec(&mut out, *bytes as u64);
                out.append(" bytes is longer than the ");
                push_dec(&mut out, *limit as u64);
                out.append(" a mapping can need");
            },
            ReadError::BitmapWrongSize { bytes, clusters } => {
                out.append("an allocation bitmap of ");
                push_dec(&mut out, *bytes as u64);
                out.append(" bytes does not hold one bit for each of ");
                push_dec(&mut out, *clusters as u64);
                out.append(" clusters");
            },
            ReadError::SetChecksumMismatch { index, computed, stored } => {
                out.append("the entry set at entry ");
                push_dec(&mut out, *index as u64);
                out.append(" checksums to ");
                push_hex(&mut out, *computed as u64, 4);
                out.append(" and records ");
                push_hex(&mut out, *stored as u64, 4);
            },
            ReadError::IncompleteEntrySet { index, detail } => {
                out.append("the entry set at entry ");
                push_dec(&mut out, *index as u64);
                out.append(" is not complete: ");
                push_text(&mut out, &detail.message());
            },
            ReadError::StraySecondaryEntry { index } => {
                out.append("entry ");
                push_dec(&mut out, *index as u64);
                out.append(" continues a set that no entry opened");
            },
            ReadError::UnknownCriticalEntry { index, entry_type } => {
                out.append("entry ");
                push_dec(&mut out, *index as u64);
                out.append(" is of critical type ");
                push_hex(&mut out, *entry_type as u64, 2);
                out.append(", which this reader does not know");
            },
            ReadError::IllFormedName { index } => {
                out.append("the name at entry ");
                push_dec(&mut out, *index as u64);
                out.append(" is not well-formed UTF-16");
            },
            ReadError::NameHashMismatch { index, computed, stored } => {
                out.append("the name at entry ");
                push_dec(&mut out, *index as u64);
                out.append(" hashes to ");
                push_hex(&mut out, *computed as u64, 4);
                out.append(" and its entry records ");
                push_hex(&mut out, *stored as u64, 4);
            },
            ReadError::HostileName { index } => {
                out.append("the name at entry ");
                push_dec(&mut out, *index as u64);
                out.append(" is one no directory can hold");
            },
            ReadError::ExcessNameEntries { want, have, index } => {
                out.append("the entry set at entry ");
                push_dec(&mut out, *index as u64);
                out.append(" carries ");
                push_dec(&mut out, *have as u64);
                out.append(" name entries and its name needs ");
                push_dec(&mut out, *want as u64);
            },
            ReadError::MisplacedRootEntry { index, entry_type } => {
                out.append("a ");
                out.append(entry_type);
                out.append(" entry sits at entry ");
                push_dec(&mut out, *index as u64);
                out.append(" of a directory that is not the root");
            },
            ReadError::DuplicateRootEntry { index, entry_type } => {
                out.append("a second ");
                out.append(entry_type);
                out.append(" entry sits at entry ");
                push_dec(&mut out, *index as u64);
                out.append(" of the root directory");
            },
            ReadError::LabelTooLong { count, limit } => {
                out.append("a volume label of ");
                push_dec(&mut out, *count as u64);
                out.append(" characters is longer than the ");
                push_dec(&mut out, *limit as u64);
                out.append(" the field holds");
            },
            ReadError::LabelNulUnit => {
                out.append("the volume label carries a NUL, which is what the field's padding is");
            },
            ReadError::EntriesAfterEnd { index } => {
                out.append("directory entry ");
                push_dec(&mut out, *index as u64);
                out.append(" follows the end marker and no reader reaches it");
            },
            ReadError::DirectoryWithoutAllocation { index } => {
                out.append("the directory at entry ");
                push_dec(&mut out, *index as u64);
                out.append(" records no clusters, so it holds no entries at all");
            },
            ReadError::StreamWithoutAllocation { index, declared } => {
                out.append("the stream at entry ");
                push_dec(&mut out, *index as u64);
                out.append(" records ");
                push_dec(&mut out, *declared as u64);
                out.append(" bytes and no first cluster");
            },
            ReadError::AllocationWithoutLength { index, first_cluster } => {
                out.append("the stream at entry ");
                push_dec(&mut out, *index as u64);
                out.append(" records no bytes and a first cluster of ");
                push_dec(&mut out, *first_cluster as u64);
            },
            ReadError::StreamPastHeap { declared, limit } => {
                out.append("a stream of ");
                push_dec(&mut out, *declared as u64);
                out.append(" bytes is longer than the ");
                push_dec(&mut out, *limit as u64);
                out.append(" bytes the cluster heap holds");
            },
            ReadError::DirectoryTooLong { index, declared, limit } => {
                out.append("the directory at entry ");
                push_dec(&mut out, *index as u64);
                out.append(" records ");
                push_dec(&mut out, *declared as u64);
                out.append(" bytes, more than the ");
                push_dec(&mut out, *limit as u64);
                out.append(" the format allows one");
            },
            ReadError::DirectoryLengthNotClusters { index, declared, bytes_per_cluster } => {
                out.append("the directory at entry ");
                push_dec(&mut out, *index as u64);
                out.append(" records ");
                push_dec(&mut out, *declared as u64);
                out.append(" bytes, which is not whole clusters of ");
                push_dec(&mut out, *bytes_per_cluster as u64);
            },
            ReadError::ReservedAttributes { index, bits } => {
                out.append("the entry at entry ");
                push_dec(&mut out, *index as u64);
                out.append(" sets attribute bits ");
                push_hex(&mut out, *bits as u64, 4);
                out.append(", which the format reserves");
            },
            ReadError::AllocationNotPossible { index } => {
                out.append("the stream at entry ");
                push_dec(&mut out, *index as u64);
                out.append(" records an allocation and does not declare one possible");
            },
            ReadError::MalformedTimestamp { index, field } => {
                out.append("the ");
                out.append(field);
                out.append(" at entry ");
                push_dec(&mut out, *index as u64);
                out.append(" holds a value the encoding does not define");
            },
            ReadError::ValidLengthPastEnd { valid, declared } => {
                out.append("a stream records ");
                push_dec(&mut out, *valid as u64);
                out.append(" bytes written of a length of ");
                push_dec(&mut out, *declared as u64);
            },
            ReadError::ValidLengthTrails { valid, declared } => {
                out.append("a stream of ");
                push_dec(&mut out, *declared as u64);
                out.append(" bytes has ");
                push_dec(&mut out, *valid as u64);
                out.append(" of them written; the rest reads as zeros");
            },
            ReadError::ClusterNotAllocated { cluster } => {
                out.append("cluster ");
                push_dec(&mut out, *cluster as u64);
                out.append(" is occupied and the allocation bitmap says it is free");
            },
            ReadError::LostClusters { count, first } => {
                push_dec(&mut out, *count as u64);
                out.append(" clusters are marked in use and reached by nothing, the first at ");
                push_dec(&mut out, *first as u64);
            },
            ReadError::CrossLinkedCluster { cluster } => {
                out.append("cluster ");
                push_dec(&mut out, *cluster as u64);
                out.append(" is occupied by more than one stream");
            },
            ReadError::PercentInUseOutOfRange { stated } => {
                out.append("the volume records a PercentInUse of ");
                push_dec(&mut out, *stated as u64);
                out.append(", and the field holds 0 to 100 or 255 for not known");
            },
            ReadError::PercentInUseStale { stated, in_use, clusters, actual } => {
                out.append("the volume records that it is ");
                push_dec(&mut out, *stated as u64);
                out.append("% in use and ");
                push_dec(&mut out, *in_use as u64);
                out.append(" of its ");
                push_dec(&mut out, *clusters as u64);
                out.append(" clusters are, which is ");
                push_dec(&mut out, *actual as u64);
                out.append("%");
            },
            ReadError::VolumeDirty => {
                out.append("this volume was not cleanly unmounted, so its metadata may not describe its contents");
            },
            ReadError::MediaFailure => {
                out.append("a driver recorded a failure of the medium this volume is on");
            },
            ReadError::NotFound { path } => {
                out.append("no such path: ");
                push_printable(&mut out, path);
            },
            ReadError::NotADirectory { path } => {
                out.append("not a directory: ");
                push_printable(&mut out, path);
            },
            ReadError::FileTooLarge { size, limit } => {
                out.append("a file of ");
                push_dec(&mut out, *size as u64);
                out.append(" bytes exceeds the ");
                push_dec(&mut out, *limit as u64);
                out.append("-byte read limit");
            },
            ReadError::PathTooLong { limit } => {
                out.append("a walked path is longer than the ");
                push_dec(&mut out, *limit as u64);
                out.append(" bytes a path may be");
            },
            ReadError::WalkTooLarge { limit } => {
                out.append("the tree holds more than ");
                push_dec(&mut out, *limit as u64);
                out.append(" names");
            },
        }
        assert(out@ =~= self.text());
        out
    }

    /// How much it matters.
    #[must_use]
    pub fn severity(&self) -> (severity: Severity)
        ensures
            severity == self.severity_of(),
    {
        reveal(ReadError::severity_of);
        match self {
            ReadError::Io { .. }
            | ReadError::Parse(_)
            | ReadError::BadBootSector { .. }
            | ReadError::TexFat
            | ReadError::FatCount { .. }
            | ReadError::ClusterOutOfRange { .. }
            | ReadError::BadClusterInChain { .. }
            | ReadError::BadChainEntry { .. }
            | ReadError::ChainTooLong { .. }
            | ReadError::StreamTooShort { .. }
            | ReadError::MissingResident { .. }
            | ReadError::UpcaseTooLong { .. }
            | ReadError::BitmapWrongSize { .. }
            | ReadError::IncompleteEntrySet { .. }
            | ReadError::StraySecondaryEntry { .. }
            | ReadError::HostileName { .. }
            | ReadError::DirectoryWithoutAllocation { .. }
            | ReadError::StreamWithoutAllocation { .. }
            | ReadError::StreamPastHeap { .. }
            | ReadError::DirectoryTooLong { .. }
            | ReadError::ValidLengthPastEnd { .. }
            | ReadError::NotFound { .. }
            | ReadError::NotADirectory { .. }
            | ReadError::FileTooLarge { .. }
            | ReadError::PathTooLong { .. }
            | ReadError::WalkTooLarge { .. } => Severity::Malformed,
            ReadError::BootChecksumMismatch { .. }
            | ReadError::BootChecksumSectorSplit { .. }
            | ReadError::UpcaseChecksumMismatch { .. }
            | ReadError::SetChecksumMismatch { .. }
            | ReadError::NameHashMismatch { .. }
            | ReadError::ClusterNotAllocated { .. }
            | ReadError::CrossLinkedCluster { .. } => Severity::Integrity,
            ReadError::BackupBootRegionDiffers { .. }
            | ReadError::UnknownMinorRevision { .. }
            | ReadError::BadExtendedBootSignature { .. }
            | ReadError::BadReservedEntry { .. }
            | ReadError::UnknownCriticalEntry { .. }
            | ReadError::IllFormedName { .. }
            | ReadError::ExcessNameEntries { .. }
            | ReadError::MisplacedRootEntry { .. }
            | ReadError::DuplicateRootEntry { .. }
            | ReadError::LabelTooLong { .. }
            | ReadError::LabelNulUnit
            | ReadError::EntriesAfterEnd { .. }
            | ReadError::AllocationWithoutLength { .. }
            | ReadError::DirectoryLengthNotClusters { .. }
            | ReadError::ReservedAttributes { .. }
            | ReadError::AllocationNotPossible { .. }
            | ReadError::MalformedTimestamp { .. }
            | ReadError::LostClusters { .. }
            | ReadError::PercentInUseOutOfRange { .. } => Severity::Conformance,
            ReadError::ValidLengthTrails { .. }
            | ReadError::PercentInUseStale { .. }
            | ReadError::VolumeDirty
            | ReadError::MediaFailure => Severity::Cosmetic,
        }
    }

    /// The part of the volume it is in.
    #[must_use]
    pub fn category(&self) -> (category: Category)
        ensures
            category == self.category_of(),
    {
        reveal(ReadError::category_of);
        match self {
            ReadError::Io { .. }
            | ReadError::Parse(_)
            | ReadError::BadBootSector { .. }
            | ReadError::TexFat
            | ReadError::FatCount { .. }
            | ReadError::BootChecksumMismatch { .. }
            | ReadError::BootChecksumSectorSplit { .. }
            | ReadError::BackupBootRegionDiffers { .. }
            | ReadError::UnknownMinorRevision { .. }
            | ReadError::BadExtendedBootSignature { .. }
            | ReadError::PercentInUseOutOfRange { .. }
            | ReadError::PercentInUseStale { .. }
            | ReadError::VolumeDirty
            | ReadError::MediaFailure => Category::BootRegion,
            ReadError::ClusterOutOfRange { .. }
            | ReadError::BadClusterInChain { .. }
            | ReadError::BadChainEntry { .. }
            | ReadError::ChainTooLong { .. }
            | ReadError::StreamTooShort { .. }
            | ReadError::BadReservedEntry { .. } => Category::AllocationTable,
            ReadError::MissingResident { .. }
            | ReadError::SetChecksumMismatch { .. }
            | ReadError::IncompleteEntrySet { .. }
            | ReadError::StraySecondaryEntry { .. }
            | ReadError::UnknownCriticalEntry { .. }
            | ReadError::IllFormedName { .. }
            | ReadError::NameHashMismatch { .. }
            | ReadError::HostileName { .. }
            | ReadError::ExcessNameEntries { .. }
            | ReadError::MisplacedRootEntry { .. }
            | ReadError::DuplicateRootEntry { .. }
            | ReadError::LabelTooLong { .. }
            | ReadError::LabelNulUnit
            | ReadError::EntriesAfterEnd { .. }
            | ReadError::DirectoryWithoutAllocation { .. }
            | ReadError::StreamWithoutAllocation { .. }
            | ReadError::AllocationWithoutLength { .. }
            | ReadError::StreamPastHeap { .. }
            | ReadError::DirectoryTooLong { .. }
            | ReadError::DirectoryLengthNotClusters { .. }
            | ReadError::ReservedAttributes { .. }
            | ReadError::AllocationNotPossible { .. }
            | ReadError::MalformedTimestamp { .. }
            | ReadError::ValidLengthPastEnd { .. }
            | ReadError::ValidLengthTrails { .. }
            | ReadError::NotFound { .. }
            | ReadError::NotADirectory { .. }
            | ReadError::FileTooLarge { .. }
            | ReadError::PathTooLong { .. }
            | ReadError::WalkTooLarge { .. } => Category::Directory,
            ReadError::UpcaseChecksumMismatch { .. }
            | ReadError::UpcaseTooLong { .. } => Category::UpcaseTable,
            ReadError::BitmapWrongSize { .. }
            | ReadError::ClusterNotAllocated { .. }
            | ReadError::LostClusters { .. }
            | ReadError::CrossLinkedCluster { .. } => Category::AllocationBitmap,
        }
    }

    /// Where it is, as far as it says.
    #[must_use]
    pub fn location(&self) -> (location: Location)
        ensures
            location == self.location_of(),
    {
        reveal(ReadError::location_of);
        match self {
            ReadError::Io { .. }
            | ReadError::BadReservedEntry { .. }
            | ReadError::MissingResident { .. }
            | ReadError::UpcaseChecksumMismatch { .. }
            | ReadError::UpcaseTooLong { .. }
            | ReadError::BitmapWrongSize { .. }
            | ReadError::LabelTooLong { .. }
            | ReadError::LabelNulUnit
            | ReadError::StreamPastHeap { .. }
            | ReadError::ValidLengthPastEnd { .. }
            | ReadError::ValidLengthTrails { .. }
            | ReadError::NotFound { .. }
            | ReadError::NotADirectory { .. }
            | ReadError::FileTooLarge { .. }
            | ReadError::PathTooLong { .. }
            | ReadError::WalkTooLarge { .. } => Location::default(),
            ReadError::Parse(_)
            | ReadError::BadBootSector { .. }
            | ReadError::TexFat
            | ReadError::FatCount { .. }
            | ReadError::UnknownMinorRevision { .. }
            | ReadError::PercentInUseOutOfRange { .. }
            | ReadError::PercentInUseStale { .. }
            | ReadError::VolumeDirty
            | ReadError::MediaFailure => Location::at_sector(MAIN_BOOT_REGION_SECTOR),
            ReadError::BootChecksumMismatch { sector, .. }
            | ReadError::BootChecksumSectorSplit { sector }
            | ReadError::BackupBootRegionDiffers { sector, .. }
            | ReadError::BadExtendedBootSignature { sector, .. } => Location::at_sector(*sector),
            ReadError::ClusterOutOfRange { cluster }
            | ReadError::BadClusterInChain { cluster }
            | ReadError::BadChainEntry { cluster, .. }
            | ReadError::ChainTooLong { start: cluster, .. }
            | ReadError::StreamTooShort { start: cluster, .. }
            | ReadError::ClusterNotAllocated { cluster }
            | ReadError::CrossLinkedCluster { cluster } => Location::at_cluster(*cluster),
            ReadError::SetChecksumMismatch { index, .. }
            | ReadError::IncompleteEntrySet { index, .. }
            | ReadError::StraySecondaryEntry { index }
            | ReadError::UnknownCriticalEntry { index, .. }
            | ReadError::IllFormedName { index }
            | ReadError::NameHashMismatch { index, .. }
            | ReadError::HostileName { index }
            | ReadError::ExcessNameEntries { index, .. }
            | ReadError::MisplacedRootEntry { index, .. }
            | ReadError::DuplicateRootEntry { index, .. }
            | ReadError::EntriesAfterEnd { index }
            | ReadError::DirectoryWithoutAllocation { index }
            | ReadError::StreamWithoutAllocation { index, .. }
            | ReadError::AllocationWithoutLength { index, .. }
            | ReadError::DirectoryTooLong { index, .. }
            | ReadError::DirectoryLengthNotClusters { index, .. }
            | ReadError::ReservedAttributes { index, .. }
            | ReadError::AllocationNotPossible { index }
            | ReadError::MalformedTimestamp { index, .. } => Location::at_entry(*index),
            ReadError::LostClusters { first, .. } => Location::at_cluster(*first),
        }
    }

    /// The deviation it is.
    #[must_use]
    pub fn anomaly(&self) -> (anomaly: Anomaly)
        ensures
            anomaly@ == self.anomaly_of(),
    {
        Anomaly {
            severity: self.severity(),
            category: self.category(),
            location: self.location(),
            detail: self.message(),
        }
    }
}

/// Which part of a volume a deviation is in.
pub proof fn lemma_which_part_a_deviation_is_in(e: ReadError)
    ensures
        e.category_of() == Category::BootRegion <==> e is Io || e is Parse || e is BadBootSector
            || e is TexFat || e is FatCount || e is BootChecksumMismatch
            || e is BootChecksumSectorSplit || e is BackupBootRegionDiffers
            || e is UnknownMinorRevision || e is BadExtendedBootSignature
            || e is PercentInUseOutOfRange || e is PercentInUseStale || e is VolumeDirty
            || e is MediaFailure,
        e.category_of() == Category::AllocationTable <==> e is ClusterOutOfRange
            || e is BadClusterInChain || e is BadChainEntry || e is ChainTooLong
            || e is StreamTooShort || e is BadReservedEntry,
        e.category_of() == Category::AllocationBitmap <==> e is BitmapWrongSize
            || e is ClusterNotAllocated || e is LostClusters || e is CrossLinkedCluster,
        e.category_of() == Category::UpcaseTable <==> e is UpcaseChecksumMismatch
            || e is UpcaseTooLong,
{
    reveal(ReadError::category_of);
}

/// A deviation of the table or of the bitmap is at the cluster it names, one of a boot region at
/// the sector it names, and one of an entry at the slot it names.
pub proof fn lemma_where_a_deviation_is(e: ReadError)
    ensures
        match e {
            ReadError::ClusterOutOfRange { cluster }
            | ReadError::BadClusterInChain { cluster }
            | ReadError::ClusterNotAllocated { cluster }
            | ReadError::CrossLinkedCluster { cluster } => e.location_of().cluster == Some(cluster),
            ReadError::BadChainEntry { cluster, .. } => e.location_of().cluster == Some(cluster),
            ReadError::ChainTooLong { start, .. } => e.location_of().cluster == Some(start),
            ReadError::StreamTooShort { start, .. } => e.location_of().cluster == Some(start),
            ReadError::LostClusters { first, .. } => e.location_of().cluster == Some(first),
            ReadError::BootChecksumMismatch { sector, .. } => e.location_of().sector == Some(
                sector,
            ),
            ReadError::BootChecksumSectorSplit { sector } => e.location_of().sector == Some(sector),
            ReadError::BackupBootRegionDiffers { sector, .. } => e.location_of().sector == Some(
                sector,
            ),
            ReadError::BadExtendedBootSignature { sector, .. } => e.location_of().sector == Some(
                sector,
            ),
            ReadError::SetChecksumMismatch { index, .. } => e.location_of().entry == Some(index),
            ReadError::IncompleteEntrySet { index, .. } => e.location_of().entry == Some(index),
            ReadError::StraySecondaryEntry { index } => e.location_of().entry == Some(index),
            ReadError::NameHashMismatch { index, .. } => e.location_of().entry == Some(index),
            ReadError::EntriesAfterEnd { index } => e.location_of().entry == Some(index),
            ReadError::VolumeDirty | ReadError::MediaFailure => e.location_of().sector == Some(0u64),
            _ => true,
        },
{
    reveal(ReadError::location_of);
}

} // verus!
