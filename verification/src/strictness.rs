//! What is refused, and what is read past.
use vstd::prelude::*;

use crate::boot::boot_fault;
use crate::deviation::{first_fatal, refused, Noted};
use crate::finding::Severity;
use crate::node::Node;
use crate::open::boot_at;
use crate::policy::ReadPolicy;
use crate::read_error::ReadError;
use crate::reader::{anomalies_of, first_refused, opened, Opened, Reader};
use crate::recover::boot_defect;

verus! {

/// A lenient open refuses nothing it could open past.
pub proof fn lemma_lenient_open_refuses_nothing(log: Seq<ReadError>, from: int)
    ensures
        first_refused(ReadPolicy::Lenient, log, from) is None,
    decreases log.len() - from,
{
    if from < log.len() {
        lemma_lenient_open_refuses_nothing(log, from + 1);
    }
}

/// A strict open refuses a volume exactly where something about it is worse than what a driver
/// leaves behind.
pub proof fn lemma_strict_open_refuses_what_no_driver_leaves(log: Seq<ReadError>, from: int)
    requires
        0 <= from,
    ensures
        first_refused(ReadPolicy::Strict, log, from) is None <==> forall|i: int|
            from <= i < log.len() ==> (#[trigger] log[i]).severity_of() == Severity::Cosmetic,
        first_refused(ReadPolicy::Strict, log, from) matches Some(e)
            ==> e.severity_of() != Severity::Cosmetic,
    decreases log.len() - from,
{
    if from < log.len() {
        lemma_strict_open_refuses_what_no_driver_leaves(log, from + 1);
        if log[from].severity_of() == Severity::Cosmetic {
            assert forall|i: int|
                (forall|k: int|
                    from + 1 <= k < log.len() ==> (#[trigger] log[k]).severity_of()
                        == Severity::Cosmetic) && from <= i < log.len() implies (
            #[trigger] log[i]).severity_of() == Severity::Cosmetic by {}
        }
    }
}

/// A volume a driver had open and did not put down, one whose medium failed, a percentage that
/// no longer holds, and a stream written less far than it is long, are what a driver leaves
/// behind.
pub proof fn lemma_what_a_driver_leaves(e: ReadError)
    requires
        e is VolumeDirty || e is MediaFailure || e is PercentInUseStale || e is ValidLengthTrails,
    ensures
        e.severity_of() == Severity::Cosmetic,
        !ReadPolicy::Strict.fatal(e.severity_of()),
{
    reveal(ReadError::severity_of);
}

/// Nothing else is left behind by a driver. What does not agree with what is recorded of it says
/// that something changed; what is only not as it should be is read as it is; and what is neither
/// is not to be read.
pub proof fn lemma_how_much_a_deviation_matters(e: ReadError)
    ensures
        e.severity_of() == Severity::Cosmetic <==> e is VolumeDirty || e is MediaFailure
            || e is PercentInUseStale || e is ValidLengthTrails,
        e.severity_of() == Severity::Integrity <==> e is BootChecksumMismatch
            || e is BootChecksumSectorSplit || e is UpcaseChecksumMismatch
            || e is SetChecksumMismatch || e is NameHashMismatch || e is ClusterNotAllocated
            || e is CrossLinkedCluster,
        e.severity_of() == Severity::Conformance <==> e is BackupBootRegionDiffers
            || e is UnknownMinorRevision || e is BadExtendedBootSignature || e is BadReservedEntry
            || e is UnknownCriticalEntry || e is IllFormedName || e is ExcessNameEntries
            || e is MisplacedRootEntry || e is DuplicateRootEntry || e is LabelTooLong
            || e is LabelNulUnit || e is EntriesAfterEnd || e is AllocationWithoutLength
            || e is DirectoryLengthNotClusters || e is ReservedAttributes
            || e is AllocationNotPossible || e is MalformedTimestamp || e is LostClusters
            || e is PercentInUseOutOfRange,
        ReadPolicy::Strict.fatal(e.severity_of()) <==> !(e is VolumeDirty || e is MediaFailure
            || e is PercentInUseStale || e is ValidLengthTrails),
        !ReadPolicy::Lenient.fatal(e.severity_of()),
{
    reveal(ReadError::severity_of);
}

/// A strict open that refuses a volume says why with the first thing about it that is worse than
/// what a driver leaves behind.
pub proof fn lemma_a_strict_open_says_the_first(log: Seq<ReadError>, from: int, at: int)
    requires
        0 <= from <= at < log.len(),
        forall|i: int|
            from <= i < at ==> (#[trigger] log[i]) is VolumeDirty || log[i] is MediaFailure
                || log[i] is PercentInUseStale || log[i] is ValidLengthTrails,
        !(log[at] is VolumeDirty || log[at] is MediaFailure || log[at] is PercentInUseStale
            || log[at] is ValidLengthTrails),
    ensures
        first_refused(ReadPolicy::Strict, log, from) == Some(log[at]),
    decreases at - from,
{
    lemma_how_much_a_deviation_matters(log[from]);
    if from < at {
        lemma_a_strict_open_says_the_first(log, from + 1, at);
    }
}

/// A strict read is refused exactly where it meets something worse than what a driver leaves
/// behind, and says the first such thing; a lenient one never is, nor is a check, which goes by no
/// policy.
pub proof fn lemma_a_strict_read_says_the_first(log: Seq<Noted>, policy: Option<ReadPolicy>)
    ensures
        policy != Some(ReadPolicy::Strict) ==> refused(policy, log) is None,
        policy == Some(ReadPolicy::Strict) ==> match refused(policy, log) {
            None => forall|i: int|
                0 <= i < log.len() ==> (#[trigger] log[i]).err is VolumeDirty || log[i].err
                    is MediaFailure || log[i].err is PercentInUseStale || log[i].err
                    is ValidLengthTrails,
            Some(e) => exists|at: int|
                0 <= at < log.len() && (#[trigger] log[at]).err == e && !(e is VolumeDirty || e
                    is MediaFailure || e is PercentInUseStale || e is ValidLengthTrails)
                    && forall|i: int|
                    0 <= i < at ==> (#[trigger] log[i]).err is VolumeDirty || log[i].err
                        is MediaFailure || log[i].err is PercentInUseStale || log[i].err
                        is ValidLengthTrails,
        },
    decreases log.len(),
{
    if log.len() > 0 {
        let before = log.drop_last();
        lemma_a_strict_read_says_the_first(before, policy);
        lemma_how_much_a_deviation_matters(log.last().err);
        if policy == Some(ReadPolicy::Strict) {
            match refused(policy, before) {
                Some(e) => {
                    let at = choose|at: int|
                        0 <= at < before.len() && (#[trigger] before[at]).err == e && !(e
                            is VolumeDirty || e is MediaFailure || e is PercentInUseStale || e
                            is ValidLengthTrails) && forall|i: int|
                            0 <= i < at ==> (#[trigger] before[i]).err is VolumeDirty
                                || before[i].err is MediaFailure || before[i].err
                                is PercentInUseStale || before[i].err is ValidLengthTrails;
                    assert(log[at].err == e);
                    assert forall|i: int| 0 <= i < at implies (#[trigger] log[i]).err is VolumeDirty
                        || log[i].err is MediaFailure || log[i].err is PercentInUseStale
                        || log[i].err is ValidLengthTrails by {
                        assert(before[i] == log[i]);
                    }
                },
                None => {
                    assert forall|i: int| 0 <= i < log.len() - 1 implies (#[trigger] log[i]).err
                        is VolumeDirty || log[i].err is MediaFailure || log[i].err
                        is PercentInUseStale || log[i].err is ValidLengthTrails by {
                        assert(before[i] == log[i]);
                    }
                    assert(log[log.len() - 1] == log.last());
                },
            }
        }
    }
}

/// A volume that records two allocation tables is refused by name, however it is opened.
pub proof fn lemma_two_tables_are_refused(bytes: Seq<u8>)
    requires
        bytes.len() >= 512,
        boot_fault(bytes.take(512)) is None,
        boot_defect(boot_at(bytes.take(512)), bytes.len() as int) is None,
        boot_at(bytes.take(512)).number_of_fats == 2,
    ensures
        opened(bytes) == Err::<Opened, ReadError>(ReadError::TexFat),
{
}

/// A lenient read refuses none of the deviations it can read past.
proof fn lemma_lenient_refuses_nothing(log: Seq<Noted>)
    ensures
        first_fatal(ReadPolicy::Lenient, log) is None,
    decreases log.len(),
{
    if log.len() > 0 {
        lemma_lenient_refuses_nothing(log.drop_last());
    }
}

impl<'a> Reader<'a> {
    /// What a strict read of a directory gives, a lenient one of the same volume gives too.
    pub proof fn lemma_lenient_reads_what_strict_reads(&self, other: &Reader<'_>, node: Node)
        requires
            self.strictness() == ReadPolicy::Strict,
            other.strictness() == ReadPolicy::Lenient,
            self.vol() == other.vol(),
            self.mapping() == other.mapping(),
            self.taken_on() == other.taken_on(),
            self.listing(node) is Ok,
        ensures
            other.listing(node) == self.listing(node),
    {
        lemma_lenient_refuses_nothing(other.directory(node).log);
    }
}

/// An open that goes on remarks on everything it went past, in turn, with how much it matters, the
/// part of the volume it is in, where it is, and what it is.
pub proof fn lemma_an_open_remarks_on_all_it_went_past(log: Seq<ReadError>, i: int)
    requires
        0 <= i < log.len(),
    ensures
        anomalies_of(log).len() == log.len(),
        anomalies_of(log)[i].severity == log[i].severity_of(),
        anomalies_of(log)[i].category == log[i].category_of(),
        anomalies_of(log)[i].location == log[i].location_of(),
        anomalies_of(log)[i].detail == log[i].text(),
{
}

} // verus!
