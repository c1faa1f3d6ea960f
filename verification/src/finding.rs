//! What a check of a volume finds.
use vstd::prelude::*;

verus! {

/// How much a deviation matters.
#[derive(Clone, Copy, PartialEq, Eq, Debug, Structural)]
pub enum Severity {
    /// A state a driver leaves behind, which costs nothing.
    Cosmetic,
    /// A departure from the format.
    Conformance,
    /// Two records that do not agree.
    Integrity,
    /// Something that cannot be read as what it should be.
    Malformed,
}

/// The format a finding is about.
#[derive(Clone, Copy, PartialEq, Eq, Debug, Structural)]
pub enum Family {
    /// exFAT.
    ExFat,
}

/// The part of a volume a deviation is in.
#[derive(Clone, Copy, PartialEq, Eq, Debug, Structural)]
pub enum Category {
    /// The two boot regions.
    BootRegion,
    /// The allocation table.
    AllocationTable,
    /// The allocation bitmap.
    AllocationBitmap,
    /// The up-case table.
    UpcaseTable,
    /// A directory.
    Directory,
}

impl Category {
    /// The name of the part.
    pub open spec fn name(self) -> &'static str {
        match self {
            Category::BootRegion => "boot region",
            Category::AllocationTable => "allocation table",
            Category::AllocationBitmap => "allocation bitmap",
            Category::UpcaseTable => "up-case table",
            Category::Directory => "directory",
        }
    }

    /// The name of the part.
    #[must_use]
    pub fn as_str(self) -> (name: &'static str)
        ensures
            name == self.name(),
    {
        match self {
            Category::BootRegion => "boot region",
            Category::AllocationTable => "allocation table",
            Category::AllocationBitmap => "allocation bitmap",
            Category::UpcaseTable => "up-case table",
            Category::Directory => "directory",
        }
    }
}

/// Where on a volume a deviation is.
#[derive(Clone, Copy, PartialEq, Eq, Debug, Structural)]
pub struct Location {
    /// The sector.
    pub sector: Option<u64>,
    /// The cluster.
    pub cluster: Option<u32>,
    /// The directory entry.
    pub entry: Option<u32>,
}

/// `a` where there is one, and `b` where there is not.
pub open spec fn either<T>(a: Option<T>, b: Option<T>) -> Option<T> {
    if a is Some {
        a
    } else {
        b
    }
}

impl Location {
    /// Nowhere in particular.
    pub open spec fn nowhere() -> Self {
        Location { sector: None, cluster: None, entry: None }
    }

    /// At a directory entry.
    pub open spec fn of_entry(index: u32) -> Self {
        Location { sector: None, cluster: None, entry: Some(index) }
    }

    /// At a cluster.
    pub open spec fn of_cluster(cluster: u32) -> Self {
        Location { sector: None, cluster: Some(cluster), entry: None }
    }

    /// At a sector.
    pub open spec fn of_sector(sector: u64) -> Self {
        Location { sector: Some(sector), cluster: None, entry: None }
    }

    /// This location, completed by another.
    pub open spec fn filled(self, other: Self) -> Self {
        Location {
            sector: either(self.sector, other.sector),
            cluster: either(self.cluster, other.cluster),
            entry: either(self.entry, other.entry),
        }
    }

    /// This location, completed by another.
    #[must_use]
    pub fn or(self, other: Self) -> (location: Self)
        ensures
            location == self.filled(other),
    {
        Location {
            sector: if self.sector.is_some() {
                self.sector
            } else {
                other.sector
            },
            cluster: if self.cluster.is_some() {
                self.cluster
            } else {
                other.cluster
            },
            entry: if self.entry.is_some() {
                self.entry
            } else {
                other.entry
            },
        }
    }

    /// At a directory entry.
    #[must_use]
    pub fn at_entry(index: u32) -> (location: Self)
        ensures
            location == Self::of_entry(index),
    {
        Location { sector: None, cluster: None, entry: Some(index) }
    }

    /// At a cluster.
    #[must_use]
    pub fn at_cluster(cluster: u32) -> (location: Self)
        ensures
            location == Self::of_cluster(cluster),
    {
        Location { sector: None, cluster: Some(cluster), entry: None }
    }

    /// At a sector.
    #[must_use]
    pub fn at_sector(sector: u64) -> (location: Self)
        ensures
            location == Self::of_sector(sector),
    {
        Location { sector: Some(sector), cluster: None, entry: None }
    }
}

impl Default for Location {
    fn default() -> (location: Self)
        ensures
            location == Self::nowhere(),
    {
        Location { sector: None, cluster: None, entry: None }
    }
}

/// A deviation of a volume from what it should be.
#[derive(Clone, PartialEq, Eq, Debug)]
pub struct Anomaly {
    /// How much it matters.
    pub severity: Severity,
    /// The part of the volume it is in.
    pub category: Category,
    /// Where it is.
    pub location: Location,
    /// What it is.
    pub detail: String,
}

/// A deviation of a volume from what it should be.
pub struct AnomalyView {
    /// How much it matters.
    pub severity: Severity,
    /// The part of the volume it is in.
    pub category: Category,
    /// Where it is.
    pub location: Location,
    /// What it is.
    pub detail: Seq<char>,
}

impl View for Anomaly {
    type V = AnomalyView;

    open spec fn view(&self) -> AnomalyView {
        AnomalyView {
            severity: self.severity,
            category: self.category,
            location: self.location,
            detail: self.detail@,
        }
    }
}

/// What each anomaly is.
pub open spec fn anomaly_views(anomalies: Seq<Anomaly>) -> Seq<AnomalyView> {
    Seq::new(anomalies.len(), |i: int| anomalies[i]@)
}

/// A deviation as every format reports one.
#[derive(Clone, PartialEq, Eq, Debug)]
pub struct Finding {
    /// How much it matters.
    pub severity: Severity,
    /// The format it is about.
    pub family: Family,
    /// The part of the volume it is in.
    pub category: &'static str,
    /// Where it is.
    pub location: Location,
    /// The byte of the volume it is at, where its sector is known.
    pub offset: Option<u64>,
    /// What it is.
    pub detail: String,
}

/// A coordinate under its name, where there is one.
pub open spec fn coordinate(name: &'static str, value: Option<u64>) -> Seq<(&'static str, u64)> {
    match value {
        Some(n) => seq![(name, n)],
        None => Seq::empty(),
    }
}

/// A number of 32 bits as one of 64, where there is one.
pub open spec fn widened(value: Option<u32>) -> Option<u64> {
    match value {
        Some(n) => Some(n as u64),
        None => None,
    }
}

/// The coordinates of a place, the outermost first: the cluster, the sector and the directory
/// entry, as far as each is known.
pub open spec fn coordinates_of(location: Location) -> Seq<(&'static str, u64)> {
    coordinate("cluster", widened(location.cluster)) + coordinate("sector", location.sector)
        + coordinate("entry", widened(location.entry))
}

impl Finding {
    /// Where it is: the cluster, the sector and the directory entry under their names, in that
    /// order, as far as each is known.
    #[must_use]
    pub fn coordinates(&self) -> (coordinates: Vec<(&'static str, u64)>)
        ensures
            coordinates@ == coordinates_of(self.location),
    {
        let mut coordinates: Vec<(&'static str, u64)> = Vec::new();
        if let Some(cluster) = self.location.cluster {
            coordinates.push(("cluster", cluster as u64));
        }
        assert(coordinates@ =~= coordinate("cluster", widened(self.location.cluster)));
        if let Some(sector) = self.location.sector {
            coordinates.push(("sector", sector));
        }
        assert(coordinates@ =~= coordinate("cluster", widened(self.location.cluster))
            + coordinate("sector", self.location.sector));
        if let Some(entry) = self.location.entry {
            coordinates.push(("entry", entry as u64));
        }
        assert(coordinates@ =~= coordinates_of(self.location));
        coordinates
    }
}

/// The byte a sector begins at, where there is one and a number holds it.
pub open spec fn offset_in(sector: Option<u64>, bytes_per_sector: u32) -> Option<u64> {
    match sector {
        Some(n) if n * bytes_per_sector <= u64::MAX => Some((n * bytes_per_sector) as u64),
        _ => None,
    }
}

impl Anomaly {
    /// The deviation as every format reports one, on a volume of this sector size.
    #[must_use]
    pub fn to_finding(&self, bytes_per_sector: u32) -> (finding: Finding)
        ensures
            finding.severity == self.severity,
            finding.family == Family::ExFat,
            finding.category == self.category.name(),
            finding.location == self.location,
            finding.offset == offset_in(self.location.sector, bytes_per_sector),
            finding.detail@ == self.detail@,
    {
        let offset: Option<u64> = match self.location.sector {
            Some(sector) => sector.checked_mul(bytes_per_sector as u64),
            None => None,
        };
        let mut detail = String::new();
        detail.append(self.detail.as_str());
        assert(detail@ =~= self.detail@);
        Finding {
            severity: self.severity,
            family: Family::ExFat,
            category: self.category.as_str(),
            location: self.location,
            offset,
            detail,
        }
    }

    /// The same deviation again.
    #[must_use]
    pub fn copied(&self) -> (anomaly: Anomaly)
        ensures
            anomaly@ == self@,
    {
        let mut detail = String::new();
        detail.append(self.detail.as_str());
        assert(detail@ =~= self.detail@);
        Anomaly {
            severity: self.severity,
            category: self.category,
            location: self.location,
            detail,
        }
    }
}

/// The deviations a check has found, up to as many as it was told to keep.
#[derive(Clone, Debug)]
pub struct Findings {
    kept: Vec<Anomaly>,
    limit: usize,
    truncated: bool,
}

/// The deviations a check has found, up to as many as it was told to keep.
pub struct FindingsView {
    /// Those it kept.
    pub kept: Seq<AnomalyView>,
    /// How many it keeps.
    pub limit: int,
    /// Whether there was one it did not keep.
    pub truncated: bool,
}

impl FindingsView {
    /// Whether no more are kept.
    pub open spec fn full(self) -> bool {
        self.kept.len() >= self.limit
    }

    /// With one more found.
    pub open spec fn with(self, anomaly: AnomalyView) -> Self {
        if self.full() {
            FindingsView { truncated: true, ..self }
        } else {
            FindingsView { kept: self.kept.push(anomaly), ..self }
        }
    }
}

impl View for Findings {
    type V = FindingsView;

    closed spec fn view(&self) -> FindingsView {
        FindingsView {
            kept: anomaly_views(self.kept@),
            limit: self.limit as int,
            truncated: self.truncated,
        }
    }
}

impl Findings {
    /// None found, and as many to keep.
    #[must_use]
    pub fn new(limit: usize) -> (findings: Self)
        ensures
            findings@ == (FindingsView {
                kept: Seq::empty(),
                limit: limit as int,
                truncated: false,
            }),
    {
        let findings = Findings { kept: Vec::new(), limit, truncated: false };
        assert(findings@.kept =~= Seq::empty());
        findings
    }

    /// Add one, or note that there was one no more are kept of.
    pub fn push(&mut self, anomaly: Anomaly)
        ensures
            final(self)@ == old(self)@.with(anomaly@),
    {
        if self.kept.len() >= self.limit {
            self.truncated = true;
        } else {
            self.kept.push(anomaly);
        }
        assert(self@.kept =~= old(self)@.with(anomaly@).kept);
    }

    /// Whether no more are kept.
    #[must_use]
    pub fn is_full(&self) -> (full: bool)
        ensures
            full == self@.full(),
    {
        self.kept.len() >= self.limit
    }

    /// The report of a check of a volume with this sector size.
    #[must_use]
    pub fn into_report(self, bytes_per_sector: u32) -> (report: ScanReport)
        ensures
            report@ == self@.kept,
            report.is_truncated() == self@.truncated,
            report.sector_size() == bytes_per_sector,
    {
        ScanReport { anomalies: self.kept, truncated: self.truncated, bytes_per_sector }
    }
}

/// What a check of a volume found.
#[derive(Clone, Debug)]
pub struct ScanReport {
    anomalies: Vec<Anomaly>,
    truncated: bool,
    bytes_per_sector: u32,
}

impl View for ScanReport {
    type V = Seq<AnomalyView>;

    closed spec fn view(&self) -> Seq<AnomalyView> {
        anomaly_views(self.anomalies@)
    }
}

impl ScanReport {
    /// Whether there was more than the report keeps.
    pub closed spec fn is_truncated(&self) -> bool {
        self.truncated
    }

    /// Bytes of a sector of the volume.
    pub closed spec fn sector_size(&self) -> u32 {
        self.bytes_per_sector
    }

    /// What was found.
    #[must_use]
    pub fn anomalies(&self) -> (anomalies: &[Anomaly])
        ensures
            anomaly_views(anomalies@) == self@,
    {
        &self.anomalies
    }

    /// Whether there was more than the report keeps.
    #[must_use]
    pub fn truncated(&self) -> (truncated: bool)
        ensures
            truncated == self.is_truncated(),
    {
        self.truncated
    }

    /// Whether nothing was found.
    #[must_use]
    pub fn is_clean(&self) -> (clean: bool)
        ensures
            clean == (self@.len() == 0 && !self.is_truncated()),
    {
        self.anomalies.len() == 0 && !self.truncated
    }

    /// Whether a read under this policy refuses something of what was found.
    #[must_use]
    pub fn has_fatal(&self, policy: crate::policy::ReadPolicy) -> (fatal: bool)
        ensures
            fatal == exists|i: int|
                0 <= i < self@.len() && policy.fatal((#[trigger] self@[i]).severity),
    {
        let mut i: usize = 0;
        while i < self.anomalies.len()
            invariant
                i <= self.anomalies@.len(),
                forall|j: int| 0 <= j < i ==> !policy.fatal((#[trigger] self@[j]).severity),
            decreases self.anomalies@.len() - i,
        {
            if policy.is_fatal(self.anomalies[i].severity) {
                assert(policy.fatal(self@[i as int].severity));
                return true;
            }
            i += 1;
        }
        false
    }

    /// What was found, as every format reports it.
    #[must_use]
    pub fn findings(&self) -> (findings: Vec<Finding>)
        ensures
            findings@.len() == self@.len(),
            forall|i: int|
                0 <= i < self@.len() ==> {
                    &&& (#[trigger] findings@[i]).severity == self@[i].severity
                    &&& findings@[i].family == Family::ExFat
                    &&& findings@[i].category == self@[i].category.name()
                    &&& findings@[i].location == self@[i].location
                    &&& findings@[i].offset == offset_in(
                        self@[i].location.sector,
                        self.sector_size(),
                    )
                    &&& findings@[i].detail@ == self@[i].detail
                },
    {
        let mut findings: Vec<Finding> = Vec::new();
        let mut i: usize = 0;
        while i < self.anomalies.len()
            invariant
                i <= self.anomalies@.len(),
                findings@.len() == i,
                forall|j: int|
                    0 <= j < i ==> {
                        &&& (#[trigger] findings@[j]).severity == self@[j].severity
                        &&& findings@[j].family == Family::ExFat
                        &&& findings@[j].category == self@[j].category.name()
                        &&& findings@[j].location == self@[j].location
                        &&& findings@[j].offset == offset_in(
                            self@[j].location.sector,
                            self.sector_size(),
                        )
                        &&& findings@[j].detail@ == self@[j].detail
                    },
            decreases self.anomalies@.len() - i,
        {
            let ghost before = findings@;
            assert(self@[i as int] == self.anomalies@[i as int]@);
            findings.push(self.anomalies[i].to_finding(self.bytes_per_sector));
            assert forall|j: int| 0 <= j < i implies #[trigger] findings@[j] == before[j] by {}
            i += 1;
        }
        findings
    }
}

/// A location completed by another says what it said, and of what it did not say what the other
/// does.
pub proof fn lemma_a_completed_location_keeps_what_it_said(own: Location, other: Location)
    ensures
        own.sector is Some ==> own.filled(other).sector == own.sector,
        own.sector is None ==> own.filled(other).sector == other.sector,
        own.cluster is Some ==> own.filled(other).cluster == own.cluster,
        own.cluster is None ==> own.filled(other).cluster == other.cluster,
        own.entry is Some ==> own.filled(other).entry == own.entry,
        own.entry is None ==> own.filled(other).entry == other.entry,
{
}

} // verus!
