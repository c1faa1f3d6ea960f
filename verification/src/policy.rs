//! How a volume is read.
use vstd::prelude::*;

use crate::finding::Severity;

verus! {

/// The longest path a walk gives.
pub const MAX_PATH: usize = 4096;

/// How much a read refuses.
#[derive(Clone, Copy, PartialEq, Eq, Debug, Structural)]
pub enum ReadPolicy {
    /// Everything but what a driver leaves behind.
    Strict,
    /// Nothing that can be read past.
    Lenient,
}

impl ReadPolicy {
    /// Whether a read refuses a deviation of this severity.
    pub open spec fn fatal(self, severity: Severity) -> bool {
        self == ReadPolicy::Strict && severity != Severity::Cosmetic
    }

    /// Whether a read refuses a deviation of this severity.
    #[must_use]
    pub fn is_fatal(self, severity: Severity) -> (fatal: bool)
        ensures
            fatal == self.fatal(severity),
    {
        self == ReadPolicy::Strict && severity != Severity::Cosmetic
    }
}

impl Default for ReadPolicy {
    fn default() -> (policy: Self)
        ensures
            policy == ReadPolicy::Strict,
    {
        ReadPolicy::Strict
    }
}

/// How much a read takes on.
#[derive(Clone, Copy, PartialEq, Eq, Debug, Structural)]
pub struct Limits {
    /// The most names a walk gives.
    pub max_walk_entries: usize,
    /// The most bytes a whole file has.
    pub max_file_bytes: u64,
    /// The most deviations a check keeps.
    pub max_findings: usize,
}

impl Limits {
    /// As much as an ordinary volume has.
    #[must_use]
    pub fn new() -> (limits: Self)
        ensures
            limits == (Limits {
                max_walk_entries: 0x100_0000,
                max_file_bytes: 0x4000_0000,
                max_findings: 0x1_0000,
            }),
    {
        Limits {
            max_walk_entries: 0x100_0000,
            max_file_bytes: 0x4000_0000,
            max_findings: 0x1_0000,
        }
    }

    /// The same limits with this many names.
    #[must_use]
    pub fn max_walk_entries(self, most: usize) -> (limits: Self)
        ensures
            limits == (Limits { max_walk_entries: most, ..self }),
    {
        Limits { max_walk_entries: most, ..self }
    }

    /// The same limits with this many bytes.
    #[must_use]
    pub fn max_file_bytes(self, most: u64) -> (limits: Self)
        ensures
            limits == (Limits { max_file_bytes: most, ..self }),
    {
        Limits { max_file_bytes: most, ..self }
    }

    /// The same limits with this many deviations.
    #[must_use]
    pub fn max_findings(self, most: usize) -> (limits: Self)
        ensures
            limits == (Limits { max_findings: most, ..self }),
    {
        Limits { max_findings: most, ..self }
    }
}

/// How a volume is opened.
#[derive(Clone, Copy, PartialEq, Eq, Debug, Structural)]
pub struct OpenOptions {
    /// The byte of the source the volume begins at.
    pub base: u64,
    /// How much is refused.
    pub policy: ReadPolicy,
    /// How much is taken on.
    pub limits: Limits,
}

impl OpenOptions {
    /// Strictly, at the beginning of the source.
    #[must_use]
    pub fn new() -> (options: Self)
        ensures
            options.base == 0,
            options.policy == ReadPolicy::Strict,
            options.limits == (Limits {
                max_walk_entries: 0x100_0000,
                max_file_bytes: 0x4000_0000,
                max_findings: 0x1_0000,
            }),
    {
        OpenOptions { base: 0, policy: ReadPolicy::Strict, limits: Limits::new() }
    }

    /// The same options at this byte of the source.
    #[must_use]
    pub fn base(self, base: u64) -> (options: Self)
        ensures
            options == (OpenOptions { base, ..self }),
    {
        OpenOptions { base, ..self }
    }

    /// The same options under this policy.
    #[must_use]
    pub fn policy(self, policy: ReadPolicy) -> (options: Self)
        ensures
            options == (OpenOptions { policy, ..self }),
    {
        OpenOptions { policy, ..self }
    }

    /// The same options with these limits.
    #[must_use]
    pub fn limits(self, limits: Limits) -> (options: Self)
        ensures
            options == (OpenOptions { limits, ..self }),
    {
        OpenOptions { limits, ..self }
    }
}

} // verus!
