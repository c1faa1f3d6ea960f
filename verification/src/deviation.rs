//! What becomes of a deviation: a refusal, or a remark.
use vstd::prelude::*;

use crate::finding::{AnomalyView, Findings, FindingsView, Location};
use crate::policy::ReadPolicy;
use crate::read_error::ReadError;

verus! {

/// A deviation, and where the reading was when it met it.
pub struct Noted {
    /// Where the reading was.
    pub at: Location,
    /// The deviation.
    pub err: ReadError,
}

impl Noted {
    /// The deviation, with where the reading was where it does not say itself.
    pub open spec fn anomaly(self) -> AnomalyView {
        AnomalyView {
            location: self.err.location_of().filled(self.at),
            ..self.err.anomaly_of()
        }
    }
}

/// The first deviation of a list that a policy refuses.
pub open spec fn first_fatal(policy: ReadPolicy, log: Seq<Noted>) -> Option<ReadError>
    decreases log.len(),
{
    if log.len() == 0 {
        None
    } else {
        match first_fatal(policy, log.drop_last()) {
            Some(err) => Some(err),
            None => if policy.fatal(log.last().err.severity_of()) {
                Some(log.last().err)
            } else {
                None
            },
        }
    }
}

/// The first deviation of a list that is refused, where there is a policy to refuse one.
pub open spec fn refused(policy: Option<ReadPolicy>, log: Seq<Noted>) -> Option<ReadError> {
    match policy {
        Some(policy) => first_fatal(policy, log),
        None => None,
    }
}

/// What has been found once the deviations of a list are added.
pub open spec fn collected(found: FindingsView, log: Seq<Noted>) -> FindingsView
    decreases log.len(),
{
    if log.len() == 0 {
        found
    } else {
        collected(found, log.drop_last()).with(log.last().anomaly())
    }
}

/// A deviation where there is one.
pub open spec fn noted(there: bool, at: Location, err: ReadError) -> Seq<Noted> {
    if there {
        seq![Noted { at, err }]
    } else {
        Seq::empty()
    }
}

/// Of two lists one behind the other, what is refused is the first's, or else the second's.
pub proof fn lemma_refused_concat(policy: Option<ReadPolicy>, a: Seq<Noted>, b: Seq<Noted>)
    ensures
        refused(policy, a + b) == (match refused(policy, a) {
            Some(err) => Some(err),
            None => refused(policy, b),
        }),
    decreases b.len(),
{
    if b.len() == 0 {
        assert(a + b =~= a);
    } else {
        assert((a + b).drop_last() =~= a + b.drop_last());
        lemma_refused_concat(policy, a, b.drop_last());
    }
}

/// What is refused of one deviation.
pub proof fn lemma_refused_one(policy: Option<ReadPolicy>, there: bool, at: Location, err: ReadError)
    ensures
        refused(policy, noted(there, at, err)) == (if there && policy is Some
            && policy->Some_0.fatal(err.severity_of()) {
            Some(err)
        } else {
            None
        }),
{
    reveal_with_fuel(first_fatal, 2);
    if there {
        let log = noted(there, at, err);
        assert(log.drop_last() =~= Seq::empty());
    }
}

/// Two lists one behind the other are collected one behind the other.
pub proof fn lemma_collected_concat(found: FindingsView, a: Seq<Noted>, b: Seq<Noted>)
    ensures
        collected(found, a + b) == collected(collected(found, a), b),
    decreases b.len(),
{
    if b.len() == 0 {
        assert(a + b =~= a);
    } else {
        assert((a + b).drop_last() =~= a + b.drop_last());
        lemma_collected_concat(found, a, b.drop_last());
    }
}

/// What becomes of each deviation a reading meets.
pub struct Deviations {
    policy: Option<ReadPolicy>,
    findings: Findings,
    found: Ghost<FindingsView>,
    log: Ghost<Seq<Noted>>,
}

impl Deviations {
    /// The policy that refuses some of them, where there is one.
    pub closed spec fn policy(&self) -> Option<ReadPolicy> {
        self.policy
    }

    /// Those met so far and not refused.
    pub closed spec fn log(&self) -> Seq<Noted> {
        self.log@
    }

    /// What had been found before the first of them.
    pub closed spec fn found(&self) -> FindingsView {
        self.found@
    }

    /// Without a policy, everything met is found.
    pub closed spec fn wf(&self) -> bool {
        self.policy is None ==> self.findings@ == collected(self.found@, self.log@)
    }

    /// Whether this is `before` with the deviations of `log` met, and none of them refused.
    pub open spec fn having(self, before: Self, log: Seq<Noted>) -> bool {
        &&& self.wf()
        &&& self.policy() == before.policy()
        &&& self.found() == before.found()
        &&& self.log() == before.log() + log
    }

    /// Each is refused or passed over, as a policy has it.
    #[must_use]
    pub fn under(policy: ReadPolicy) -> (deviations: Self)
        ensures
            deviations.wf(),
            deviations.policy() == Some(policy),
            deviations.log() == Seq::<Noted>::empty(),
    {
        let findings = Findings::new(0);
        Deviations {
            policy: Some(policy),
            findings,
            found: Ghost(findings@),
            log: Ghost(Seq::empty()),
        }
    }

    /// Each is added to what has been found.
    #[must_use]
    pub fn collecting(findings: Findings) -> (deviations: Self)
        ensures
            deviations.wf(),
            deviations.policy() is None,
            deviations.found() == findings@,
            deviations.log() == Seq::<Noted>::empty(),
    {
        let ghost found = findings@;
        Deviations { policy: None, findings, found: Ghost(found), log: Ghost(Seq::empty()) }
    }

    /// What has been found.
    #[must_use]
    pub fn into_findings(self) -> (findings: Findings)
        requires
            self.wf(),
        ensures
            self.policy() is None ==> findings@ == collected(self.found(), self.log()),
    {
        self.findings
    }

    /// Meet a deviation: refuse it, or go on.
    pub fn record(&mut self, at: Location, err: ReadError) -> (r: Result<(), ReadError>)
        requires
            old(self).wf(),
        ensures
            match refused(old(self).policy(), noted(true, at, err)) {
                Some(e) => r == Err::<(), ReadError>(e),
                None => r is Ok && final(self).having(*old(self), noted(true, at, err)),
            },
    {
        let ghost one = noted(true, at, err);
        proof {
            lemma_refused_one(self.policy, true, at, err);
            lemma_collected_concat(self.found@, self.log@, one);
            assert(one.drop_last() =~= Seq::empty());
            reveal_with_fuel(collected, 2);
        }
        match self.policy {
            Some(policy) => {
                if policy.is_fatal(err.severity()) {
                    return Err(err);
                }
            },
            None => {
                let mut anomaly = err.anomaly();
                anomaly.location = anomaly.location.or(at);
                self.findings.push(anomaly);
            },
        }
        self.log = Ghost(self.log@ + one);
        Ok(())
    }

    /// Meet a deviation where there is one: refuse it, or go on.
    pub fn record_if(&mut self, there: bool, at: Location, err: ReadError) -> (r: Result<
        (),
        ReadError,
    >)
        requires
            old(self).wf(),
        ensures
            match refused(old(self).policy(), noted(there, at, err)) {
                Some(e) => r == Err::<(), ReadError>(e),
                None => r is Ok && final(self).having(*old(self), noted(there, at, err)),
            },
    {
        proof {
            lemma_refused_one(self.policy, there, at, err);
            assert(self.log@ + noted(false, at, err) =~= self.log@);
        }
        if there {
            self.record(at, err)
        } else {
            Ok(())
        }
    }
}

/// What a check keeps is what it finds in turn, up to as many as it was told to keep; and it says
/// that there was more exactly where there was.
pub proof fn lemma_a_check_keeps_the_first_it_finds(limit: int, log: Seq<Noted>)
    requires
        0 <= limit,
    ensures
        ({
            let found = collected(
                FindingsView { kept: Seq::empty(), limit, truncated: false },
                log,
            );
            &&& found.limit == limit
            &&& found.truncated == (log.len() > limit)
            &&& found.kept.len() == (if log.len() <= limit {
                log.len() as int
            } else {
                limit
            })
            &&& forall|i: int|
                0 <= i < found.kept.len() ==> {
                    &&& (#[trigger] found.kept[i]).severity == log[i].err.severity_of()
                    &&& found.kept[i].category == log[i].err.category_of()
                    &&& found.kept[i].detail == log[i].err.text()
                    &&& found.kept[i].location == log[i].err.location_of().filled(log[i].at)
                }
        }),
    decreases log.len(),
{
    if log.len() > 0 {
        lemma_a_check_keeps_the_first_it_finds(limit, log.drop_last());
    }
}

} // verus!
