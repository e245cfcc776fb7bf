//! Result collector: gathers the outcome of every dispatched submission into the run report.
use crate::dispatch::Submission;
use crate::schedule::RateProfile;
use vstd::prelude::*;

verus! {

/// Why a submission ended without being accepted.
#[derive(Clone, Copy, Debug, PartialEq, Eq)]
pub enum Failure {
    /// The endpoint refused it for good.
    Rejected,
    /// Transient failures outlasted the retries.
    RetriesExhausted,
}

/// The end of one submission.
#[derive(Clone, Copy, Debug, PartialEq, Eq)]
pub enum OutcomeStatus {
    /// Accepted, with the transaction's hash.
    Accepted([u8; 32]),
    Failed(Failure),
    /// Still in flight when the run ended.
    Abandoned,
}

/// What happened to one submission.
#[derive(Clone, Copy, Debug, PartialEq, Eq)]
pub struct Outcome {
    pub submission: Submission,
    pub status: OutcomeStatus,
}

/// Where the run stands.
#[derive(Clone, Copy, Debug, PartialEq, Eq)]
pub enum RunStatus {
    Running,
    Completed,
    Cancelled,
}

/// The record of one run: its outcomes in the order they arrived, and counts by kind.
pub struct RunReport {
    pub run_id: u64,
    pub profile: RateProfile,
    pub outcomes: Vec<Outcome>,
    pub accepted: usize,
    pub failed: usize,
    pub abandoned: usize,
    pub status: RunStatus,
}

pub open spec fn is_accepted(o: Outcome) -> bool {
    o.status is Accepted
}

pub open spec fn is_failed(o: Outcome) -> bool {
    o.status is Failed
}

pub open spec fn is_abandoned(o: Outcome) -> bool {
    o.status is Abandoned
}

pub open spec fn count_accepted(s: Seq<Outcome>) -> nat
    decreases s.len(),
{
    if s.len() == 0 {
        0
    } else {
        count_accepted(s.drop_last()) + if is_accepted(s.last()) { 1nat } else { 0nat }
    }
}

pub open spec fn count_failed(s: Seq<Outcome>) -> nat
    decreases s.len(),
{
    if s.len() == 0 {
        0
    } else {
        count_failed(s.drop_last()) + if is_failed(s.last()) { 1nat } else { 0nat }
    }
}

pub open spec fn count_abandoned(s: Seq<Outcome>) -> nat
    decreases s.len(),
{
    if s.len() == 0 {
        0
    } else {
        count_abandoned(s.drop_last()) + if is_abandoned(s.last()) { 1nat } else { 0nat }
    }
}

proof fn lemma_counts_total(s: Seq<Outcome>)
    ensures
        count_accepted(s) + count_failed(s) + count_abandoned(s) == s.len(),
    decreases s.len(),
{
    if s.len() > 0 {
        lemma_counts_total(s.drop_last());
    }
}

proof fn lemma_counts_push(s: Seq<Outcome>, o: Outcome)
    ensures
        count_accepted(s.push(o)) == count_accepted(s) + if is_accepted(o) { 1nat } else { 0nat },
        count_failed(s.push(o)) == count_failed(s) + if is_failed(o) { 1nat } else { 0nat },
        count_abandoned(s.push(o)) == count_abandoned(s) + if is_abandoned(o) { 1nat } else { 0nat },
{
    assert(s.push(o).drop_last() =~= s);
}

impl RunReport {
    /// The counts agree with the outcomes.
    pub open spec fn summary_consistent(&self) -> bool {
        &&& self.accepted == count_accepted(self.outcomes@)
        &&& self.failed == count_failed(self.outcomes@)
        &&& self.abandoned == count_abandoned(self.outcomes@)
    }

    /// Accepted, failed and abandoned outcomes together make up all the outcomes.
    pub proof fn lemma_summary_total(&self)
        requires
            self.summary_consistent(),
        ensures
            self.accepted + self.failed + self.abandoned == self.outcomes@.len(),
    {
        lemma_counts_total(self.outcomes@);
    }

    pub fn total(&self) -> (r: usize)
        ensures
            r == self.outcomes@.len(),
    {
        self.outcomes.len()
    }

    fn push_outcome(&mut self, o: Outcome)
        requires
            old(self).summary_consistent(),
        ensures
            final(self).summary_consistent(),
            final(self).outcomes@ == old(self).outcomes@.push(o),
            final(self).run_id == old(self).run_id,
            final(self).profile == old(self).profile,
            final(self).status == old(self).status,
    {
        proof {
            lemma_counts_push(self.outcomes@, o);
        }
        self.outcomes.push(o);
        let len = self.outcomes.len();
        proof {
            lemma_counts_total(self.outcomes@);
        }
        match o.status {
            OutcomeStatus::Accepted(_) => self.accepted = self.accepted + 1,
            OutcomeStatus::Failed(_) => self.failed = self.failed + 1,
            OutcomeStatus::Abandoned => self.abandoned = self.abandoned + 1,
        }
    }
}

/// The submissions that the outcomes `o` are about, in order.
pub open spec fn submissions_of(o: Seq<Outcome>) -> Seq<Submission> {
    o.map_values(|x: Outcome| x.submission)
}

/// Within `s`, the submissions of each identity come in increasing sequence order.
pub open spec fn slot_ordered(s: Seq<Submission>) -> bool {
    forall|i: int, j: int| 0 <= i < j < s.len() && (#[trigger] s[i]).slot == (#[trigger] s[j]).slot
        ==> s[i].sequence < s[j].sequence
}

/// Every submission of `a` is below every submission of `b` of the same identity.
pub open spec fn all_below(a: Seq<Submission>, b: Seq<Submission>) -> bool {
    forall|i: int, j: int| 0 <= i < a.len() && 0 <= j < b.len() && (#[trigger] a[i]).slot == (#[trigger] b[j]).slot
        ==> a[i].sequence < b[j].sequence
}

proof fn lemma_concat_ordered(a: Seq<Submission>, b: Seq<Submission>)
    requires
        slot_ordered(a),
        slot_ordered(b),
        all_below(a, b),
    ensures
        slot_ordered(a + b),
{
    let c = a + b;
    assert forall|i: int, j: int| 0 <= i < j < c.len() && (#[trigger] c[i]).slot == (#[trigger] c[j]).slot
        implies c[i].sequence < c[j].sequence by {
        if j < a.len() {
            assert(c[i] == a[i] && c[j] == a[j]);
        } else if i < a.len() {
            assert(c[i] == a[i] && c[j] == b[j - a.len()]);
        } else {
            assert(c[i] == b[i - a.len()] && c[j] == b[j - a.len()]);
        }
    }
}

proof fn lemma_submissions_push(s: Seq<Outcome>, o: Outcome)
    ensures
        submissions_of(s.push(o)) == submissions_of(s).push(o.submission),
        submissions_of(s).len() == s.len(),
{
    assert(submissions_of(s.push(o)) =~= submissions_of(s).push(o.submission));
}

/// The outcomes `o` describe, in order, the submissions `s`, none of them accepted or failed.
pub open spec fn all_abandoned(o: Seq<Outcome>, s: Seq<Submission>) -> bool {
    &&& o.len() == s.len()
    &&& forall|k: int| 0 <= k < s.len() ==> #[trigger] o[k] == (Outcome { submission: s[k], status: OutcomeStatus::Abandoned })
}

/// One call of `finalize(cancelled)` took `c0` to `c1` and returned `r`: the first call
/// closes the run and turns every pending submission into an abandoned outcome; any
/// later call changes nothing.
pub open spec fn finalize_step(c0: Collector, c1: Collector, cancelled: bool, r: bool) -> bool {
    if c0.status() == RunStatus::Running {
        &&& r
        &&& c1.status() == if cancelled { RunStatus::Cancelled } else { RunStatus::Completed }
        &&& c1.pending().len() == 0
        &&& c1.outcomes().len() == c0.outcomes().len() + c0.pending().len()
        &&& c1.outcomes().subrange(0, c0.outcomes().len() as int) == c0.outcomes()
        &&& all_abandoned(c1.outcomes().subrange(c0.outcomes().len() as int, c1.outcomes().len() as int), c0.pending())
    } else {
        !r && c1 == c0
    }
}

/// Collects outcomes for one run and finalises its report once.
pub struct Collector {
    report: RunReport,
    pending: Vec<Submission>,
}

impl Collector {
    pub closed spec fn outcomes(&self) -> Seq<Outcome> {
        self.report.outcomes@
    }

    /// Submissions dispatched whose outcome has not come in.
    pub closed spec fn pending(&self) -> Seq<Submission> {
        self.pending@
    }

    pub closed spec fn status(&self) -> RunStatus {
        self.report.status
    }

    pub closed spec fn run_id(&self) -> u64 {
        self.report.run_id
    }

    pub closed spec fn profile(&self) -> RateProfile {
        self.report.profile
    }

    pub closed spec fn well_formed(&self) -> bool {
        &&& self.report.summary_consistent()
        &&& slot_ordered(submissions_of(self.report.outcomes@))
        &&& slot_ordered(self.pending@)
        &&& all_below(submissions_of(self.report.outcomes@), self.pending@)
    }

    /// `sub` is above every submission of its identity seen so far.
    pub open spec fn is_fresh(&self, sub: Submission) -> bool {
        &&& forall|i: int| 0 <= i < self.outcomes().len() && (#[trigger] self.outcomes()[i]).submission.slot == sub.slot
            ==> self.outcomes()[i].submission.sequence < sub.sequence
        &&& forall|i: int| 0 <= i < self.pending().len() && (#[trigger] self.pending()[i]).slot == sub.slot
            ==> self.pending()[i].sequence < sub.sequence
    }

    /// No pending submission of `sub`'s identity has a lower sequence number.
    pub open spec fn is_lowest_pending(&self, sub: Submission) -> bool {
        forall|i: int| 0 <= i < self.pending().len() && (#[trigger] self.pending()[i]).slot == sub.slot
            ==> !(self.pending()[i].sequence < sub.sequence)
    }

    fn fresh(&self, sub: Submission) -> (r: bool)
        ensures
            r == self.is_fresh(sub),
    {
        let mut i: usize = 0;
        while i < self.report.outcomes.len()
            invariant
                i <= self.outcomes().len(),
                forall|k: int| 0 <= k < i && (#[trigger] self.outcomes()[k]).submission.slot == sub.slot
                    ==> self.outcomes()[k].submission.sequence < sub.sequence,
            decreases self.outcomes().len() - i,
        {
            let o = self.report.outcomes[i].submission;
            if o.slot == sub.slot && o.sequence >= sub.sequence {
                return false;
            }
            i = i + 1;
        }
        let mut j: usize = 0;
        while j < self.pending.len()
            invariant
                j <= self.pending().len(),
                forall|k: int| 0 <= k < j && (#[trigger] self.pending()[k]).slot == sub.slot
                    ==> self.pending()[k].sequence < sub.sequence,
            decreases self.pending().len() - j,
        {
            let p = self.pending[j];
            if p.slot == sub.slot && p.sequence >= sub.sequence {
                return false;
            }
            j = j + 1;
        }
        true
    }

    fn lowest_pending(&self, sub: Submission) -> (r: bool)
        ensures
            r == self.is_lowest_pending(sub),
    {
        let mut j: usize = 0;
        while j < self.pending.len()
            invariant
                j <= self.pending().len(),
                forall|k: int| 0 <= k < j && (#[trigger] self.pending()[k]).slot == sub.slot
                    ==> !(self.pending()[k].sequence < sub.sequence),
            decreases self.pending().len() - j,
        {
            let p = self.pending[j];
            if p.slot == sub.slot && p.sequence < sub.sequence {
                return false;
            }
            j = j + 1;
        }
        true
    }

    pub open spec fn same_run(&self, other: Collector) -> bool {
        self.run_id() == other.run_id() && self.profile() == other.profile()
    }

    pub fn new(run_id: u64, profile: RateProfile) -> (r: Collector)
        ensures
            r.well_formed(),
            r.run_id() == run_id,
            r.profile() == profile,
            r.status() == RunStatus::Running,
            r.outcomes() == Seq::<Outcome>::empty(),
            r.pending() == Seq::<Submission>::empty(),
    {
        let report = RunReport {
            run_id,
            profile,
            outcomes: Vec::new(),
            accepted: 0,
            failed: 0,
            abandoned: 0,
            status: RunStatus::Running,
        };
        Collector { report, pending: Vec::new() }
    }

    /// The report as it stands.
    pub fn report(&self) -> (r: &RunReport)
        requires
            self.well_formed(),
        ensures
            r.outcomes@ == self.outcomes(),
            r.status == self.status(),
            r.run_id == self.run_id(),
            r.profile == self.profile(),
            r.summary_consistent(),
    {
        &self.report
    }

    pub fn run_status(&self) -> (r: RunStatus)
        ensures
            r == self.status(),
    {
        self.report.status
    }

    /// Submissions waiting for their outcome, in the order they were dispatched.
    pub fn in_flight(&self) -> (r: &[Submission])
        ensures
            r@ == self.pending(),
    {
        self.pending.as_slice()
    }

    /// Notes a submission handed to the endpoint. Refused once the run has ended, and
    /// where its sequence number is not above every one of its identity seen so far.
    pub fn dispatched(&mut self, sub: Submission) -> (r: bool)
        requires
            old(self).well_formed(),
        ensures
            final(self).well_formed(),
            final(self).same_run(*old(self)),
            final(self).status() == old(self).status(),
            final(self).outcomes() == old(self).outcomes(),
            r == (old(self).status() == RunStatus::Running && old(self).is_fresh(sub)),
            r ==> final(self).pending() == old(self).pending().push(sub),
            !r ==> final(self).pending() == old(self).pending(),
    {
        match self.report.status {
            RunStatus::Running => {},
            _ => return false,
        }
        if !self.fresh(sub) {
            return false;
        }
        let ghost outs = submissions_of(self.report.outcomes@);
        proof {
            lemma_submissions_push(self.report.outcomes@, Outcome { submission: sub, status: OutcomeStatus::Abandoned });
            assert forall|i: int| 0 <= i < outs.len() && (#[trigger] outs[i]).slot == sub.slot
                implies outs[i].sequence < sub.sequence by {
                assert(outs[i] == self.outcomes()[i].submission);
            }
        }
        self.pending.push(sub);
        proof {
            let p = self.pending@;
            assert forall|i: int, j: int| 0 <= i < j < p.len() && (#[trigger] p[i]).slot == (#[trigger] p[j]).slot
                implies p[i].sequence < p[j].sequence by {
                if j == p.len() - 1 {
                    assert(old(self).pending()[i] == p[i]);
                } else {
                    assert(old(self).pending()[i] == p[i] && old(self).pending()[j] == p[j]);
                }
            }
            assert forall|i: int, j: int| 0 <= i < outs.len() && 0 <= j < p.len() && (#[trigger] outs[i]).slot == (#[trigger] p[j]).slot
                implies outs[i].sequence < p[j].sequence by {
                if j < p.len() - 1 {
                    assert(old(self).pending()[j] == p[j]);
                }
            }
        }
        true
    }

    /// Records the outcome of a pending submission. Refused, with nothing changed, for a
    /// submission that is not pending (never dispatched, or already recorded) and for one
    /// whose identity still has a lower sequence number pending: each identity's outcomes
    /// enter the report in sequence order.
    pub fn record(&mut self, sub: Submission, status: OutcomeStatus) -> (r: bool)
        requires
            old(self).well_formed(),
        ensures
            final(self).well_formed(),
            final(self).same_run(*old(self)),
            final(self).status() == old(self).status(),
            r == (old(self).pending().contains(sub) && old(self).is_lowest_pending(sub)),
            r ==> exists|k: int| 0 <= k < old(self).pending().len() && old(self).pending()[k] == sub
                && final(self).pending() == old(self).pending().remove(k),
            r ==> final(self).outcomes() == old(self).outcomes().push(Outcome { submission: sub, status }),
            !r ==> final(self).pending() == old(self).pending() && final(self).outcomes() == old(self).outcomes(),
    {
        if !self.lowest_pending(sub) {
            return false;
        }
        let mut k: usize = 0;
        while k < self.pending.len()
            invariant
                k <= self.pending@.len(),
                self.pending@ == old(self).pending@,
                self.report == old(self).report,
                self.well_formed(),
                old(self).is_lowest_pending(sub),
                forall|i: int| 0 <= i < k ==> self.pending@[i] != sub,
            decreases self.pending@.len() - k,
        {
            if self.pending[k] == sub {
                let ghost p0 = self.pending@;
                let ghost outs = submissions_of(self.report.outcomes@);
                self.pending.remove(k);
                assert(old(self).pending()[k as int] == sub);
                proof {
                    lemma_submissions_push(self.report.outcomes@, Outcome { submission: sub, status });
                }
                self.report.push_outcome(Outcome { submission: sub, status });
                proof {
                    let ki = k as int;
                    let p1 = self.pending@;
                    let s1 = submissions_of(self.report.outcomes@);
                    assert(s1 == outs.push(sub));
                    assert forall|i: int, j: int| 0 <= i < j < p1.len() && (#[trigger] p1[i]).slot == (#[trigger] p1[j]).slot
                        implies p1[i].sequence < p1[j].sequence by {
                        let oi = if i < ki { i } else { i + 1 };
                        let oj = if j < ki { j } else { j + 1 };
                        assert(p1[i] == p0[oi] && p1[j] == p0[oj]);
                    }
                    assert forall|i: int, j: int| 0 <= i < j < s1.len() && (#[trigger] s1[i]).slot == (#[trigger] s1[j]).slot
                        implies s1[i].sequence < s1[j].sequence by {
                        assert(s1[i] == outs[i]);
                        if j < outs.len() {
                            assert(s1[j] == outs[j]);
                        } else {
                            assert(s1[j] == p0[ki]);
                        }
                    }
                    assert forall|i: int, j: int| 0 <= i < s1.len() && 0 <= j < p1.len() && (#[trigger] s1[i]).slot == (#[trigger] p1[j]).slot
                        implies s1[i].sequence < p1[j].sequence by {
                        let oj = if j < ki { j } else { j + 1 };
                        assert(p1[j] == p0[oj]);
                        if i < outs.len() {
                            assert(s1[i] == outs[i]);
                        } else {
                            assert(s1[i] == sub);
                            assert(old(self).pending()[oj] == p0[oj]);
                            assert(!(p0[oj].sequence < sub.sequence));
                            if oj < ki {
                                assert(p0[oj].sequence < p0[ki].sequence);
                            }
                        }
                    }
                }
                return true;
            }
            k = k + 1;
        }
        false
    }

    /// Ends the run: the first call marks it completed or cancelled and records every
    /// pending submission as abandoned, returning `true`; later calls return `false`.
    pub fn finalize(&mut self, cancelled: bool) -> (r: bool)
        requires
            old(self).well_formed(),
        ensures
            final(self).well_formed(),
            final(self).same_run(*old(self)),
            finalize_step(*old(self), *final(self), cancelled, r),
    {
        match self.report.status {
            RunStatus::Running => {},
            _ => return false,
        }
        let ghost o0 = self.report.outcomes@;
        let ghost pend0 = self.pending@;
        let mut k: usize = 0;
        while k < self.pending.len()
            invariant
                self.report.summary_consistent(),
                self.pending@ == pend0,
                old(self).well_formed(),
                k <= pend0.len(),
                self.report.status == RunStatus::Running,
                self.report.run_id == old(self).report.run_id,
                self.report.profile == old(self).report.profile,
                self.report.outcomes@.len() == o0.len() + k,
                self.report.outcomes@.subrange(0, o0.len() as int) == o0,
                all_abandoned(self.report.outcomes@.subrange(o0.len() as int, self.report.outcomes@.len() as int), pend0.subrange(0, k as int)),
            decreases pend0.len() - k,
        {
            let sub = self.pending[k];
            let ghost before = self.report.outcomes@;
            self.report.push_outcome(Outcome { submission: sub, status: OutcomeStatus::Abandoned });
            proof {
                assert(self.report.outcomes@.subrange(0, o0.len() as int) =~= before.subrange(0, o0.len() as int));
                let tail = self.report.outcomes@.subrange(o0.len() as int, self.report.outcomes@.len() as int);
                let btail = before.subrange(o0.len() as int, before.len() as int);
                assert forall|i: int| 0 <= i < k + 1 implies #[trigger] tail[i] == (Outcome { submission: pend0.subrange(0, k + 1)[i], status: OutcomeStatus::Abandoned }) by {
                    if i < k {
                        assert(tail[i] == btail[i]);
                        assert(pend0.subrange(0, k + 1)[i] == pend0.subrange(0, k as int)[i]);
                    }
                }
            }
            k = k + 1;
        }
        assert(pend0.subrange(0, k as int) =~= pend0);
        self.pending = Vec::new();
        self.report.status = if cancelled { RunStatus::Cancelled } else { RunStatus::Completed };
        proof {
            assert(finalize_step(*old(self), *self, cancelled, true));
            lemma_finalize_keeps_submissions(*old(self), *self, cancelled, true);
            lemma_concat_ordered(submissions_of(o0), pend0);
            assert(self.pending@ =~= Seq::<Submission>::empty());
        }
        true
    }

    /// The collected report, handed over whole.
    pub fn into_report(self) -> (r: RunReport)
        requires
            self.well_formed(),
        ensures
            r.outcomes@ == self.outcomes(),
            r.status == self.status(),
            r.run_id == self.run_id(),
            r.profile == self.profile(),
            r.summary_consistent(),
    {
        self.report
    }
}

/// A run ends once: after the first `finalize`, a second one returns `false` and
/// leaves the collector as it was.
pub proof fn lemma_finalize_once(c0: Collector, c1: Collector, c2: Collector, a: bool, b: bool, r1: bool, r2: bool)
    requires
        finalize_step(c0, c1, a, r1),
        finalize_step(c1, c2, b, r2),
    ensures
        !r2,
        c2 == c1,
{
}

/// In a collector's report, the outcomes of each identity appear in increasing sequence
/// order, so no two share an identity and a sequence number.
pub proof fn lemma_report_ordered(c: Collector)
    requires
        c.well_formed(),
    ensures
        slot_ordered(submissions_of(c.outcomes())),
{
}

/// Finalising loses and duplicates no submission: the outcomes afterwards are those
/// recorded before followed by one for each submission still pending, in order.
pub proof fn lemma_finalize_keeps_submissions(c0: Collector, c1: Collector, cancelled: bool, r: bool)
    requires
        finalize_step(c0, c1, cancelled, r),
        c0.status() == RunStatus::Running,
    ensures
        submissions_of(c1.outcomes())
            == submissions_of(c0.outcomes()) + c0.pending(),
{
    let n0 = c0.outcomes().len() as int;
    let tail = c1.outcomes().subrange(n0, c1.outcomes().len() as int);
    assert forall|k: int| 0 <= k < c1.outcomes().len() implies
        #[trigger] submissions_of(c1.outcomes())[k]
            == (submissions_of(c0.outcomes()) + c0.pending())[k] by {
        if k < n0 {
            assert(c1.outcomes().subrange(0, n0)[k] == c1.outcomes()[k]);
        } else {
            assert(tail[k - n0] == c1.outcomes()[k]);
        }
    }
    assert(submissions_of(c1.outcomes())
        =~= submissions_of(c0.outcomes()) + c0.pending());
}

/// Why the report could not be stored.
#[derive(Clone, Copy, Debug, PartialEq, Eq)]
pub struct StoreError;

/// What became of the report's storage.
#[derive(Clone, Copy, Debug, PartialEq, Eq)]
pub enum Persistence {
    /// Stored under this identifier.
    Stored(u64),
    /// The store refused it; the report is still here.
    Failed,
    /// Reporting was switched off; nothing was stored.
    Disabled,
}

/// A finished run as its caller receives it.
pub struct RunResult {
    pub report: RunReport,
    pub persistence: Persistence,
}

/// Hands the report to the caller together with what became of storing it (`None`
/// where reporting was disabled): a failed store loses nothing.
pub fn conclude(report: RunReport, stored: Option<Result<u64, StoreError>>) -> (r: RunResult)
    ensures
        r.report == report,
        r.persistence == match stored {
            None => Persistence::Disabled,
            Some(Ok(id)) => Persistence::Stored(id),
            Some(Err(_)) => Persistence::Failed,
        },
{
    let persistence = match stored {
        None => Persistence::Disabled,
        Some(Ok(id)) => Persistence::Stored(id),
        Some(Err(_)) => Persistence::Failed,
    };
    RunResult { report, persistence }
}

} // verus!
