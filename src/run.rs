//! A run: the dispatcher and the collector driven together, with cooperative cancellation.
use crate::dispatch::{batch_step, config_check, Dispatcher, Submission};
use crate::report::{
    all_abandoned, conclude, submissions_of, Collector, Outcome, OutcomeStatus, Persistence, RunResult,
    RunStatus, StoreError,
};
use crate::schedule::{ConfigError, DispatchTick, RateProfile};
use vstd::prelude::*;

verus! {

/// Every submission in `subs` names an identity of the run and a sequence number that
/// identity has already handed out.
pub open spec fn issued_below(subs: Seq<Submission>, next: Seq<u64>) -> bool {
    forall|i: int| 0 <= i < subs.len() ==> (#[trigger] subs[i]).slot < next.len()
        && subs[i].sequence < next[subs[i].slot as int]
}

/// The state of one run between its start and its report.
pub struct Run {
    dispatcher: Dispatcher,
    collector: Collector,
    cancelled: bool,
}

impl Run {
    pub closed spec fn dispatcher(&self) -> Dispatcher {
        self.dispatcher
    }

    pub closed spec fn collector(&self) -> Collector {
        self.collector
    }

    pub closed spec fn cancelled(&self) -> bool {
        self.cancelled
    }

    pub open spec fn well_formed(&self) -> bool {
        &&& self.dispatcher().well_formed()
        &&& self.collector().well_formed()
        &&& self.collector().status() == RunStatus::Running
        &&& issued_below(submissions_of(self.collector().outcomes()), self.dispatcher().next_sequences())
        &&& issued_below(self.collector().pending(), self.dispatcher().next_sequences())
    }

    /// Starts a run; refused with the dispatcher's configuration errors.
    pub fn start(run_id: u64, profile: RateProfile, seeds: Vec<u64>) -> (r: Result<Run, ConfigError>)
        ensures
            match config_check(profile, seeds@) {
                Err(e) => r == Err::<Run, ConfigError>(e),
                Ok(()) => r matches Ok(run) && run.well_formed() && !run.cancelled()
                    && run.dispatcher().produced() == 0
                    && run.dispatcher().profile() == profile && run.dispatcher().next_sequences() == seeds@
                    && run.dispatcher().cursor() == 0
                    && run.collector().run_id() == run_id
                    && run.collector().profile() == profile
                    && run.collector().outcomes().len() == 0
                    && run.collector().pending().len() == 0,
            },
    {
        match Dispatcher::new(profile, seeds) {
            Err(e) => Err(e),
            Ok(dispatcher) => {
                let collector = Collector::new(run_id, profile);
                assert(submissions_of(collector.outcomes()) =~= Seq::<Submission>::empty());
                Ok(Run { dispatcher, collector, cancelled: false })
            },
        }
    }

    /// The next tick and its submissions, each registered as in flight; `None` once the
    /// ticks are spent or the run is cancelled, and then nothing changes.
    pub fn next_batch(&mut self) -> (r: Option<(DispatchTick, Vec<Submission>)>)
        requires
            old(self).well_formed(),
        ensures
            final(self).well_formed(),
            final(self).cancelled() == old(self).cancelled(),
            final(self).collector().same_run(old(self).collector()),
            final(self).collector().outcomes() == old(self).collector().outcomes(),
            final(self).dispatcher().profile() == old(self).dispatcher().profile(),
            final(self).dispatcher().identities() == old(self).dispatcher().identities(),
            old(self).cancelled() ==> r.is_none() && *final(self) == *old(self),
            !old(self).cancelled() && old(self).dispatcher().produced() == old(self).dispatcher().profile().tick_total()
                ==> r.is_none() && *final(self) == *old(self),
            !old(self).cancelled() && old(self).dispatcher().produced() < old(self).dispatcher().profile().tick_total()
                ==> (r matches Some((t, b)) && batch_step(old(self).dispatcher(), final(self).dispatcher(), t, b@)
                && final(self).collector().pending() == old(self).collector().pending() + b@),
    {
        if self.cancelled {
            return None;
        }
        let ghost d0 = self.dispatcher;
        let (tick, batch) = match self.dispatcher.next_batch() {
            Some(x) => x,
            None => return None,
        };
        let ghost pend0 = self.collector.pending();
        let ghost outs = submissions_of(self.collector.outcomes());
        let ghost d1 = self.dispatcher;
        let ghost n = d0.identities();
        let mut k: usize = 0;
        while k < batch.len()
            invariant
                k <= batch@.len(),
                self.dispatcher == d1,
                d1.well_formed(),
                batch_step(d0, d1, tick, batch@),
                issued_below(outs, d0.next_sequences()),
                issued_below(pend0, d0.next_sequences()),
                outs == submissions_of(self.collector.outcomes()),
                self.collector.well_formed(),
                self.collector.same_run(old(self).collector),
                self.collector.status() == RunStatus::Running,
                self.collector.outcomes() == old(self).collector.outcomes(),
                self.collector.pending() == pend0 + batch@.subrange(0, k as int),
                self.cancelled == old(self).cancelled,
            decreases batch@.len() - k,
        {
            let sub = batch[k];
            proof {
                let c = self.collector;
                assert(batch@[k as int] == sub);
                assert forall|i: int| 0 <= i < c.outcomes().len() && (#[trigger] c.outcomes()[i]).submission.slot == sub.slot
                    implies c.outcomes()[i].submission.sequence < sub.sequence by {
                    assert(outs[i] == c.outcomes()[i].submission);
                }
                assert forall|i: int| 0 <= i < c.pending().len() && (#[trigger] c.pending()[i]).slot == sub.slot
                    implies c.pending()[i].sequence < sub.sequence by {
                    if i < pend0.len() {
                        assert(c.pending()[i] == pend0[i]);
                    } else {
                        let j = i - pend0.len();
                        assert(c.pending()[i] == batch@[j]);
                    }
                }
            }
            let ok = self.collector.dispatched(sub);
            assert(ok);
            assert(batch@.subrange(0, k + 1) =~= batch@.subrange(0, k as int).push(batch@[k as int]));
            k = k + 1;
        }
        assert(batch@.subrange(0, k as int) =~= batch@);
        proof {
            let p = self.collector.pending();
            assert forall|i: int| 0 <= i < outs.len() implies (#[trigger] outs[i]).slot < d1.next_sequences().len()
                && outs[i].sequence < d1.next_sequences()[outs[i].slot as int] by {
                assert(d0.next_sequences()[outs[i].slot as int] <= d1.next_sequences()[outs[i].slot as int]);
            }
            assert forall|i: int| 0 <= i < p.len() implies (#[trigger] p[i]).slot < d1.next_sequences().len()
                && p[i].sequence < d1.next_sequences()[p[i].slot as int] by {
                if i < pend0.len() {
                    assert(p[i] == pend0[i]);
                    assert(d0.next_sequences()[pend0[i].slot as int] <= d1.next_sequences()[pend0[i].slot as int]);
                } else {
                    assert(p[i] == batch@[i - pend0.len()]);
                }
            }
        }
        Some((tick, batch))
    }

    /// Submissions handed out and still waiting for their outcome.
    pub fn in_flight(&self) -> (r: &[Submission])
        ensures
            r@ == self.collector().pending(),
    {
        self.collector.in_flight()
    }

    /// Records the outcome of an in-flight submission; see `Collector::record`. Outcomes
    /// are still taken after a cancellation, until `finish`.
    pub fn record(&mut self, sub: Submission, status: OutcomeStatus) -> (r: bool)
        requires
            old(self).well_formed(),
        ensures
            final(self).well_formed(),
            final(self).dispatcher() == old(self).dispatcher(),
            final(self).cancelled() == old(self).cancelled(),
            final(self).collector().same_run(old(self).collector()),
            r == (old(self).collector().pending().contains(sub) && old(self).collector().is_lowest_pending(sub)),
            r ==> final(self).collector().outcomes() == old(self).collector().outcomes().push(
                Outcome { submission: sub, status },
            ),
            r ==> exists|k: int| 0 <= k < old(self).collector().pending().len()
                && old(self).collector().pending()[k] == sub
                && final(self).collector().pending() == old(self).collector().pending().remove(k),
            !r ==> final(self).collector().outcomes() == old(self).collector().outcomes()
                && final(self).collector().pending() == old(self).collector().pending(),
    {
        let ghost c0 = self.collector;
        let r = self.collector.record(sub, status);
        proof {
            let next = self.dispatcher.next_sequences();
            if r {
                let k = choose|k: int| 0 <= k < c0.pending().len() && c0.pending()[k] == sub
                    && self.collector.pending() == c0.pending().remove(k);
                let o0 = submissions_of(c0.outcomes());
                let o1 = submissions_of(self.collector.outcomes());
                assert(o1 =~= o0.push(sub));
                assert forall|i: int| 0 <= i < o1.len() implies (#[trigger] o1[i]).slot < next.len()
                    && o1[i].sequence < next[o1[i].slot as int] by {
                    if i < o0.len() {
                        assert(o1[i] == o0[i]);
                    } else {
                        assert(c0.pending()[k] == sub);
                    }
                }
                let p1 = self.collector.pending();
                assert forall|i: int| 0 <= i < p1.len() implies (#[trigger] p1[i]).slot < next.len()
                    && p1[i].sequence < next[p1[i].slot as int] by {
                    let oi = if i < k { i } else { i + 1 };
                    assert(p1[i] == c0.pending()[oi]);
                }
            }
        }
        r
    }

    /// Cancels the run: no further batch is produced. In-flight submissions may still
    /// have their outcome recorded; `finish` abandons whatever is left. Returns `true`
    /// on the first call only.
    pub fn cancel(&mut self) -> (r: bool)
        requires
            old(self).well_formed(),
        ensures
            final(self).well_formed(),
            final(self).cancelled(),
            r == !old(self).cancelled(),
            final(self).dispatcher() == old(self).dispatcher(),
            final(self).collector() == old(self).collector(),
    {
        let first = !self.cancelled;
        self.cancelled = true;
        first
    }

    /// Ends the run, completed or (after `cancel`) cancelled: every submission still in
    /// flight becomes an abandoned outcome. Hands over the report with what became of
    /// storing it.
    pub fn finish(self, stored: Option<Result<u64, StoreError>>) -> (r: RunResult)
        requires
            self.well_formed(),
        ensures
            r.report.run_id == self.collector().run_id(),
            r.report.profile == self.collector().profile(),
            r.report.summary_consistent(),
            r.report.status == if self.cancelled() { RunStatus::Cancelled } else { RunStatus::Completed },
            ({
                let n0 = self.collector().outcomes().len() as int;
                &&& r.report.outcomes@.len() == n0 + self.collector().pending().len()
                &&& r.report.outcomes@.subrange(0, n0) == self.collector().outcomes()
                &&& all_abandoned(r.report.outcomes@.subrange(n0, r.report.outcomes@.len() as int), self.collector().pending())
            }),
            r.persistence == match stored {
                None => Persistence::Disabled,
                Some(Ok(id)) => Persistence::Stored(id),
                Some(Err(_)) => Persistence::Failed,
            },
    {
        let mut collector = self.collector;
        collector.finalize(self.cancelled);
        conclude(collector.into_report(), stored)
    }
}

} // verus!
