//! Submission dispatcher: assigns each tick's transactions to identities round-robin,
//! claims their sequence numbers, and decides what follows each submission attempt.
use crate::report::{Failure, OutcomeStatus};
use crate::schedule::{ConfigError, DispatchTick, RateProfile, TickSource};
use crate::sequence::SequenceTracker;
use vstd::arithmetic::div_mod::{lemma_mod_self_0, lemma_small_mod, lemma_add_mod_noop};
use vstd::prelude::*;

verus! {

/// How many times a transient failure is retried before it is recorded.
pub const MAX_RETRIES: u32 = 3;

/// Pause before the first retry; the n-th retry waits n times as long.
pub const BACKOFF_MS: u64 = 200;

/// One transaction to build and submit: which tick, which identity, which sequence number.
#[derive(Clone, Copy, Debug, PartialEq, Eq, Structural)]
pub struct Submission {
    pub tick: u64,
    pub slot: u64,
    pub sequence: u64,
}

/// How a submission attempt failed.
#[derive(Clone, Copy, Debug, PartialEq, Eq)]
pub enum SubmitError {
    /// Timeout, reset connection, temporary unavailability.
    Transient,
    /// Rejected sequence, insufficient balance, malformed call.
    Permanent,
}

/// What to do after a submission attempt.
#[derive(Clone, Copy, Debug, PartialEq, Eq)]
pub enum Decision {
    /// Submit again, with the same sequence number, after a pause.
    Retry { backoff_ms: u64 },
    /// The attempt is over; record this status.
    Record(OutcomeStatus),
}

/// Transient failures are retried with growing pauses up to `MAX_RETRIES` times;
/// everything else ends the submission.
pub fn decide(attempt: u32, result: Result<[u8; 32], SubmitError>) -> (r: Decision)
    ensures
        match result {
            Ok(h) => r == Decision::Record(OutcomeStatus::Accepted(h)),
            Err(SubmitError::Permanent) => r == Decision::Record(OutcomeStatus::Failed(Failure::Rejected)),
            Err(SubmitError::Transient) => if attempt < MAX_RETRIES {
                r == (Decision::Retry { backoff_ms: (BACKOFF_MS * (attempt + 1)) as u64 })
            } else {
                r == Decision::Record(OutcomeStatus::Failed(Failure::RetriesExhausted))
            },
        },
{
    match result {
        Ok(h) => Decision::Record(OutcomeStatus::Accepted(h)),
        Err(SubmitError::Permanent) => Decision::Record(OutcomeStatus::Failed(Failure::Rejected)),
        Err(SubmitError::Transient) => if attempt < MAX_RETRIES {
            Decision::Retry { backoff_ms: BACKOFF_MS * (attempt as u64 + 1) }
        } else {
            Decision::Record(OutcomeStatus::Failed(Failure::RetriesExhausted))
        },
    }
}

/// Some seed would run past the largest sequence number over `total` submissions.
pub open spec fn seeds_overflow(seeds: Seq<u64>, total: nat) -> bool {
    exists|s: int| 0 <= s < seeds.len() && #[trigger] seeds[s] + total > u64::MAX
}

/// What starting a run on `profile` with identities seeded by `seeds` comes to.
pub open spec fn config_check(profile: RateProfile, seeds: Seq<u64>) -> Result<(), ConfigError> {
    if profile.rate_is_zero() {
        Err(ConfigError::ZeroRate)
    } else if seeds.len() == 0 {
        Err(ConfigError::NoIdentities)
    } else if seeds_overflow(seeds, profile.transaction_total()) {
        Err(ConfigError::SequenceOverflow)
    } else {
        Ok(())
    }
}

/// The run's orchestrator state.
pub struct Dispatcher {
    ticks: TickSource,
    tracker: SequenceTracker,
    cursor: usize,
    seeds: Ghost<Seq<u64>>,
}

/// How many of the first `j` submissions dealt round-robin over `n` identities, starting
/// at identity `c`, go to identity `s`.
pub open spec fn handed(c: int, n: int, j: nat, s: int) -> nat
    decreases j,
{
    if j == 0 {
        0
    } else {
        handed(c, n, (j - 1) as nat, s) + if (c + j - 1) % n == s { 1nat } else { 0nat }
    }
}

proof fn lemma_handed_bounded(c: int, n: int, j: nat, s: int)
    ensures
        handed(c, n, j, s) <= j,
    decreases j,
{
    if j > 0 {
        lemma_handed_bounded(c, n, (j - 1) as nat, s);
    }
}

/// The state change of one batch: tick `t` from `d0`'s source, and `b` its submissions,
/// one per transaction of the tick, to identities in turn from `d0`'s cursor, each with
/// a sequence number above those its identity had before.
pub open spec fn batch_step(d0: Dispatcher, d1: Dispatcher, t: DispatchTick, b: Seq<Submission>) -> bool {
    let n = d0.identities();
    &&& d1.profile() == d0.profile()
    &&& d1.identities() == n
    &&& t == d0.profile().tick(d0.produced())
    &&& d1.produced() == d0.produced() + 1
    &&& d1.cursor() == (d0.cursor() + t.count) % n
    &&& b.len() == t.count
    &&& forall|s: int| 0 <= s < n ==> #[trigger] d1.next_sequences()[s] == d0.next_sequences()[s] + handed(d0.cursor(), n, t.count as nat, s)
    &&& forall|j: int| 0 <= j < b.len() ==> {
        &&& (#[trigger] b[j]).tick == t.index
        &&& b[j].slot == (d0.cursor() + j) % n
        &&& b[j].slot < n
        &&& b[j].sequence == d0.next_sequences()[b[j].slot as int] + handed(d0.cursor(), n, j as nat, b[j].slot as int)
        &&& d0.next_sequences()[b[j].slot as int] <= b[j].sequence
        &&& b[j].sequence < d1.next_sequences()[b[j].slot as int]
    }
    &&& forall|i: int, j: int| 0 <= i < j < b.len() && (#[trigger] b[i]).slot == (#[trigger] b[j]).slot
        ==> b[i].sequence < b[j].sequence
}

proof fn lemma_next_slot(c: int, j: int, n: int)
    requires
        n > 0,
        c >= 0,
        j >= 0,
    ensures
        (c + j + 1) % n == if (c + j) % n + 1 == n { 0 } else { (c + j) % n + 1 },
{
    lemma_add_mod_noop(c + j, 1, n);
    if n == 1 {
        lemma_small_mod(0, 1);
        assert(1int % 1 == 0) by (nonlinear_arith);
        assert((c + j) % n == 0) by (nonlinear_arith) requires n == 1;
    } else {
        lemma_small_mod(1, n as nat);
        let r = (c + j) % n;
        assert(0 <= r < n) by (nonlinear_arith) requires n > 0, r == (c + j) % n;
        if r + 1 == n {
            lemma_mod_self_0(n);
        } else {
            lemma_small_mod((r + 1) as nat, n as nat);
        }
    }
}

impl Dispatcher {
    pub closed spec fn profile(&self) -> RateProfile {
        self.ticks.profile()
    }

    /// Ticks already dispatched.
    pub closed spec fn produced(&self) -> nat {
        self.ticks.produced()
    }

    /// The identity slot that the next submission goes to.
    pub closed spec fn cursor(&self) -> int {
        self.cursor as int
    }

    pub closed spec fn next_sequences(&self) -> Seq<u64> {
        self.tracker.view()
    }

    pub open spec fn identities(&self) -> int {
        self.next_sequences().len() as int
    }

    pub closed spec fn well_formed(&self) -> bool {
        let seeds = self.seeds@;
        let size = self.profile().tick_size() as nat;
        &&& self.ticks.well_formed()
        &&& self.tracker.view().len() == seeds.len()
        &&& seeds.len() > 0
        &&& self.cursor < seeds.len()
        &&& !seeds_overflow(seeds, self.profile().transaction_total())
        &&& forall|s: int| 0 <= s < seeds.len() ==> #[trigger] self.tracker.view()[s] <= seeds[s] + self.produced() * size
    }

    /// A dispatcher for `profile` over identities seeded with the sequence numbers in
    /// `seeds`. Refused: a zero rate, no identity, or a seed that the run would take past
    /// the largest sequence number.
    pub fn new(profile: RateProfile, seeds: Vec<u64>) -> (r: Result<Dispatcher, ConfigError>)
        ensures
            profile.rate_is_zero() ==> r == Err::<Dispatcher, ConfigError>(ConfigError::ZeroRate),
            !profile.rate_is_zero() && seeds@.len() == 0 ==> r == Err::<Dispatcher, ConfigError>(ConfigError::NoIdentities),
            !profile.rate_is_zero() && seeds@.len() > 0 && seeds_overflow(seeds@, profile.transaction_total())
                ==> r == Err::<Dispatcher, ConfigError>(ConfigError::SequenceOverflow),
            !profile.rate_is_zero() && seeds@.len() > 0 && !seeds_overflow(seeds@, profile.transaction_total())
                ==> (r matches Ok(d) && d.well_formed() && d.profile() == profile && d.produced() == 0
                && d.cursor() == 0 && d.next_sequences() == seeds@),
    {
        let ticks = match TickSource::new(profile) {
            Ok(t) => t,
            Err(e) => return Err(e),
        };
        if seeds.len() == 0 {
            return Err(ConfigError::NoIdentities);
        }
        let total = profile.total_transactions();
        let mut s: usize = 0;
        while s < seeds.len()
            invariant
                s <= seeds@.len(),
                !profile.rate_is_zero(),
                total == profile.transaction_total(),
                forall|k: int| 0 <= k < s ==> #[trigger] seeds@[k] + total <= u64::MAX,
            decreases seeds@.len() - s,
        {
            if seeds[s] > u64::MAX - total {
                return Err(ConfigError::SequenceOverflow);
            }
            s = s + 1;
        }
        let ghost sv = seeds@;
        let tracker = SequenceTracker::new(seeds);
        Ok(Dispatcher { ticks, tracker, cursor: 0, seeds: Ghost(sv) })
    }

    /// The next tick and its submissions, or `None` once every tick has been dispatched.
    pub fn next_batch(&mut self) -> (r: Option<(DispatchTick, Vec<Submission>)>)
        requires
            old(self).well_formed(),
        ensures
            final(self).well_formed(),
            final(self).profile() == old(self).profile(),
            final(self).identities() == old(self).identities(),
            old(self).produced() < old(self).profile().tick_total() ==> (r matches Some((t, b))
                && batch_step(*old(self), *final(self), t, b@)),
            old(self).produced() == old(self).profile().tick_total() ==> r.is_none()
                && *final(self) == *old(self),
            r matches Some((t, b)) ==> batch_step(*old(self), *final(self), t, b@),
            r.is_none() ==> *final(self) == *old(self),
    {
        let ghost d0 = *self;
        let ghost size = self.profile().tick_size() as nat;
        let ghost before_count = self.produced();
        if self.ticks.remaining() == 0 {
            return None;
        }
        let tick = match self.ticks.next_tick() {
            Some(t) => t,
            None => {
                proof {
                    assert(false);
                }
                return None;
            },
        };
        let n = self.tracker.len();
        let mut batch: Vec<Submission> = Vec::new();
        let mut j: u32 = 0;
        proof {
            lemma_small_mod(d0.cursor as nat, n as nat);
            let total = self.profile().tick_total();
            assert((before_count + 1) * size <= total * size) by (nonlinear_arith)
                requires before_count + 1 <= total;
            assert(before_count * size + size == (before_count + 1) * size) by (nonlinear_arith);
        }
        while j < tick.count
            invariant
                tick == d0.profile().tick(before_count),
                tick.count == size,
                self.ticks.well_formed(),
                self.profile() == d0.profile(),
                self.produced() == before_count + 1,
                before_count * size + size <= self.profile().transaction_total(),
                self.seeds == d0.seeds,
                self.seeds@.len() == n,
                n == d0.identities(),
                n > 0,
                self.tracker.view().len() == n,
                self.cursor < n,
                self.cursor == (d0.cursor() + j) % (n as int),
                j <= tick.count,
                batch@.len() == j,
                !seeds_overflow(self.seeds@, self.profile().transaction_total()),
                forall|s: int| 0 <= s < n ==> #[trigger] self.tracker.view()[s] <= self.seeds@[s] + before_count * size + j,
                forall|s: int| 0 <= s < n ==> #[trigger] self.tracker.view()[s] == d0.next_sequences()[s] + handed(d0.cursor(), n as int, j as nat, s),
                forall|k: int| 0 <= k < j ==> {
                    &&& (#[trigger] batch@[k]).tick == tick.index
                    &&& batch@[k].slot == (d0.cursor() + k) % (n as int)
                    &&& batch@[k].slot < n
                    &&& batch@[k].sequence == d0.next_sequences()[batch@[k].slot as int] + handed(d0.cursor(), n as int, k as nat, batch@[k].slot as int)
                    &&& d0.next_sequences()[batch@[k].slot as int] <= batch@[k].sequence
                    &&& batch@[k].sequence < self.tracker.view()[batch@[k].slot as int]
                },
                forall|i: int, k: int| 0 <= i < k < j && (#[trigger] batch@[i]).slot == (#[trigger] batch@[k]).slot
                    ==> batch@[i].sequence < batch@[k].sequence,
            decreases tick.count - j,
        {
            let slot = self.cursor;
            let ghost before = self.tracker.view();
            proof {
                let s = slot as int;
                lemma_handed_bounded(d0.cursor(), n as int, j as nat, s);
                if self.seeds@[s] + self.profile().transaction_total() > u64::MAX {
                    assert(seeds_overflow(self.seeds@, self.profile().transaction_total()));
                }
            }
            let sequence = match self.tracker.claim_next(slot) {
                Some(v) => v,
                None => {
                    proof {
                        assert(false);
                    }
                    0
                },
            };
            batch.push(Submission { tick: tick.index, slot: slot as u64, sequence });
            proof {
                lemma_next_slot(d0.cursor(), j as int, n as int);
                assert forall|k: int| 0 <= k < j implies #[trigger] batch@[k].sequence < self.tracker.view()[batch@[k].slot as int] by {
                    assert(batch@[k].sequence < before[batch@[k].slot as int]);
                }
            }
            self.cursor = if slot + 1 == n { 0 } else { slot + 1 };
            j = j + 1;
        }
        proof {
            assert(before_count * size + size == self.produced() * size) by (nonlinear_arith)
                requires self.produced() == before_count + 1;
        }
        Some((tick, batch))
    }
}

/// Across two successive batches, each identity's sequence numbers keep increasing:
/// any number handed out in the first batch is below any handed out to the same
/// identity in the second.
pub proof fn lemma_batches_ordered(
    d0: Dispatcher,
    d1: Dispatcher,
    d2: Dispatcher,
    t1: DispatchTick,
    b1: Seq<Submission>,
    t2: DispatchTick,
    b2: Seq<Submission>,
    i: int,
    j: int,
)
    requires
        batch_step(d0, d1, t1, b1),
        batch_step(d1, d2, t2, b2),
        0 <= i < b1.len(),
        0 <= j < b2.len(),
        b1[i].slot == b2[j].slot,
    ensures
        b1[i].sequence < b2[j].sequence,
{
}

} // verus!
