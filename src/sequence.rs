//! Sequence tracker: the next sequence number of each identity of a run.
use vstd::prelude::*;

verus! {

/// One claim on identity `slot` took `before` to `after` and handed out `r`.
pub open spec fn claim_step(before: Seq<u64>, after: Seq<u64>, slot: int, r: Option<u64>) -> bool {
    &&& 0 <= slot < before.len()
    &&& if before[slot] < u64::MAX {
        r == Some(before[slot]) && after == before.update(slot, (before[slot] + 1) as u64)
    } else {
        r.is_none() && after == before
    }
}

/// Per-identity counters, indexed by the identity's slot in the run.
pub struct SequenceTracker {
    next: Vec<u64>,
}

impl SequenceTracker {
    /// The next sequence number of each slot.
    pub closed spec fn view(&self) -> Seq<u64> {
        self.next@
    }

    /// A tracker seeded with the sequence numbers read from the network at setup.
    pub fn new(seeds: Vec<u64>) -> (r: SequenceTracker)
        ensures
            r.view() == seeds@,
    {
        SequenceTracker { next: seeds }
    }

    pub fn len(&self) -> (r: usize)
        ensures
            r == self.view().len(),
    {
        self.next.len()
    }

    /// The number that the next claim on `slot` hands out.
    pub fn peek(&self, slot: usize) -> (r: u64)
        requires
            slot < self.view().len(),
        ensures
            r == self.view()[slot as int],
    {
        self.next[slot]
    }

    /// Hands out the next sequence number of `slot`; `None` once the counter is exhausted.
    pub fn claim_next(&mut self, slot: usize) -> (r: Option<u64>)
        requires
            slot < old(self).view().len(),
        ensures
            claim_step(old(self).view(), final(self).view(), slot as int, r),
    {
        let n = self.next[slot];
        if n == u64::MAX {
            None
        } else {
            self.next.set(slot, n + 1);
            Some(n)
        }
    }

    /// Puts `slot` at the network's sequence number plus the submissions still in flight,
    /// saturating at the largest number.
    pub fn reconcile(&mut self, slot: usize, observed: u64, in_flight: u64)
        requires
            slot < old(self).view().len(),
        ensures
            final(self).view() == old(self).view().update(
                slot as int,
                if observed + in_flight <= u64::MAX {
                    (observed + in_flight) as u64
                } else {
                    u64::MAX
                },
            ),
    {
        let v = observed.saturating_add(in_flight);
        self.next.set(slot, v);
    }
}

/// Successive claims on one identity hand out consecutive numbers from the counter's
/// starting value: strictly increasing, with no gap and no repeat.
pub proof fn lemma_claims_consecutive(states: Seq<Seq<u64>>, claims: Seq<u64>, slot: int)
    requires
        states.len() == claims.len() + 1,
        forall|k: int| 0 <= k < claims.len() ==> #[trigger] claim_step(states[k], states[k + 1], slot, Some(claims[k])),
    ensures
        forall|k: int| 0 <= k < claims.len() ==> #[trigger] claims[k] == states[0][slot] + k,
        forall|j: int, k: int| 0 <= j < k < claims.len() ==> #[trigger] claims[j] < #[trigger] claims[k],
    decreases claims.len(),
{
    if claims.len() > 0 {
        let n = (claims.len() - 1) as int;
        lemma_claims_consecutive(states.drop_last(), claims.drop_last(), slot);
        assert forall|k: int| 0 <= k < claims.drop_last().len() implies #[trigger] claim_step(
            states.drop_last()[k],
            states.drop_last()[k + 1],
            slot,
            Some(claims.drop_last()[k]),
        ) by {
            assert(claim_step(states[k], states[k + 1], slot, Some(claims[k])));
        }
        assert(claim_step(states[n], states[n + 1], slot, Some(claims[n])));
        if n > 0 {
            let m = n - 1;
            assert(claim_step(states[m], states[m + 1], slot, Some(claims[m])));
            assert(claims.drop_last()[m] == states.drop_last()[0][slot] + m);
            assert(states.drop_last()[0] == states[0]);
        }
        assert forall|k: int| 0 <= k < claims.len() implies #[trigger] claims[k] == states[0][slot] + k by {
            if k < n {
                assert(claims.drop_last()[k] == claims[k]);
            }
        }
    }
}

/// A claim on one identity leaves the counters of all other identities unchanged.
pub proof fn lemma_claims_independent(before: Seq<u64>, after: Seq<u64>, slot: int, r: Option<u64>, other: int)
    requires
        claim_step(before, after, slot, r),
        0 <= other < before.len(),
        other != slot,
    ensures
        after[other] == before[other],
{
}

} // verus!
