//! Rate scheduler: turns a rate profile into a finite sequence of dispatch ticks.
use vstd::prelude::*;

verus! {

/// Target throughput over a bounded duration.
#[derive(Clone, Copy, Debug, PartialEq, Eq)]
pub enum RateProfile {
    /// `count` transactions at each of the next `blocks` blocks.
    PerBlock { count: u32, blocks: u32 },
    /// `rate` transactions per second for `seconds` seconds, spread evenly.
    PerSecond { rate: u32, seconds: u32 },
}

/// A point at which a batch of transactions is due.
#[derive(Clone, Copy, Debug, PartialEq, Eq)]
pub struct DispatchTick {
    /// Position of the tick in the run, from zero.
    pub index: u64,
    /// Block offset from the start (per block) or milliseconds from the start (per second).
    pub at: u64,
    /// Number of transactions to submit at this tick.
    pub count: u32,
}

/// A configuration that cannot start a run.
#[derive(Clone, Copy, Debug, PartialEq, Eq)]
pub enum ConfigError {
    ZeroRate,
    NoIdentities,
    SequenceOverflow,
}

impl RateProfile {
    pub open spec fn rate_is_zero(self) -> bool {
        match self {
            RateProfile::PerBlock { count, .. } => count == 0,
            RateProfile::PerSecond { rate, .. } => rate == 0,
        }
    }

    /// Number of ticks the profile produces.
    pub open spec fn tick_total(self) -> nat {
        match self {
            RateProfile::PerBlock { blocks, .. } => blocks as nat,
            RateProfile::PerSecond { rate, seconds } => (rate * seconds) as nat,
        }
    }

    /// Size of every tick.
    pub open spec fn tick_size(self) -> u32 {
        match self {
            RateProfile::PerBlock { count, .. } => count,
            RateProfile::PerSecond { .. } => 1,
        }
    }

    /// Number of transactions the profile asks for in all.
    pub open spec fn transaction_total(self) -> nat {
        (self.tick_total() * self.tick_size()) as nat
    }

    /// The `i`-th tick: per block, one at each block; per second, the `i % rate`-th of
    /// `rate` equal slices of second `i / rate`.
    pub open spec fn tick(self, i: nat) -> DispatchTick {
        match self {
            RateProfile::PerBlock { count, .. } => DispatchTick { index: i as u64, at: i as u64, count },
            RateProfile::PerSecond { rate, .. } => DispatchTick {
                index: i as u64,
                at: ((i / rate as nat) * 1000 + (i % rate as nat) * 1000 / rate as nat) as u64,
                count: 1,
            },
        }
    }

    /// The whole sequence of ticks of the profile.
    pub open spec fn ticks(self) -> Seq<DispatchTick> {
        Seq::new(self.tick_total(), |i: int| self.tick(i as nat))
    }

    /// Rejects a zero rate before any tick is produced.
    pub fn validate(&self) -> (r: Result<(), ConfigError>)
        ensures
            r is Err <==> self.rate_is_zero(),
            r matches Err(e) ==> e == ConfigError::ZeroRate,
    {
        match self {
            RateProfile::PerBlock { count, .. } => if *count == 0 {
                Err(ConfigError::ZeroRate)
            } else {
                Ok(())
            },
            RateProfile::PerSecond { rate, .. } => if *rate == 0 {
                Err(ConfigError::ZeroRate)
            } else {
                Ok(())
            },
        }
    }

    pub fn total_transactions(&self) -> (r: u64)
        ensures
            r == self.transaction_total(),
    {
        match self {
            RateProfile::PerBlock { count, blocks } => {
                proof {
                    lemma_u32_product(*blocks, *count);
                }
                let r = (*blocks as u64) * (*count as u64);
                assert(self.tick_total() == *blocks as nat);
                assert(self.tick_size() == *count);
                r
            },
            RateProfile::PerSecond { rate, seconds } => {
                proof {
                    lemma_u32_product(*rate, *seconds);
                }
                (*rate as u64) * (*seconds as u64)
            },
        }
    }

    pub fn total_ticks(&self) -> (r: u64)
        ensures
            r == self.tick_total(),
    {
        match self {
            RateProfile::PerBlock { blocks, .. } => *blocks as u64,
            RateProfile::PerSecond { rate, seconds } => {
                proof {
                    lemma_u32_product(*rate, *seconds);
                }
                (*rate as u64) * (*seconds as u64)
            },
        }
    }
}

proof fn lemma_u32_product(a: u32, b: u32)
    ensures
        (a as nat) * (b as nat) <= 0xffff_fffe_0000_0001,
{
    assert((a as nat) * (b as nat) <= 0xffff_ffff * 0xffff_ffff) by (nonlinear_arith)
        requires a <= 0xffff_ffff, b <= 0xffff_ffff;
}

/// Bounds on the per-second timing formula.
proof fn lemma_slice_time(i: nat, rate: nat, seconds: nat)
    requires
        rate > 0,
        i < rate * seconds,
    ensures
        i / rate < seconds,
        (i % rate) * 1000 / rate < 1000,
        (i / rate) * 1000 + (i % rate) * 1000 / rate < seconds * 1000,
{
    assert(i / rate < seconds) by (nonlinear_arith)
        requires rate > 0, i < rate * seconds;
    assert(i % rate < rate) by (nonlinear_arith)
        requires rate > 0;
    assert((i % rate) * 1000 / rate < 1000) by (nonlinear_arith)
        requires rate > 0, i % rate < rate;
    let q = i / rate;
    assert(q * 1000 + 1000 <= seconds * 1000) by (nonlinear_arith)
        requires q + 1 <= seconds;
}

/// Per second at rate `R` for `D` seconds: exactly `R * D` ticks of one transaction each,
/// all due before `D` seconds have passed, in order of their due time.
pub proof fn lemma_per_second_ticks(rate: u32, seconds: u32)
    requires
        rate > 0,
    ensures
        ({
            let p = RateProfile::PerSecond { rate, seconds };
            &&& p.ticks().len() == rate * seconds
            &&& p.transaction_total() == rate * seconds
            &&& forall|i: int| 0 <= i < p.ticks().len() ==> (#[trigger] p.ticks()[i]).count == 1
                && p.ticks()[i].at < seconds * 1000
        }),
{
    let p = RateProfile::PerSecond { rate, seconds };
    lemma_u32_product(rate, seconds);
    assert forall|i: int| 0 <= i < p.ticks().len() implies (#[trigger] p.ticks()[i]).count == 1
        && p.ticks()[i].at < seconds * 1000 by {
        lemma_slice_time(i as nat, rate as nat, seconds as nat);
        assert(seconds * 1000 <= 0xffff_ffff * 1000);
    }
}

/// Per block with `C` transactions over `H` blocks: exactly `H` ticks, one at each block,
/// each of size `C`.
pub proof fn lemma_per_block_ticks(count: u32, blocks: u32)
    ensures
        ({
            let p = RateProfile::PerBlock { count, blocks };
            &&& p.ticks().len() == blocks
            &&& p.transaction_total() == count * blocks
            &&& forall|i: int| 0 <= i < blocks ==> (#[trigger] p.ticks()[i]).count == count
                && p.ticks()[i].at == i && p.ticks()[i].index == i
        }),
{
    let p = RateProfile::PerBlock { count, blocks };
    assert(p.transaction_total() == count * blocks) by (nonlinear_arith)
        requires p.transaction_total() == blocks * count;
}

/// A finite, one-pass source of the ticks of a profile.
pub struct TickSource {
    profile: RateProfile,
    next: u64,
}

impl TickSource {
    pub closed spec fn profile(&self) -> RateProfile {
        self.profile
    }

    /// Number of ticks already produced.
    pub closed spec fn produced(&self) -> nat {
        self.next as nat
    }

    pub open spec fn well_formed(&self) -> bool {
        &&& !self.profile().rate_is_zero()
        &&& self.produced() <= self.profile().tick_total()
    }

    /// A source positioned before the first tick; a zero rate is refused.
    pub fn new(profile: RateProfile) -> (r: Result<TickSource, ConfigError>)
        ensures
            r is Err <==> profile.rate_is_zero(),
            r matches Err(e) ==> e == ConfigError::ZeroRate,
            r matches Ok(s) ==> s.well_formed() && s.profile() == profile && s.produced() == 0,
    {
        match profile.validate() {
            Err(e) => Err(e),
            Ok(()) => Ok(TickSource { profile, next: 0 }),
        }
    }

    pub fn remaining(&self) -> (r: u64)
        requires
            self.well_formed(),
        ensures
            r == self.profile().tick_total() - self.produced(),
    {
        self.profile.total_ticks() - self.next
    }

    /// The next tick, or `None` once all ticks have been produced.
    pub fn next_tick(&mut self) -> (r: Option<DispatchTick>)
        requires
            old(self).well_formed(),
        ensures
            final(self).well_formed(),
            final(self).profile() == old(self).profile(),
            old(self).produced() < old(self).profile().tick_total() ==> r == Some(
                old(self).profile().tick(old(self).produced()),
            ) && final(self).produced() == old(self).produced() + 1,
            old(self).produced() == old(self).profile().tick_total() ==> r.is_none()
                && final(self).produced() == old(self).produced(),
    {
        let total = self.profile.total_ticks();
        if self.next >= total {
            return None;
        }
        let i = self.next;
        let tick = match self.profile {
            RateProfile::PerBlock { count, .. } => DispatchTick { index: i, at: i, count },
            RateProfile::PerSecond { rate, seconds } => {
                proof {
                    lemma_u32_product(rate, seconds);
                    lemma_slice_time(i as nat, rate as nat, seconds as nat);
                    assert((i % (rate as u64)) * 1000 < 0xffff_ffff * 1000) by (nonlinear_arith)
                        requires rate > 0, (i % (rate as u64)) < rate;
                    assert(seconds * 1000 <= 0xffff_ffff * 1000);
                }
                let r = rate as u64;
                let at = (i / r) * 1000 + (i % r) * 1000 / r;
                DispatchTick { index: i, at, count: 1 }
            },
        };
        self.next = i + 1;
        Some(tick)
    }

    /// Every tick not yet produced, in order; the source is then exhausted.
    pub fn drain(&mut self) -> (r: Vec<DispatchTick>)
        requires
            old(self).well_formed(),
        ensures
            final(self).well_formed(),
            final(self).profile() == old(self).profile(),
            final(self).produced() == old(self).profile().tick_total(),
            r@ == old(self).profile().ticks().subrange(old(self).produced() as int, old(self).profile().tick_total() as int),
    {
        let mut out: Vec<DispatchTick> = Vec::new();
        let ghost start = self.produced();
        loop
            invariant
                self.well_formed(),
                self.profile() == old(self).profile(),
                start == old(self).produced(),
                start <= self.produced(),
                out@ == self.profile().ticks().subrange(start as int, self.produced() as int),
            decreases self.profile().tick_total() - self.produced(),
        {
            match self.next_tick() {
                Some(t) => {
                    out.push(t);
                    assert(out@ =~= self.profile().ticks().subrange(start as int, self.produced() as int));
                },
                None => {
                    return out;
                },
            }
        }
    }
}

} // verus!
