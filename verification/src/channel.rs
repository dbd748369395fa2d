//! Per-channel usage ledger enforcing duty cycle and minimum
//! inter-transmission delay.
//!
//! All times are in microseconds.  The duty cycle is a permille ratio
//! (a fraction of one thousand), so the regulation check is pure
//! integer arithmetic: within a running duty interval the channel may
//! be on air for at most `duty_cycle_permille * duty_interval / 1000`.

use vstd::prelude::*;

verus! {

/// Estimated time on air of one slot (us), also the spacing budget
/// used by the driver between slots.
pub const SLOT_TIME_US: u64 = 400_000;

/// Channel representation of legal regulations on the use of
/// electromagnetic bands.
#[derive(Debug, Copy, Clone, PartialEq, Eq, Structural)]
pub struct DelayParams {
    /// Duty cycle in permille: the most frequent regulation is one
    /// percent, written 10.
    pub duty_cycle_permille: u16,
    /// Minimal delay between two transmissions (us).
    pub min_delay: u64,
    /// Poll delay: the delay between two checks on the physical radio
    /// (us).
    pub poll_delay: u64,
    /// Duty interval: the time period on which the duty cycle is
    /// defined (us).
    pub duty_interval: u64,
}

/// Channel super-representation: the physical radio channel to use on
/// the device together with its delay parameters.
#[derive(Debug, Clone)]
pub struct Channel<C> {
    /// The physical radio channel representation.
    pub radio_channel: C,
    /// The associated delay parameters to respect regulations.
    pub delay: DelayParams,
}

/// Sane regulation parameters: a nonzero duty cycle of at most one,
/// and a nonzero duty interval of at most a day (which keeps all the
/// ledger arithmetic far from overflow).
pub open spec fn wf_params(p: DelayParams) -> bool {
    &&& 0 < p.duty_cycle_permille <= 1000
    &&& 0 < p.duty_interval <= 86_400_000_000
}

/// Elapsed time, zero if the clock stepped backwards.
pub open spec fn spec_elapsed(last: u64, now: u64) -> int {
    if now >= last {
        now - last
    } else {
        0
    }
}

/// Usage of one channel: the instant it was last used and the on-air
/// time consumed within the current duty interval.
#[derive(Debug, Copy, Clone, PartialEq, Eq, Structural)]
pub struct ChannelUsage {
    /// Instant of the last transmission on this channel (us).
    pub last_use: u64,
    /// On-air time consumed within the current duty interval (us).
    pub consumed: u64,
}

/// The duty check of the ledger: within a running duty interval the
/// consumed on-air time must not exceed the permille budget.
pub open spec fn spec_duty_exceeded(u: ChannelUsage, p: DelayParams, now: u64) -> bool {
    spec_elapsed(u.last_use, now) < p.duty_interval && u.consumed * 1000 > p.duty_cycle_permille
        * p.duty_interval
}

/// The minimum-delay check of the ledger.
pub open spec fn spec_min_delay_violated(u: ChannelUsage, p: DelayParams, now: u64) -> bool {
    spec_elapsed(u.last_use, now) < p.min_delay
}

/// The ledger after crediting `toa` microseconds of on-air time at
/// `now`: the consumed sum restarts when the duty interval has
/// elapsed since the last use, and the last use becomes `now`.
pub open spec fn spec_credit(u: ChannelUsage, p: DelayParams, now: u64, toa: u64) -> ChannelUsage {
    ChannelUsage {
        last_use: now,
        consumed: (if spec_elapsed(u.last_use, now) >= p.duty_interval {
            toa
        } else {
            (u.consumed + toa) as u64
        }) as u64,
    }
}

impl ChannelUsage {
    /// A ledger within its running bound: what was consumed never
    /// exceeds the duty budget by more than one slot's time on air.
    pub open spec fn wf(self, p: DelayParams) -> bool {
        self.consumed * 1000 <= p.duty_cycle_permille * p.duty_interval + 1000 * SLOT_TIME_US
    }

    /// A fresh ledger: nothing consumed yet.
    pub fn new(now: u64) -> (r: Self)
        ensures
            r.last_use == now,
            r.consumed == 0,
            forall|p: DelayParams| wf_params(p) ==> r.wf(p),
    {
        let r = ChannelUsage { last_use: now, consumed: 0 };
        proof {
            assert forall|p: DelayParams| wf_params(p) implies r.wf(p) by {
                assert(r.consumed * 1000 == 0);
                assert(p.duty_cycle_permille * p.duty_interval >= 0) by (nonlinear_arith)
                    requires
                        p.duty_cycle_permille > 0,
                        p.duty_interval > 0,
                ;
            }
        }
        r
    }

    /// The duty check of §-regulations: true when a transmission now
    /// would find the channel's budget already consumed.
    pub fn duty_exceeded(&self, p: &DelayParams, now: u64) -> (r: bool)
        requires
            wf_params(*p),
            self.wf(*p),
        ensures
            r == spec_duty_exceeded(*self, *p, now),
    {
        let elapsed: u64 = if now >= self.last_use {
            now - self.last_use
        } else {
            0
        };
        proof {
            lemma_budget_bounds(*p);
        }
        elapsed < p.duty_interval && self.consumed * 1000 > (p.duty_cycle_permille as u64)
            * p.duty_interval
    }

    /// The minimum-delay check: true when the channel was used too
    /// recently for another transmission.
    pub fn min_delay_violated(&self, p: &DelayParams, now: u64) -> (r: bool)
        ensures
            r == spec_min_delay_violated(*self, *p, now),
    {
        let elapsed: u64 = if now >= self.last_use {
            now - self.last_use
        } else {
            0
        };
        elapsed < p.min_delay
    }

    /// Credits one slot's on-air time to the channel.  The caller must
    /// have passed the duty check (or be opening a fresh interval), so
    /// the ledger stays within its bound.
    pub fn credit(&mut self, p: &DelayParams, now: u64, toa: u64)
        requires
            wf_params(*p),
            old(self).wf(*p),
            toa <= SLOT_TIME_US,
            !spec_duty_exceeded(*old(self), *p, now),
        ensures
            *final(self) == spec_credit(*old(self), *p, now, toa),
            final(self).wf(*p),
    {
        proof {
            lemma_budget_bounds(*p);
        }
        let elapsed: u64 = if now >= self.last_use {
            now - self.last_use
        } else {
            0
        };
        let consumed: u64 = if elapsed >= p.duty_interval {
            toa
        } else {
            self.consumed + toa
        };
        self.last_use = now;
        self.consumed = consumed;
    }
}

/// The duty budget arithmetic stays far below `u64::MAX`.
proof fn lemma_budget_bounds(p: DelayParams)
    requires
        wf_params(p),
    ensures
        0 <= p.duty_cycle_permille * p.duty_interval <= 1000 * 86_400_000_000,
        p.duty_cycle_permille * p.duty_interval == (p.duty_cycle_permille as u64)
            * p.duty_interval,
{
    assert(0 <= p.duty_cycle_permille * p.duty_interval <= 1000 * 86_400_000_000)
        by (nonlinear_arith)
        requires
            0 < p.duty_cycle_permille <= 1000,
            0 < p.duty_interval <= 86_400_000_000,
    ;
}

/// Duty-cycle safety: a credit that follows a passing duty check (or
/// that opens a fresh duty interval) leaves the window's credited
/// on-air time at most the duty budget plus the slot just sent.  The
/// regulation check of the ledger runs before the slot goes on air,
/// so the budget can be overshot by at most that one slot.
pub proof fn lemma_duty_cycle_safety(u: ChannelUsage, p: DelayParams, now: u64, toa: u64)
    requires
        wf_params(p),
        toa <= SLOT_TIME_US,
        !spec_duty_exceeded(u, p, now),
    ensures
        spec_credit(u, p, now, toa).consumed * 1000 <= p.duty_cycle_permille * p.duty_interval
            + 1000 * toa,
        spec_credit(u, p, now, toa).wf(p),
{
    lemma_budget_bounds(p);
}

} // verus!
