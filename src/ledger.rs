use vstd::prelude::*;
use crate::quantum::{Quantum, quantum, quantum_of, work_nanos, work_time};

verus! {

/// Time that passed between two clock readings, in nanoseconds; a clock that
/// went backwards counts as no time at all.
pub open spec fn elapsed(last_at: u64, now: u64) -> int {
    if now >= last_at {
        now - last_at
    } else {
        0
    }
}

/// A sum of nanosecond counts held in a `u64`, stopping at its maximum.
pub open spec fn saturated(x: int) -> int {
    if x > u64::MAX {
        u64::MAX as int
    } else {
        x
    }
}

/// Per-thread rate limiter: elapsed time accumulates as permitted work
/// ("debt", in nanoseconds), capped at `max_debt`; time above the cap is
/// forgotten and counted as `loss`.
pub struct PacingLedger {
    pub debt: u64,
    pub max_debt: u64,
    pub loss: u64,
    pub last_at: u64,
}

impl PacingLedger {
    pub open spec fn wf(&self) -> bool {
        self.debt <= self.max_debt
    }

    /// The debt before clamping: the old debt plus the time that passed.
    pub open spec fn raw_debt(&self, now: u64) -> int {
        self.debt + elapsed(self.last_at, now)
    }

    /// What the ledger becomes when it is brought up to the clock reading `now`.
    pub open spec fn updated(&self, now: u64) -> PacingLedger {
        let raw = self.raw_debt(now);
        if raw > self.max_debt {
            PacingLedger {
                debt: self.max_debt,
                max_debt: self.max_debt,
                loss: saturated(self.loss + (raw - self.max_debt)) as u64,
                last_at: now,
            }
        } else {
            PacingLedger { debt: raw as u64, max_debt: self.max_debt, loss: self.loss, last_at: now }
        }
    }

    /// What the ledger becomes after `amount` nanoseconds of work are paid.
    pub open spec fn paid(&self, amount: u64) -> PacingLedger {
        PacingLedger {
            debt: if amount >= self.debt { 0 } else { (self.debt - amount) as u64 },
            ..*self
        }
    }

    /// A fresh ledger: no debt and no loss, with the clock read at `now`.
    pub fn new(max_debt: u64, now: u64) -> (r: PacingLedger)
        ensures
            r.wf(),
            r.debt == 0,
            r.max_debt == max_debt,
            r.loss == 0,
            r.last_at == now,
    {
        PacingLedger { debt: 0, max_debt, loss: 0, last_at: now }
    }

    /// Adds the time since the last reading to the debt, moves what exceeds
    /// `max_debt` into `loss`, and returns the new debt.
    pub fn update(&mut self, now: u64) -> (r: u64)
        requires
            old(self).wf(),
        ensures
            *final(self) == old(self).updated(now),
            final(self).wf(),
            r == final(self).debt,
            r <= final(self).max_debt,
            r >= old(self).debt,
    {
        let el: u64 = if now >= self.last_at {
            now - self.last_at
        } else {
            0
        };
        self.last_at = now;
        let room: u64 = self.max_debt - self.debt;
        if el > room {
            let excess: u64 = el - room;
            self.loss = self.loss.saturating_add(excess);
            self.debt = self.max_debt;
        } else {
            self.debt = self.debt + el;
        }
        self.debt
    }

    /// Subtracts `amount` nanoseconds of debt, stopping at zero.
    pub fn pay(&mut self, amount: u64)
        requires
            old(self).wf(),
        ensures
            *final(self) == old(self).paid(amount),
            final(self).wf(),
            final(self).debt <= old(self).debt,
            final(self).debt == 0 <==> amount >= old(self).debt,
    {
        self.debt = self.debt.saturating_sub(amount);
    }

    /// The start of a pacing iteration: brings the ledger up to the clock
    /// reading `now` and turns the debt into a quantum at `bps` bytes per
    /// second.
    pub fn next_quantum(&mut self, now: u64, bps: u64, page_size: u64) -> (r: Quantum)
        requires
            old(self).wf(),
            bps > 0,
            page_size > 0,
        ensures
            *final(self) == old(self).updated(now),
            final(self).wf(),
            r == quantum_of(final(self).debt, bps, page_size),
    {
        let debt = self.update(now);
        quantum(debt, bps, page_size)
    }

    /// The end of a pacing iteration: pays for `pages` pages of work done at
    /// `bps` bytes per second.
    pub fn pay_pages(&mut self, pages: u64, page_size: u64, bps: u64)
        requires
            old(self).wf(),
            bps > 0,
        ensures
            *final(self) == old(self).paid(work_time(pages, page_size, bps) as u64),
            final(self).wf(),
    {
        let amount = work_nanos(pages, page_size, bps);
        self.pay(amount);
    }
}

/// The ledger after one update for each clock reading of `times`, in order,
/// with no payment in between.
pub open spec fn updated_all(l: PacingLedger, times: Seq<u64>) -> PacingLedger
    decreases times.len(),
{
    if times.len() == 0 {
        l
    } else {
        updated_all(l.updated(times[0]), times.drop_first())
    }
}

/// The time that passes over the clock readings `times`, starting from `last_at`.
pub open spec fn total_elapsed(last_at: u64, times: Seq<u64>) -> int
    decreases times.len(),
{
    if times.len() == 0 {
        0
    } else {
        elapsed(last_at, times[0]) + total_elapsed(times[0], times.drop_first())
    }
}

/// Repeated updates with no payment in between never lift the debt above
/// `max_debt` and never lower it: the debt is the old debt plus the time
/// that passed, clamped at `max_debt`, and the loss grows by exactly what the
/// clamping cut off (as long as the loss counter does not reach its maximum).
pub proof fn lemma_updates_clamp_at_ceiling(l: PacingLedger, times: Seq<u64>)
    requires
        l.wf(),
        l.loss + total_elapsed(l.last_at, times) <= u64::MAX,
    ensures
        updated_all(l, times).wf(),
        updated_all(l, times).max_debt == l.max_debt,
        updated_all(l, times).debt >= l.debt,
        updated_all(l, times).debt == if l.debt + total_elapsed(l.last_at, times) > l.max_debt {
            l.max_debt as int
        } else {
            l.debt + total_elapsed(l.last_at, times)
        },
        updated_all(l, times).loss == l.loss + (l.debt + total_elapsed(l.last_at, times)
            - updated_all(l, times).debt),
    decreases times.len(),
{
    if times.len() > 0 {
        let n = l.updated(times[0]);
        assert(total_elapsed(l.last_at, times) == elapsed(l.last_at, times[0]) + total_elapsed(
            times[0],
            times.drop_first(),
        ));
        lemma_total_elapsed_nonneg(times[0], times.drop_first());
        lemma_updates_clamp_at_ceiling(n, times.drop_first());
    }
}

proof fn lemma_total_elapsed_nonneg(last_at: u64, times: Seq<u64>)
    ensures
        total_elapsed(last_at, times) >= 0,
    decreases times.len(),
{
    if times.len() > 0 {
        lemma_total_elapsed_nonneg(times[0], times.drop_first());
    }
}

/// Paying never leaves a negative debt, and never leaves more debt than before.
pub proof fn lemma_pay_floors_at_zero(l: PacingLedger, amount: u64)
    requires
        l.wf(),
    ensures
        l.paid(amount).debt >= 0,
        l.paid(amount).debt <= l.debt,
        l.paid(amount).debt == if amount >= l.debt { 0 } else { l.debt - amount },
        l.paid(amount).wf(),
{
}

} // verus!
