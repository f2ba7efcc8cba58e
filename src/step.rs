use vstd::prelude::*;
use crate::arena::{GrowError, WritePlan, plan_of, plan_write};
use crate::ledger::PacingLedger;
use crate::quantum::{Quantum, quantum_of, work_time};
use crate::window::{PageRange, ReadCursor, reader_pages, window_of};

verus! {

/// What a writer does in one iteration.
#[derive(PartialEq, Eq, Structural, Debug, Clone, Copy)]
pub enum WriterStep {
    /// Sleep this many nanoseconds.
    Sleep(u128),
    /// Grow the arena when the plan says so, then fill its pages, then
    /// publish its end as the new high-water page.
    Write(WritePlan),
}

/// One writer iteration's decisions, with `written` pages published and an
/// arena of `arena_size` bytes: the ledger is brought up to `now`; where a
/// quantum of pages is owed, they are planned after the written ones and
/// paid for at `bps`.
pub fn writer_step(
    ledger: &mut PacingLedger,
    now: u64,
    bps: u64,
    page_size: u64,
    written: u64,
    arena_size: u64,
) -> (r: Result<WriterStep, GrowError>)
    requires
        old(ledger).wf(),
        bps > 0,
        page_size > 0,
    ensures
        final(ledger).wf(),
        match quantum_of(old(ledger).updated(now).debt, bps, page_size) {
            Quantum::Sleep(ns) => r == Ok::<WriterStep, GrowError>(WriterStep::Sleep(ns))
                && *final(ledger) == old(ledger).updated(now),
            Quantum::Pages(n) => match plan_of(written, n, arena_size, page_size) {
                Ok(p) => r == Ok::<WriterStep, GrowError>(WriterStep::Write(p)) && *final(ledger)
                    == old(ledger).updated(now).paid(work_time(n, page_size, bps) as u64),
                Err(e) => r == Err::<WriterStep, GrowError>(e) && *final(ledger) == old(
                    ledger,
                ).updated(now),
            },
        },
{
    match ledger.next_quantum(now, bps, page_size) {
        Quantum::Sleep(ns) => Ok(WriterStep::Sleep(ns)),
        Quantum::Pages(n) => {
            let plan = plan_write(written, n, arena_size, page_size)?;
            ledger.pay_pages(n, page_size, bps);
            Ok(WriterStep::Write(plan))
        },
    }
}

/// What a reader does in one iteration.
#[derive(PartialEq, Eq, Debug)]
pub enum ReaderStep {
    /// Sleep this many nanoseconds.
    Sleep(u128),
    /// Nothing is written in this reader's window yet: read nothing.
    Skip,
    /// Read these pages, in order.
    Read(Vec<u64>),
}

/// One iteration's decisions of reader `index` of `count`, with `total` pages
/// published: the ledger is brought up to `now`; where a quantum of pages is
/// owed and the reader's window holds pages, that many pages are read from
/// the cursor on, wrapping within the window, and paid for at `bps`; where
/// the window is empty, nothing is read and nothing paid.
pub fn reader_step(
    ledger: &mut PacingLedger,
    cursor: &mut ReadCursor,
    now: u64,
    bps: u64,
    page_size: u64,
    total: u64,
    index: u64,
    count: u64,
) -> (r: ReaderStep)
    requires
        old(ledger).wf(),
        bps > 0,
        page_size > 0,
        index < count,
    ensures
        final(ledger).wf(),
        ({
            let w = window_of(total, index, count);
            match quantum_of(old(ledger).updated(now).debt, bps, page_size) {
                Quantum::Sleep(ns) => r == ReaderStep::Sleep(ns) && *final(ledger) == old(
                    ledger,
                ).updated(now) && *final(cursor) == *old(cursor),
                Quantum::Pages(n) => if w.len() <= 0 {
                    r == ReaderStep::Skip && *final(ledger) == old(ledger).updated(now)
                        && *final(cursor) == *old(cursor)
                } else {
                    &&& r matches ReaderStep::Read(pages) && pages@.len() == n && forall|k: int|
                        0 <= k < n ==> #[trigger] pages@[k] == w.start + (old(cursor).pos as int
                        % w.len() + k) % w.len()
                    &&& n > 0 ==> final(cursor).pos == (old(cursor).pos as int % w.len() + n) % w.len()
                    &&& n == 0 ==> *final(cursor) == *old(cursor)
                    &&& *final(ledger) == old(ledger).updated(now).paid(
                        work_time(n, page_size, bps) as u64,
                    )
                },
            }
        }),
{
    let n = match ledger.next_quantum(now, bps, page_size) {
        Quantum::Sleep(ns) => {
            return ReaderStep::Sleep(ns);
        },
        Quantum::Pages(n) => n,
    };
    let w = match reader_pages(total, index, count) {
        Some(w) => w,
        None => {
            return ReaderStep::Skip;
        },
    };
    let ghost len = w.len();
    let ghost p0 = cursor.pos as int % len;
    let mut pages: Vec<u64> = Vec::new();
    let mut k: u64 = 0;
    proof {
        vstd::arithmetic::div_mod::lemma_mod_bound(cursor.pos as int, len);
        vstd::arithmetic::div_mod::lemma_small_mod(p0 as nat, len as nat);
    }
    while k < n
        invariant
            w == window_of(total, index, count),
            w.start < w.end,
            len == w.len(),
            0 <= p0 < len,
            k <= n,
            pages@.len() == k,
            forall|i: int| 0 <= i < k ==> #[trigger] pages@[i] == w.start + (p0 + i) % len,
            cursor.pos as int % len == (p0 + k) % len,
            k > 0 ==> cursor.pos == (p0 + k) % len,
            k == 0 ==> *cursor == *old(cursor),
        decreases n - k,
    {
        let ghost before = cursor.pos;
        let page = cursor.next_page(w);
        proof {
            let y = p0 + k;
            vstd::arithmetic::div_mod::lemma_add_mod_noop_right(1, y, len);
            vstd::arithmetic::div_mod::lemma_mod_bound(y + 1, len);
            vstd::arithmetic::div_mod::lemma_small_mod(((y + 1) % len) as nat, len as nat);
            assert((y % len + 1) % len == (y + 1) % len);
        }
        pages.push(page);
        k = k + 1;
    }
    ledger.pay_pages(n, page_size, bps);
    ReaderStep::Read(pages)
}

} // verus!
