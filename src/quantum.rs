use vstd::prelude::*;

verus! {

/// Nanoseconds in one second.
pub const NANOS_PER_SEC: u64 = 1_000_000_000;

/// The most bytes that one iteration works on, however much debt there is.
pub const MAX_WRITE: u64 = 1048576;

/// `a / b` rounded to the nearest integer, halves rounded up.
pub open spec fn round_div(a: int, b: int) -> int {
    if 2 * (a % b) >= b {
        a / b + 1
    } else {
        a / b
    }
}

/// The bytes that `debt` nanoseconds are worth at `bps` bytes per second.
pub open spec fn debt_bytes(debt: u64, bps: u64) -> int {
    round_div(debt * bps, NANOS_PER_SEC as int)
}

/// The time, in nanoseconds, that one page takes at `bps` bytes per second.
pub open spec fn page_time(page_size: u64, bps: u64) -> int {
    page_size * NANOS_PER_SEC / bps as int
}

pub open spec fn min(a: int, b: int) -> int {
    if a <= b {
        a
    } else {
        b
    }
}

/// What an iteration of a pacing loop does with its debt.
#[derive(PartialEq, Eq, Structural, Debug, Clone, Copy)]
pub enum Quantum {
    /// Less than a page is owed: sleep this many nanoseconds, then look again.
    Sleep(u128),
    /// Work on this many pages.
    Pages(u64),
}

/// The quantum owed for `debt` nanoseconds at `bps` bytes per second.
pub open spec fn quantum_of(debt: u64, bps: u64, page_size: u64) -> Quantum {
    if debt_bytes(debt, bps) < page_size {
        Quantum::Sleep(page_time(page_size, bps) as u128)
    } else {
        Quantum::Pages((min(debt_bytes(debt, bps), MAX_WRITE as int) / page_size as int) as u64)
    }
}

/// Turns the debt into work: a number of whole pages, at most `MAX_WRITE`
/// bytes' worth, or, when less than one page is owed, the time to sleep until
/// one page is.
pub fn quantum(debt: u64, bps: u64, page_size: u64) -> (r: Quantum)
    requires
        bps > 0,
        page_size > 0,
    ensures
        r == quantum_of(debt, bps, page_size),
        match r {
            Quantum::Pages(n) => n * page_size <= MAX_WRITE && n <= MAX_WRITE as int / page_size as int,
            Quantum::Sleep(ns) => debt_bytes(debt, bps) < page_size,
        },
{
    assert(debt * bps <= u64::MAX * u64::MAX) by (nonlinear_arith)
        requires debt <= u64::MAX, bps <= u64::MAX;
    let prod: u128 = (debt as u128) * (bps as u128);
    let rem: u128 = prod % (NANOS_PER_SEC as u128);
    let bytes: u128 = if 2 * rem >= NANOS_PER_SEC as u128 {
        prod / (NANOS_PER_SEC as u128) + 1
    } else {
        prod / (NANOS_PER_SEC as u128)
    };
    if bytes < page_size as u128 {
        let t: u128 = (page_size as u128) * (NANOS_PER_SEC as u128);
        Quantum::Sleep(t / (bps as u128))
    } else {
        let capped: u64 = if bytes < MAX_WRITE as u128 {
            bytes as u64
        } else {
            MAX_WRITE
        };
        let n: u64 = capped / page_size;
        assert(n * page_size <= capped) by (nonlinear_arith)
            requires n == capped / page_size, page_size > 0;
        assert(n <= MAX_WRITE as int / page_size as int) by (nonlinear_arith)
            requires n == capped / page_size, page_size > 0, capped <= MAX_WRITE;
        Quantum::Pages(n)
    }
}

/// The debt, in nanoseconds, that `pages` pages of `page_size` bytes are
/// worth at `bps` bytes per second, stopping at `u64::MAX`.
pub open spec fn work_time(pages: u64, page_size: u64, bps: u64) -> int {
    min(pages * page_size * NANOS_PER_SEC / bps as int, u64::MAX as int)
}

/// The amount to pay a ledger after working on `pages` pages.
pub fn work_nanos(pages: u64, page_size: u64, bps: u64) -> (r: u64)
    requires
        bps > 0,
    ensures
        r == work_time(pages, page_size, bps),
{
    assert(pages * page_size <= u64::MAX * u64::MAX) by (nonlinear_arith)
        requires pages <= u64::MAX, page_size <= u64::MAX;
    let bytes: u128 = (pages as u128) * (page_size as u128);
    let q: u128 = bytes / (bps as u128);
    let rem: u128 = bytes % (bps as u128);
    if q > u64::MAX as u128 {
        assert(bytes * NANOS_PER_SEC / bps as int >= q) by (nonlinear_arith)
            requires q == bytes as int / bps as int, 0 < bps, bytes >= 0;
        return u64::MAX;
    }
    assert(rem * NANOS_PER_SEC / bps as int <= rem * NANOS_PER_SEC) by (nonlinear_arith)
        requires rem >= 0, bps > 0;
    assert(rem * NANOS_PER_SEC <= u64::MAX * NANOS_PER_SEC) by (nonlinear_arith)
        requires rem < bps, bps <= u64::MAX;
    assert(q * NANOS_PER_SEC <= u64::MAX * NANOS_PER_SEC) by (nonlinear_arith)
        requires q <= u64::MAX;
    let t: u128 = q * (NANOS_PER_SEC as u128) + rem * (NANOS_PER_SEC as u128) / (bps as u128);
    assert(t == bytes * NANOS_PER_SEC / bps as int) by {
        lemma_split_div(bytes as int, bps as int, NANOS_PER_SEC as int);
    }
    if t > u64::MAX as u128 {
        u64::MAX
    } else {
        t as u64
    }
}

/// With no debt a pacing loop always sleeps, for exactly the time one page
/// takes at the target rate.
pub proof fn lemma_no_debt_sleeps(bps: u64, page_size: u64)
    requires
        bps > 0,
        page_size > 0,
    ensures
        quantum_of(0, bps, page_size) == Quantum::Sleep(page_time(page_size, bps) as u128),
{
}

/// Once at least a page is owed, the quantum is the owed bytes, capped at
/// `MAX_WRITE`, in whole pages, and never more than `MAX_WRITE` bytes' worth.
pub proof fn lemma_owed_pages_capped(debt: u64, bps: u64, page_size: u64)
    requires
        bps > 0,
        page_size > 0,
        debt_bytes(debt, bps) >= page_size,
    ensures
        quantum_of(debt, bps, page_size) == Quantum::Pages(
            (min(debt_bytes(debt, bps), MAX_WRITE as int) / page_size as int) as u64,
        ),
        min(debt_bytes(debt, bps), MAX_WRITE as int) / page_size as int <= MAX_WRITE as int
            / page_size as int,
{
    let m = min(debt_bytes(debt, bps), MAX_WRITE as int);
    assert(m / page_size as int <= MAX_WRITE as int / page_size as int) by (nonlinear_arith)
        requires m <= MAX_WRITE, page_size > 0, m >= 0;
}

proof fn lemma_split_div(x: int, d: int, k: int)
    requires
        x >= 0,
        d > 0,
        k >= 0,
    ensures
        x * k / d == (x / d) * k + (x % d) * k / d,
{
    let q = x / d;
    let r = x % d;
    vstd::arithmetic::div_mod::lemma_fundamental_div_mod(x, d);
    assert(x * k == r * k + (q * k) * d) by (nonlinear_arith)
        requires x == d * q + r;
    vstd::arithmetic::div_mod::lemma_hoist_over_denominator(r * k, q * k, d as nat);
}

} // verus!
