use vstd::prelude::*;
use crate::quantum::round_div;

verus! {

/// A half-open range of page indices, `[start, end)`.
#[derive(PartialEq, Eq, Structural, Debug, Clone, Copy)]
pub struct PageRange {
    pub start: u64,
    pub end: u64,
}

impl PageRange {
    /// How many pages the range holds.
    pub open spec fn len(&self) -> int {
        self.end - self.start
    }
}

/// Where the `index`-th of `count` equal fractions of `total` pages begins:
/// `total * index / count`, rounded to the nearest page.
pub open spec fn boundary(total: u64, index: int, count: u64) -> int {
    round_div(total * index, count as int)
}

/// The pages of reader `index` of `count` when `total` pages are written.
pub open spec fn window_of(total: u64, index: u64, count: u64) -> PageRange {
    PageRange {
        start: boundary(total, index as int, count) as u64,
        end: boundary(total, index + 1, count) as u64,
    }
}

proof fn lemma_boundary_bounds(total: u64, index: int, count: u64)
    requires
        count > 0,
        0 <= index <= count,
    ensures
        0 <= boundary(total, index, count) <= total,
        index == 0 ==> boundary(total, index, count) == 0,
        index == count ==> boundary(total, index, count) == total,
{
    let a = total * index;
    let c = count as int;
    assert(0 <= a <= total * c) by (nonlinear_arith)
        requires a == total * index, 0 <= index <= c, total >= 0;
    vstd::arithmetic::div_mod::lemma_fundamental_div_mod(a, c);
    let q = a / c;
    let r = a % c;
    if index == count {
        assert(a == c * total + 0) by (nonlinear_arith)
            requires a == total * index, index == c;
        vstd::arithmetic::div_mod::lemma_div_multiples_vanish_fancy(total as int, 0, c);
        vstd::arithmetic::div_mod::lemma_fundamental_div_mod_converse(a, c, total as int, 0);
    } else if total > 0 {
        assert(a < total * c) by (nonlinear_arith)
            requires a == total * index, 0 <= index < c, total > 0;
        // q * c + r < total * c, so q < total
        assert(q < total) by (nonlinear_arith)
            requires a == c * q + r, 0 <= r < c, a < total * c, c > 0;
    }
}

proof fn lemma_boundary_monotone(total: u64, i: int, j: int, count: u64)
    requires
        count > 0,
        0 <= i <= j,
    ensures
        boundary(total, i, count) <= boundary(total, j, count),
{
    let c = count as int;
    let a = total * i;
    let b = total * j;
    assert(0 <= a <= b) by (nonlinear_arith)
        requires a == total * i, b == total * j, 0 <= i <= j, total >= 0;
    // rounding half up equals flooring (2x + c) / (2c), which is monotone
    lemma_round_div_floor(a, c);
    lemma_round_div_floor(b, c);
    vstd::arithmetic::div_mod::lemma_div_is_ordered(2 * a + c, 2 * b + c, 2 * c);
}

proof fn lemma_round_div_floor(a: int, c: int)
    requires
        a >= 0,
        c > 0,
    ensures
        round_div(a, c) == (2 * a + c) / (2 * c),
{
    let q = a / c;
    let r = a % c;
    vstd::arithmetic::div_mod::lemma_fundamental_div_mod(a, c);
    let x = 2 * a + c;
    if 2 * r >= c {
        assert(x == (2 * c) * (q + 1) + (2 * r - c)) by (nonlinear_arith)
            requires a == c * q + r, x == 2 * a + c;
        vstd::arithmetic::div_mod::lemma_div_multiples_vanish_fancy(q + 1, 2 * r - c, 2 * c);
    } else {
        assert(x == (2 * c) * q + (2 * r + c)) by (nonlinear_arith)
            requires a == c * q + r, x == 2 * a + c;
        vstd::arithmetic::div_mod::lemma_div_multiples_vanish_fancy(q, 2 * r + c, 2 * c);
    }
}

/// The pages that reader `index` of `count` reads when `total` pages are
/// written: its equal fraction of `[0, total)`, with both ends rounded to the
/// nearest page.
pub fn reader_window(total: u64, index: u64, count: u64) -> (r: PageRange)
    requires
        index < count,
    ensures
        r == window_of(total, index, count),
        r.start <= r.end <= total,
{
    proof {
        lemma_boundary_bounds(total, index as int, count);
        lemma_boundary_bounds(total, index + 1, count);
        lemma_boundary_monotone(total, index as int, index + 1, count);
    }
    PageRange { start: scaled_boundary(total, index, count), end: scaled_boundary(total, index + 1, count) }
}

fn scaled_boundary(total: u64, index: u64, count: u64) -> (r: u64)
    requires
        index <= count,
        count > 0,
    ensures
        r == boundary(total, index as int, count),
{
    proof {
        lemma_boundary_bounds(total, index as int, count);
    }
    assert(total * index <= u64::MAX * u64::MAX) by (nonlinear_arith)
        requires total <= u64::MAX, index <= u64::MAX;
    let a: u128 = (total as u128) * (index as u128);
    let q: u128 = a / (count as u128);
    let rem: u128 = a % (count as u128);
    let b: u128 = if 2 * rem >= count as u128 {
        q + 1
    } else {
        q
    };
    b as u64
}

/// The pages reader `index` of `count` reads in this iteration, or `None`
/// while its window is still empty.
pub fn reader_pages(total: u64, index: u64, count: u64) -> (r: Option<PageRange>)
    requires
        index < count,
    ensures
        window_of(total, index, count).len() > 0 ==> r == Some(window_of(total, index, count)),
        window_of(total, index, count).len() <= 0 ==> r is None,
        r matches Some(w) ==> w.start < w.end <= total,
{
    let w = reader_window(total, index, count);
    if w.start < w.end {
        Some(w)
    } else {
        None
    }
}

/// The readers' windows split the written pages with neither gap nor
/// overlap: the first begins at page 0, the last ends at `total`, each one
/// ends where the next begins, and none runs backwards.
pub proof fn lemma_windows_partition(total: u64, count: u64, i: u64)
    requires
        count > 0,
        i < count,
    ensures
        window_of(total, 0, count).start == 0,
        window_of(total, (count - 1) as u64, count).end == total,
        i + 1 < count ==> window_of(total, i, count).end == window_of(total, (i + 1) as u64, count).start,
        window_of(total, i, count).start <= window_of(total, i, count).end <= total,
{
    lemma_boundary_bounds(total, 0, count);
    lemma_boundary_bounds(total, count as int, count);
    lemma_boundary_bounds(total, i as int, count);
    lemma_boundary_bounds(total, i + 1, count);
    lemma_boundary_monotone(total, i as int, i + 1, count);
}

/// A reader's position within its window; it wraps around, so that the
/// reader goes over its window again once it has read all of it.
pub struct ReadCursor {
    pub pos: u64,
}

impl ReadCursor {
    pub fn new() -> (r: ReadCursor)
        ensures
            r.pos == 0,
    {
        ReadCursor { pos: 0 }
    }

    /// The next page to read in `window`, which moves the cursor on by one.
    pub fn next_page(&mut self, window: PageRange) -> (r: u64)
        requires
            window.start < window.end,
        ensures
            r == window.start + (old(self).pos as int) % window.len(),
            window.start <= r < window.end,
            final(self).pos == ((old(self).pos as int) % window.len() + 1) % window.len(),
            final(self).pos < window.end - window.start,
    {
        let len: u64 = window.end - window.start;
        let at: u64 = self.pos % len;
        self.pos = (at + 1) % len;
        window.start + at
    }
}

} // verus!
