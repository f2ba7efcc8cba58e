use vstd::prelude::*;

verus! {

/// The arena grows in steps of this many bytes (1 GiB): its size after a
/// growth is always a multiple of it.
pub const GROWTH_STEP: u64 = 1073741824;

/// `x` rounded up to a multiple of `step`.
pub open spec fn round_up(x: int, step: int) -> int {
    (x + step - 1) / step * step
}

/// What one writer iteration does: fill pages `[start, end)`, growing the
/// arena to `grow_to` bytes first when it is given.
#[derive(PartialEq, Eq, Structural, Debug, Clone, Copy)]
pub struct WritePlan {
    pub start: u64,
    pub end: u64,
    pub grow_to: Option<u64>,
}

/// The arena would have to hold more bytes than a `u64` counts.
#[derive(PartialEq, Eq, Structural, Debug, Clone, Copy)]
pub enum GrowError {
    TooLarge,
}

/// The bytes that the first `pages` pages take.
pub open spec fn bytes_of(pages: int, page_size: u64) -> int {
    pages * page_size
}

/// The plan for writing `pages` more pages after the first `written`, into an
/// arena of `arena_size` bytes.
pub open spec fn plan_of(written: u64, pages: u64, arena_size: u64, page_size: u64) -> Result<
    WritePlan,
    GrowError,
> {
    let end = written + pages;
    let need = bytes_of(end, page_size);
    if need > u64::MAX {
        Err(GrowError::TooLarge)
    } else if arena_size < need {
        if round_up(need, GROWTH_STEP as int) > u64::MAX {
            Err(GrowError::TooLarge)
        } else {
            Ok(
                WritePlan {
                    start: written,
                    end: end as u64,
                    grow_to: Some(round_up(need, GROWTH_STEP as int) as u64),
                },
            )
        }
    } else {
        Ok(WritePlan { start: written, end: end as u64, grow_to: None })
    }
}

/// The arena's size once a plan's growth, if any, is done.
pub open spec fn grown_size(arena_size: u64, plan: WritePlan) -> u64 {
    match plan.grow_to {
        Some(s) => s,
        None => arena_size,
    }
}

proof fn lemma_round_up(x: int, step: int)
    requires
        x >= 0,
        step > 0,
    ensures
        x <= round_up(x, step) < x + step,
        round_up(x, step) % step == 0,
{
    let y = x + step - 1;
    vstd::arithmetic::div_mod::lemma_fundamental_div_mod(y, step);
    let q = y / step;
    let r = y % step;
    assert(round_up(x, step) == q * step);
    assert(x <= q * step < x + step) by (nonlinear_arith)
        requires y == step * q + r, 0 <= r < step, y == x + step - 1;
    vstd::arithmetic::div_mod::lemma_mod_multiples_basic(q, step);
}

/// Plans one writer iteration: the next `pages` pages after the `written`
/// ones, and, when the arena of `arena_size` bytes cannot hold them, the
/// smallest multiple of `GROWTH_STEP` that can.
pub fn plan_write(written: u64, pages: u64, arena_size: u64, page_size: u64) -> (r: Result<
    WritePlan,
    GrowError,
>)
    requires
        page_size > 0,
    ensures
        r == plan_of(written, pages, arena_size, page_size),
        r matches Ok(p) ==> bytes_of(p.end as int, page_size) <= grown_size(arena_size, p),
        r matches Ok(p) ==> grown_size(arena_size, p) >= arena_size,
        r matches Ok(p) ==> (p.grow_to matches Some(s) ==> s % GROWTH_STEP == 0),
{
    if pages > u64::MAX - written {
        assert(bytes_of(written + pages, page_size) > u64::MAX) by (nonlinear_arith)
            requires written + pages > u64::MAX, page_size >= 1;
        return Err(GrowError::TooLarge);
    }
    let end: u64 = written + pages;
    assert(end * page_size <= u64::MAX * u64::MAX) by (nonlinear_arith)
        requires end <= u64::MAX, page_size <= u64::MAX;
    let need: u128 = (end as u128) * (page_size as u128);
    if need > u64::MAX as u128 {
        return Err(GrowError::TooLarge);
    }
    if (arena_size as u128) < need {
        proof {
            lemma_round_up(need as int, GROWTH_STEP as int);
        }
        let step: u128 = GROWTH_STEP as u128;
        let size: u128 = (need + step - 1) / step * step;
        if size > u64::MAX as u128 {
            return Err(GrowError::TooLarge);
        }
        Ok(WritePlan { start: written, end, grow_to: Some(size as u64) })
    } else {
        Ok(WritePlan { start: written, end, grow_to: None })
    }
}

/// What the threads share: the arena's size in bytes and how many pages the
/// writer has published.
#[derive(PartialEq, Eq, Structural, Debug, Clone, Copy)]
pub struct HighWater {
    pub arena_size: u64,
    pub written: u64,
}

impl HighWater {
    /// Every published page lies inside the arena.
    pub open spec fn covered(&self, page_size: u64) -> bool {
        bytes_of(self.written as int, page_size) <= self.arena_size
    }
}

/// The shared state after the writer has carried out one plan for `pages`
/// pages: the arena grown first, then the new high-water page published.
pub open spec fn after_write(s: HighWater, pages: u64, page_size: u64) -> Option<HighWater> {
    match plan_of(s.written, pages, s.arena_size, page_size) {
        Ok(p) => Some(HighWater { arena_size: grown_size(s.arena_size, p), written: p.end }),
        Err(_) => None,
    }
}

/// The shared state after the writer's iterations for each page count of
/// `steps`, in order; `None` where one of them could not grow the arena.
pub open spec fn after_writes(s: HighWater, steps: Seq<u64>, page_size: u64) -> Option<HighWater>
    decreases steps.len(),
{
    if steps.len() == 0 {
        Some(s)
    } else {
        match after_write(s, steps[0], page_size) {
            Some(n) => after_writes(n, steps.drop_first(), page_size),
            None => None,
        }
    }
}

/// One writer iteration keeps every published page inside the arena at each
/// point a reader can look: after the growth, before the publication, the
/// old count is still covered, and after the publication the new one is.
/// The arena never shrinks and the count never falls.
pub proof fn lemma_write_keeps_high_water(s: HighWater, pages: u64, page_size: u64)
    requires
        page_size > 0,
        s.covered(page_size),
    ensures
        plan_of(s.written, pages, s.arena_size, page_size) matches Ok(p) ==> {
            &&& grown_size(s.arena_size, p) >= s.arena_size
            &&& bytes_of(s.written as int, page_size) <= grown_size(s.arena_size, p)
            &&& p.end >= s.written
            &&& bytes_of(p.end as int, page_size) <= grown_size(s.arena_size, p)
        },
        after_write(s, pages, page_size) matches Some(n) ==> n.covered(page_size),
{
    let p = plan_of(s.written, pages, s.arena_size, page_size);
    let need = bytes_of(s.written + pages, page_size);
    assert(bytes_of(s.written as int, page_size) <= need) by (nonlinear_arith)
        requires need == (s.written + pages) * page_size, pages >= 0, page_size >= 0;
    assert(s.written + pages <= need) by (nonlinear_arith)
        requires need == (s.written + pages) * page_size, s.written + pages >= 0, page_size >= 1;
    if p is Ok {
        if s.arena_size < need {
            lemma_round_up(need, GROWTH_STEP as int);
        }
    }
}

/// After any sequence of writer iterations, every published page lies
/// inside the arena.
pub proof fn lemma_writes_keep_high_water(s: HighWater, steps: Seq<u64>, page_size: u64)
    requires
        page_size > 0,
        s.covered(page_size),
    ensures
        after_writes(s, steps, page_size) matches Some(n) ==> n.covered(page_size) && n.written
            >= s.written && n.arena_size >= s.arena_size,
    decreases steps.len(),
{
    if steps.len() > 0 {
        lemma_write_keeps_high_water(s, steps[0], page_size);
        if let Some(n) = after_write(s, steps[0], page_size) {
            lemma_writes_keep_high_water(n, steps.drop_first(), page_size);
        }
    }
}

} // verus!
