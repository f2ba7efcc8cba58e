use vstd::prelude::*;
use crate::rate::{RateError, parse_bps, rate_result};

verus! {

/// What the workload runs: a writer when `write_bps` is not zero, and
/// `readers` readers of `read_bps` bytes per second each.
#[derive(PartialEq, Eq, Structural, Debug, Clone, Copy)]
pub struct ThreadPlan {
    pub write_bps: u64,
    pub read_bps: u64,
    pub readers: u64,
}

impl ThreadPlan {
    /// Whether a writer thread runs.
    pub fn has_writer(&self) -> (r: bool)
        ensures
            r == (self.write_bps > 0),
    {
        self.write_bps > 0
    }
}

/// Each reader's share of `rbps` among `count` readers, rounded up; zero
/// when there are no readers.
pub open spec fn share_of(rbps: u64, count: u64) -> int {
    if count == 0 {
        0
    } else {
        (rbps + count - 1) / count as int
    }
}

/// The plan for the resolved rates `wbps` and `rbps` and `count` readers.
pub open spec fn plan_of(wbps: u64, rbps: u64, count: u64) -> ThreadPlan {
    ThreadPlan {
        write_bps: wbps,
        read_bps: share_of(rbps, count) as u64,
        readers: if share_of(rbps, count) > 0 {
            count
        } else {
            0
        },
    }
}

/// Divides a read rate evenly among `count` readers, rounding each share up.
pub fn reader_share(rbps: u64, count: u64) -> (r: u64)
    ensures
        r == share_of(rbps, count),
        count > 0 ==> r * count >= rbps,
        count > 0 ==> r <= rbps,
{
    if count == 0 {
        return 0;
    }
    let q: u64 = rbps / count;
    proof {
        vstd::arithmetic::div_mod::lemma_fundamental_div_mod(rbps as int, count as int);
        if rbps % count != 0 {
            assert(q < u64::MAX) by (nonlinear_arith)
                requires rbps == count * q + rbps % count, 0 < rbps % count < count, rbps <= u64::MAX;
        }
    }
    let r: u64 = if rbps % count == 0 {
        q
    } else {
        q + 1
    };
    proof {
        let c = count as int;
        let x = rbps as int;
        vstd::arithmetic::div_mod::lemma_fundamental_div_mod(x, c);
        let m = x % c;
        if m == 0 {
            assert(x + c - 1 == c * q + (c - 1));
            vstd::arithmetic::div_mod::lemma_div_multiples_vanish_fancy(q as int, c - 1, c);
        } else {
            assert(x + c - 1 == c * (q + 1) + (m - 1)) by (nonlinear_arith)
                requires x == c * q + m;
            vstd::arithmetic::div_mod::lemma_div_multiples_vanish_fancy(q + 1, m - 1, c);
        }
        assert(r * c >= x) by (nonlinear_arith)
            requires x == c * q + m, 0 <= m < c, r == if m == 0 { q as int } else { q + 1 };
        assert(r <= x) by (nonlinear_arith)
            requires x == c * q + m, 0 <= m < c, c >= 1, q >= 0, r == if m == 0 { q as int } else { q + 1 };
    }
    r
}

/// Resolves the write rate and then the read rate, the first against the
/// baseline named `write_key` and the second against the one named
/// `read_key`, and plans the threads for `count` readers. The first rate
/// that does not resolve gives the error.
pub fn plan_threads(
    write_spec: &str,
    read_spec: &str,
    count: u64,
    write_key: &str,
    read_key: &str,
    vars: &Vec<(String, String)>,
) -> (r: Result<ThreadPlan, RateError>)
    ensures
        match rate_result(write_spec@, vars@, write_key@) {
            Err(e) => r == Err::<ThreadPlan, RateError>(e),
            Ok(w) => match rate_result(read_spec@, vars@, read_key@) {
                Err(e) => r == Err::<ThreadPlan, RateError>(e),
                Ok(rd) => r == Ok::<ThreadPlan, RateError>(plan_of(w, rd, count)),
            },
        },
{
    let wbps = match parse_bps(write_spec, write_key, vars) {
        Ok(v) => v,
        Err(e) => {
            return Err(e);
        },
    };
    let rbps = match parse_bps(read_spec, read_key, vars) {
        Ok(v) => v,
        Err(e) => {
            return Err(e);
        },
    };
    let share = reader_share(rbps, count);
    Ok(ThreadPlan { write_bps: wbps, read_bps: share, readers: if share > 0 { count } else { 0 } })
}

} // verus!
