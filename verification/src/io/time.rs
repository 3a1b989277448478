use vstd::prelude::*;

verus! {

/// A point in time: seconds and microseconds.
#[derive(Clone, Copy, PartialEq, Eq, Debug)]
pub struct Timeval {
    pub tv_sec: i64,
    pub tv_usec: i64,
}

/// A time zone (not filled in by `gettimeofday`).
#[derive(Clone, Copy, PartialEq, Eq, Debug)]
pub struct Timezone {
    pub tz_minuteswest: i32,
    pub tz_dsttime: i32,
}

/// Clock ticks per second.
pub const TICKS_PER_SECOND: u64 = 1000;

/// The time that `gettimeofday` reports for a tick count: whole seconds, and
/// the remaining ticks as microseconds.
pub fn timeval_from_ticks(ticks: u64) -> (r: Timeval)
    ensures
        r.tv_sec == ticks / TICKS_PER_SECOND,
        r.tv_usec == (ticks % TICKS_PER_SECOND) * (1_000_000u64 / TICKS_PER_SECOND),
{
    let seconds = ticks / TICKS_PER_SECOND;
    let microseconds = (ticks % TICKS_PER_SECOND) * (1_000_000 / TICKS_PER_SECOND);
    Timeval { tv_sec: seconds as i64, tv_usec: microseconds as i64 }
}

/// The seconds and microseconds together come to the same time as the ticks:
/// `tv_sec` seconds and `tv_usec` microseconds are `ticks` milliseconds.
pub proof fn lemma_timeval_total(ticks: u64)
    ensures
        (ticks / TICKS_PER_SECOND) * 1_000_000 + (ticks % TICKS_PER_SECOND) * (1_000_000u64 / TICKS_PER_SECOND)
            == ticks * 1000,
{
    vstd::arithmetic::div_mod::lemma_fundamental_div_mod(ticks as int, 1000);
    assert((ticks / 1000) * 1_000_000 + (ticks % 1000) * 1000 == ticks * 1000) by (nonlinear_arith)
        requires ticks == 1000 * (ticks / 1000) + ticks % 1000;
}

} // verus!
