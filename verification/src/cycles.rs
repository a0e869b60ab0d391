//! CPU utilisation from cycle counters.
//!
//! A span measures the cycles between two readings of a 32-bit counter that wraps. Once
//! a second the sum is turned into a share of the time that has passed.

use vstd::prelude::*;

verus! {

/// System clock, in Hz.
pub const SYS_CLK_HZ: u32 = 240_000_000;

/// Share of `busy` cycles in `elapsed_us`, in tenths of a per cent.
pub open spec fn share(busy: u32, elapsed_us: u64) -> int {
    if elapsed_us == 0 {
        0
    } else {
        busy * 1_000_000_000 / (elapsed_us * SYS_CLK_HZ)
    }
}

/// Share of `busy_delta` cycles in `elapsed_us`, in tenths of a per cent. The time is
/// measured, because the sampling window slips under load.
pub fn permille_over(busy_delta: u32, elapsed_us: u64) -> (r: u32)
    requires
        elapsed_us * SYS_CLK_HZ <= u64::MAX,
    ensures
        r == share(busy_delta, elapsed_us) % 0x1_0000_0000,
{
    if elapsed_us == 0 {
        return 0;
    }
    proof {
        assert(elapsed_us * SYS_CLK_HZ > 0) by (nonlinear_arith)
            requires
                elapsed_us > 0,
                SYS_CLK_HZ > 0,
        ;
    }
    let q: u64 = busy_delta as u64 * 1_000_000_000 / (elapsed_us * SYS_CLK_HZ as u64);
    (q % 0x1_0000_0000) as u32
}

/// A core that was busy no longer than the window has a share of at most 1000, and the
/// full window is exactly 1000.
pub proof fn lemma_share_bounds(busy: u32, elapsed_us: u64)
    requires
        elapsed_us > 0,
    ensures
        busy * 1_000_000 <= elapsed_us * SYS_CLK_HZ ==> 0 <= share(busy, elapsed_us) <= 1000,
        busy * 1_000_000 == elapsed_us * SYS_CLK_HZ ==> share(busy, elapsed_us) == 1000,
{
    let d: int = elapsed_us * SYS_CLK_HZ;
    let n: int = busy * 1_000_000_000;
    assert(d > 0) by (nonlinear_arith)
        requires
            d == elapsed_us * SYS_CLK_HZ,
            elapsed_us > 0,
            SYS_CLK_HZ > 0,
    ;
    if busy * 1_000_000 <= d {
        assert(0 <= n / d <= 1000) by (nonlinear_arith)
            requires
                0 <= n <= 1000 * d,
                d > 0,
        ;
    }
    if busy * 1_000_000 == d {
        assert(n / d == 1000) by (nonlinear_arith)
            requires
                n == 1000 * d,
                d > 0,
        ;
    }
}

/// The cycles from one reading of a wrapping counter to a later one.
pub open spec fn cycles_between(start: u32, end: u32) -> u32 {
    ((end - start) % 0x1_0000_0000) as u32
}

/// A span of cycles, from the reading at which it began.
#[derive(Clone, Copy, Debug, PartialEq, Eq, Structural)]
pub struct CycleSpan {
    pub start: u32,
}

impl CycleSpan {
    /// A span that begins at reading `now`.
    pub fn new(now: u32) -> (r: CycleSpan)
        ensures
            r.start == now,
    {
        CycleSpan { start: now }
    }

    /// The cycles until reading `now`.
    pub fn finish(self, now: u32) -> (r: u32)
        ensures
            r == cycles_between(self.start, now),
    {
        now.wrapping_sub(self.start)
    }
}

/// A span is measured right across a wrap of the counter, as long as it is shorter than
/// a whole turn of it.
pub proof fn lemma_span_across_wrap(start: u32, elapsed: u32)
    ensures
        cycles_between(start, ((start + elapsed) % 0x1_0000_0000) as u32) == elapsed,
{
}

/// What a share is: `share` thousandths of the cycles that pass in the window, at 240 to the
/// microsecond, were busy, rounded down. In no time at all, nothing is.
pub proof fn lemma_share(busy: u32, elapsed_us: u64)
    ensures
        elapsed_us == 0 ==> share(busy, elapsed_us) == 0,
        elapsed_us > 0 ==> share(busy, elapsed_us) * (elapsed_us * 240) <= busy * 1000 < (share(
            busy,
            elapsed_us,
        ) + 1) * (elapsed_us * 240),
{
    if elapsed_us > 0 {
        let d: int = elapsed_us * SYS_CLK_HZ;
        let w: int = elapsed_us * 240;
        let n: int = busy * 1_000_000_000;
        let q = n / d;
        assert(d == w * 1_000_000 && d > 0);
        vstd::arithmetic::div_mod::lemma_fundamental_div_mod(n, d);
        vstd::arithmetic::div_mod::lemma_mod_bound(n, d);
        assert(d * q == 1_000_000 * (q * w)) by (nonlinear_arith)
            requires
                d == w * 1_000_000,
        ;
        assert((q + 1) * w == q * w + w) by (nonlinear_arith);
    }
}

} // verus!
