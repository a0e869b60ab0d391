//! Once a second: rates and loads from running counters.

use vstd::prelude::*;

use crate::cycles::{permille_over, share, SYS_CLK_HZ};

verus! {

/// Polls between two reports.
pub const POLLS_PER_REPORT: u32 = 1000;

/// The difference of two readings of a wrapping counter.
pub open spec fn since(prev: u32, now: u32) -> u32 {
    ((now - prev) % 0x1_0000_0000) as u32
}

/// A count over `elapsed_us`, per second.
pub open spec fn per_second(delta: u32, elapsed_us: u64) -> int {
    delta * 1_000_000 / (elapsed_us as int)
}

/// A number of bytes over `elapsed_us`, in KiB per second.
pub open spec fn kib_per_second(delta: u32, elapsed_us: u64) -> int {
    per_second(delta, elapsed_us) / 1024
}

/// Keep the low 32 bits.
pub open spec fn low32(n: int) -> u32 {
    (n % 0x1_0000_0000) as u32
}

/// A count over `elapsed_us`, per second.
pub fn rate(delta: u32, elapsed_us: u64) -> (r: u32)
    requires
        elapsed_us > 0,
    ensures
        r == low32(per_second(delta, elapsed_us)),
{
    let q: u64 = delta as u64 * 1_000_000 / elapsed_us;
    (q % 0x1_0000_0000) as u32
}

/// A number of bytes over `elapsed_us`, in KiB per second.
pub fn rate_kib(delta: u32, elapsed_us: u64) -> (r: u32)
    requires
        elapsed_us > 0,
    ensures
        r == low32(kib_per_second(delta, elapsed_us)),
{
    let q: u64 = delta as u64 * 1_000_000 / elapsed_us / 1024;
    (q % 0x1_0000_0000) as u32
}

/// A number of bytes over `elapsed_us`, in thousands per second.
pub fn rate_kb(delta: u32, elapsed_us: u64) -> (r: u32)
    requires
        elapsed_us > 0,
    ensures
        r == low32(kb_per_second(delta, elapsed_us)),
{
    let q: u64 = delta as u64 * 1_000 / elapsed_us;
    (q % 0x1_0000_0000) as u32
}

/// The difference of two readings of a wrapping counter.
fn diff(prev: u32, now: u32) -> (r: u32)
    ensures
        r == since(prev, now),
{
    now.wrapping_sub(prev)
}

/// The rate in KiB per second from one reading of a byte counter to the next.
fn kib_over(prev: u32, now: u32, elapsed_us: u64) -> (r: u32)
    requires
        elapsed_us > 0,
    ensures
        r == low32(kib_per_second(since(prev, now), elapsed_us)),
{
    rate_kib(diff(prev, now), elapsed_us)
}

/// The load from one reading of a cycle counter to the next.
fn load_over(prev: u32, now: u32, elapsed_us: u64) -> (r: u32)
    requires
        elapsed_us * SYS_CLK_HZ <= u64::MAX,
    ensures
        r == load(prev, now, elapsed_us),
{
    permille_over(diff(prev, now), elapsed_us)
}

/// The time since `last`, at least one microsecond.
pub open spec fn window_of(last: u64, now: u64) -> u64 {
    let d = (now - last) % 0x1_0000_0000_0000_0000;
    if d == 0 {
        1
    } else {
        d as u64
    }
}

/// The time since `last`, at least one microsecond.
pub fn window(last: u64, now: u64) -> (r: u64)
    ensures
        r == window_of(last, now),
        r > 0,
{
    let d: u64 = now.wrapping_sub(last);
    if d == 0 {
        1
    } else {
        d
    }
}

/// Counters at one moment.
#[derive(Clone, Copy, Debug, PartialEq, Eq, Structural)]
pub struct Sample {
    pub lan_tx: u32,
    pub lan_rx: u32,
    /// Cycles spent in the wireless transport.
    pub spi: u32,
    /// Cycles spent in the LAN stack.
    pub net: u32,
    pub to_wan: u32,
    pub to_lan: u32,
    pub sent: u32,
    /// Flows tracked.
    pub live: u32,
    /// Cycles spent in the receive interrupt.
    pub core1: u32,
    /// Cycles spent forwarding.
    pub fwd: u32,
}

/// Rates and loads over a window.
#[derive(Clone, Copy, Debug, PartialEq, Eq, Structural)]
pub struct RouterRates {
    pub tx_kbs: u32,
    pub rx_kbs: u32,
    pub spi0: u32,
    pub net0: u32,
    pub up_kbs: u32,
    pub dn_kbs: u32,
    pub pps: u32,
    pub cpu1: u32,
    pub cpu0: u32,
    pub ct_hwm: u32,
}

/// What the reports carry from one to the next.
#[derive(Clone, Copy, Debug, PartialEq, Eq, Structural)]
pub struct Monitor {
    /// Polls so far.
    pub polls: u32,
    pub last_us: u64,
    pub prev: Sample,
    /// Most flows tracked at any report.
    pub ct_hwm: u32,
}

/// The load of a core that was busy between two readings of a cycle counter.
pub open spec fn load(prev: u32, now: u32, elapsed_us: u64) -> u32 {
    low32(share(since(prev, now), elapsed_us))
}

/// The rates from one sample to the next.
pub open spec fn rates_of(p: Sample, s: Sample, hwm: u32, e: u64) -> RouterRates {
    RouterRates {
        tx_kbs: low32(kib_per_second(since(p.lan_tx, s.lan_tx), e)),
        rx_kbs: low32(kib_per_second(since(p.lan_rx, s.lan_rx), e)),
        spi0: load(p.spi, s.spi, e),
        net0: load(p.net, s.net, e),
        up_kbs: low32(kib_per_second(since(p.to_wan, s.to_wan), e)),
        dn_kbs: low32(kib_per_second(since(p.to_lan, s.to_lan), e)),
        pps: low32(per_second(since(p.sent, s.sent), e)),
        cpu1: load(p.core1, s.core1, e),
        cpu0: load(p.fwd, s.fwd, e),
        ct_hwm: if s.live > hwm {
            s.live
        } else {
            hwm
        },
    }
}

impl Sample {
    /// All counters at zero.
    pub fn zero() -> (r: Sample)
        ensures
            r == (Sample {
                lan_tx: 0,
                lan_rx: 0,
                spi: 0,
                net: 0,
                to_wan: 0,
                to_lan: 0,
                sent: 0,
                live: 0,
                core1: 0,
                fwd: 0,
            }),
    {
        Sample {
            lan_tx: 0,
            lan_rx: 0,
            spi: 0,
            net: 0,
            to_wan: 0,
            to_lan: 0,
            sent: 0,
            live: 0,
            core1: 0,
            fwd: 0,
        }
    }
}

impl Monitor {
    /// A monitor that starts at `now_us`.
    pub fn new(now_us: u64) -> (r: Monitor)
        ensures
            r.polls == 0,
            r.last_us == now_us,
            r.ct_hwm == 0,
            r.prev == (Sample {
                lan_tx: 0,
                lan_rx: 0,
                spi: 0,
                net: 0,
                to_wan: 0,
                to_lan: 0,
                sent: 0,
                live: 0,
                core1: 0,
                fwd: 0,
            }),
    {
        Monitor { polls: 0, last_us: now_us, prev: Sample::zero(), ct_hwm: 0 }
    }

    /// Count a poll; true every thousandth, when a report is due.
    pub fn poll(&mut self) -> (due: bool)
        ensures
            (*final(self), due) == polled(*old(self)),
    {
        self.polls = self.polls.wrapping_add(1);
        self.polls % POLLS_PER_REPORT == 0
    }

    /// Heartbeats so far: thousands of polls.
    pub fn heartbeat(&self) -> (r: u32)
        ensures
            r == self.polls / POLLS_PER_REPORT,
    {
        self.polls / POLLS_PER_REPORT
    }

    /// Rates and loads since the last report, up to `now_us`.
    pub fn report(&mut self, s: &Sample, now_us: u64) -> (r: RouterRates)
        requires
            window_of(old(self).last_us, now_us) * SYS_CLK_HZ <= u64::MAX,
        ensures
            r == rates_of(
                old(self).prev,
                *s,
                old(self).ct_hwm,
                window_of(old(self).last_us, now_us),
            ),
            *final(self) == (Monitor {
                polls: old(self).polls,
                last_us: now_us,
                prev: *s,
                ct_hwm: r.ct_hwm,
            }),
    {
        let e: u64 = window(self.last_us, now_us);
        let p: Sample = self.prev;
        if s.live > self.ct_hwm {
            self.ct_hwm = s.live;
        }
        let r = RouterRates {
            tx_kbs: kib_over(p.lan_tx, s.lan_tx, e),
            rx_kbs: kib_over(p.lan_rx, s.lan_rx, e),
            spi0: load_over(p.spi, s.spi, e),
            net0: load_over(p.net, s.net, e),
            up_kbs: kib_over(p.to_wan, s.to_wan, e),
            dn_kbs: kib_over(p.to_lan, s.to_lan, e),
            pps: rate(diff(p.sent, s.sent), e),
            cpu1: load_over(p.core1, s.core1, e),
            cpu0: load_over(p.fwd, s.fwd, e),
            ct_hwm: self.ct_hwm,
        };
        self.last_us = now_us;
        self.prev = *s;
        r
    }
}

/// Rates survive a wrap of the counters: what was counted since is what was added.
pub proof fn lemma_since_across_wrap(prev: u32, added: u32)
    ensures
        since(prev, ((prev + added) % 0x1_0000_0000) as u32) == added,
{
}

/// What a rate is: as many as come in a million microseconds, rounded down, if they keep
/// coming as they did.
pub proof fn lemma_rate(delta: u32, elapsed_us: u64)
    requires
        elapsed_us > 0,
    ensures
        per_second(delta, elapsed_us) * elapsed_us <= delta * 1_000_000,
        delta * 1_000_000 < (per_second(delta, elapsed_us) + 1) * elapsed_us,
        kib_per_second(delta, elapsed_us) * 1024 <= per_second(delta, elapsed_us),
        per_second(delta, elapsed_us) < (kib_per_second(delta, elapsed_us) + 1) * 1024,
{
    let a: int = delta * 1_000_000;
    let e: int = elapsed_us as int;
    vstd::arithmetic::div_mod::lemma_fundamental_div_mod(a, e);
    vstd::arithmetic::div_mod::lemma_mod_bound(a, e);
    assert(e * (a / e) == (a / e) * e) by (nonlinear_arith);
    assert((a / e + 1) * e == (a / e) * e + e) by (nonlinear_arith);
}

/// The window is the time that has passed, but never nothing.
pub proof fn lemma_window(last: u64, passed: u64)
    requires
        last + passed <= u64::MAX,
    ensures
        window_of(last, (last + passed) as u64) == if passed > 0 {
            passed
        } else {
            1
        },
{
}

/// `n` as far as 32 bits hold it.
pub open spec fn is_low32(n: int, r: u32) -> bool {
    (n - r) % 0x1_0000_0000 == 0
}

proof fn lemma_low32(n: int)
    ensures
        is_low32(n, low32(n)),
{
    assert((n - n % 0x1_0000_0000) % 0x1_0000_0000 == 0);
}

/// Each rate and load of a report is that of its own counter, from the last report to this
/// one: bytes in KiB per second, frames per second, busy cycles as a share of the time; and
/// the most flows seen at any report.
pub proof fn lemma_report(p: Sample, s: Sample, hwm: u32, e: u64)
    requires
        e > 0,
    ensures
        ({
            let r = rates_of(p, s, hwm, e);
            &&& is_low32(kib_per_second(since(p.lan_tx, s.lan_tx), e), r.tx_kbs)
            &&& is_low32(kib_per_second(since(p.lan_rx, s.lan_rx), e), r.rx_kbs)
            &&& is_low32(kib_per_second(since(p.to_wan, s.to_wan), e), r.up_kbs)
            &&& is_low32(kib_per_second(since(p.to_lan, s.to_lan), e), r.dn_kbs)
            &&& is_low32(per_second(since(p.sent, s.sent), e), r.pps)
            &&& is_low32(share(since(p.spi, s.spi), e), r.spi0)
            &&& is_low32(share(since(p.net, s.net), e), r.net0)
            &&& is_low32(share(since(p.core1, s.core1), e), r.cpu1)
            &&& is_low32(share(since(p.fwd, s.fwd), e), r.cpu0)
            &&& r.ct_hwm >= hwm && r.ct_hwm >= s.live
            &&& r.ct_hwm == hwm || r.ct_hwm == s.live
        }),
{
    lemma_low32(kib_per_second(since(p.lan_tx, s.lan_tx), e));
    lemma_low32(kib_per_second(since(p.lan_rx, s.lan_rx), e));
    lemma_low32(kib_per_second(since(p.to_wan, s.to_wan), e));
    lemma_low32(kib_per_second(since(p.to_lan, s.to_lan), e));
    lemma_low32(per_second(since(p.sent, s.sent), e));
    lemma_low32(share(since(p.spi, s.spi), e) as int);
    lemma_low32(share(since(p.net, s.net), e) as int);
    lemma_low32(share(since(p.core1, s.core1), e) as int);
    lemma_low32(share(since(p.fwd, s.fwd), e) as int);
}

/// A number of bytes over `elapsed_us`, in thousands per second.
pub open spec fn kb_per_second(delta: u32, elapsed_us: u64) -> int {
    delta * 1_000 / (elapsed_us as int)
}

/// What a rate in thousands is: a thousandth of what comes in a million microseconds,
/// rounded down.
pub proof fn lemma_rate_kb(delta: u32, elapsed_us: u64)
    requires
        elapsed_us > 0,
    ensures
        kb_per_second(delta, elapsed_us) * elapsed_us <= delta * 1_000,
        delta * 1_000 < (kb_per_second(delta, elapsed_us) + 1) * elapsed_us,
{
    let a: int = delta * 1_000;
    let e: int = elapsed_us as int;
    vstd::arithmetic::div_mod::lemma_fundamental_div_mod(a, e);
    vstd::arithmetic::div_mod::lemma_mod_bound(a, e);
    assert(e * (a / e) == (a / e) * e) by (nonlinear_arith);
    assert((a / e + 1) * e == (a / e) * e + e) by (nonlinear_arith);
}

/// The monitor after a poll, and whether a report is due.
pub open spec fn polled(m: Monitor) -> (Monitor, bool) {
    let polls = ((m.polls + 1) % 0x1_0000_0000) as u32;
    (Monitor { polls, ..m }, polls % POLLS_PER_REPORT == 0)
}

/// Every thousandth poll is one to report at, and a poll only counts.
pub proof fn lemma_polls(m: Monitor)
    requires
        m.polls < u32::MAX,
    ensures
        polled(m).0.polls == m.polls + 1,
        polled(m).1 <==> (m.polls + 1) % 1000 == 0,
        polled(m).0.last_us == m.last_us && polled(m).0.prev == m.prev,
        polled(m).0.ct_hwm == m.ct_hwm,
{
}

} // verus!
