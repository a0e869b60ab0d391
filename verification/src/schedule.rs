//! Deadlines of the polling loops, in microseconds.

use vstd::prelude::*;

use crate::wire::Ipv4Address;

verus! {

/// Link pulses: every 16 ms.
pub const NLP_PERIOD_US: u64 = 16_000;

/// Broadcasts: every 200 ms.
pub const UDP_PERIOD_US: u64 = 200_000;

/// Log, ping and sweep: every second.
pub const SECOND_US: u64 = 1_000_000;

/// Watchdog timeout.
pub const WDT_TIMEOUT_US: u32 = 6_000_000;

/// Watchdog feeding interval, in milliseconds.
pub const WDT_FEED_MS: u64 = 500;

/// Sum, wrapping.
pub open spec fn wrap64(a: u64, b: u64) -> u64 {
    ((a + b) % 0x1_0000_0000_0000_0000) as u64
}

/// A deadline at a fixed rate: when it is due it moves on by its period, so that a late
/// poll delays one event and not those after it.
pub fn due_every(next: &mut u64, now: u64, period: u64) -> (due: bool)
    ensures
        due == (now >= *old(next)),
        *final(next) == moved(*old(next), now, period),
{
    if now >= *next {
        *next = next.wrapping_add(period);
        true
    } else {
        false
    }
}

/// A deadline after a fixed delay: when it is due it moves to `now` plus its period.
pub fn due_after(next: &mut u64, now: u64, period: u64) -> (due: bool)
    requires
        now + period <= u64::MAX,
    ensures
        due == (now >= *old(next)),
        *final(next) == put_off(*old(next), now, period),
{
    if now >= *next {
        *next = now + period;
        true
    } else {
        false
    }
}

/// The loop of the wired image: deadlines and counts.
#[derive(Clone, Copy, Debug, PartialEq, Eq, Structural)]
pub struct NicLoop {
    pub next_nlp: u64,
    pub next_udp: u64,
    pub next_ping: u64,
    pub next_log: u64,
    /// Link pulses since the last log.
    pub nlps_sent: u32,
    pub udp_sent: u32,
    pub log_tick: u32,
    pub led: bool,
}

/// What a log tells.
#[derive(Clone, Copy, Debug, PartialEq, Eq, Structural)]
pub struct LogTick {
    pub tick: u32,
    pub nlps: u32,
    pub udp_sent: u32,
    pub led: bool,
}

/// What is due in a poll, in the order in which it is done.
#[derive(Clone, Copy, Debug, PartialEq, Eq, Structural)]
pub struct NicTick {
    pub nlp: bool,
    /// The number of the broadcast to send.
    pub udp: Option<u32>,
    pub ping: bool,
    pub log: Option<LogTick>,
}

/// One more, wrapping.
pub open spec fn bump32(n: u32) -> u32 {
    ((n + 1) % 0x1_0000_0000) as u32
}

/// What is due at `now`.
pub open spec fn nic_due(l: NicLoop, now: u64) -> NicTick {
    let nlps = if now >= l.next_nlp {
        bump32(l.nlps_sent)
    } else {
        l.nlps_sent
    };
    let udps = if now >= l.next_udp {
        bump32(l.udp_sent)
    } else {
        l.udp_sent
    };
    NicTick {
        nlp: now >= l.next_nlp,
        udp: if now >= l.next_udp {
            Some(l.udp_sent)
        } else {
            None
        },
        ping: now >= l.next_ping,
        log: if now >= l.next_log {
            Some(LogTick { tick: bump32(l.log_tick), nlps, udp_sent: udps, led: !l.led })
        } else {
            None
        },
    }
}

/// A deadline after a poll at `now`.
pub open spec fn moved(next: u64, now: u64, period: u64) -> u64 {
    if now >= next {
        wrap64(next, period)
    } else {
        next
    }
}

/// The loop after a poll at `now`. A log starts the count of link pulses afresh.
pub open spec fn nic_after(l: NicLoop, now: u64) -> NicLoop {
    NicLoop {
        next_nlp: moved(l.next_nlp, now, NLP_PERIOD_US),
        next_udp: moved(l.next_udp, now, UDP_PERIOD_US),
        next_ping: moved(l.next_ping, now, SECOND_US),
        next_log: moved(l.next_log, now, SECOND_US),
        nlps_sent: if now >= l.next_log {
            0
        } else if now >= l.next_nlp {
            bump32(l.nlps_sent)
        } else {
            l.nlps_sent
        },
        udp_sent: if now >= l.next_udp {
            bump32(l.udp_sent)
        } else {
            l.udp_sent
        },
        log_tick: if now >= l.next_log {
            bump32(l.log_tick)
        } else {
            l.log_tick
        },
        led: if now >= l.next_log {
            !l.led
        } else {
            l.led
        },
    }
}

impl NicLoop {
    /// A loop that starts at `now`.
    pub fn new(now: u64) -> (r: NicLoop)
        requires
            now + SECOND_US <= u64::MAX,
        ensures
            r == (NicLoop {
                next_nlp: now,
                next_udp: (now + UDP_PERIOD_US) as u64,
                next_ping: (now + SECOND_US) as u64,
                next_log: (now + SECOND_US) as u64,
                nlps_sent: 0,
                udp_sent: 0,
                log_tick: 0,
                led: false,
            }),
    {
        NicLoop {
            next_nlp: now,
            next_udp: now + UDP_PERIOD_US,
            next_ping: now + SECOND_US,
            next_log: now + SECOND_US,
            nlps_sent: 0,
            udp_sent: 0,
            log_tick: 0,
            led: false,
        }
    }

    /// A poll at `now`: what is due.
    pub fn poll(&mut self, now: u64) -> (r: NicTick)
        ensures
            r == nic_due(*old(self), now),
            *final(self) == nic_after(*old(self), now),
    {
        let nlp: bool = due_every(&mut self.next_nlp, now, NLP_PERIOD_US);
        if nlp {
            self.nlps_sent = self.nlps_sent.wrapping_add(1);
        }
        let mut udp: Option<u32> = None;
        if due_every(&mut self.next_udp, now, UDP_PERIOD_US) {
            udp = Some(self.udp_sent);
            self.udp_sent = self.udp_sent.wrapping_add(1);
        }
        let ping: bool = due_every(&mut self.next_ping, now, SECOND_US);
        let mut log: Option<LogTick> = None;
        if due_every(&mut self.next_log, now, SECOND_US) {
            self.log_tick = self.log_tick.wrapping_add(1);
            self.led = !self.led;
            log = Some(
                LogTick {
                    tick: self.log_tick,
                    nlps: self.nlps_sent,
                    udp_sent: self.udp_sent,
                    led: self.led,
                },
            );
            self.nlps_sent = 0;
        }
        NicTick { nlp, udp, ping, log }
    }
}

/// The link is kept up: a loop that is polled at every multiple of the period, and has
/// not fallen behind, sends a pulse at each of them.
pub proof fn lemma_pulse_each_period(l: NicLoop)
    requires
        l.next_nlp + NLP_PERIOD_US <= u64::MAX,
    ensures
        nic_due(l, l.next_nlp).nlp,
        nic_after(l, l.next_nlp).next_nlp == l.next_nlp + NLP_PERIOD_US,
        forall|now: u64| now < l.next_nlp ==> !(#[trigger] nic_due(l, now)).nlp,
{
}

/// The loop of the router's WAN side.
#[derive(Clone, Copy, Debug, PartialEq, Eq, Structural)]
pub struct WanLoop {
    pub next_nlp: u64,
    pub next_ping: u64,
    /// The gateway at the last poll.
    pub prev_gw: Option<Ipv4Address>,
}

impl WanLoop {
    /// A loop that starts at `now`.
    pub fn new(now: u64) -> (r: WanLoop)
        ensures
            r == (WanLoop { next_nlp: now, next_ping: now, prev_gw: None }),
    {
        WanLoop { next_nlp: now, next_ping: now, prev_gw: None }
    }

    /// True if the gateway is new, and is to be asked for its hardware address.
    pub fn gateway_changed(&mut self, gw: Option<Ipv4Address>) -> (r: bool)
        ensures
            r == is_new_gateway(old(self).prev_gw, gw),
            *final(self) == (WanLoop { prev_gw: gw, ..*old(self) }),
    {
        let same: bool = match (gw, self.prev_gw) {
            (Some(a), Some(b)) => a == b,
            (None, None) => true,
            _ => false,
        };
        self.prev_gw = gw;
        gw.is_some() && !same
    }

    /// True if a link pulse is due.
    pub fn nlp_due(&mut self, now: u64) -> (r: bool)
        requires
            now + NLP_PERIOD_US <= u64::MAX,
        ensures
            r == (now >= old(self).next_nlp),
            *final(self) == wan_pulsed(*old(self), now),
    {
        due_after(&mut self.next_nlp, now, NLP_PERIOD_US)
    }

    /// True if the work of each second is due: ping, lookup, gateway, sweep.
    pub fn second_due(&mut self, now: u64) -> (r: bool)
        requires
            now + SECOND_US <= u64::MAX,
        ensures
            r == (now >= old(self).next_ping),
            *final(self) == wan_worked(*old(self), now),
    {
        due_after(&mut self.next_ping, now, SECOND_US)
    }
}

/// A clock in milliseconds that has no negative times.
pub fn now_ms(total_millis: i64) -> (r: u64)
    ensures
        r == if total_millis < 0 {
            0
        } else {
            total_millis as int
        },
{
    if total_millis < 0 {
        0
    } else {
        total_millis as u64
    }
}

/// A deadline at a fixed rate: it stays until it is due, and then moves on by its period.
pub proof fn lemma_deadline(next: u64, now: u64, period: u64)
    requires
        next + period <= u64::MAX,
    ensures
        now < next ==> moved(next, now, period) == next,
        now >= next ==> moved(next, now, period) == next + period,
{
}

/// `b` is one more than `a`, or both have wrapped.
pub open spec fn is_next(a: u32, b: u32) -> bool {
    b == a + 1 || a == u32::MAX && b == 0
}

/// What a poll does. Each deadline goes by its own period: link pulses every 16 ms,
/// broadcasts every 200 ms, pings and logs every second. A broadcast has the number of those
/// before it. A log tells of the pulses since the last one and of all broadcasts, with those
/// of this poll, turns the lamp over, and starts the count of pulses afresh.
pub proof fn lemma_nic_poll(l: NicLoop, now: u64)
    ensures
        ({
            let d = nic_due(l, now);
            let a = nic_after(l, now);
            let nlp = now >= l.next_nlp;
            let udp = now >= l.next_udp;
            let log = now >= l.next_log;
            &&& d.nlp == nlp
            &&& d.udp is Some <==> udp
            &&& udp ==> d.udp == Some(l.udp_sent)
            &&& d.ping <==> now >= l.next_ping
            &&& d.log is Some <==> log
            &&& a.next_nlp == moved(l.next_nlp, now, 16_000)
            &&& a.next_udp == moved(l.next_udp, now, 200_000)
            &&& a.next_ping == moved(l.next_ping, now, 1_000_000)
            &&& a.next_log == moved(l.next_log, now, 1_000_000)
            &&& if udp {
                is_next(l.udp_sent, a.udp_sent)
            } else {
                a.udp_sent == l.udp_sent
            }
            &&& log ==> {
                let t = d.log->0;
                &&& is_next(l.log_tick, a.log_tick)
                &&& t.tick == a.log_tick
                &&& a.led == !l.led && t.led == a.led
                &&& if nlp {
                    is_next(l.nlps_sent, t.nlps)
                } else {
                    t.nlps == l.nlps_sent
                }
                &&& t.udp_sent == a.udp_sent
                &&& a.nlps_sent == 0
            }
            &&& !log ==> {
                &&& a.log_tick == l.log_tick && a.led == l.led
                &&& if nlp {
                    is_next(l.nlps_sent, a.nlps_sent)
                } else {
                    a.nlps_sent == l.nlps_sent
                }
            }
        }),
{
}

/// A deadline after a fixed delay, after a poll at `now`.
pub open spec fn put_off(next: u64, now: u64, period: u64) -> u64 {
    if now >= next {
        (now + period) as u64
    } else {
        next
    }
}

/// A deadline after a fixed delay stays until it is due, and is then a period from now.
pub proof fn lemma_put_off(next: u64, now: u64, period: u64)
    requires
        now + period <= u64::MAX,
    ensures
        now < next ==> put_off(next, now, period) == next,
        now >= next ==> put_off(next, now, period) == now + period,
{
}

/// The router's WAN side keeps its own deadlines, at the same intervals: a link pulse at
/// least 16 ms after the last, the work of a second at least a second after.
pub proof fn lemma_wan_deadlines(l: WanLoop, now: u64)
    requires
        now + 1_000_000 <= u64::MAX,
    ensures
        wan_pulsed(l, now).next_nlp == if now >= l.next_nlp {
            (now + 16_000) as u64
        } else {
            l.next_nlp
        },
        wan_pulsed(l, now).next_ping == l.next_ping && wan_pulsed(l, now).prev_gw == l.prev_gw,
        wan_worked(l, now).next_ping == if now >= l.next_ping {
            (now + 1_000_000) as u64
        } else {
            l.next_ping
        },
        wan_worked(l, now).next_nlp == l.next_nlp && wan_worked(l, now).prev_gw == l.prev_gw,
{
}

/// The loop after a look at its link pulse.
pub open spec fn wan_pulsed(l: WanLoop, now: u64) -> WanLoop {
    WanLoop { next_nlp: put_off(l.next_nlp, now, NLP_PERIOD_US), ..l }
}

/// The loop after a look at the work of a second.
pub open spec fn wan_worked(l: WanLoop, now: u64) -> WanLoop {
    WanLoop { next_ping: put_off(l.next_ping, now, SECOND_US), ..l }
}

/// The gateway is another than at the last poll.
pub open spec fn is_new_gateway(prev: Option<Ipv4Address>, gw: Option<Ipv4Address>) -> bool {
    gw is Some && gw != prev
}

/// A gateway is new where there was none or another before; no gateway never is.
pub proof fn lemma_new_gateway(prev: Option<Ipv4Address>, gw: Option<Ipv4Address>)
    ensures
        gw is None ==> !is_new_gateway(prev, gw),
        gw is Some && prev is None ==> is_new_gateway(prev, gw),
        gw is Some && prev is Some ==> (is_new_gateway(prev, gw) <==> gw->0 != prev->0),
{
}

} // verus!
