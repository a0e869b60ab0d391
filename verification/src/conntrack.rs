//! NAPT connection tracking.
//!
//! Outbound, [`Conntrack::outbound`] finds or creates a flow and returns the WAN-side id
//! (TCP/UDP port or ICMP echo id) to rewrite the source to. Inbound,
//! [`Conntrack::inbound`] matches a reply addressed to the WAN address back to its LAN
//! client. Ids are drawn from `NAT_LO..=NAT_HI` only, so a miss on the way in means that
//! the packet is for the router's own stack.

use vstd::prelude::*;

use crate::search::{
    least, lemma_least, lemma_least_found, lemma_least_none, lemma_least_same,
};
use crate::wire::{halves_of, Ipv4Address};

pub use crate::checksum::{add1c, checksum_incr};

verus! {

/// Lowest id handed out.
pub const NAT_LO: u16 = 49152;

/// Highest id handed out.
pub const NAT_HI: u16 = 65535;

/// How many ids there are to hand out.
pub const NAT_SPAN: u32 = 16384;

/// Table capacity.
pub const CT_CAP: usize = 64;

/// Idle timeouts, in milliseconds.
pub const T_TCP_EST: u64 = 60_000;

pub const T_TCP_TRANS: u64 = 10_000;

pub const T_UDP: u64 = 30_000;

pub const T_ICMP: u64 = 10_000;

/// TCP flag bits that matter for the timeout state.
pub const TCP_FIN: u8 = 0x01;

pub const TCP_SYN: u8 = 0x02;

pub const TCP_RST: u8 = 0x04;

/// Transport of a tracked flow. The id is the TCP/UDP port or the ICMP echo identifier.
#[derive(Clone, Copy, Debug, PartialEq, Eq, Structural)]
pub enum Proto {
    Tcp,
    Udp,
    IcmpEcho,
}

/// The flow is a ping, whose id is the echo identifier.
pub open spec fn is_echo(p: Proto) -> bool {
    p == Proto::IcmpEcho
}

impl Proto {
    /// True for a ping.
    pub fn is_echo(self) -> (r: bool)
        ensures
            r == is_echo(self),
    {
        self == Proto::IcmpEcho
    }

    /// The transport of pings.
    pub fn echo() -> (r: Proto)
        ensures
            is_echo(r),
    {
        Proto::IcmpEcho
    }
}

/// A flow's endpoints as seen on the LAN side: the source is the LAN client, the
/// destination the WAN peer.
#[derive(Clone, Copy, Debug, PartialEq, Eq, Structural)]
pub struct Tuple {
    pub proto: Proto,
    pub src_ip: Ipv4Address,
    pub src_id: u16,
    pub dst_ip: Ipv4Address,
    pub dst_id: u16,
}

/// Coarse TCP state, for the choice of a timeout.
#[derive(Clone, Copy, Debug, PartialEq, Eq, Structural)]
pub enum TcpState {
    /// SYN seen, handshake not complete.
    New,
    /// Data in both directions.
    Established,
    /// FIN or RST seen.
    Closing,
}

/// One slot of the table.
#[derive(Clone, Copy, Debug, PartialEq, Eq, Structural)]
pub struct Entry {
    pub used: bool,
    pub proto: Proto,
    pub lan_ip: Ipv4Address,
    pub lan_id: u16,
    pub remote_ip: Ipv4Address,
    pub remote_id: u16,
    pub wan_id: u16,
    pub last_seen: u64,
    pub tcp: TcpState,
}

/// Packet and entry counts. They wrap; `live` is the number of entries in use.
#[derive(Clone, Copy, Debug, PartialEq, Eq, Structural)]
pub struct NatCounters {
    /// Outbound packets given an id.
    pub out: u32,
    /// Inbound replies matched.
    pub inbound: u32,
    /// Entries created.
    pub new: u32,
    /// Entries reclaimed.
    pub evict: u32,
    /// Outbound packets for which no id was left.
    pub drop: u32,
    /// Entries in use.
    pub live: u32,
}

/// The NAPT connection-tracking table.
pub struct Conntrack {
    pub slots: [Entry; CT_CAP],
    /// Where the search for a free id starts.
    pub cursor: u16,
    pub counters: NatCounters,
}

/// A table as a value.
pub struct CtState {
    pub slots: Seq<Entry>,
    pub cursor: u16,
    pub counters: NatCounters,
}

impl View for Conntrack {
    type V = CtState;

    open spec fn view(&self) -> CtState {
        CtState { slots: self.slots@, cursor: self.cursor, counters: self.counters }
    }
}

/// An unused slot, as every slot starts.
pub open spec fn empty_entry() -> Entry {
    Entry {
        used: false,
        proto: Proto::Udp,
        lan_ip: Ipv4Address { bits: 0 },
        lan_id: 0,
        remote_ip: Ipv4Address { bits: 0 },
        remote_id: 0,
        wan_id: 0,
        last_seen: 0,
        tcp: TcpState::New,
    }
}

/// How long an entry may be idle.
pub open spec fn timeout_of(e: Entry) -> u64 {
    match e.proto {
        Proto::Udp => T_UDP,
        Proto::IcmpEcho => T_ICMP,
        Proto::Tcp => if e.tcp == TcpState::Established {
            T_TCP_EST
        } else {
            T_TCP_TRANS
        },
    }
}

/// How long an entry has been idle.
pub open spec fn idle(e: Entry, now: u64) -> int {
    if now > e.last_seen {
        now - e.last_seen
    } else {
        0
    }
}

/// An entry has been idle too long.
pub open spec fn expired(e: Entry, now: u64) -> bool {
    idle(e, now) >= timeout_of(e)
}

/// The TCP state after a segment: FIN or RST closes, SYN opens unless closing, anything
/// else establishes.
pub open spec fn tcp_after(cur: TcpState, flags: u8) -> TcpState {
    if flags & TCP_FIN != 0 || flags & TCP_RST != 0 {
        TcpState::Closing
    } else if flags & TCP_SYN != 0 {
        if cur == TcpState::Closing {
            TcpState::Closing
        } else {
            TcpState::New
        }
    } else {
        TcpState::Established
    }
}

/// The entry tracks the flow `t`.
pub open spec fn tracks(e: Entry, t: Tuple) -> bool {
    e.used && e.proto == t.proto && e.lan_ip == t.src_ip && e.lan_id == t.src_id && e.remote_ip
        == t.dst_ip && e.remote_id == t.dst_id
}

/// What identifies a packet that arrives from the WAN.
#[derive(Clone, Copy, Debug, PartialEq, Eq, Structural)]
pub struct Reply {
    pub proto: Proto,
    pub remote_ip: Ipv4Address,
    pub remote_id: u16,
    pub wan_id: u16,
}

/// The packet is a reply on the flow of a live entry.
pub open spec fn answers(e: Entry, p: Reply, now: u64) -> bool {
    e.used && e.proto == p.proto && e.wan_id == p.wan_id && e.remote_ip == p.remote_ip
        && e.remote_id == p.remote_id && !expired(e, now)
}

/// The slot of the flow `t`.
pub open spec fn flow_slot(slots: Seq<Entry>, t: Tuple) -> Option<int> {
    least(0, slots.len() as int, |i: int| tracks(slots[i], t))
}

/// The slot a packet from the WAN answers.
pub open spec fn reply_slot(slots: Seq<Entry>, p: Reply, now: u64) -> Option<int> {
    least(0, slots.len() as int, |i: int| answers(slots[i], p, now))
}

/// The entry after one more packet.
pub open spec fn touched(e: Entry, flags: u8, now: u64) -> Entry {
    Entry { last_seen: now, tcp: tcp_after(e.tcp, flags), ..e }
}

/// The entry of a new flow.
pub open spec fn entry_for(t: Tuple, id: u16, flags: u8, now: u64) -> Entry {
    Entry {
        used: true,
        proto: t.proto,
        lan_ip: t.src_ip,
        lan_id: t.src_id,
        remote_ip: t.dst_ip,
        remote_id: t.dst_id,
        wan_id: id,
        last_seen: now,
        tcp: tcp_after(TcpState::New, flags),
    }
}

/// Some entry in use holds the id.
pub open spec fn id_used(slots: Seq<Entry>, id: u16) -> bool {
    exists|i: int| 0 <= i < slots.len() && #[trigger] slots[i].used && slots[i].wan_id == id
}

/// The id `n` places after the cursor, going round.
pub open spec fn nth_id(cursor: u16, n: int) -> u16 {
    (NAT_LO + (cursor - NAT_LO + n) % (NAT_SPAN as int)) as u16
}

/// How many places after the cursor the first unused id is.
pub open spec fn free_id(slots: Seq<Entry>, cursor: u16) -> Option<int> {
    least(0, NAT_SPAN as int, |n: int| !id_used(slots, nth_id(cursor, n)))
}

/// Slot `i` was seen no later than any other.
pub open spec fn oldest(slots: Seq<Entry>, i: int) -> bool {
    forall|j: int| 0 <= j < slots.len() ==> slots[i].last_seen <= (#[trigger] slots[j]).last_seen
}

/// The slot for a new entry: the first free one, else the first expired one, else the
/// first of those seen least recently.
pub open spec fn slot_for_new(slots: Seq<Entry>, now: u64) -> int {
    let n = slots.len() as int;
    match least(0, n, |i: int| !slots[i].used) {
        Some(i) => i,
        None => match least(0, n, |i: int| expired(slots[i], now)) {
            Some(i) => i,
            None => least(0, n, |i: int| oldest(slots, i))->0,
        },
    }
}

/// A table in which nothing has been tracked yet.
pub open spec fn fresh() -> CtState {
    CtState {
        slots: Seq::new(CT_CAP as nat, |i: int| empty_entry()),
        cursor: NAT_LO,
        counters: NatCounters { out: 0, inbound: 0, new: 0, evict: 0, drop: 0, live: 0 },
    }
}

/// One more, wrapping.
pub open spec fn bump(n: u32) -> u32 {
    ((n + 1) % 0x1_0000_0000) as u32
}

/// What a packet leaving the LAN does to the table, and the id it gets.
pub open spec fn out_step(s: CtState, t: Tuple, flags: u8, now: u64) -> (CtState, Option<u16>) {
    match flow_slot(s.slots, t) {
        Some(i) => (
            CtState {
                slots: s.slots.update(i, touched(s.slots[i], flags, now)),
                cursor: s.cursor,
                counters: NatCounters { out: bump(s.counters.out), ..s.counters },
            },
            Some(s.slots[i].wan_id),
        ),
        None => match free_id(s.slots, s.cursor) {
            None => (
                CtState {
                    slots: s.slots,
                    cursor: s.cursor,
                    counters: NatCounters { drop: bump(s.counters.drop), ..s.counters },
                },
                None,
            ),
            Some(n) => {
                let i = slot_for_new(s.slots, now);
                let id = nth_id(s.cursor, n);
                (
                    CtState {
                        slots: s.slots.update(i, entry_for(t, id, flags, now)),
                        cursor: nth_id(s.cursor, n + 1),
                        counters: NatCounters {
                            out: bump(s.counters.out),
                            new: bump(s.counters.new),
                            live: if s.slots[i].used {
                                s.counters.live
                            } else {
                                bump(s.counters.live)
                            },
                            evict: if s.slots[i].used {
                                bump(s.counters.evict)
                            } else {
                                s.counters.evict
                            },
                            ..s.counters
                        },
                    },
                    Some(id),
                )
            },
        },
    }
}

/// What a packet from the WAN does to the table, and the LAN endpoint it is for.
pub open spec fn in_step(s: CtState, p: Reply, flags: u8, now: u64) -> (
    CtState,
    Option<(Ipv4Address, u16)>,
) {
    match reply_slot(s.slots, p, now) {
        Some(i) => (
            CtState {
                slots: s.slots.update(i, touched(s.slots[i], flags, now)),
                cursor: s.cursor,
                counters: NatCounters { inbound: bump(s.counters.inbound), ..s.counters },
            },
            Some((s.slots[i].lan_ip, s.slots[i].lan_id)),
        ),
        None => (s, None),
    }
}

/// The entry after a sweep.
pub open spec fn reaped(e: Entry, now: u64) -> Entry {
    if e.used && expired(e, now) {
        Entry { used: false, ..e }
    } else {
        e
    }
}

/// How many entries are in use.
pub open spec fn used_count(slots: Seq<Entry>) -> int
    decreases slots.len(),
{
    if slots.len() == 0 {
        0
    } else {
        used_count(slots.drop_last()) + if slots.last().used {
            1int
        } else {
            0
        }
    }
}

/// The table after a sweep.
pub open spec fn reap_step(s: CtState, now: u64) -> CtState {
    let slots = Seq::new(s.slots.len(), |i: int| reaped(s.slots[i], now));
    let gone = used_count(s.slots) - used_count(slots);
    CtState {
        slots,
        cursor: s.cursor,
        counters: NatCounters {
            live: used_count(slots) as u32,
            evict: ((s.counters.evict + gone) % 0x1_0000_0000) as u32,
            ..s.counters
        },
    }
}

/// What every operation keeps: ids come from the range, no two entries in use share an
/// id or a flow, and `live` counts the entries in use.
pub open spec fn wf(s: CtState) -> bool {
    &&& s.slots.len() == CT_CAP
    &&& NAT_LO <= s.cursor
    &&& forall|i: int|
        0 <= i < s.slots.len() && (#[trigger] s.slots[i]).used ==> NAT_LO <= s.slots[i].wan_id
    &&& forall|i: int, j: int|
        0 <= i < j < s.slots.len() && (#[trigger] s.slots[i]).used && (#[trigger] s.slots[j]).used
            ==> s.slots[i].wan_id != s.slots[j].wan_id && !same_flow(s.slots[i], s.slots[j])
    &&& s.counters.live == used_count(s.slots)
}

/// Two entries track the same flow.
pub open spec fn same_flow(a: Entry, b: Entry) -> bool {
    a.proto == b.proto && a.lan_ip == b.lan_ip && a.lan_id == b.lan_id && a.remote_ip
        == b.remote_ip && a.remote_id == b.remote_id
}

/// The two 16-bit halves of an address, for [`checksum_incr`].
pub fn addr_words(ip: Ipv4Address) -> (r: (u16, u16))
    ensures
        r == halves_of(ip),
{
    ((ip.bits / 0x1_0000) as u16, (ip.bits % 0x1_0000) as u16)
}

/// Number of live entries.
pub fn live_count(ct: &Conntrack) -> (n: usize)
    requires
        wf(ct@),
    ensures
        n == used_count(ct.slots@),
{
    ct.counters.live as usize
}

impl Entry {
    /// Idle timeout in milliseconds.
    pub fn timeout_ms(&self) -> (r: u64)
        ensures
            r == timeout_of(*self),
    {
        match self.proto {
            Proto::Udp => T_UDP,
            Proto::IcmpEcho => T_ICMP,
            Proto::Tcp => match self.tcp {
                TcpState::Established => T_TCP_EST,
                _ => T_TCP_TRANS,
            },
        }
    }

    fn is_expired(&self, now_ms: u64) -> (r: bool)
        ensures
            r == expired(*self, now_ms),
    {
        now_ms.saturating_sub(self.last_seen) >= self.timeout_ms()
    }
}

/// Coarse TCP state, for the choice of a timeout only.
fn next_tcp_state(cur: TcpState, flags: u8) -> (r: TcpState)
    ensures
        r == tcp_after(cur, flags),
{
    if flags & TCP_FIN != 0 || flags & TCP_RST != 0 {
        TcpState::Closing
    } else if flags & TCP_SYN != 0 {
        if cur == TcpState::Closing {
            cur
        } else {
            TcpState::New
        }
    } else {
        TcpState::Established
    }
}

proof fn lemma_used_count_update(slots: Seq<Entry>, i: int, e: Entry)
    requires
        0 <= i < slots.len(),
    ensures
        used_count(slots.update(i, e)) == used_count(slots) - (if slots[i].used {
            1int
        } else {
            0
        }) + (if e.used {
            1int
        } else {
            0
        }),
    decreases slots.len(),
{
    let new = slots.update(i, e);
    if i == slots.len() - 1 {
        assert(new.drop_last() =~= slots.drop_last());
    } else {
        assert(new.drop_last() =~= slots.drop_last().update(i, e));
        lemma_used_count_update(slots.drop_last(), i, e);
    }
}

pub(crate) proof fn lemma_used_count_bound(slots: Seq<Entry>)
    ensures
        0 <= used_count(slots) <= slots.len(),
        used_count(slots) == slots.len() ==> forall|i: int|
            0 <= i < slots.len() ==> (#[trigger] slots[i]).used,
    decreases slots.len(),
{
    if slots.len() > 0 {
        lemma_used_count_bound(slots.drop_last());
        if used_count(slots) == slots.len() {
            assert forall|i: int| 0 <= i < slots.len() implies (#[trigger] slots[i]).used by {
                if i < slots.len() - 1 {
                    assert(slots.drop_last()[i].used);
                }
            }
        }
    }
}

proof fn lemma_used_count_zero(slots: Seq<Entry>)
    requires
        forall|i: int| 0 <= i < slots.len() ==> !(#[trigger] slots[i]).used,
    ensures
        used_count(slots) == 0,
    decreases slots.len(),
{
    if slots.len() > 0 {
        assert forall|i: int| 0 <= i < slots.drop_last().len() implies !(
        #[trigger] slots.drop_last()[i]).used by {
            assert(slots.drop_last()[i] == slots[i]);
        }
        lemma_used_count_zero(slots.drop_last());
    }
}

/// There are more ids than slots, so some id is always free.
proof fn lemma_id_free(slots: Seq<Entry>, cursor: u16)
    requires
        slots.len() < NAT_SPAN,
        NAT_LO <= cursor,
    ensures
        free_id(slots, cursor) is Some,
{
    let p = |n: int| !id_used(slots, nth_id(cursor, n));
    lemma_least(0, NAT_SPAN as int, p);
    if free_id(slots, cursor) is None {
        let ids = Seq::new(slots.len(), |i: int| slots[i].wan_id as int);
        let taken = ids.to_set();
        ids.lemma_cardinality_of_set();
        vstd::set_lib::lemma_int_range(NAT_LO as int, NAT_LO + NAT_SPAN);
        let range = vstd::set_lib::set_int_range(NAT_LO as int, NAT_LO + NAT_SPAN);
        assert(range.subset_of(taken)) by {
            assert forall|v: int| range.contains(v) implies taken.contains(v) by {
                let n = (v - cursor) % (NAT_SPAN as int);
                lemma_place_of_id(cursor, v as u16);
                assert(!p(n));
                let i = choose|i: int|
                    0 <= i < slots.len() && #[trigger] slots[i].used && slots[i].wan_id == v;
                assert(ids[i] == v);
            }
        }
        vstd::set_lib::lemma_len_subset(range, taken);
        assert(false);
    }
}

proof fn lemma_slot_for_new(slots: Seq<Entry>, now: u64)
    requires
        slots.len() > 0,
    ensures
        0 <= slot_for_new(slots, now) < slots.len(),
{
    let n = slots.len() as int;
    lemma_least(0, n, |i: int| !slots[i].used);
    lemma_least(0, n, |i: int| expired(slots[i], now));
    let p = |i: int| oldest(slots, i);
    lemma_least(0, n, p);
    let m = lemma_oldest_exists(slots);
    assert(p(m));
}

pub(crate) proof fn lemma_oldest_exists(slots: Seq<Entry>) -> (m: int)
    requires
        slots.len() > 0,
    ensures
        0 <= m < slots.len(),
        oldest(slots, m),
    decreases slots.len(),
{
    if slots.len() == 1 {
        0
    } else {
        let rest = slots.drop_last();
        let m = lemma_oldest_exists(rest);
        let last = slots.len() - 1;
        if slots[m].last_seen <= slots[last].last_seen {
            assert forall|j: int| 0 <= j < slots.len() implies slots[m].last_seen <= (
            #[trigger] slots[j]).last_seen by {
                if j < last {
                    assert(rest[j] == slots[j]);
                }
            }
            m
        } else {
            assert forall|j: int| 0 <= j < slots.len() implies slots[last].last_seen <= (
            #[trigger] slots[j]).last_seen by {
                if j < last {
                    assert(rest[j] == slots[j]);
                }
            }
            last
        }
    }
}

/// How many places after the cursor the first id is that is not taken.
pub open spec fn free_place(taken: Seq<u16>, cursor: u16) -> Option<int> {
    least(0, NAT_SPAN as int, |n: int| !taken.contains(nth_id(cursor, n)))
}

/// True if `id` is taken.
fn is_taken(taken: &[u16], id: u16) -> (r: bool)
    ensures
        r == taken@.contains(id),
{
    let mut i: usize = 0;
    while i < taken.len()
        invariant
            i <= taken@.len(),
            forall|j: int| 0 <= j < i ==> taken@[j] != id,
        decreases taken@.len() - i,
    {
        if taken[i] == id {
            assert(taken@[i as int] == id);
            return true;
        }
        i = i + 1;
    }
    false
}

/// The next id that is not taken, probing from the cursor and going round once. `None` if
/// every id of the range is taken.
pub fn alloc_id(cursor: &mut u16, taken: &[u16]) -> (r: Option<u16>)
    requires
        NAT_LO <= *old(cursor),
    ensures
        match free_place(taken@, *old(cursor)) {
            Some(n) => r == Some(nth_id(*old(cursor), n)) && *final(cursor) == nth_id(
                *old(cursor),
                n + 1,
            ),
            None => r is None && *final(cursor) == *old(cursor),
        },
        NAT_LO <= *final(cursor),
        r matches Some(id) ==> NAT_LO <= id <= NAT_HI && !taken@.contains(id),
        r is None ==> forall|id: u16| NAT_LO <= id <= NAT_HI ==> #[trigger] taken@.contains(id),
{
    let ghost c0 = *cursor;
    let ghost p = |n: int| !taken@.contains(nth_id(c0, n));
    let mut n: u32 = 0;
    while n < NAT_SPAN
        invariant
            n <= NAT_SPAN,
            NAT_LO <= c0,
            c0 == *old(cursor),
            *cursor == nth_id(c0, n as int),
            p == (|n: int| !taken@.contains(nth_id(c0, n))),
            forall|j: int| 0 <= j < n ==> !#[trigger] p(j),
        decreases NAT_SPAN - n,
    {
        let id: u16 = *cursor;
        *cursor = if id == NAT_HI {
            NAT_LO
        } else {
            id + 1
        };
        proof {
            lemma_next_id(c0, n as int);
        }
        if !is_taken(taken, id) {
            proof {
                assert(p(n as int));
                lemma_least_found(0, NAT_SPAN as int, p, n as int);
            }
            return Some(id);
        }
        assert(!p(n as int));
        n = n + 1;
    }
    proof {
        lemma_least_none(0, NAT_SPAN as int, p);
        assert forall|id: u16| NAT_LO <= id <= NAT_HI implies #[trigger] taken@.contains(id) by {
            lemma_place_of_id(c0, id);
            assert(!p((id - c0) % (NAT_SPAN as int)));
        }
    }
    None
}

/// Every id of the range has its place after the cursor.
proof fn lemma_place_of_id(cursor: u16, id: u16)
    requires
        NAT_LO <= cursor,
        NAT_LO <= id,
    ensures
        0 <= (id - cursor) % (NAT_SPAN as int) < NAT_SPAN,
        nth_id(cursor, (id - cursor) % (NAT_SPAN as int)) == id,
{
    let n = (id - cursor) % (NAT_SPAN as int);
    let a = cursor - NAT_LO;
    let b = id - NAT_LO;
    assert(0 <= a < 16384 && 0 <= b < 16384);
    assert(n == if b >= a {
        b - a
    } else {
        b - a + 16384
    });
}

impl Conntrack {
    /// An empty table.
    pub fn new() -> (r: Conntrack)
        ensures
            wf(r@),
            r@ == fresh(),
    {
        let e = Entry {
            used: false,
            proto: Proto::Udp,
            lan_ip: Ipv4Address::unspecified(),
            lan_id: 0,
            remote_ip: Ipv4Address::unspecified(),
            remote_id: 0,
            wan_id: 0,
            last_seen: 0,
            tcp: TcpState::New,
        };
        let r = Conntrack {
            slots: [e;CT_CAP],
            cursor: NAT_LO,
            counters: NatCounters { out: 0, inbound: 0, new: 0, evict: 0, drop: 0, live: 0 },
        };
        proof {
            assert(r.slots@ =~= Seq::new(CT_CAP as nat, |i: int| empty_entry()));
            lemma_used_count_zero(r.slots@);
        }
        r
    }

    /// The ids of the entries in use.
    fn used_ids(&self) -> (r: Vec<u16>)
        ensures
            forall|id: u16| #[trigger] r@.contains(id) == id_used(self.slots@, id),
    {
        let mut r: Vec<u16> = Vec::new();
        let mut i: usize = 0;
        while i < CT_CAP
            invariant
                i <= CT_CAP,
                forall|id: u16| #[trigger]
                    r@.contains(id) == exists|j: int|
                        0 <= j < i && #[trigger] self.slots@[j].used && self.slots@[j].wan_id == id,
            decreases CT_CAP - i,
        {
            let e: Entry = self.slots[i];
            let ghost before = r@;
            if e.used {
                r.push(e.wan_id);
            }
            i = i + 1;
            proof {
                let done = i as int;
                assert forall|id: u16| #[trigger] r@.contains(id) == exists|j: int|
                    0 <= j < done && #[trigger] self.slots@[j].used && self.slots@[j].wan_id
                        == id by {
                    if r@.contains(id) {
                        let k = choose|k: int| 0 <= k < r@.len() && r@[k] == id;
                        if k < before.len() {
                            assert(before[k] == id);
                            assert(before.contains(id));
                        } else {
                            assert(self.slots@[done - 1].used);
                        }
                    } else {
                        assert(!before.contains(id)) by {
                            if before.contains(id) {
                                let k = choose|k: int| 0 <= k < before.len() && before[k] == id;
                                assert(r@[k] == id);
                            }
                        }
                        if e.used {
                            assert(r@[before.len() as int] == e.wan_id);
                        }
                    }
                }
            }
        }
        r
    }

    /// The next free id, probing from the cursor and going round once. `None` if every
    /// id is in use.
    pub fn alloc_id(&mut self) -> (r: Option<u16>)
        requires
            NAT_LO <= old(self).cursor,
        ensures
            final(self).slots == old(self).slots,
            final(self).counters == old(self).counters,
            match free_id(old(self).slots@, old(self).cursor) {
                Some(n) => r == Some(nth_id(old(self).cursor, n)) && final(self).cursor == nth_id(
                    old(self).cursor,
                    n + 1,
                ),
                None => r is None && final(self).cursor == old(self).cursor,
            },
    {
        let taken: Vec<u16> = self.used_ids();
        proof {
            let c = self.cursor;
            let slots = self.slots@;
            lemma_least_same(
                0,
                NAT_SPAN as int,
                |n: int| !id_used(slots, nth_id(c, n)),
                |n: int| !taken@.contains(nth_id(c, n)),
            );
        }
        alloc_id(&mut self.cursor, &taken)
    }

    /// A slot for a new entry: a free one, else an expired one, else the least recently
    /// seen.
    pub fn pick_slot(&self, now_ms: u64) -> (r: usize)
        ensures
            r < CT_CAP,
            r == slot_for_new(self.slots@, now_ms),
    {
        let ghost slots = self.slots@;
        let ghost p = |i: int| !slots[i].used;
        let mut i: usize = 0;
        while i < CT_CAP
            invariant
                i <= CT_CAP,
                slots == self.slots@,
                p == (|i: int| !slots[i].used),
                forall|j: int| 0 <= j < i ==> !#[trigger] p(j),
            decreases CT_CAP - i,
        {
            if !self.slots[i].used {
                proof {
                    lemma_least_found(0, CT_CAP as int, p, i as int);
                }
                return i;
            }
            i = i + 1;
        }
        proof {
            lemma_least_none(0, CT_CAP as int, p);
        }
        let ghost q = |i: int| expired(slots[i], now_ms);
        let mut k: usize = 0;
        while k < CT_CAP
            invariant
                k <= CT_CAP,
                slots == self.slots@,
                p == (|i: int| !slots[i].used),
                least(0, CT_CAP as int, p) is None,
                q == (|i: int| expired(slots[i], now_ms)),
                forall|j: int| 0 <= j < k ==> !#[trigger] q(j),
            decreases CT_CAP - k,
        {
            if self.slots[k].is_expired(now_ms) {
                proof {
                    lemma_least_found(0, CT_CAP as int, q, k as int);
                }
                return k;
            }
            k = k + 1;
        }
        proof {
            lemma_least_none(0, CT_CAP as int, q);
        }
        let mut best: usize = 0;
        let mut m: usize = 1;
        while m < CT_CAP
            invariant
                1 <= m <= CT_CAP,
                best < m,
                slots == self.slots@,
                forall|j: int|
                    0 <= j < m ==> slots[best as int].last_seen <= (#[trigger] slots[j]).last_seen,
                forall|j: int|
                    0 <= j < best ==> slots[best as int].last_seen < (#[trigger] slots[j]).last_seen,
            decreases CT_CAP - m,
        {
            if self.slots[m].last_seen < self.slots[best].last_seen {
                best = m;
            }
            m = m + 1;
        }
        proof {
            let o = |i: int| oldest(slots, i);
            assert(o(best as int));
            assert forall|j: int| 0 <= j < best implies !#[trigger] o(j) by {
                assert(slots[best as int].last_seen < slots[j].last_seen);
            }
            lemma_least_found(0, CT_CAP as int, o, best as int);
        }
        best
    }

    /// A packet leaves the LAN: find or create its flow, and return the WAN-side id to
    /// rewrite its source to. There are more ids than slots, so there always is one.
    pub fn outbound(&mut self, t: &Tuple, tcp_flags: u8, now_ms: u64) -> (r: Option<u16>)
        requires
            wf(old(self)@),
        ensures
            final(self)@ == out_step(old(self)@, *t, tcp_flags, now_ms).0,
            r == out_step(old(self)@, *t, tcp_flags, now_ms).1,
            wf(final(self)@),
            r is Some,
    {
        let ghost s0 = self@;
        let ghost slots = self.slots@;
        let ghost p = |i: int| tracks(slots[i], *t);
        proof {
            lemma_out_keeps_wf(s0, *t, tcp_flags, now_ms);
        }
        let mut i: usize = 0;
        while i < CT_CAP
            invariant
                i <= CT_CAP,
                s0 == self@,
                slots == self.slots@,
                s0 == old(self)@,
                p == (|i: int| tracks(slots[i], *t)),
                forall|j: int| 0 <= j < i ==> !#[trigger] p(j),
                wf(out_step(s0, *t, tcp_flags, now_ms).0),
                out_step(s0, *t, tcp_flags, now_ms).1 is Some,
            decreases CT_CAP - i,
        {
            let e: Entry = self.slots[i];
            if e.used && e.proto == t.proto && e.lan_ip == t.src_ip && e.lan_id == t.src_id
                && e.remote_ip == t.dst_ip && e.remote_id == t.dst_id {
                proof {
                    lemma_least_found(0, CT_CAP as int, p, i as int);
                }
                self.slots[i] = Entry {
                    last_seen: now_ms,
                    tcp: next_tcp_state(e.tcp, tcp_flags),
                    ..e
                };
                self.counters.out = self.counters.out.wrapping_add(1);
                return Some(e.wan_id);
            }
            i = i + 1;
        }
        proof {
            lemma_least_none(0, CT_CAP as int, p);
        }
        let wan_id: u16 = match self.alloc_id() {
            Some(id) => id,
            None => {
                self.counters.drop = self.counters.drop.wrapping_add(1);
                return None;
            },
        };
        let idx: usize = self.pick_slot(now_ms);
        if !self.slots[idx].used {
            self.counters.live = self.counters.live.wrapping_add(1);
        } else {
            self.counters.evict = self.counters.evict.wrapping_add(1);
        }
        self.slots[idx] = Entry {
            used: true,
            proto: t.proto,
            lan_ip: t.src_ip,
            lan_id: t.src_id,
            remote_ip: t.dst_ip,
            remote_id: t.dst_id,
            wan_id,
            last_seen: now_ms,
            tcp: next_tcp_state(TcpState::New, tcp_flags),
        };
        self.counters.new = self.counters.new.wrapping_add(1);
        self.counters.out = self.counters.out.wrapping_add(1);
        Some(wan_id)
    }

    /// A packet arrives from the WAN for id `wan_id`, from `remote_ip:remote_id`. If it
    /// answers a live flow, the LAN endpoint to rewrite its destination to; `None` means
    /// that it is for the router's own stack.
    pub fn inbound(
        &mut self,
        proto: Proto,
        remote_ip: Ipv4Address,
        remote_id: u16,
        wan_id: u16,
        tcp_flags: u8,
        now_ms: u64,
    ) -> (r: Option<(Ipv4Address, u16)>)
        requires
            wf(old(self)@),
        ensures
            ({
                let p = Reply { proto, remote_ip, remote_id, wan_id };
                &&& final(self)@ == in_step(old(self)@, p, tcp_flags, now_ms).0
                &&& r == in_step(old(self)@, p, tcp_flags, now_ms).1
            }),
            wf(final(self)@),
    {
        let ghost s0 = self@;
        let ghost slots = self.slots@;
        let ghost pk = Reply { proto, remote_ip, remote_id, wan_id };
        let ghost p = |i: int| answers(slots[i], pk, now_ms);
        proof {
            lemma_in_keeps_wf(s0, pk, tcp_flags, now_ms);
        }
        let mut i: usize = 0;
        while i < CT_CAP
            invariant
                i <= CT_CAP,
                s0 == self@,
                slots == self.slots@,
                s0 == old(self)@,
                pk == (Reply { proto, remote_ip, remote_id, wan_id }),
                p == (|i: int| answers(slots[i], pk, now_ms)),
                forall|j: int| 0 <= j < i ==> !#[trigger] p(j),
                wf(in_step(s0, pk, tcp_flags, now_ms).0),
            decreases CT_CAP - i,
        {
            let e: Entry = self.slots[i];
            if e.used && e.proto == proto && e.wan_id == wan_id && e.remote_ip == remote_ip
                && e.remote_id == remote_id && !e.is_expired(now_ms) {
                proof {
                    lemma_least_found(0, CT_CAP as int, p, i as int);
                }
                self.slots[i] = Entry {
                    last_seen: now_ms,
                    tcp: next_tcp_state(e.tcp, tcp_flags),
                    ..e
                };
                self.counters.inbound = self.counters.inbound.wrapping_add(1);
                return Some((e.lan_ip, e.lan_id));
            }
            i = i + 1;
        }
        proof {
            lemma_least_none(0, CT_CAP as int, p);
        }
        None
    }

    /// Sweep expired entries.
    pub fn reap(&mut self, now_ms: u64)
        requires
            wf(old(self)@),
        ensures
            final(self)@ == reap_step(old(self)@, now_ms),
            wf(final(self)@),
    {
        let ghost s0 = self@;
        let ghost swept = Seq::new(CT_CAP as nat, |i: int| reaped(s0.slots[i], now_ms));
        let mut i: usize = 0;
        proof {
            lemma_reap_keeps_wf(s0, now_ms);
            lemma_used_count_bound(s0.slots);
            assert(s0.slots =~= self.slots@);
        }
        while i < CT_CAP
            invariant
                i <= CT_CAP,
                s0 == old(self)@,
                s0.slots.len() == CT_CAP,
                swept == Seq::new(CT_CAP as nat, |i: int| reaped(s0.slots[i], now_ms)),
                forall|j: int| 0 <= j < i ==> #[trigger] self.slots@[j] == swept[j],
                forall|j: int| i <= j < CT_CAP ==> #[trigger] self.slots@[j] == s0.slots[j],
                self.cursor == s0.cursor,
                self.counters == (NatCounters {
                    live: used_count(self.slots@) as u32,
                    evict: ((s0.counters.evict + used_count(s0.slots) - used_count(self.slots@))
                        % 0x1_0000_0000) as u32,
                    ..s0.counters
                }),
                0 <= used_count(self.slots@) <= used_count(s0.slots) <= CT_CAP,
            decreases CT_CAP - i,
        {
            let e: Entry = self.slots[i];
            proof {
                lemma_used_count_update(self.slots@, i as int, reaped(e, now_ms));
                lemma_used_count_bound(self.slots@);
                lemma_used_count_bound(self.slots@.update(i as int, reaped(e, now_ms)));
                assert(self.slots@[i as int] == s0.slots[i as int]);
            }
            if e.used && e.is_expired(now_ms) {
                self.slots[i] = Entry { used: false, ..e };
                self.counters.live = self.counters.live.wrapping_sub(1);
                self.counters.evict = self.counters.evict.wrapping_add(1);
            } else {
                assert(self.slots@.update(i as int, e) =~= self.slots@);
            }
            i = i + 1;
        }
        assert(self.slots@ =~= swept);
    }
}

impl Default for Conntrack {
    fn default() -> (r: Conntrack)
        ensures
            wf(r@),
            r@ == fresh(),
    {
        Conntrack::new()
    }
}

/// The id after the `n`th.
proof fn lemma_next_id(cursor: u16, n: int)
    requires
        NAT_LO <= cursor,
        0 <= n < NAT_SPAN,
    ensures
        NAT_LO <= nth_id(cursor, n) <= NAT_HI,
        nth_id(cursor, n + 1) == if nth_id(cursor, n) == NAT_HI {
            NAT_LO as int
        } else {
            nth_id(cursor, n) + 1
        },
        nth_id(cursor, 0) == cursor,
        nth_id(cursor, NAT_SPAN as int) == cursor,
{
}

/// A packet leaving the LAN always gets an id, and keeps the table in order.
pub proof fn lemma_out_keeps_wf(s: CtState, t: Tuple, flags: u8, now: u64)
    requires
        wf(s),
    ensures
        wf(out_step(s, t, flags, now).0),
        out_step(s, t, flags, now).1 is Some,
        NAT_LO <= out_step(s, t, flags, now).1->0 <= NAT_HI,
{
    let f = |i: int| tracks(s.slots[i], t);
    lemma_least(0, CT_CAP as int, f);
    match flow_slot(s.slots, t) {
        Some(i) => {
            assert(f(i));
            lemma_used_count_update(s.slots, i, touched(s.slots[i], flags, now));
        },
        None => {
            lemma_id_free(s.slots, s.cursor);
            let p = |n: int| !id_used(s.slots, nth_id(s.cursor, n));
            lemma_least(0, NAT_SPAN as int, p);
            let n = free_id(s.slots, s.cursor)->0;
            assert(p(n));
            lemma_next_id(s.cursor, n);
            lemma_slot_for_new(s.slots, now);
            let i = slot_for_new(s.slots, now);
            let id = nth_id(s.cursor, n);
            lemma_used_count_update(s.slots, i, entry_for(t, id, flags, now));
            lemma_used_count_bound(s.slots);
            let new = s.slots.update(i, entry_for(t, id, flags, now));
            assert forall|a: int, b: int|
                0 <= a < b < new.len() && (#[trigger] new[a]).used && (#[trigger] new[b]).used
                    implies new[a].wan_id != new[b].wan_id && !same_flow(new[a], new[b]) by {
                if a == i {
                    assert(!f(b));
                    assert(s.slots[b].used);
                } else if b == i {
                    assert(!f(a));
                    assert(s.slots[a].used);
                }
            }
        },
    }
}

/// A packet from the WAN keeps the table in order.
pub proof fn lemma_in_keeps_wf(s: CtState, p: Reply, flags: u8, now: u64)
    requires
        wf(s),
    ensures
        wf(in_step(s, p, flags, now).0),
{
    let f = |i: int| answers(s.slots[i], p, now);
    lemma_least(0, CT_CAP as int, f);
    match reply_slot(s.slots, p, now) {
        Some(i) => {
            assert(f(i));
            lemma_used_count_update(s.slots, i, touched(s.slots[i], flags, now));
        },
        None => {},
    }
}

/// A sweep keeps the table in order.
pub proof fn lemma_reap_keeps_wf(s: CtState, now: u64)
    requires
        wf(s),
    ensures
        wf(reap_step(s, now)),
{
    let t = reap_step(s, now);
    lemma_used_count_bound(t.slots);
    assert forall|i: int| 0 <= i < t.slots.len() && (#[trigger] t.slots[i]).used implies NAT_LO
        <= t.slots[i].wan_id by {
        assert(s.slots[i].used);
    }
    assert forall|a: int, b: int|
        0 <= a < b < t.slots.len() && (#[trigger] t.slots[a]).used && (#[trigger] t.slots[b]).used
            implies t.slots[a].wan_id != t.slots[b].wan_id && !same_flow(
        t.slots[a],
        t.slots[b],
    ) by {
        assert(s.slots[a].used && s.slots[b].used);
    }
}

/// Where a packet of flow `t` has just left, its entry holds the id it was given.
pub proof fn lemma_out_tracks(s: CtState, t: Tuple, flags: u8, now: u64) -> (i: int)
    requires
        wf(s),
    ensures
        ({
            let (after, id) = out_step(s, t, flags, now);
            &&& 0 <= i < CT_CAP
            &&& flow_slot(after.slots, t) == Some(i)
            &&& tracks(after.slots[i], t)
            &&& after.slots[i].last_seen == now
            &&& id == Some(after.slots[i].wan_id)
        }),
{
    let (after, id) = out_step(s, t, flags, now);
    lemma_out_keeps_wf(s, t, flags, now);
    let f = |i: int| tracks(s.slots[i], t);
    let g = |i: int| tracks(after.slots[i], t);
    lemma_least(0, CT_CAP as int, f);
    let i = match flow_slot(s.slots, t) {
        Some(i) => {
            assert(f(i));
            i
        },
        None => {
            lemma_slot_for_new(s.slots, now);
            slot_for_new(s.slots, now)
        },
    };
    assert(g(i));
    assert forall|j: int| 0 <= j < i implies !#[trigger] g(j) by {
        if g(j) {
            assert(same_flow(after.slots[j], after.slots[i]));
        }
    }
    lemma_least_found(0, CT_CAP as int, g, i);
    i
}

/// A reply finds its way back, as long as its flow is tracked: in any state of the table,
/// what comes from the peer of an entry that has not expired, to that entry's id, is for
/// the client of the entry.
pub proof fn lemma_reply_finds_flow(s: CtState, t: Tuple, i: int, flags: u8, now: u64)
    requires
        wf(s),
        0 <= i < CT_CAP,
        tracks(s.slots[i], t),
        !expired(s.slots[i], now),
    ensures
        ({
            let p = Reply {
                proto: t.proto,
                remote_ip: t.dst_ip,
                remote_id: t.dst_id,
                wan_id: s.slots[i].wan_id,
            };
            in_step(s, p, flags, now).1 == Some((t.src_ip, t.src_id))
        }),
{
    let p = Reply {
        proto: t.proto,
        remote_ip: t.dst_ip,
        remote_id: t.dst_id,
        wan_id: s.slots[i].wan_id,
    };
    let g = |k: int| answers(s.slots[k], p, now);
    assert(g(i));
    assert forall|j: int| 0 <= j < i implies !#[trigger] g(j) by {
        if g(j) {
            assert(s.slots[j].wan_id == s.slots[i].wan_id);
        }
    }
    lemma_least_found(0, CT_CAP as int, g, i);
}

/// A reply that comes at once finds its way back: what answers a packet that has just
/// left, from the peer and to the id it was given, within the flow's timeout, is for the
/// client that sent it.
pub proof fn lemma_return_path(
    s: CtState,
    t: Tuple,
    flags: u8,
    now: u64,
    reply_flags: u8,
    later: u64,
)
    requires
        wf(s),
        later < now + timeout_of(
            out_step(s, t, flags, now).0.slots[flow_slot(
                out_step(s, t, flags, now).0.slots,
                t,
            )->0],
        ),
    ensures
        ({
            let (after, id) = out_step(s, t, flags, now);
            let p = Reply {
                proto: t.proto,
                remote_ip: t.dst_ip,
                remote_id: t.dst_id,
                wan_id: id->0,
            };
            in_step(after, p, reply_flags, later).1 == Some((t.src_ip, t.src_id))
        }),
{
    let after = out_step(s, t, flags, now).0;
    lemma_out_keeps_wf(s, t, flags, now);
    let i = lemma_out_tracks(s, t, flags, now);
    lemma_reply_finds_flow(after, t, i, reply_flags, later);
}

/// Something that happens to a table.
pub enum CtOp {
    /// A packet leaves the LAN.
    Out { t: Tuple, flags: u8, now: u64 },
    /// A packet comes from the WAN.
    In { p: Reply, flags: u8, now: u64 },
    /// A sweep.
    Reap { now: u64 },
}

/// The table after something has happened to it.
pub open spec fn ct_step(s: CtState, op: CtOp) -> CtState {
    match op {
        CtOp::Out { t, flags, now } => out_step(s, t, flags, now).0,
        CtOp::In { p, flags, now } => in_step(s, p, flags, now).0,
        CtOp::Reap { now } => reap_step(s, now),
    }
}

/// The table after all that has happened to it, one thing after another.
pub open spec fn ct_run(s: CtState, ops: Seq<CtOp>) -> CtState
    decreases ops.len(),
{
    if ops.len() == 0 {
        s
    } else {
        ct_step(ct_run(s, ops.drop_last()), ops.last())
    }
}

/// The entries created less the entries reclaimed are the entries in use.
pub open spec fn live_adds_up(s: CtState) -> bool {
    (s.counters.new - s.counters.evict - s.counters.live) % 0x1_0000_0000 == 0
}

/// Two counts that differ by a multiple of the modulus are congruent.
proof fn lemma_same_balance(a: int, b: int, k: int)
    requires
        b == a + 0x1_0000_0000 * k,
    ensures
        b % 0x1_0000_0000 == a % 0x1_0000_0000,
{
    vstd::arithmetic::div_mod::lemma_mod_multiples_vanish(k, a, 0x1_0000_0000);
}

/// Whatever happens keeps the counts of entries consistent, and the table in order.
proof fn lemma_step_adds_up(s: CtState, op: CtOp)
    requires
        wf(s),
        live_adds_up(s),
    ensures
        wf(ct_step(s, op)),
        live_adds_up(ct_step(s, op)),
{
    let u = ct_step(s, op);
    let c = s.counters;
    let d = u.counters;
    let a = c.new - c.evict - c.live;
    let b = d.new - d.evict - d.live;
    lemma_used_count_bound(s.slots);
    match op {
        CtOp::Out { t, flags, now } => {
            lemma_out_keeps_wf(s, t, flags, now);
            if flow_slot(s.slots, t) is None && free_id(s.slots, s.cursor) is Some {
                lemma_slot_for_new(s.slots, now);
                let i = slot_for_new(s.slots, now);
                let x: int = if c.new == u32::MAX {
                    -1
                } else {
                    0
                };
                let y: int = if s.slots[i].used && c.evict == u32::MAX {
                    1
                } else {
                    0
                };
                assert(d.new == c.new + 1 + 0x1_0000_0000 * x);
                assert(s.slots[i].used ==> d.evict == c.evict + 1 - 0x1_0000_0000 * y);
                assert(!s.slots[i].used ==> d.evict == c.evict && d.live == c.live + 1);
                lemma_same_balance(a, b, x + y);
            }
        },
        CtOp::In { p, flags, now } => {
            lemma_in_keeps_wf(s, p, flags, now);
        },
        CtOp::Reap { now } => {
            lemma_reap_keeps_wf(s, now);
            let gone = used_count(s.slots) - used_count(u.slots);
            lemma_used_count_bound(u.slots);
            lemma_reap_only_frees(s, now, CT_CAP as int);
            let y: int = if c.evict + gone >= 0x1_0000_0000 {
                1
            } else {
                0
            };
            assert(s.slots.take(CT_CAP as int) =~= s.slots);
            assert(u.slots.take(CT_CAP as int) =~= u.slots);
            assert(d.evict == c.evict + gone - 0x1_0000_0000 * y);
            lemma_same_balance(a, b, y);
        },
    }
}

/// A sweep puts no entry to use.
proof fn lemma_reap_only_frees(s: CtState, now: u64, n: int)
    requires
        0 <= n <= s.slots.len(),
    ensures
        used_count(reap_step(s, now).slots.take(n)) <= used_count(s.slots.take(n)),
    decreases n,
{
    if n > 0 {
        lemma_reap_only_frees(s, now, n - 1);
        let u = reap_step(s, now).slots;
        assert(u.take(n).drop_last() =~= u.take(n - 1));
        assert(s.slots.take(n).drop_last() =~= s.slots.take(n - 1));
    }
}

/// From a fresh table on, whatever happens: the number of entries in use is the number of
/// flows created less the number reclaimed, as the wrapping counters have them.
pub proof fn lemma_live_adds_up(ops: Seq<CtOp>)
    ensures
        wf(ct_run(fresh(), ops)),
        ({
            let s = ct_run(fresh(), ops);
            used_count(s.slots) == (s.counters.new - s.counters.evict) % 0x1_0000_0000
        }),
{
    lemma_run_adds_up(ops);
    let s = ct_run(fresh(), ops);
    let c = s.counters;
    lemma_used_count_bound(s.slots);
    let k = (c.new - c.evict - c.live) / 0x1_0000_0000;
    assert(c.new - c.evict == c.live + 0x1_0000_0000 * k);
    lemma_same_balance(c.live as int, c.new - c.evict, k);
}

proof fn lemma_run_adds_up(ops: Seq<CtOp>)
    ensures
        wf(ct_run(fresh(), ops)),
        live_adds_up(ct_run(fresh(), ops)),
    decreases ops.len(),
{
    if ops.len() == 0 {
        lemma_used_count_zero(fresh().slots);
    } else {
        lemma_run_adds_up(ops.drop_last());
        lemma_step_adds_up(ct_run(fresh(), ops.drop_last()), ops.last());
    }
}

/// What happens takes entry `i` away: a sweep finds it expired, or a new flow gets its
/// slot.
pub open spec fn takes_away(s: CtState, op: CtOp, i: int) -> bool {
    match op {
        CtOp::Out { t, flags, now } => flow_slot(s.slots, t) is None && slot_for_new(s.slots, now)
            == i,
        CtOp::In { .. } => false,
        CtOp::Reap { now } => expired(s.slots[i], now),
    }
}

/// An entry in use keeps its flow and its id until something takes it away.
pub proof fn lemma_entry_stays(s: CtState, op: CtOp, i: int)
    requires
        wf(s),
        0 <= i < CT_CAP,
        s.slots[i].used,
        !takes_away(s, op, i),
    ensures
        ({
            let e = ct_step(s, op).slots[i];
            e.used && same_flow(e, s.slots[i]) && e.wan_id == s.slots[i].wan_id
        }),
{
    match op {
        CtOp::Out { t, flags, now } => {
            lemma_least(0, CT_CAP as int, |k: int| tracks(s.slots[k], t));
            lemma_slot_for_new(s.slots, now);
        },
        CtOp::In { p, flags, now } => {
            lemma_least(0, CT_CAP as int, |k: int| answers(s.slots[k], p, now));
        },
        CtOp::Reap { now } => {},
    }
}

/// Nothing of what happens takes entry `i` away.
pub open spec fn kept(s: CtState, ops: Seq<CtOp>, i: int) -> bool
    decreases ops.len(),
{
    ops.len() == 0 || kept(s, ops.drop_last(), i) && !takes_away(
        ct_run(s, ops.drop_last()),
        ops.last(),
        i,
    )
}

/// An entry in use keeps its flow and its id, however much happens, until something takes
/// it away.
pub proof fn lemma_entry_is_kept(s: CtState, ops: Seq<CtOp>, i: int)
    requires
        wf(s),
        0 <= i < CT_CAP,
        s.slots[i].used,
        kept(s, ops, i),
    ensures
        wf(ct_run(s, ops)),
        ({
            let e = ct_run(s, ops).slots[i];
            e.used && same_flow(e, s.slots[i]) && e.wan_id == s.slots[i].wan_id
        }),
    decreases ops.len(),
{
    if ops.len() > 0 {
        let before = ct_run(s, ops.drop_last());
        lemma_entry_is_kept(s, ops.drop_last(), i);
        lemma_entry_stays(before, ops.last(), i);
        match ops.last() {
            CtOp::Out { t, flags, now } => lemma_out_keeps_wf(before, t, flags, now),
            CtOp::In { p, flags, now } => lemma_in_keeps_wf(before, p, flags, now),
            CtOp::Reap { now } => lemma_reap_keeps_wf(before, now),
        }
    }
}

/// A flow keeps its id: a second packet of the flow is given the same one, whenever it
/// leaves.
pub proof fn lemma_flow_keeps_id(
    s: CtState,
    t: Tuple,
    flags: u8,
    now: u64,
    flags2: u8,
    later: u64,
)
    requires
        wf(s),
    ensures
        out_step(out_step(s, t, flags, now).0, t, flags2, later).1 == out_step(
            s,
            t,
            flags,
            now,
        ).1,
{
    let i = lemma_out_tracks(s, t, flags, now);
}

/// Different flows get different ids, even where the second takes the slot of the first.
pub proof fn lemma_flows_get_distinct_ids(
    s: CtState,
    t: Tuple,
    flags: u8,
    now: u64,
    u: Tuple,
    flags2: u8,
    later: u64,
)
    requires
        wf(s),
        t != u,
    ensures
        out_step(out_step(s, t, flags, now).0, u, flags2, later).1 != out_step(
            s,
            t,
            flags,
            now,
        ).1,
{
    let (after, id) = out_step(s, t, flags, now);
    lemma_out_keeps_wf(s, t, flags, now);
    let i = lemma_out_tracks(s, t, flags, now);
    let f = |k: int| tracks(after.slots[k], u);
    lemma_least(0, CT_CAP as int, f);
    match flow_slot(after.slots, u) {
        Some(j) => {
            assert(f(j));
            if j == i {
                assert(t == u);
            }
        },
        None => {
            lemma_out_keeps_wf(after, u, flags2, later);
            let p = |n: int| !id_used(after.slots, nth_id(after.cursor, n));
            lemma_least(0, NAT_SPAN as int, p);
            let n = free_id(after.slots, after.cursor)->0;
            assert(p(n));
            assert(after.slots[i].used);
        },
    }
}

/// The router's own traffic is never taken for a reply: a packet to an id below the
/// range misses, and changes nothing.
pub proof fn lemma_own_ids_miss(s: CtState, p: Reply, flags: u8, now: u64)
    requires
        wf(s),
        p.wan_id < NAT_LO,
    ensures
        in_step(s, p, flags, now) == (s, None::<(Ipv4Address, u16)>),
{
    let g = |i: int| answers(s.slots[i], p, now);
    assert forall|j: int| 0 <= j < CT_CAP implies !#[trigger] g(j) by {
        if g(j) {
            assert(s.slots[j].used);
        }
    }
    lemma_least_none(0, CT_CAP as int, g);
}

/// A reply is only ever taken for a flow that is live and was opened to its sender: the
/// client it is given to has an entry in use for that very peer and id.
pub proof fn lemma_only_answers_pass(s: CtState, p: Reply, flags: u8, now: u64)
    requires
        wf(s),
        in_step(s, p, flags, now).1 is Some,
    ensures
        exists|i: int|
            0 <= i < CT_CAP && answers(#[trigger] s.slots[i], p, now) && in_step(
                s,
                p,
                flags,
                now,
            ).1 == Some((s.slots[i].lan_ip, s.slots[i].lan_id)),
{
    let g = |i: int| answers(s.slots[i], p, now);
    lemma_least(0, CT_CAP as int, g);
    let i = reply_slot(s.slots, p, now)->0;
    assert(g(i));
    assert(answers(s.slots[i], p, now));
}

/// A sweep reclaims exactly what has expired: every entry that is still alive stays as
/// it is, none in use has expired afterwards, and a second sweep finds nothing.
pub proof fn lemma_reap_is_exact(s: CtState, now: u64)
    requires
        wf(s),
    ensures
        forall|i: int|
            0 <= i < CT_CAP && !expired(s.slots[i], now) ==> #[trigger] reap_step(
                s,
                now,
            ).slots[i] == s.slots[i],
        forall|i: int|
            0 <= i < CT_CAP && (#[trigger] reap_step(s, now).slots[i]).used ==> !expired(
                reap_step(s, now).slots[i],
                now,
            ),
        reap_step(reap_step(s, now), now) == reap_step(s, now),
{
    let t = reap_step(s, now);
    let u = reap_step(t, now);
    lemma_reap_keeps_wf(s, now);
    assert(u.slots =~= t.slots);
}

/// A flow outlives its neighbours: creating an entry for another flow disturbs no entry
/// but the one whose slot it takes, and that slot is in use only where the table is
/// full.
pub proof fn lemma_eviction_only_when_full(s: CtState, t: Tuple, flags: u8, now: u64, j: int)
    requires
        wf(s),
        0 <= j < CT_CAP,
        flow_slot(s.slots, t) is None,
        out_step(s, t, flags, now).0.slots[j] != s.slots[j],
        s.slots[j].used,
    ensures
        used_count(s.slots) == CT_CAP,
        expired(s.slots[j], now) || oldest(s.slots, j),
{
    let i = slot_for_new(s.slots, now);
    lemma_slot_for_new(s.slots, now);
    lemma_out_keeps_wf(s, t, flags, now);
    assert(j == i);
    let free = |i: int| !s.slots[i].used;
    lemma_least(0, CT_CAP as int, free);
    if least(0, CT_CAP as int, free) is Some {
        assert(free(i));
    }
    assert forall|k: int| 0 <= k < CT_CAP implies (#[trigger] s.slots[k]).used by {
        assert(!free(k));
    }
    lemma_all_used(s.slots);
    let gone = |i: int| expired(s.slots[i], now);
    lemma_least(0, CT_CAP as int, gone);
    if least(0, CT_CAP as int, gone) is Some {
        assert(gone(i));
    } else {
        let o = |i: int| oldest(s.slots, i);
        lemma_least(0, CT_CAP as int, o);
        let m = lemma_oldest_exists(s.slots);
        assert(o(m));
        assert(o(i));
    }
}

proof fn lemma_all_used(slots: Seq<Entry>)
    requires
        forall|i: int| 0 <= i < slots.len() ==> (#[trigger] slots[i]).used,
    ensures
        used_count(slots) == slots.len(),
    decreases slots.len(),
{
    if slots.len() > 0 {
        assert forall|i: int| 0 <= i < slots.drop_last().len() implies (
        #[trigger] slots.drop_last()[i]).used by {
            assert(slots.drop_last()[i] == slots[i]);
        }
        lemma_all_used(slots.drop_last());
    }
}

} // verus!
