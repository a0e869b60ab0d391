//! L3 forwarding between LAN and WAN, with NAPT on the WAN side.
//!
//! A [`ForwardingDevice`] stands for one interface. What arrives is learned from and
//! classified: for the local stack, in transit to the other interface, or dropped. What
//! leaves is translated (WAN), has its TTL decremented, and gets the hardware address of
//! its next hop.

use vstd::prelude::*;

use crate::checksum::{
    change_sum, checksum_of, fold16, incremental, lemma_change_sum_bound, lemma_word_sum_bound,
    lemma_word_sum_put, word_sum,
};
use crate::conntrack::{
    addr_words, checksum_incr, ct_run, expired, flow_slot, in_step, is_echo, kept,
    lemma_entry_is_kept, lemma_out_keeps_wf, lemma_out_tracks, lemma_reply_finds_flow, out_step,
    tracks, wf, Conntrack, CtOp, CtState, Proto, Reply, Tuple, CT_CAP,
};
use crate::frame::{frame_bytes, frame_extend, frame_new, frame_slice, frame_slice_mut};
use crate::search::{least, lemma_least, lemma_least_found, lemma_least_none};
use crate::wire::{
    be16, halves_of, in_subnet, ip_at, lemma_halves_at, lemma_ip_written, lemma_octets_spell,
    mac_eq, octets_of, put16, rd16, rd_ip, rd_mac, splice, wr16, write_at, Ipv4Address, Ipv4Cidr,
};

pub use crate::frame::Frame;

verus! {

/// Most bytes of a forwarded frame.
pub const FRAME_CAP: usize = 1600;

/// Depth of the queue of forwarded frames, per direction.
pub const CHAN_DEPTH: usize = 4;

/// Entries in a neighbour table.
pub const NEIGH_CAP: usize = 8;

pub const ETHERTYPE_IPV4: u16 = 0x0800;

pub const ETHERTYPE_ARP: u16 = 0x0806;

pub const IPPROTO_ICMP: u8 = 1;

pub const IPPROTO_TCP: u8 = 6;

pub const IPPROTO_UDP: u8 = 17;

/// Which interface a device or neighbour table belongs to.
#[derive(Clone, Copy, Debug, PartialEq, Eq, Structural)]
pub enum Iface {
    Lan,
    Wan,
}

/// Why a frame was dropped.
#[derive(Clone, Copy, Debug, PartialEq, Eq, Structural)]
pub enum DropReason {
    /// The queue to the other interface is full.
    QueueFull,
    /// The next hop is unknown: no gateway, or no hardware address for it.
    NoNextHop,
    /// No NAPT id left.
    Nat,
    /// The interface cannot transmit now.
    TxBusy,
    /// Malformed, too short, TTL expired, or not routable here.
    Other,
}

/// Forwarding counters. All wrap.
#[derive(Clone, Copy, Debug, PartialEq, Eq, Structural)]
pub struct FwdStats {
    /// Diverted from LAN to WAN.
    pub l2w: u32,
    /// Diverted from WAN to LAN.
    pub w2l: u32,
    /// Transmitted on the other interface.
    pub sent: u32,
    /// Dropped, for any reason.
    pub drop: u32,
    pub bytes_to_wan: u32,
    pub bytes_to_lan: u32,
    pub drop_qfull: u32,
    pub drop_nonh: u32,
    pub drop_nat: u32,
    pub drop_txbusy: u32,
    pub drop_other: u32,
    /// Deepest queue seen, LAN to WAN.
    pub qhwm_l2w: u32,
    /// Deepest queue seen, WAN to LAN.
    pub qhwm_w2l: u32,
}

/// `a + b`, wrapping.
pub open spec fn wrap_sum(a: u32, b: int) -> u32 {
    ((a + b) % 0x1_0000_0000) as u32
}

/// The total is the sum of its breakdown.
pub open spec fn drops_add_up(s: FwdStats) -> bool {
    (s.drop_qfull + s.drop_nonh + s.drop_nat + s.drop_txbusy + s.drop_other - s.drop)
        % 0x1_0000_0000 == 0
}

/// The counters after a drop.
pub open spec fn dropped(s: FwdStats, reason: DropReason) -> FwdStats {
    let t = FwdStats { drop: wrap_sum(s.drop, 1), ..s };
    match reason {
        DropReason::QueueFull => FwdStats { drop_qfull: wrap_sum(s.drop_qfull, 1), ..t },
        DropReason::NoNextHop => FwdStats { drop_nonh: wrap_sum(s.drop_nonh, 1), ..t },
        DropReason::Nat => FwdStats { drop_nat: wrap_sum(s.drop_nat, 1), ..t },
        DropReason::TxBusy => FwdStats { drop_txbusy: wrap_sum(s.drop_txbusy, 1), ..t },
        DropReason::Other => FwdStats { drop_other: wrap_sum(s.drop_other, 1), ..t },
    }
}

/// The larger of two counts.
pub open spec fn larger(a: u32, b: u32) -> u32 {
    if a < b {
        b
    } else {
        a
    }
}

/// The counters after a frame that arrived on `iface` was queued, the queue then holding
/// `depth` frames.
pub open spec fn diverted(s: FwdStats, iface: Iface, depth: u32) -> FwdStats {
    match iface {
        Iface::Lan => FwdStats {
            l2w: wrap_sum(s.l2w, 1),
            qhwm_l2w: larger(s.qhwm_l2w, depth),
            ..s
        },
        Iface::Wan => FwdStats {
            w2l: wrap_sum(s.w2l, 1),
            qhwm_w2l: larger(s.qhwm_w2l, depth),
            ..s
        },
    }
}

/// The counters after a frame of `len` bytes went out on `iface`.
pub open spec fn sent_on(s: FwdStats, iface: Iface, len: int) -> FwdStats {
    match iface {
        Iface::Wan => FwdStats {
            sent: wrap_sum(s.sent, 1),
            bytes_to_wan: wrap_sum(s.bytes_to_wan, len),
            ..s
        },
        Iface::Lan => FwdStats {
            sent: wrap_sum(s.sent, 1),
            bytes_to_lan: wrap_sum(s.bytes_to_lan, len),
            ..s
        },
    }
}

impl FwdStats {
    /// All counters at zero.
    pub fn new() -> (r: FwdStats)
        ensures
            r == (FwdStats {
                l2w: 0,
                w2l: 0,
                sent: 0,
                drop: 0,
                bytes_to_wan: 0,
                bytes_to_lan: 0,
                drop_qfull: 0,
                drop_nonh: 0,
                drop_nat: 0,
                drop_txbusy: 0,
                drop_other: 0,
                qhwm_l2w: 0,
                qhwm_w2l: 0,
            }),
            drops_add_up(r),
    {
        FwdStats {
            l2w: 0,
            w2l: 0,
            sent: 0,
            drop: 0,
            bytes_to_wan: 0,
            bytes_to_lan: 0,
            drop_qfull: 0,
            drop_nonh: 0,
            drop_nat: 0,
            drop_txbusy: 0,
            drop_other: 0,
            qhwm_l2w: 0,
            qhwm_w2l: 0,
        }
    }

    /// Count a drop in the total and under its reason.
    pub fn count_drop(&mut self, reason: DropReason)
        ensures
            *final(self) == dropped(*old(self), reason),
    {
        self.drop = self.drop.wrapping_add(1);
        match reason {
            DropReason::QueueFull => {
                self.drop_qfull = self.drop_qfull.wrapping_add(1);
            },
            DropReason::NoNextHop => {
                self.drop_nonh = self.drop_nonh.wrapping_add(1);
            },
            DropReason::Nat => {
                self.drop_nat = self.drop_nat.wrapping_add(1);
            },
            DropReason::TxBusy => {
                self.drop_txbusy = self.drop_txbusy.wrapping_add(1);
            },
            DropReason::Other => {
                self.drop_other = self.drop_other.wrapping_add(1);
            },
        }
    }

    /// A transit frame was queued; the queue now holds `depth` frames.
    pub fn count_diverted(&mut self, iface: Iface, depth: u32)
        ensures
            *final(self) == diverted(*old(self), iface, depth),
    {
        match iface {
            Iface::Lan => {
                self.l2w = self.l2w.wrapping_add(1);
                if self.qhwm_l2w < depth {
                    self.qhwm_l2w = depth;
                }
            },
            Iface::Wan => {
                self.w2l = self.w2l.wrapping_add(1);
                if self.qhwm_w2l < depth {
                    self.qhwm_w2l = depth;
                }
            },
        }
    }

    /// A frame of `len` bytes went out on `iface`.
    pub fn count_sent(&mut self, iface: Iface, len: usize)
        requires
            len <= FRAME_CAP,
        ensures
            *final(self) == sent_on(*old(self), iface, len as int),
    {
        self.sent = self.sent.wrapping_add(1);
        match iface {
            Iface::Wan => {
                self.bytes_to_wan = self.bytes_to_wan.wrapping_add(len as u32);
            },
            Iface::Lan => {
                self.bytes_to_lan = self.bytes_to_lan.wrapping_add(len as u32);
            },
        }
    }
}

/// The total of drops stays the sum of its breakdown.
pub proof fn lemma_drops_add_up(s: FwdStats, reason: DropReason)
    requires
        drops_add_up(s),
    ensures
        drops_add_up(dropped(s, reason)),
{
    let t = dropped(s, reason);
    let d: int = s.drop_qfull + s.drop_nonh + s.drop_nat + s.drop_txbusy + s.drop_other - s.drop;
    let e: int = t.drop_qfull + t.drop_nonh + t.drop_nat + t.drop_txbusy + t.drop_other - t.drop;
    lemma_wrap_inc(s.drop);
    lemma_wrap_inc(s.drop_qfull);
    lemma_wrap_inc(s.drop_nonh);
    lemma_wrap_inc(s.drop_nat);
    lemma_wrap_inc(s.drop_txbusy);
    lemma_wrap_inc(s.drop_other);
    assert(e == d || e == 0x1_0000_0000 * -1 + d || e == 0x1_0000_0000 * 1 + d);
    vstd::arithmetic::div_mod::lemma_mod_multiples_vanish(-1, d, 0x1_0000_0000);
    vstd::arithmetic::div_mod::lemma_mod_multiples_vanish(1, d, 0x1_0000_0000);
}

proof fn lemma_wrap_inc(n: u32)
    ensures
        wrap_sum(n, 1) == if n == u32::MAX {
            0
        } else {
            n + 1
        },
{
}

/// A fixed map from IPv4 address to hardware address. When it is full, entries are
/// overwritten in turn.
pub struct NeighborTable {
    pub ip: [Ipv4Address; NEIGH_CAP],
    pub mac: [[u8; 6]; NEIGH_CAP],
    pub used: usize,
    pub next: usize,
}

/// A neighbour table as a value: the entries in use, and which is overwritten next.
pub struct Neighbors {
    pub entries: Seq<(Ipv4Address, Seq<u8>)>,
    pub next: int,
}

impl View for NeighborTable {
    type V = Neighbors;

    open spec fn view(&self) -> Neighbors {
        Neighbors {
            entries: Seq::new(self.used as nat, |i: int| (self.ip@[i], self.mac@[i]@)),
            next: self.next as int,
        }
    }
}

/// Entry `i` is for `ip`.
pub open spec fn is_for(n: Neighbors, ip: Ipv4Address) -> spec_fn(int) -> bool {
    |i: int| n.entries[i].0 == ip
}

/// The entry for `ip`.
pub open spec fn neigh_slot(n: Neighbors, ip: Ipv4Address) -> Option<int> {
    least(0, n.entries.len() as int, is_for(n, ip))
}

/// The hardware address of `ip`.
pub open spec fn neigh_mac(n: Neighbors, ip: Ipv4Address) -> Option<Seq<u8>> {
    match neigh_slot(n, ip) {
        Some(i) => Some(n.entries[i].1),
        None => None,
    }
}

/// The table after learning that `ip` is at `mac`.
pub open spec fn neigh_learn(n: Neighbors, ip: Ipv4Address, mac: Seq<u8>) -> Neighbors {
    match neigh_slot(n, ip) {
        Some(i) => Neighbors { entries: n.entries.update(i, (ip, mac)), next: n.next },
        None => if n.entries.len() < NEIGH_CAP {
            Neighbors { entries: n.entries.push((ip, mac)), next: n.next }
        } else {
            Neighbors {
                entries: n.entries.update(n.next, (ip, mac)),
                next: (n.next + 1) % (NEIGH_CAP as int),
            }
        },
    }
}

/// The table fits, no address occurs twice, and nothing is overwritten while there is
/// room.
pub open spec fn neigh_wf(n: Neighbors) -> bool {
    &&& n.entries.len() <= NEIGH_CAP
    &&& 0 <= n.next < NEIGH_CAP
    &&& n.entries.len() < NEIGH_CAP ==> n.next == 0
    &&& forall|i: int, j: int|
        0 <= i < j < n.entries.len() ==> (#[trigger] n.entries[i]).0 != (
        #[trigger] n.entries[j]).0
}

impl NeighborTable {
    /// The fields are in range and no address occurs twice.
    pub open spec fn wf(&self) -> bool {
        self.used <= NEIGH_CAP && neigh_wf(self@)
    }

    /// An empty table.
    pub fn new() -> (r: NeighborTable)
        ensures
            r.wf(),
            r@ == (Neighbors { entries: Seq::empty(), next: 0 }),
            r.used == 0,
            r.ip@ == Seq::new(NEIGH_CAP as nat, |i: int| Ipv4Address { bits: 0 }),
            r.mac@.len() == NEIGH_CAP,
            forall|i: int|
                0 <= i < NEIGH_CAP ==> (#[trigger] r.mac@[i])@ == Seq::new(6, |k: int| 0u8),
    {
        let r = NeighborTable {
            ip: [Ipv4Address { bits: 0 };NEIGH_CAP],
            mac: [[0u8;6];NEIGH_CAP],
            used: 0,
            next: 0,
        };
        proof {
            assert(r@.entries =~= Seq::empty());
            assert(r.ip@ =~= Seq::new(NEIGH_CAP as nat, |i: int| Ipv4Address { bits: 0 }));
            assert forall|i: int| 0 <= i < NEIGH_CAP implies (#[trigger] r.mac@[i])@ == Seq::new(
                6,
                |k: int| 0u8,
            ) by {
                assert(r.mac@[i]@ =~= Seq::new(6, |k: int| 0u8));
            }
        }
        r
    }

    /// Where `ip` stands.
    fn find(&self, ip: Ipv4Address) -> (r: Option<usize>)
        requires
            self.used <= NEIGH_CAP,
        ensures
            match r {
                Some(i) => neigh_slot(self@, ip) == Some(i as int) && i < self.used,
                None => neigh_slot(self@, ip) is None,
            },
    {
        let ghost n = self@;
        let ghost p = is_for(n, ip);
        let mut i: usize = 0;
        while i < self.used
            invariant
                i <= self.used <= NEIGH_CAP,
                n == self@,
                p == is_for(n, ip),
                forall|j: int| 0 <= j < i ==> !#[trigger] p(j),
            decreases self.used - i,
        {
            if self.ip[i] == ip {
                proof {
                    assert(p(i as int));
                    lemma_least_found(0, self.used as int, p, i as int);
                }
                return Some(i);
            }
            assert(!p(i as int));
            i = i + 1;
        }
        proof {
            lemma_least_none(0, self.used as int, p);
        }
        None
    }

    /// Learn that `ip` is at `mac`.
    pub fn insert(&mut self, ip: Ipv4Address, mac: [u8; 6])
        requires
            old(self).wf(),
        ensures
            final(self)@ == neigh_learn(old(self)@, ip, mac@),
            final(self).wf(),
    {
        let ghost n = self@;
        proof {
            lemma_learn_keeps_wf(n, ip, mac@);
        }
        match self.find(ip) {
            Some(i) => {
                self.mac[i] = mac;
                proof {
                    lemma_least(0, n.entries.len() as int, is_for(n, ip));
                    assert(self@.entries =~= n.entries.update(i as int, (ip, mac@)));
                }
            },
            None => {
                if self.used < NEIGH_CAP {
                    let slot: usize = self.used;
                    self.used = self.used + 1;
                    self.ip[slot] = ip;
                    self.mac[slot] = mac;
                    assert(self@.entries =~= n.entries.push((ip, mac@)));
                } else {
                    let slot: usize = self.next;
                    self.next = (self.next + 1) % NEIGH_CAP;
                    self.ip[slot] = ip;
                    self.mac[slot] = mac;
                    assert(self@.entries =~= n.entries.update(n.next, (ip, mac@)));
                }
            },
        }
    }

    /// The hardware address of `ip`, if known.
    pub fn lookup(&self, ip: Ipv4Address) -> (r: Option<[u8; 6]>)
        requires
            self.wf(),
        ensures
            match r {
                Some(mac) => neigh_mac(self@, ip) == Some(mac@),
                None => neigh_mac(self@, ip) is None,
            },
    {
        match self.find(ip) {
            Some(i) => Some(self.mac[i]),
            None => None,
        }
    }
}

/// Learning keeps the table in order.
pub proof fn lemma_learn_keeps_wf(n: Neighbors, ip: Ipv4Address, mac: Seq<u8>)
    requires
        neigh_wf(n),
    ensures
        neigh_wf(neigh_learn(n, ip, mac)),
{
    let p = is_for(n, ip);
    lemma_least(0, n.entries.len() as int, p);
    let m = neigh_learn(n, ip, mac);
    match neigh_slot(n, ip) {
        Some(k) => {
            assert(p(k));
        },
        None => {
            assert forall|i: int, j: int| 0 <= i < j < m.entries.len() implies (
            #[trigger] m.entries[i]).0 != (#[trigger] m.entries[j]).0 by {
                if i < n.entries.len() {
                    assert(!p(i));
                }
                if j < n.entries.len() {
                    assert(!p(j));
                }
            }
        },
    }
}

/// The entries in the order in which their addresses entered the table.
pub open spec fn by_age(n: Neighbors) -> Seq<(Ipv4Address, Seq<u8>)> {
    n.entries.skip(n.next) + n.entries.take(n.next)
}

/// Learning something new drops what it displaces.
pub open spec fn displaces(n: Neighbors, ip: Ipv4Address) -> bool {
    n.entries.len() == NEIGH_CAP && neigh_slot(n, ip) is None
}

/// First in, first out: a new address goes to the end of the line, and from a full table
/// pushes out the one that entered first, and no other. A new hardware address for a
/// known address changes nobody's place in the line, so it does not renew the entry.
pub proof fn lemma_first_in_first_out(n: Neighbors, ip: Ipv4Address, mac: Seq<u8>)
    requires
        neigh_wf(n),
    ensures
        by_age(n).len() == n.entries.len(),
        ({
            let after = by_age(neigh_learn(n, ip, mac));
            if neigh_slot(n, ip) is Some {
                &&& after.len() == by_age(n).len()
                &&& forall|k: int|
                    0 <= k < after.len() ==> #[trigger] after[k] == if by_age(n)[k].0 == ip {
                        (ip, mac)
                    } else {
                        by_age(n)[k]
                    }
            } else if n.entries.len() < NEIGH_CAP {
                after == by_age(n).push((ip, mac))
            } else {
                after == by_age(n).skip(1).push((ip, mac))
            }
        }),
{
    let p = is_for(n, ip);
    lemma_least(0, n.entries.len() as int, p);
    let after = by_age(neigh_learn(n, ip, mac));
    let m = n.entries.len() as int;
    match neigh_slot(n, ip) {
        Some(i) => {
            assert(p(i));
            assert forall|k: int| 0 <= k < after.len() implies #[trigger] after[k] == if by_age(
                n,
            )[k].0 == ip {
                (ip, mac)
            } else {
                by_age(n)[k]
            } by {
                let j = if k < m - n.next {
                    n.next + k
                } else {
                    k - (m - n.next)
                };
                assert(by_age(n)[k] == n.entries[j]);
                if j < i {
                    assert(n.entries[j].0 != n.entries[i].0);
                } else if i < j {
                    assert(n.entries[i].0 != n.entries[j].0);
                }
            }
        },
        None => {
            if m < NEIGH_CAP {
                assert(after =~= by_age(n).push((ip, mac)));
            } else {
                assert(after =~= by_age(n).skip(1).push((ip, mac)));
            }
        },
    }
}

/// What was learned last is what is looked up, and of the others only the one that
/// entered a full table first is forgotten, and only where something new displaces it.
pub proof fn lemma_learned_is_known(
    n: Neighbors,
    ip: Ipv4Address,
    mac: Seq<u8>,
    other: Ipv4Address,
)
    requires
        neigh_wf(n),
    ensures
        neigh_mac(neigh_learn(n, ip, mac), ip) == Some(mac),
        other != ip ==> neigh_mac(neigh_learn(n, ip, mac), other) == if displaces(n, ip) && other
            == by_age(n)[0].0 {
            None
        } else {
            neigh_mac(n, other)
        },
{
    let m = neigh_learn(n, ip, mac);
    lemma_learn_keeps_wf(n, ip, mac);
    let p = is_for(n, ip);
    lemma_least(0, n.entries.len() as int, p);
    let at = match neigh_slot(n, ip) {
        Some(k) => k,
        None => if n.entries.len() < NEIGH_CAP {
            n.entries.len() as int
        } else {
            n.next
        },
    };
    lemma_neigh_slot_unique(m, ip, at);
    if other != ip {
        let q = is_for(n, other);
        lemma_least(0, n.entries.len() as int, q);
        assert(n.entries.len() == NEIGH_CAP ==> by_age(n)[0] == n.entries[n.next]);
        match neigh_slot(n, other) {
            Some(k) => {
                assert(q(k));
                if displaces(n, ip) && k == n.next {
                    let q2 = is_for(m, other);
                    assert forall|j: int| 0 <= j < m.entries.len() implies !#[trigger] q2(j) by {
                        if j < k {
                            assert(n.entries[j].0 != n.entries[k].0);
                        } else if k < j {
                            assert(n.entries[k].0 != n.entries[j].0);
                        }
                    }
                    lemma_least_none(0, m.entries.len() as int, q2);
                } else {
                    if displaces(n, ip) {
                        if k < n.next {
                            assert(n.entries[k].0 != n.entries[n.next].0);
                        } else {
                            assert(n.entries[n.next].0 != n.entries[k].0);
                        }
                    }
                    lemma_neigh_slot_unique(m, other, k);
                }
            },
            None => {
                let q2 = is_for(m, other);
                assert forall|j: int| 0 <= j < m.entries.len() implies !#[trigger] q2(j) by {
                    if j < n.entries.len() {
                        assert(!q(j));
                    }
                }
                lemma_least_none(0, m.entries.len() as int, q2);
            },
        }
    }
}

proof fn lemma_neigh_slot_unique(n: Neighbors, ip: Ipv4Address, at: int)
    requires
        neigh_wf(n),
        0 <= at < n.entries.len(),
        n.entries[at].0 == ip,
    ensures
        neigh_slot(n, ip) == Some(at),
{
    let p = is_for(n, ip);
    assert forall|j: int| 0 <= j < at implies !#[trigger] p(j) by {
        assert(n.entries[j].0 != n.entries[at].0);
    }
    lemma_least_found(0, n.entries.len() as int, p, at);
}

/// Forwarding configuration of one interface.
#[derive(Clone, Copy, Debug)]
pub struct IfaceCfg {
    pub iface: Iface,
    /// The interface's hardware address.
    pub our_mac: [u8; 6],
    /// The interface's address; unspecified until leased.
    pub our_ip: Ipv4Address,
    /// The interface's subnet.
    pub subnet: Ipv4Cidr,
    /// The next hop for destinations off the subnet.
    pub gateway: Option<Ipv4Address>,
    /// Forward only to destinations in this subnet; `None` forwards to all.
    pub accept_dst: Option<Ipv4Cidr>,
}

impl IfaceCfg {
    /// Its prefixes have at most 32 bits.
    pub open spec fn wf(&self) -> bool {
        self.subnet.wf() && (self.accept_dst matches Some(net) ==> net.wf())
    }
}

/// What becomes of a frame that arrived.
#[derive(Clone, Copy, Debug, PartialEq, Eq, Structural)]
pub enum Class {
    /// For the local stack.
    Local,
    /// To be forwarded on the other interface.
    Transit,
    /// Addressed to us but not routable here.
    Drop,
}

/// The destination of an Ethernet frame that is long enough to be IPv4 and says it is.
pub open spec fn dst_of(frame: Seq<u8>) -> Option<Ipv4Address> {
    if frame.len() < 34 || be16(frame, 12) != ETHERTYPE_IPV4 {
        None
    } else {
        Some(ip_at(frame, 30))
    }
}

/// What becomes of a frame without NAPT.
pub open spec fn class_of(cfg: IfaceCfg, frame: Seq<u8>) -> Class {
    if frame.len() < 14 || cfg.our_ip.bits == 0 || frame.subrange(0, 6) != cfg.our_mac@ {
        Class::Local
    } else {
        match dst_of(frame) {
            None => Class::Local,
            Some(dst) => if dst == cfg.our_ip {
                Class::Local
            } else {
                match cfg.accept_dst {
                    None => Class::Transit,
                    Some(net) => if in_subnet(net, dst) {
                        Class::Transit
                    } else {
                        Class::Drop
                    },
                }
            },
        }
    }
}

/// The start of an ARP packet for Ethernet and IPv4.
pub open spec fn arp_prefix() -> Seq<u8> {
    seq![0x00, 0x01, 0x08, 0x00, 0x06, 0x04]
}

/// The sender a frame names: of an ARP packet, or of an IPv4 packet.
pub open spec fn sender_of(frame: Seq<u8>) -> Option<(Ipv4Address, Seq<u8>)> {
    if frame.len() < 14 {
        None
    } else if be16(frame, 12) == ETHERTYPE_ARP && frame.len() >= 42 && frame.subrange(14, 20)
        == arp_prefix() {
        Some((ip_at(frame, 28), frame.subrange(22, 28)))
    } else if be16(frame, 12) == ETHERTYPE_IPV4 && frame.len() >= 34 {
        Some((ip_at(frame, 26), frame.subrange(6, 12)))
    } else {
        None
    }
}

/// The neighbours after a frame: its sender is learned if it is on the subnet.
pub open spec fn learned(cfg: IfaceCfg, n: Neighbors, frame: Seq<u8>) -> Neighbors {
    if cfg.our_ip.bits == 0 {
        n
    } else {
        match sender_of(frame) {
            None => n,
            Some((ip, mac)) => if in_subnet(cfg.subnet, ip) {
                neigh_learn(n, ip, mac)
            } else {
                n
            },
        }
    }
}

/// The next hop for `dst`: itself on the subnet, else the gateway.
pub open spec fn next_hop(
    dst: Ipv4Address,
    subnet: Ipv4Cidr,
    gateway: Option<Ipv4Address>,
) -> Option<Ipv4Address> {
    if in_subnet(subnet, dst) {
        Some(dst)
    } else {
        gateway
    }
}

/// The destination of an Ethernet frame, if it is a long enough IPv4 frame.
fn ipv4_dst(frame: &[u8]) -> (r: Option<Ipv4Address>)
    ensures
        r == dst_of(frame@),
{
    if frame.len() < 14 + 20 || rd16(frame, 12) != ETHERTYPE_IPV4 {
        return None;
    }
    Some(rd_ip(frame, 30))
}

/// What becomes of a frame, without NAPT.
pub fn classify(cfg: &IfaceCfg, frame: &[u8]) -> (r: Class)
    requires
        cfg.wf(),
    ensures
        r == class_of(*cfg, frame@),
{
    if frame.len() < 14 || cfg.our_ip.is_unspecified() {
        return Class::Local;
    }
    if !mac_eq(&rd_mac(frame, 0), &cfg.our_mac) {
        return Class::Local;
    }
    let dst: Ipv4Address = match ipv4_dst(frame) {
        Some(d) => d,
        None => {
            return Class::Local;
        },
    };
    if dst == cfg.our_ip {
        return Class::Local;
    }
    match cfg.accept_dst {
        None => Class::Transit,
        Some(net) => if net.contains_addr(dst) {
            Class::Transit
        } else {
            Class::Drop
        },
    }
}

/// Learn the sender of a frame, on this subnet only: a sender off the subnet carries
/// the gateway's hardware address.
pub fn learn(cfg: &IfaceCfg, frame: &[u8], neigh: &mut NeighborTable)
    requires
        cfg.wf(),
        old(neigh).wf(),
    ensures
        final(neigh)@ == learned(*cfg, old(neigh)@, frame@),
        final(neigh).wf(),
{
    if frame.len() < 14 || cfg.our_ip.is_unspecified() {
        return ;
    }
    let etype: u16 = rd16(frame, 12);
    let sender: Option<(Ipv4Address, [u8; 6])> = if etype == ETHERTYPE_ARP && frame.len() >= 14 + 28
        && mac_eq(&rd_mac(frame, 14), &[0x00, 0x01, 0x08, 0x00, 0x06, 0x04]) {
        Some((rd_ip(frame, 28), rd_mac(frame, 22)))
    } else if etype == ETHERTYPE_IPV4 && frame.len() >= 14 + 20 {
        Some((rd_ip(frame, 26), rd_mac(frame, 6)))
    } else {
        None
    };
    proof {
        let lit: [u8; 6] = [0x00, 0x01, 0x08, 0x00, 0x06, 0x04];
        assert(lit@ =~= arp_prefix());
    }
    match sender {
        Some((ip, mac)) => {
            if cfg.subnet.contains_addr(ip) {
                neigh.insert(ip, mac);
            }
        },
        None => {},
    }
}

/// The next hop for `dst`: itself on the subnet, else the gateway.
fn nexthop(dst: Ipv4Address, subnet: Ipv4Cidr, gateway: Option<Ipv4Address>) -> (r: Option<
    Ipv4Address,
>)
    requires
        subnet.wf(),
    ensures
        r == next_hop(dst, subnet, gateway),
{
    if subnet.contains_addr(dst) {
        Some(dst)
    } else {
        gateway
    }
}

/// True if the hardware address of `ip` is known on the WAN side.
pub fn wan_neigh_known(neigh: &NeighborTable, ip: Ipv4Address) -> (r: bool)
    requires
        neigh.wf(),
    ensures
        r == neigh_mac(neigh@, ip) is Some,
{
    neigh.lookup(ip).is_some()
}

/// The broadcast ARP request "who has `tpa`, tell `spa`".
pub open spec fn arp_request(mac: Seq<u8>, spa: Ipv4Address, tpa: Ipv4Address) -> Seq<u8> {
    seq![0xffu8, 0xff, 0xff, 0xff, 0xff, 0xff] + mac + seq![0x08u8, 0x06] + arp_prefix()
        + seq![0x00u8, 0x01] + mac + octets_of(spa) + seq![0u8, 0, 0, 0, 0, 0] + octets_of(tpa)
}

/// The broadcast ARP request "who has `tpa`, tell `spa`".
fn build_arp_request(our_mac: [u8; 6], spa: Ipv4Address, tpa: Ipv4Address) -> (f: [u8; 42])
    ensures
        f@ == arp_request(our_mac@, spa, tpa),
{
    let s: [u8; 4] = spa.octets();
    let t: [u8; 4] = tpa.octets();
    let m: [u8; 6] = our_mac;
    let f: [u8; 42] = [
        0xff, 0xff, 0xff, 0xff, 0xff, 0xff,
        m[0], m[1], m[2], m[3], m[4], m[5],
        0x08, 0x06,
        0x00, 0x01, 0x08, 0x00, 0x06, 0x04,
        0x00, 0x01,
        m[0], m[1], m[2], m[3], m[4], m[5],
        s[0], s[1], s[2], s[3],
        0, 0, 0, 0, 0, 0,
        t[0], t[1], t[2], t[3],
    ];
    assert(f@ =~= arp_request(our_mac@, spa, tpa));
    f
}

/// Where the transport header is, and its ids and TCP flags. The ids are ports, or the
/// ICMP echo identifier.
#[derive(Clone, Copy, Debug, PartialEq, Eq, Structural)]
pub struct L4 {
    pub proto: Proto,
    pub l4_off: usize,
    pub src_id: u16,
    pub dst_id: u16,
    pub csum_off: usize,
    pub tcp_flags: u8,
}

/// The transport of pings.
pub open spec fn echo_proto() -> Proto {
    Proto::IcmpEcho
}

/// The transport header of an Ethernet frame, for the protocols that are translated.
pub open spec fn l4_of(frame: Seq<u8>) -> Option<L4> {
    let l4 = 14 + (frame[14] % 16) * 4;
    if frame.len() < 34 || be16(frame, 12) != ETHERTYPE_IPV4 || l4 < 34 {
        None
    } else if frame[23] == IPPROTO_TCP && frame.len() >= l4 + 20 {
        Some(
            L4 {
                proto: Proto::Tcp,
                l4_off: l4 as usize,
                src_id: be16(frame, l4) as u16,
                dst_id: be16(frame, l4 + 2) as u16,
                csum_off: (l4 + 16) as usize,
                tcp_flags: frame[l4 + 13],
            },
        )
    } else if frame[23] == IPPROTO_UDP && frame.len() >= l4 + 8 {
        Some(
            L4 {
                proto: Proto::Udp,
                l4_off: l4 as usize,
                src_id: be16(frame, l4) as u16,
                dst_id: be16(frame, l4 + 2) as u16,
                csum_off: (l4 + 6) as usize,
                tcp_flags: 0,
            },
        )
    } else if frame[23] == IPPROTO_ICMP && frame.len() >= l4 + 8 && (frame[l4] == 0 || frame[l4]
        == 8) {
        Some(
            L4 {
                proto: echo_proto(),
                l4_off: l4 as usize,
                src_id: be16(frame, l4 + 4) as u16,
                dst_id: 0,
                csum_off: (l4 + 2) as usize,
                tcp_flags: 0,
            },
        )
    } else {
        None
    }
}

/// The transport header of a frame, for the protocols that are translated.
fn parse_l4(frame: &[u8]) -> (r: Option<L4>)
    ensures
        r == l4_of(frame@),
{
    if frame.len() < 14 + 20 || rd16(frame, 12) != ETHERTYPE_IPV4 {
        return None;
    }
    let ihl: usize = (frame[14] % 16) as usize * 4;
    if ihl < 20 {
        return None;
    }
    let l4: usize = 14 + ihl;
    let proto: u8 = frame[23];
    if proto == IPPROTO_TCP && frame.len() >= l4 + 20 {
        Some(
            L4 {
                proto: Proto::Tcp,
                l4_off: l4,
                src_id: rd16(frame, l4),
                dst_id: rd16(frame, l4 + 2),
                csum_off: l4 + 16,
                tcp_flags: frame[l4 + 13],
            },
        )
    } else if proto == IPPROTO_UDP && frame.len() >= l4 + 8 {
        Some(
            L4 {
                proto: Proto::Udp,
                l4_off: l4,
                src_id: rd16(frame, l4),
                dst_id: rd16(frame, l4 + 2),
                csum_off: l4 + 6,
                tcp_flags: 0,
            },
        )
    } else if proto == IPPROTO_ICMP && frame.len() >= l4 + 8 && (frame[l4] == 0 || frame[l4]
        == 8) {
        Some(
            L4 {
                proto: Proto::echo(),
                l4_off: l4,
                src_id: rd16(frame, l4 + 4),
                dst_id: 0,
                csum_off: l4 + 2,
                tcp_flags: 0,
            },
        )
    } else {
        None
    }
}

/// The word changes a rewrite of an address and a port makes to what the transport
/// checksum covers.
pub open spec fn endpoint_changes(
    old_ip: Ipv4Address,
    new_ip: Ipv4Address,
    old_id: u16,
    new_id: u16,
) -> Seq<(u16, u16)> {
    seq![
        (halves_of(old_ip).0, halves_of(new_ip).0),
        (halves_of(old_ip).1, halves_of(new_ip).1),
        (old_id, new_id),
    ]
}

/// The frame with an address at `ip_off` and an id at `id_off` replaced, the transport
/// checksum brought up to date. A UDP checksum of zero means that there is none, and
/// stays; the ICMP checksum does not cover the address.
pub open spec fn napt(
    frame: Seq<u8>,
    l4: L4,
    ip_off: int,
    id_off: int,
    new_ip: Ipv4Address,
    new_id: u16,
) -> Seq<u8> {
    let old_csum = be16(frame, l4.csum_off as int) as int;
    let old_id = be16(frame, id_off) as u16;
    let changes = if is_echo(l4.proto) {
        seq![(old_id, new_id)]
    } else {
        endpoint_changes(ip_at(frame, ip_off), new_ip, old_id, new_id)
    };
    let f1 = if l4.proto == Proto::Udp && old_csum == 0 {
        frame
    } else {
        put16(frame, l4.csum_off as int, incremental(old_csum, changes) as u16)
    };
    splice(put16(f1, id_off, new_id), ip_off, octets_of(new_ip))
}

/// The frame with its source rewritten.
pub open spec fn napt_src(frame: Seq<u8>, l4: L4, new_ip: Ipv4Address, new_id: u16) -> Seq<u8> {
    let id_off = if is_echo(l4.proto) {
        l4.l4_off + 4
    } else {
        l4.l4_off as int
    };
    napt(frame, l4, 26, id_off, new_ip, new_id)
}

/// The frame with its destination rewritten.
pub open spec fn napt_dst(frame: Seq<u8>, l4: L4, new_ip: Ipv4Address, new_id: u16) -> Seq<u8> {
    let id_off = if is_echo(l4.proto) {
        l4.l4_off + 4
    } else {
        l4.l4_off + 2
    };
    napt(frame, l4, 30, id_off, new_ip, new_id)
}

/// Replace an address and an id, and bring the transport checksum up to date.
fn napt_rewrite(
    frame: &mut [u8],
    l4: &L4,
    ip_off: usize,
    id_off: usize,
    new_ip: Ipv4Address,
    new_id: u16,
)
    requires
        l4_of(old(frame)@) == Some(*l4),
        ip_off == 26 || ip_off == 30,
        l4.l4_off <= id_off <= l4.l4_off + 4,
    ensures
        final(frame)@ == napt(
            old(frame)@,
            *l4,
            ip_off as int,
            id_off as int,
            new_ip,
            new_id,
        ),
{
    let ghost f0 = frame@;
    let old_ip: Ipv4Address = rd_ip(frame, ip_off);
    let old_id: u16 = rd16(frame, id_off);
    let old_csum: u16 = rd16(frame, l4.csum_off);
    if l4.proto.is_echo() {
        let changes: [(u16, u16); 1] = [(old_id, new_id)];
        assert(changes@ =~= seq![(old_id, new_id)]);
        let c: u16 = checksum_incr(old_csum, &changes);
        wr16(frame, l4.csum_off, c);
    } else if !(l4.proto == Proto::Udp && old_csum == 0) {
        let (oh, ol) = addr_words(old_ip);
        let (nh, nl) = addr_words(new_ip);
        let changes: [(u16, u16); 3] = [(oh, nh), (ol, nl), (old_id, new_id)];
        assert(changes@ =~= endpoint_changes(old_ip, new_ip, old_id, new_id));
        let c: u16 = checksum_incr(old_csum, &changes);
        wr16(frame, l4.csum_off, c);
    }
    wr16(frame, id_off, new_id);
    let o: [u8; 4] = new_ip.octets();
    write_at(frame, ip_off, &o);
}

/// Rewrite the source address and port or id.
fn napt_rewrite_src(frame: &mut [u8], l4: &L4, new_ip: Ipv4Address, new_id: u16)
    requires
        l4_of(old(frame)@) == Some(*l4),
    ensures
        final(frame)@ == napt_src(old(frame)@, *l4, new_ip, new_id),
{
    let id_off: usize = if l4.proto.is_echo() {
        l4.l4_off + 4
    } else {
        l4.l4_off
    };
    napt_rewrite(frame, l4, 26, id_off, new_ip, new_id);
}

/// Rewrite the destination address and port or id.
fn napt_rewrite_dst(frame: &mut [u8], l4: &L4, new_ip: Ipv4Address, new_id: u16)
    requires
        l4_of(old(frame)@) == Some(*l4),
    ensures
        final(frame)@ == napt_dst(old(frame)@, *l4, new_ip, new_id),
{
    let id_off: usize = if l4.proto.is_echo() {
        l4.l4_off + 4
    } else {
        l4.l4_off + 2
    };
    napt_rewrite(frame, l4, 30, id_off, new_ip, new_id);
}

/// What `smoltcp` accepts as an IPv4 packet: a header of at least 20 bytes, inside the
/// total length, inside the buffer.
pub open spec fn ipv4_ok(b: Seq<u8>) -> bool {
    let header_len = (b[0] % 16) * 4;
    &&& b.len() >= 20
    &&& b.len() >= header_len
    &&& header_len <= be16(b, 2)
    &&& b.len() >= be16(b, 2)
    &&& header_len >= 20
}

/// `smoltcp::wire::Ipv4Packet::new_checked` on what follows `at`: true where it accepts
/// the packet. It looks at the lengths only, not at version or checksum.
#[verifier::external_body]
fn ipv4_checked(b: &[u8], at: usize) -> (ok: bool)
    requires
        at <= b@.len(),
    ensures
        ok == ipv4_ok(b@.skip(at as int)),
{
    smoltcp::wire::Ipv4Packet::new_checked(&b[at..]).is_ok()
}

/// The bytes of an IPv4 header at `at`, with the checksum field zero.
pub open spec fn unsummed_header(f: Seq<u8>, at: int) -> Seq<u8> {
    put16(f, at + 10, 0).subrange(at, at + (f[at] % 16) * 4)
}

/// `f` with the checksum of the IPv4 header at `at` filled in.
pub open spec fn summed(f: Seq<u8>, at: int) -> Seq<u8> {
    put16(f, at + 10, checksum_of(word_sum(unsummed_header(f, at))) as u16)
}

/// `smoltcp::wire::Ipv4Packet::fill_checksum` on the packet at `at`: the checksum field
/// becomes the internet checksum of the header, computed with the field at zero, and
/// nothing else changes.
#[verifier::external_body]
fn ipv4_fill_checksum(b: &mut [u8], at: usize)
    requires
        at <= old(b)@.len(),
        ipv4_ok(old(b)@.skip(at as int)),
    ensures
        final(b)@ == summed(old(b)@, at as int),
{
    smoltcp::wire::Ipv4Packet::new_unchecked(&mut b[at..]).fill_checksum()
}

/// The flow of a frame that leaves; a ping is known by its id alone.
pub open spec fn flow_of(frame: Seq<u8>, l4: L4) -> Tuple {
    Tuple {
        proto: l4.proto,
        src_ip: ip_at(frame, 26),
        src_id: l4.src_id,
        dst_ip: ip_at(frame, 30),
        dst_id: if is_echo(l4.proto) {
            0
        } else {
            l4.dst_id
        },
    }
}

/// What identifies a frame that arrives from the WAN.
pub open spec fn reply_of(frame: Seq<u8>, l4: L4) -> Reply {
    Reply {
        proto: l4.proto,
        remote_ip: ip_at(frame, 26),
        remote_id: if is_echo(l4.proto) {
            0
        } else {
            l4.src_id
        },
        wan_id: if is_echo(l4.proto) {
            l4.src_id
        } else {
            l4.dst_id
        },
    }
}

/// A frame on its way out, its flow tracked and its source translated; `None` where no
/// id was left. Protocols that are not translated pass as they are.
pub open spec fn translated(our_ip: Ipv4Address, frame: Seq<u8>, ct: CtState, now: u64) -> (
    Option<Seq<u8>>,
    CtState,
) {
    match l4_of(frame) {
        None => (Some(frame), ct),
        Some(l4) => {
            let (after, id) = out_step(ct, flow_of(frame, l4), l4.tcp_flags, now);
            match id {
                Some(id) => (Some(napt_src(frame, l4, our_ip, id)), after),
                None => (None, after),
            }
        },
    }
}

/// A frame with its TTL decremented and its IPv4 checksum filled in.
pub open spec fn hopped(frame: Seq<u8>) -> Seq<u8> {
    summed(frame.update(22, (frame[22] - 1) as u8), 14)
}

/// A frame with the hardware addresses of the next hop and of the interface.
pub open spec fn readdressed(frame: Seq<u8>, dst: Seq<u8>, src: Seq<u8>) -> Seq<u8> {
    splice(splice(frame, 0, dst), 6, src)
}

/// A frame routed out of an interface: what it has become, and why it is dropped if it
/// is.
pub open spec fn routed(cfg: IfaceCfg, frame: Seq<u8>, n: Neighbors) -> (
    Seq<u8>,
    Option<DropReason>,
) {
    if !ipv4_ok(frame.skip(14)) || frame[22] <= 1 {
        (frame, Some(DropReason::Other))
    } else {
        let f = hopped(frame);
        match next_hop(ip_at(f, 30), cfg.subnet, cfg.gateway) {
            None => (f, Some(DropReason::NoNextHop)),
            Some(nh) => match neigh_mac(n, nh) {
                None => (f, Some(DropReason::NoNextHop)),
                Some(mac) => (readdressed(f, mac, cfg.our_mac@), None),
            },
        }
    }
}

/// A frame that leaves an interface: what it has become, why it is dropped if it is,
/// and the table of flows.
pub open spec fn egressed(
    dev: ForwardingDevice,
    frame: Seq<u8>,
    ct: CtState,
    n: Neighbors,
    now: u64,
) -> (Seq<u8>, Option<DropReason>, CtState) {
    if dev.nat {
        match translated(dev.cfg.our_ip, frame, ct, now) {
            (None, after) => (frame, Some(DropReason::Nat), after),
            (Some(f), after) => (routed(dev.cfg, f, n).0, routed(dev.cfg, f, n).1, after),
        }
    } else {
        (routed(dev.cfg, frame, n).0, routed(dev.cfg, frame, n).1, ct)
    }
}

/// A frame that arrives is for the WAN address itself.
pub open spec fn for_us(cfg: IfaceCfg, frame: Seq<u8>) -> bool {
    cfg.our_ip.bits != 0 && frame.len() >= 34 && frame.subrange(0, 6) == cfg.our_mac@ && dst_of(
        frame,
    ) == Some(cfg.our_ip)
}

/// What becomes of a frame that arrives: with NAPT, a reply on a tracked flow is
/// translated back and is in transit; all else is classified as it is.
pub open spec fn ingressed(dev: ForwardingDevice, frame: Seq<u8>, ct: CtState, now: u64) -> (
    Class,
    Seq<u8>,
    CtState,
) {
    if dev.nat && for_us(dev.cfg, frame) && l4_of(frame) is Some {
        let l4 = l4_of(frame)->0;
        match in_step(ct, reply_of(frame, l4), l4.tcp_flags, now) {
            (after, Some((ip, id))) => (Class::Transit, napt_dst(frame, l4, ip, id), after),
            (after, None) => (class_of(dev.cfg, frame), frame, after),
        }
    } else {
        (class_of(dev.cfg, frame), frame, ct)
    }
}

/// One forwarding interface: its configuration, and whether it translates.
#[derive(Clone, Copy, Debug)]
pub struct ForwardingDevice {
    pub cfg: IfaceCfg,
    pub nat: bool,
}

/// A captured frame: what of `buf` fits.
pub fn capture(buf: &[u8]) -> (f: Frame)
    ensures
        frame_bytes(f) == captured(buf@),
{
    let n: usize = if buf.len() < FRAME_CAP {
        buf.len()
    } else {
        FRAME_CAP
    };
    let mut f: Frame = frame_new();
    let _ = frame_extend(&mut f, &buf[0..n]);
    assert(frame_bytes(f) =~= buf@.take(n as int));
    f
}

/// Sweep idle NAPT entries.
pub fn nat_reap(ct: &mut Conntrack, now_ms: u64)
    requires
        wf(old(ct)@),
    ensures
        final(ct)@ == crate::conntrack::reap_step(old(ct)@, now_ms),
        wf(final(ct)@),
{
    ct.reap(now_ms);
}

impl ForwardingDevice {
    /// A plain forwarding interface: no NAPT.
    pub fn new(cfg: IfaceCfg) -> (r: ForwardingDevice)
        ensures
            r == (ForwardingDevice { cfg, nat: false }),
    {
        ForwardingDevice { cfg, nat: false }
    }

    /// An interface that translates.
    pub fn new_napt(cfg: IfaceCfg) -> (r: ForwardingDevice)
        ensures
            r == (ForwardingDevice { cfg, nat: true }),
    {
        ForwardingDevice { cfg, nat: true }
    }

    /// Set address, subnet and gateway from a lease.
    pub fn set_lease(&mut self, cidr: Ipv4Cidr, gateway: Option<Ipv4Address>)
        requires
            old(self).cfg.wf(),
            cidr.wf(),
        ensures
            *final(self) == with_lease(*old(self), cidr, gateway),
            final(self).cfg.wf(),
    {
        self.cfg.our_ip = cidr.address;
        self.cfg.subnet = cidr;
        self.cfg.gateway = gateway;
    }

    /// The ARP request for the gateway, once a gateway and an address are leased.
    pub fn arp_gateway(&self) -> (r: Option<[u8; 42]>)
        ensures
            match r {
                Some(f) => gateway_question(self.cfg) == Some(f@),
                None => gateway_question(self.cfg) is None,
            },
    {
        match self.cfg.gateway {
            None => None,
            Some(gw) => {
                if self.cfg.our_ip.is_unspecified() {
                    return None;
                }
                Some(build_arp_request(self.cfg.our_mac, self.cfg.our_ip, gw))
            },
        }
    }

    /// Translate a frame on its way out. False where no id was left.
    fn translate(&self, b: &mut [u8], ct: &mut Conntrack, now_ms: u64) -> (ok: bool)
        requires
            wf(old(ct)@),
        ensures
            wf(final(ct)@),
            final(ct)@ == translated(self.cfg.our_ip, old(b)@, old(ct)@, now_ms).1,
            match translated(self.cfg.our_ip, old(b)@, old(ct)@, now_ms).0 {
                Some(f) => ok && final(b)@ == f,
                None => !ok && final(b)@ == old(b)@,
            },
    {
        let l4: L4 = match parse_l4(b) {
            Some(l4) => l4,
            None => {
                return true;
            },
        };
        let dst_id: u16 = if l4.proto.is_echo() {
            0
        } else {
            l4.dst_id
        };
        let flow = Tuple {
            proto: l4.proto,
            src_ip: rd_ip(b, 26),
            src_id: l4.src_id,
            dst_ip: rd_ip(b, 30),
            dst_id,
        };
        match ct.outbound(&flow, l4.tcp_flags, now_ms) {
            Some(id) => {
                napt_rewrite_src(b, &l4, self.cfg.our_ip, id);
                true
            },
            None => false,
        }
    }

    /// Route a frame out of this interface: TTL, checksum, next hop, hardware addresses.
    fn route(&self, b: &mut [u8], neigh: &NeighborTable) -> (r: Option<DropReason>)
        requires
            self.cfg.wf(),
            neigh.wf(),
            old(b)@.len() >= 14,
        ensures
            final(b)@ == routed(self.cfg, old(b)@, neigh@).0,
            r == routed(self.cfg, old(b)@, neigh@).1,
    {
        if !ipv4_checked(b, 14) {
            return Some(DropReason::Other);
        }
        let ttl: u8 = b[22];
        if ttl <= 1 {
            return Some(DropReason::Other);
        }
        let ghost f0 = b@;
        b[22] = ttl - 1;
        proof {
            assert(b@.skip(14)[0] == f0.skip(14)[0]);
            assert(be16(b@.skip(14), 2) == be16(f0.skip(14), 2));
        }
        ipv4_fill_checksum(b, 14);
        let dst: Ipv4Address = rd_ip(b, 30);
        let nh: Ipv4Address = match nexthop(dst, self.cfg.subnet, self.cfg.gateway) {
            Some(nh) => nh,
            None => {
                return Some(DropReason::NoNextHop);
            },
        };
        let dmac: [u8; 6] = match neigh.lookup(nh) {
            Some(m) => m,
            None => {
                return Some(DropReason::NoNextHop);
            },
        };
        write_at(b, 0, &dmac);
        write_at(b, 6, &self.cfg.our_mac);
        None
    }

    /// Prepare a forwarded frame for this interface: NAPT, TTL, checksum, next hop and
    /// hardware addresses. True if it is to be transmitted; otherwise the drop has been
    /// counted.
    pub fn egress(
        &self,
        frame: &mut Frame,
        ct: &mut Conntrack,
        neigh: &NeighborTable,
        stats: &mut FwdStats,
        now_ms: u64,
    ) -> (send: bool)
        requires
            self.cfg.wf(),
            wf(old(ct)@),
            neigh.wf(),
            frame_bytes(*old(frame)).len() >= 14,
        ensures
            ({
                let (f, drop, after) = egressed(
                    *self,
                    frame_bytes(*old(frame)),
                    old(ct)@,
                    neigh@,
                    now_ms,
                );
                &&& frame_bytes(*final(frame)) == f
                &&& final(ct)@ == after
                &&& send == drop is None
                &&& *final(stats) == accounted(*old(stats), drop)
            }),
            wf(final(ct)@),
    {
        let b: &mut [u8] = frame_slice_mut(frame);
        if self.nat && !self.translate(b, ct, now_ms) {
            stats.count_drop(DropReason::Nat);
            return false;
        }
        proof {
            lemma_translated_len(self.cfg.our_ip, frame_bytes(*old(frame)), old(ct)@, now_ms);
        }
        match self.route(b, neigh) {
            Some(reason) => {
                stats.count_drop(reason);
                false
            },
            None => true,
        }
    }

    /// Account for a frame that [`ForwardingDevice::egress`] let through, once it has
    /// gone to the interface, or has found it busy.
    pub fn egress_done(&self, stats: &mut FwdStats, len: usize, transmitted: bool)
        requires
            len <= FRAME_CAP,
        ensures
            *final(stats) == egress_counted(
                *old(stats),
                self.cfg.iface,
                len as int,
                transmitted,
            ),
    {
        if transmitted {
            stats.count_sent(self.cfg.iface, len);
        } else {
            stats.count_drop(DropReason::TxBusy);
        }
    }

    /// What becomes of a frame that arrived. On the WAN side, a reply on a tracked flow
    /// is rewritten to its LAN client and is in transit.
    pub fn classify_frame(&self, frame: &mut Frame, ct: &mut Conntrack, now_ms: u64) -> (r: Class)
        requires
            self.cfg.wf(),
            wf(old(ct)@),
        ensures
            ({
                let (class, f, after) = ingressed(
                    *self,
                    frame_bytes(*old(frame)),
                    old(ct)@,
                    now_ms,
                );
                &&& r == class
                &&& frame_bytes(*final(frame)) == f
                &&& final(ct)@ == after
            }),
            wf(final(ct)@),
    {
        let b: &mut [u8] = frame_slice_mut(frame);
        if self.nat && !self.cfg.our_ip.is_unspecified() && b.len() >= 14 + 20 && mac_eq(
            &rd_mac(b, 0),
            &self.cfg.our_mac,
        ) {
            let ours: bool = match ipv4_dst(b) {
                Some(dst) => dst == self.cfg.our_ip,
                None => false,
            };
            if ours {
                match parse_l4(b) {
                    Some(l4) => {
                        let remote_ip: Ipv4Address = rd_ip(b, 26);
                        let (remote_id, wan_id): (u16, u16) = if l4.proto.is_echo() {
                            (0, l4.src_id)
                        } else {
                            (l4.src_id, l4.dst_id)
                        };
                        match ct.inbound(
                            l4.proto,
                            remote_ip,
                            remote_id,
                            wan_id,
                            l4.tcp_flags,
                            now_ms,
                        ) {
                            Some((lan_ip, lan_id)) => {
                                napt_rewrite_dst(b, &l4, lan_ip, lan_id);
                                return Class::Transit;
                            },
                            None => {},
                        }
                    },
                    None => {},
                }
            }
        }
        classify(&self.cfg, b)
    }

    /// A frame arrived: learn from it, and say what becomes of it. A frame that is not
    /// routable is counted as dropped.
    pub fn receive(
        &self,
        frame: &mut Frame,
        ct: &mut Conntrack,
        neigh: &mut NeighborTable,
        stats: &mut FwdStats,
        now_ms: u64,
    ) -> (r: Class)
        requires
            self.cfg.wf(),
            wf(old(ct)@),
            old(neigh).wf(),
        ensures
            ({
                let (class, f, after) = ingressed(
                    *self,
                    frame_bytes(*old(frame)),
                    old(ct)@,
                    now_ms,
                );
                &&& r == class
                &&& frame_bytes(*final(frame)) == f
                &&& final(ct)@ == after
                &&& *final(stats) == accounted(*old(stats), refused(class))
            }),
            wf(final(ct)@),
            final(neigh)@ == learned(self.cfg, old(neigh)@, frame_bytes(*old(frame))),
            final(neigh).wf(),
    {
        learn(&self.cfg, frame_slice(frame), neigh);
        let class: Class = self.classify_frame(frame, ct, now_ms);
        if class == Class::Drop {
            stats.count_drop(DropReason::Other);
        }
        class
    }

    /// A transit frame was offered to the queue of the other interface, which now holds
    /// `depth` frames, or was full.
    pub fn divert_done(&self, stats: &mut FwdStats, queued: bool, depth: u32)
        ensures
            *final(stats) == divert_counted(*old(stats), self.cfg.iface, queued, depth),
    {
        if queued {
            stats.count_diverted(self.cfg.iface, depth);
        } else {
            stats.count_drop(DropReason::QueueFull);
        }
    }
}

/// Translation keeps the length.
proof fn lemma_translated_len(our_ip: Ipv4Address, frame: Seq<u8>, ct: CtState, now: u64)
    ensures
        translated(our_ip, frame, ct, now).0 matches Some(f) ==> f.len() == frame.len(),
{
}

/// The sum of the words a rewrite may touch that a TCP or UDP checksum covers: the
/// addresses of the pseudo-header, and the segment with its checksum field.
pub open spec fn covered_sum(frame: Seq<u8>, l4: L4) -> int {
    word_sum(frame.subrange(26, 34)) + word_sum(frame.skip(l4.l4_off as int))
}

/// The id field a rewrite of the source or of the destination touches.
pub open spec fn id_field(l4: L4, id_off: int) -> bool {
    if is_echo(l4.proto) {
        id_off == l4.l4_off + 4
    } else {
        id_off == l4.l4_off || id_off == l4.l4_off + 2
    }
}

/// Eight bytes are four words.
proof fn lemma_four_words(s: Seq<u8>)
    requires
        s.len() == 8,
    ensures
        word_sum(s) == be16(s, 0) + be16(s, 2) + be16(s, 4) + be16(s, 6),
{
    reveal_with_fuel(word_sum, 5);
    let a = s.skip(2);
    let b = a.skip(2);
    let c = b.skip(2);
    assert(c.skip(2).len() == 0);
    assert(a[0] == s[2] && a[1] == s[3] && b[0] == s[4] && b[1] == s[5] && c[0] == s[6] && c[1]
        == s[7]);
}

/// An incremental update keeps a checksum right: the new field and the changes cancel,
/// up to end-around carries.
proof fn lemma_update_cancels(old_csum: int, changes: Seq<(u16, u16)>, delta: int)
    requires
        0 <= old_csum <= 65535,
        change_sum(changes) == 65535 * changes.len() + delta,
    ensures
        (incremental(old_csum, changes) - old_csum + delta) % 65535 == 0,
        0 <= incremental(old_csum, changes) <= 65535,
{
    lemma_change_sum_bound(changes);
    let n = 65535 - old_csum + change_sum(changes);
    let k = if n > 0 {
        (n - 1) / 65535
    } else {
        0
    };
    assert(fold16(n) == n - 65535 * k);
    let m = k - changes.len();
    assert(incremental(old_csum, changes) - old_csum + delta == 65535 * m);
    assert((65535 * m) % 65535 == 0);
}

/// What a rewrite touches, and that the rest stays: address, id and checksum.
pub proof fn lemma_napt_fields(
    frame: Seq<u8>,
    l4: L4,
    ip_off: int,
    id_off: int,
    new_ip: Ipv4Address,
    new_id: u16,
)
    requires
        l4_of(frame) == Some(l4),
        ip_off == 26 || ip_off == 30,
        id_field(l4, id_off),
    ensures
        ({
            let g = napt(frame, l4, ip_off, id_off, new_ip, new_id);
            &&& g.len() == frame.len()
            &&& ip_at(g, ip_off) == new_ip
            &&& be16(g, id_off) == new_id
            &&& forall|j: int|
                0 <= j < frame.len() && !(ip_off <= j < ip_off + 4) && !(id_off <= j < id_off + 2)
                    && !(l4.csum_off <= j < l4.csum_off + 2) ==> #[trigger] g[j] == frame[j]
        }),
{
    let g = napt(frame, l4, ip_off, id_off, new_ip, new_id);
    let old_csum = be16(frame, l4.csum_off as int) as int;
    lemma_octets_spell(new_ip);
    let inner = if l4.proto == Proto::Udp && old_csum == 0 {
        put16(frame, id_off, new_id)
    } else {
        let old_id = be16(frame, id_off) as u16;
        let changes = if is_echo(l4.proto) {
            seq![(old_id, new_id)]
        } else {
            endpoint_changes(ip_at(frame, ip_off), new_ip, old_id, new_id)
        };
        put16(
            put16(frame, l4.csum_off as int, incremental(old_csum, changes) as u16),
            id_off,
            new_id,
        )
    };
    assert(g == splice(inner, ip_off, octets_of(new_ip)));
    lemma_ip_written(inner, ip_off, new_ip);
}

/// Translation keeps transport checksums right. Of TCP, and of UDP with a checksum, the
/// sum that the checksum covers is the same after a rewrite, up to end-around carries,
/// so a segment that was right stays right and one that was wrong stays wrong; so is
/// the sum of an ICMP message. A UDP segment without a checksum stays without one.
pub proof fn lemma_napt_keeps_checksum(
    frame: Seq<u8>,
    l4: L4,
    ip_off: int,
    id_off: int,
    new_ip: Ipv4Address,
    new_id: u16,
)
    requires
        l4_of(frame) == Some(l4),
        ip_off == 26 || ip_off == 30,
        id_field(l4, id_off),
    ensures
        ({
            let g = napt(frame, l4, ip_off, id_off, new_ip, new_id);
            if is_echo(l4.proto) {
                (word_sum(g.skip(l4.l4_off as int)) - word_sum(frame.skip(l4.l4_off as int)))
                    % 65535 == 0
            } else if l4.proto == Proto::Udp && be16(frame, l4.csum_off as int) == 0 {
                be16(g, l4.csum_off as int) == 0
            } else {
                (covered_sum(g, l4) - covered_sum(frame, l4)) % 65535 == 0
            }
        }),
{
    let g = napt(frame, l4, ip_off, id_off, new_ip, new_id);
    let old_csum = be16(frame, l4.csum_off as int) as int;
    let old_id = be16(frame, id_off) as u16;
    if l4.proto == Proto::Udp && old_csum == 0 {
        lemma_napt_fields(frame, l4, ip_off, id_off, new_ip, new_id);
    } else {
        let old_ip = ip_at(frame, ip_off);
        let changes = rewrite_changes(frame, l4, ip_off, id_off, new_ip, new_id);
        let moved = halves_of(new_ip).0 - halves_of(old_ip).0 + halves_of(new_ip).1 - halves_of(
            old_ip,
        ).1;
        let delta = if is_echo(l4.proto) {
            new_id - old_id
        } else {
            moved + new_id - old_id
        };
        lemma_changes_total(changes, delta);
        lemma_update_cancels(old_csum, changes, delta);
        lemma_napt_segment(frame, l4, ip_off, id_off, new_ip, new_id);
        lemma_napt_addresses(frame, l4, ip_off, id_off, new_ip, new_id);
    }
}

/// The word changes a rewrite makes to what the transport checksum covers.
spec fn rewrite_changes(
    frame: Seq<u8>,
    l4: L4,
    ip_off: int,
    id_off: int,
    new_ip: Ipv4Address,
    new_id: u16,
) -> Seq<(u16, u16)> {
    let old_id = be16(frame, id_off) as u16;
    if is_echo(l4.proto) {
        seq![(old_id, new_id)]
    } else {
        endpoint_changes(ip_at(frame, ip_off), new_ip, old_id, new_id)
    }
}

/// What a rewrite does to the sum of the segment.
proof fn lemma_napt_segment(
    frame: Seq<u8>,
    l4: L4,
    ip_off: int,
    id_off: int,
    new_ip: Ipv4Address,
    new_id: u16,
)
    requires
        l4_of(frame) == Some(l4),
        ip_off == 26 || ip_off == 30,
        id_field(l4, id_off),
        !(l4.proto == Proto::Udp && be16(frame, l4.csum_off as int) == 0),
        0 <= incremental(
            be16(frame, l4.csum_off as int) as int,
            rewrite_changes(frame, l4, ip_off, id_off, new_ip, new_id),
        ) <= 65535,
    ensures
        word_sum(
            napt(frame, l4, ip_off, id_off, new_ip, new_id).skip(l4.l4_off as int),
        ) == word_sum(frame.skip(l4.l4_off as int)) - be16(frame, l4.csum_off as int)
            + incremental(
            be16(frame, l4.csum_off as int) as int,
            rewrite_changes(frame, l4, ip_off, id_off, new_ip, new_id),
        ) - be16(frame, id_off) + new_id,
{
    let g = napt(frame, l4, ip_off, id_off, new_ip, new_id);
    let at = l4.l4_off as int;
    let seg = frame.skip(at);
    let changes = rewrite_changes(frame, l4, ip_off, id_off, new_ip, new_id);
    let c = incremental(be16(frame, l4.csum_off as int) as int, changes) as u16;
    let seg1 = put16(seg, l4.csum_off - at, c);
    let seg2 = put16(seg1, id_off - at, new_id);
    lemma_word_sum_put(seg, l4.csum_off - at, c);
    lemma_word_sum_put(seg1, id_off - at, new_id);
    lemma_octets_spell(new_ip);
    let inner = put16(put16(frame, l4.csum_off as int, c), id_off, new_id);
    assert(g == splice(inner, ip_off, octets_of(new_ip)));
    assert(g.skip(at) =~= seg2);
    assert(be16(seg, l4.csum_off - at) == be16(frame, l4.csum_off as int));
    assert(be16(seg1, id_off - at) == be16(frame, id_off));
}

/// What a rewrite does to the sum of the addresses.
proof fn lemma_napt_addresses(
    frame: Seq<u8>,
    l4: L4,
    ip_off: int,
    id_off: int,
    new_ip: Ipv4Address,
    new_id: u16,
)
    requires
        l4_of(frame) == Some(l4),
        ip_off == 26 || ip_off == 30,
        id_field(l4, id_off),
    ensures
        word_sum(napt(frame, l4, ip_off, id_off, new_ip, new_id).subrange(26, 34)) == word_sum(
            frame.subrange(26, 34),
        ) + halves_of(new_ip).0 - halves_of(ip_at(frame, ip_off)).0 + halves_of(new_ip).1
            - halves_of(ip_at(frame, ip_off)).1,
{
    let g = napt(frame, l4, ip_off, id_off, new_ip, new_id);
    lemma_napt_fields(frame, l4, ip_off, id_off, new_ip, new_id);
    let a = frame.subrange(26, 34);
    let b = g.subrange(26, 34);
    lemma_four_words(a);
    lemma_four_words(b);
    lemma_halves_at(frame, ip_off);
    lemma_halves_at(g, ip_off);
    if ip_off == 26 {
        assert(b[4] == a[4] && b[5] == a[5] && b[6] == a[6] && b[7] == a[7]);
    } else {
        assert(b[0] == a[0] && b[1] == a[1] && b[2] == a[2] && b[3] == a[3]);
    }
}

/// The changes of a rewrite, summed.
proof fn lemma_changes_total(changes: Seq<(u16, u16)>, delta: int)
    requires
        changes.len() == 1 && delta == changes[0].1 - changes[0].0 || changes.len() == 3 && delta
            == changes[0].1 - changes[0].0 + changes[1].1 - changes[1].0 + changes[2].1
            - changes[2].0,
    ensures
        change_sum(changes) == 65535 * changes.len() + delta,
{
    reveal_with_fuel(change_sum, 4);
    let a = changes.drop_last();
    if changes.len() == 3 {
        let b = a.drop_last();
        assert(a.last() == changes[1] && b.last() == changes[0]);
        assert(b.drop_last().len() == 0);
    } else {
        assert(a.len() == 0);
    }
}

/// What goes out is a proper hop: where a frame is sent, its TTL is one less than it
/// was, its IPv4 header checksum is right, its hardware addresses are the next hop's
/// and the interface's, and nothing else has changed.
pub proof fn lemma_routed_is_a_hop(cfg: IfaceCfg, frame: Seq<u8>, n: Neighbors)
    requires
        frame.len() >= 14,
        routed(cfg, frame, n).1 is None,
        forall|i: int| 0 <= i < n.entries.len() ==> (#[trigger] n.entries[i]).1.len() == 6,
    ensures
        ({
            let g = routed(cfg, frame, n).0;
            &&& g.len() == frame.len()
            &&& g[22] == frame[22] - 1
            &&& fold16(word_sum(g.subrange(14, 14 + (g[14] % 16) * 4))) == 65535
            &&& neigh_mac(n, next_hop(ip_at(frame, 30), cfg.subnet, cfg.gateway)->0) == Some(
                g.subrange(0, 6),
            )
            &&& g.subrange(6, 12) == cfg.our_mac@
            &&& forall|j: int|
                12 <= j < frame.len() && j != 22 && j != 24 && j != 25 ==> #[trigger] g[j]
                    == frame[j]
        }),
{
    let g = routed(cfg, frame, n).0;
    let f1 = frame.update(22, (frame[22] - 1) as u8);
    let f = hopped(frame);
    let ip = frame.skip(14);
    assert(ip[0] == frame[14]);
    let hl = (frame[14] % 16) * 4;
    let z = unsummed_header(f1, 14);
    let c = checksum_of(word_sum(z));
    lemma_word_sum_bound(z);
    assert(ip_at(f, 30) == ip_at(frame, 30));
    let nh = next_hop(ip_at(f, 30), cfg.subnet, cfg.gateway)->0;
    lemma_least(0, n.entries.len() as int, is_for(n, nh));
    let mac = neigh_mac(n, nh)->0;
    assert(mac.len() == 6);
    assert(g == readdressed(f, mac, cfg.our_mac@));
    assert(g.subrange(0, 6) =~= mac);
    assert(g.subrange(6, 12) =~= cfg.our_mac@);
    let h = g.subrange(14, 14 + hl);
    assert(h =~= put16(z, 10, c as u16));
    lemma_word_sum_put(z, 10, c as u16);
    assert(be16(z, 10) == 0);
    // The first byte holds the header length, so the sum is not empty.
    assert(word_sum(z) > 0) by {
        lemma_word_sum_bound(z.skip(2));
        assert(z[0] == frame[14]);
    }
    let s = word_sum(z);
    let k = (s - 1) / 65535;
    assert(s + c == 65535 * (k + 1));
    crate::checksum::lemma_fold_shift(0, k + 1);
}

/// Address translation never runs out: there are more ids than flows tracked.
pub proof fn lemma_egress_never_out_of_ids(
    dev: ForwardingDevice,
    frame: Seq<u8>,
    ct: CtState,
    n: Neighbors,
    now: u64,
)
    requires
        wf(ct),
    ensures
        egressed(dev, frame, ct, n, now).1 != Some(DropReason::Nat),
{
    if dev.nat && l4_of(frame) is Some {
        let l4 = l4_of(frame)->0;
        lemma_out_keeps_wf(ct, flow_of(frame, l4), l4.tcp_flags, now);
    }
}

/// `reply` answers `frame`, which was given `id`: it comes to the WAN address from the peer
/// that the frame went to, by the same transport, and to that id.
pub open spec fn answers_frame(
    dev: ForwardingDevice,
    frame: Seq<u8>,
    reply: Seq<u8>,
    id: u16,
) -> bool {
    let l4 = l4_of(frame)->0;
    let r4 = l4_of(reply)->0;
    &&& l4_of(frame) is Some
    &&& l4_of(reply) is Some
    &&& for_us(dev.cfg, reply)
    &&& r4.proto == l4.proto
    &&& ip_at(reply, 26) == ip_at(frame, 30)
    &&& if is_echo(l4.proto) {
        r4.src_id == id
    } else {
        r4.src_id == l4.dst_id && r4.dst_id == id
    }
}

/// `reply` is in transit to the client that sent `frame`: as it is but for the address, the
/// port or echo id and the checksum, it is addressed to where the frame came from.
pub open spec fn reaches_client(frame: Seq<u8>, reply: Seq<u8>, class: Class, g: Seq<u8>) -> bool {
    let l4 = l4_of(frame)->0;
    let r4 = l4_of(reply)->0;
    let id_off = if is_echo(l4.proto) {
        r4.l4_off + 4
    } else {
        r4.l4_off + 2
    };
    &&& class == Class::Transit
    &&& g.len() == reply.len()
    &&& ip_at(g, 30) == ip_at(frame, 26)
    &&& be16(g, id_off) == l4.src_id
    &&& forall|j: int|
        0 <= j < reply.len() && !(30 <= j < 34) && !(id_off <= j < id_off + 2) && !(r4.csum_off
            <= j < r4.csum_off + 2) ==> #[trigger] g[j] == reply[j]
}

/// A reply reaches the client that asked, as long as its flow is tracked: in any state of
/// the table, a frame that answers one of a flow with an entry that has not expired, to
/// that entry's id, is in transit to the client.
pub proof fn lemma_reply_reaches_client(
    dev: ForwardingDevice,
    frame: Seq<u8>,
    s: CtState,
    i: int,
    reply: Seq<u8>,
    later: u64,
)
    requires
        dev.nat,
        wf(s),
        0 <= i < CT_CAP,
        tracks(s.slots[i], flow_of(frame, l4_of(frame)->0)),
        !expired(s.slots[i], later),
        answers_frame(dev, frame, reply, s.slots[i].wan_id),
    ensures
        ({
            let (class, g, after) = ingressed(dev, reply, s, later);
            reaches_client(frame, reply, class, g)
        }),
{
    let l4 = l4_of(frame)->0;
    let r4 = l4_of(reply)->0;
    lemma_reply_finds_flow(s, flow_of(frame, l4), i, r4.tcp_flags, later);
    let id_off = if is_echo(l4.proto) {
        r4.l4_off + 4
    } else {
        r4.l4_off + 2
    };
    lemma_napt_fields(reply, r4, 30, id_off, ip_at(frame, 26), l4.src_id);
}

/// The way out and the way back: a translated frame has left the WAN interface, and
/// whatever other traffic and sweeps have done to the table since, if nothing took the
/// flow's entry away and it has not expired, a frame that answers the first, to the id it
/// was given, is in transit to the client that sent it.
pub proof fn lemma_nat_round_trip(
    dev: ForwardingDevice,
    frame: Seq<u8>,
    ct: CtState,
    now: u64,
    ops: Seq<CtOp>,
    reply: Seq<u8>,
    later: u64,
)
    requires
        dev.nat,
        wf(ct),
        l4_of(frame) is Some,
        ({
            let l4 = l4_of(frame)->0;
            let t = flow_of(frame, l4);
            let (after, id) = out_step(ct, t, l4.tcp_flags, now);
            let i = flow_slot(after.slots, t)->0;
            &&& kept(after, ops, i)
            &&& !expired(ct_run(after, ops).slots[i], later)
            &&& answers_frame(dev, frame, reply, id->0)
        }),
    ensures
        ({
            let after = translated(dev.cfg.our_ip, frame, ct, now).1;
            let (class, g, last) = ingressed(dev, reply, ct_run(after, ops), later);
            reaches_client(frame, reply, class, g)
        }),
{
    let l4 = l4_of(frame)->0;
    let t = flow_of(frame, l4);
    let after = out_step(ct, t, l4.tcp_flags, now).0;
    lemma_out_keeps_wf(ct, t, l4.tcp_flags, now);
    let i = lemma_out_tracks(ct, t, l4.tcp_flags, now);
    lemma_entry_is_kept(after, ops, i);
    lemma_reply_reaches_client(dev, frame, ct_run(after, ops), i, reply, later);
}

/// What of a frame is captured.
pub open spec fn captured(buf: Seq<u8>) -> Seq<u8> {
    if buf.len() <= FRAME_CAP {
        buf
    } else {
        buf.take(FRAME_CAP as int)
    }
}

/// A frame is captured whole up to 1600 bytes, and its first 1600 beyond.
pub proof fn lemma_captured(buf: Seq<u8>)
    ensures
        captured(buf).len() == if buf.len() < 1600 {
            buf.len()
        } else {
            1600
        },
        captured(buf) == buf.take(captured(buf).len() as int),
{
    assert(captured(buf) =~= buf.take(captured(buf).len() as int));
}

/// Eight neighbours are kept: something new displaces another exactly where eight are known.
pub proof fn lemma_room_for_eight(n: Neighbors, ip: Ipv4Address, mac: Seq<u8>)
    requires
        neigh_wf(n),
        neigh_mac(n, ip) is None,
    ensures
        n.entries.len() <= 8,
        displaces(n, ip) <==> n.entries.len() == 8,
        neigh_learn(n, ip, mac).entries.len() == if n.entries.len() < 8 {
            n.entries.len() + 1
        } else {
            8
        },
{
}

/// A table as a value is its entries in use, each address with its own hardware address.
pub proof fn lemma_table_as_value(t: NeighborTable, i: int)
    requires
        t.used <= 8,
        0 <= i < t.used,
    ensures
        t@.entries.len() == t.used,
        t@.entries[i] == (t.ip@[i], t.mac@[i]@),
        t@.next == t.next,
{
}

/// The counters after a frame was dropped for a reason, or not dropped.
pub open spec fn accounted(s: FwdStats, drop: Option<DropReason>) -> FwdStats {
    match drop {
        Some(reason) => dropped(s, reason),
        None => s,
    }
}

/// The counters after a frame that was let through has gone to the interface, or has found
/// it busy.
pub open spec fn egress_counted(
    s: FwdStats,
    iface: Iface,
    len: int,
    transmitted: bool,
) -> FwdStats {
    if transmitted {
        sent_on(s, iface, len)
    } else {
        dropped(s, DropReason::TxBusy)
    }
}

/// The counters after a transit frame was queued, or found the queue full.
pub open spec fn divert_counted(s: FwdStats, iface: Iface, queued: bool, depth: u32) -> FwdStats {
    if queued {
        diverted(s, iface, depth)
    } else {
        dropped(s, DropReason::QueueFull)
    }
}

/// Why a frame that arrived is dropped, if it is.
pub open spec fn refused(class: Class) -> Option<DropReason> {
    if class == Class::Drop {
        Some(DropReason::Other)
    } else {
        None
    }
}

/// Nothing is lost without being counted: a frame that is dropped, on arrival, for want of
/// room in the queue, on its way out or at a busy interface, adds one to the drops, and one
/// that is not adds none; one that goes out adds one to those sent.
pub proof fn lemma_all_counted(
    s: FwdStats,
    drop: Option<DropReason>,
    iface: Iface,
    len: int,
    done: bool,
    depth: u32,
    class: Class,
)
    ensures
        accounted(s, drop).drop == wrap_sum(
            s.drop,
            if drop is Some {
                1
            } else {
                0
            },
        ),
        accounted(s, drop).sent == s.sent,
        egress_counted(s, iface, len, done).drop == wrap_sum(
            s.drop,
            if done {
                0
            } else {
                1
            },
        ),
        egress_counted(s, iface, len, done).sent == wrap_sum(
            s.sent,
            if done {
                1
            } else {
                0
            },
        ),
        divert_counted(s, iface, done, depth).drop == wrap_sum(
            s.drop,
            if done {
                0
            } else {
                1
            },
        ),
        !done ==> egress_counted(s, iface, len, done).drop_txbusy == wrap_sum(s.drop_txbusy, 1),
        !done ==> divert_counted(s, iface, done, depth).drop_qfull == wrap_sum(s.drop_qfull, 1),
        done ==> egress_counted(s, iface, len, done) == sent_on(s, iface, len),
        done ==> divert_counted(s, iface, done, depth) == diverted(s, iface, depth),
        drop matches Some(reason) ==> accounted(s, drop) == dropped(s, reason),
        drop is None ==> accounted(s, drop) == s,
        refused(class) is Some <==> class == Class::Drop,
        class == Class::Drop ==> refused(class) == Some(DropReason::Other),
{
}

/// A device after a lease.
pub open spec fn with_lease(
    dev: ForwardingDevice,
    cidr: Ipv4Cidr,
    gateway: Option<Ipv4Address>,
) -> ForwardingDevice {
    ForwardingDevice {
        cfg: IfaceCfg { our_ip: cidr.address, subnet: cidr, gateway, ..dev.cfg },
        nat: dev.nat,
    }
}

/// A lease gives an interface its address, its subnet and its gateway, and changes nothing
/// else of it. From then on its own address is on its subnet.
pub proof fn lemma_leased(dev: ForwardingDevice, cidr: Ipv4Cidr, gateway: Option<Ipv4Address>)
    ensures
        ({
            let d = with_lease(dev, cidr, gateway);
            &&& d.cfg.our_ip == cidr.address
            &&& d.cfg.subnet == cidr
            &&& d.cfg.gateway == gateway
            &&& d.cfg.iface == dev.cfg.iface
            &&& d.cfg.our_mac == dev.cfg.our_mac
            &&& d.cfg.accept_dst == dev.cfg.accept_dst
            &&& d.nat == dev.nat
            &&& in_subnet(d.cfg.subnet, d.cfg.our_ip)
        }),
{
}

/// The question for the gateway, if it is to be asked.
pub open spec fn gateway_question(cfg: IfaceCfg) -> Option<Seq<u8>> {
    if cfg.gateway is Some && cfg.our_ip.bits != 0 {
        Some(arp_request(cfg.our_mac@, cfg.our_ip, cfg.gateway->0))
    } else {
        None
    }
}

/// The gateway can be asked for as soon as there is one and the interface has an address;
/// the question is for the gateway, and in the interface's name.
pub proof fn lemma_gateway_question(cfg: IfaceCfg)
    ensures
        gateway_question(cfg) is Some <==> cfg.gateway is Some && cfg.our_ip.bits != 0,
        gateway_question(cfg) matches Some(f) ==> f == arp_request(
            cfg.our_mac@,
            cfg.our_ip,
            cfg.gateway->0,
        ),
{
}

} // verus!
