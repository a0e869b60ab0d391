//! Minimal DHCP server for the LAN.
//!
//! Answers DISCOVER with OFFER and REQUEST with ACK from a fixed pool in
//! `192.168.4.0/24`, keyed by the client's hardware address. Replies are broadcast.

use vstd::prelude::*;

use smoltcp::wire::{DhcpOption, DhcpPacket, DhcpRepr, EthernetAddress};
use smoltcp::wire::Ipv4Address as WireAddress;

use crate::crc::zeros;
use crate::search::{least, lemma_least, lemma_least_found, lemma_least_none};
use crate::wire::{be32, bytes32, ip_of, lemma_spelled, mac_eq, octets_of, Ipv4Address};

verus! {

/// First host number of the pool.
pub const POOL_BASE: u8 = 10;

/// Number of leases.
pub const POOL_LEN: usize = 32;

/// Lease time, in seconds.
pub const LEASE_SECS: u32 = 3600;

/// DHCP option code of the name server.
pub const OPT_DNS_SERVER: u8 = 6;

/// DHCP message types.
pub const DHCP_DISCOVER: u8 = 1;

pub const DHCP_OFFER: u8 = 2;

pub const DHCP_REQUEST: u8 = 3;

pub const DHCP_ACK: u8 = 5;

/// UDP ports.
pub const DHCP_SERVER_PORT: u16 = 67;

pub const DHCP_CLIENT_PORT: u16 = 68;

/// Requests answered per poll.
pub const REQUESTS_PER_POLL: u32 = 4;

/// The server's own address: gateway and server identifier.
pub open spec fn server_ip() -> Ipv4Address {
    ip_of(192, 168, 4, 1)
}

/// The LAN's subnet mask.
pub open spec fn subnet_mask() -> Ipv4Address {
    ip_of(255, 255, 255, 0)
}

/// The name server offered to clients: the one the WAN lease named last, or a public one
/// until it has named one.
pub fn dns_offer(named: Option<Ipv4Address>) -> (r: Ipv4Address)
    ensures
        r == offered_dns(named),
{
    match named {
        Some(server) => server,
        None => Ipv4Address::new(8, 8, 8, 8),
    }
}

/// The address of pool slot `i`.
pub open spec fn pool_ip(i: int) -> Ipv4Address {
    ip_of(192, 168, 4, (POOL_BASE + i) as u8)
}

/// What `smoltcp` reads in a DHCP packet: message type, transaction id and client
/// hardware address; `None` where it rejects the packet.
pub uninterp spec fn dhcp_parsed(bytes: Seq<u8>) -> Option<(u8, u32, Seq<u8>)>;

/// `smoltcp::wire::DhcpRepr::parse` after `DhcpPacket::new_checked`. The result is named
/// by [`dhcp_parsed`]. Of a packet that is accepted, the transaction id is the
/// big-endian number at byte 4, and the hardware address the six bytes at byte 28. Which
/// packets are accepted, and how the message type is found among the options, is left
/// unsaid.
#[verifier::external_body]
fn dhcp_parse(bytes: &[u8]) -> (r: Option<(u8, u32, [u8; 6])>)
    ensures
        match r {
            Some((kind, xid, mac)) => dhcp_parsed(bytes@) == Some((kind, xid, mac@)),
            None => dhcp_parsed(bytes@) is None,
        },
        r matches Some((kind, xid, mac)) ==> bytes@.len() >= 240 && xid == be32(bytes@, 4) && mac@
            == bytes@.subrange(28, 34),
{
    let packet = DhcpPacket::new_checked(bytes).ok()?;
    let req = DhcpRepr::parse(&packet).ok()?;
    Some((req.message_type.into(), req.transaction_id, req.client_hardware_address.0))
}

/// A DHCP reply on the wire: fixed header, magic number, and the options message type,
/// server identifier, router, subnet mask, lease time and one more of four bytes.
pub open spec fn reply_bytes(
    message_type: u8,
    transaction_id: u32,
    mac: Seq<u8>,
    your_ip: u32,
    server: u32,
    router: u32,
    mask: u32,
    lease: u32,
    kind: u8,
    data: u32,
    broadcast: bool,
) -> Seq<u8> {
    seq![2u8, 1, 6, 0] + bytes32(transaction_id) + seq![
        0u8,
        0,
        if broadcast {
            0x80
        } else {
            0
        },
        0,
    ] + zeros(4) + bytes32(your_ip) + zeros(8) + mac + zeros(202) + seq![0x63u8, 0x82, 0x53, 0x63]
        + seq![53u8, 1, message_type] + seq![54u8, 4] + bytes32(server) + seq![3u8, 4] + bytes32(
        router,
    ) + seq![1u8, 4] + bytes32(mask) + seq![51u8, 4] + bytes32(lease) + seq![kind, 4] + bytes32(
        data,
    ) + seq![255u8]
}

/// `smoltcp::wire::DhcpRepr::emit` of an OFFER or ACK into a zeroed buffer of
/// `buffer_len` bytes: it succeeds, and the bytes are [`reply_bytes`]. The extra option
/// `kind` carries `data` in network order.
#[verifier::external_body]
fn dhcp_emit(
    message_type: u8,
    transaction_id: u32,
    mac: [u8; 6],
    your_ip: u32,
    server: u32,
    router: u32,
    mask: u32,
    lease: u32,
    kind: u8,
    data: u32,
    broadcast: bool,
    out: &mut Vec<u8>,
) -> (ok: bool)
    requires
        message_type == DHCP_OFFER || message_type == DHCP_ACK,
        old(out)@.len() == 0,
    ensures
        ok,
        final(out)@ == reply_bytes(
            message_type,
            transaction_id,
            mac@,
            your_ip,
            server,
            router,
            mask,
            lease,
            kind,
            data,
            broadcast,
        ),
{
    let ip = WireAddress::from_bits;
    let extra = [DhcpOption { kind, data: &data.to_be_bytes() }];
    let repr = DhcpRepr {
        message_type: message_type.into(), transaction_id, secs: 0, broadcast,
        client_hardware_address: EthernetAddress(mac), client_ip: ip(0), your_ip: ip(your_ip),
        server_ip: ip(0), relay_agent_ip: ip(0), router: Some(ip(router)), requested_ip: None,
        subnet_mask: Some(ip(mask)), server_identifier: Some(ip(server)), client_identifier: None,
        parameter_request_list: None, dns_servers: None, max_size: None, renew_duration: None,
        lease_duration: Some(lease), rebind_duration: None, additional_options: &extra,
    };
    out.resize(repr.buffer_len(), 0);
    repr.emit(&mut DhcpPacket::new_unchecked(&mut out[..])).is_ok()
}

/// Fixed leases: `leases[i] == Some(mac)` means that `mac` holds the address of slot `i`.
pub struct DhcpServer {
    pub leases: [Option<[u8; 6]>; POOL_LEN],
}

impl View for DhcpServer {
    type V = Seq<Option<Seq<u8>>>;

    open spec fn view(&self) -> Seq<Option<Seq<u8>>> {
        Seq::new(
            POOL_LEN as nat,
            |i: int|
                match self.leases@[i] {
                    Some(mac) => Some(mac@),
                    None => None,
                },
        )
    }
}

/// Slot `i` is held by `mac`.
pub open spec fn held_by(v: Seq<Option<Seq<u8>>>, mac: Seq<u8>) -> spec_fn(int) -> bool {
    |i: int| v[i] == Some(mac)
}

/// Slot `i` is free.
pub open spec fn is_free(v: Seq<Option<Seq<u8>>>) -> spec_fn(int) -> bool {
    |i: int| v[i] is None
}

/// The slot `mac` gets: the one it holds, else the first free one.
pub open spec fn slot_for(v: Seq<Option<Seq<u8>>>, mac: Seq<u8>) -> Option<int> {
    match least(0, v.len() as int, held_by(v, mac)) {
        Some(i) => Some(i),
        None => least(0, v.len() as int, is_free(v)),
    }
}

/// The leases after `mac` asks.
pub open spec fn leased(v: Seq<Option<Seq<u8>>>, mac: Seq<u8>) -> Seq<Option<Seq<u8>>> {
    match slot_for(v, mac) {
        Some(i) => v.update(i, Some(mac)),
        None => v,
    }
}

/// No address is held.
pub open spec fn no_leases() -> Seq<Option<Seq<u8>>> {
    Seq::new(POOL_LEN as nat, |i: int| None)
}

/// No client holds two leases.
pub open spec fn one_each(v: Seq<Option<Seq<u8>>>) -> bool {
    &&& v.len() == POOL_LEN
    &&& forall|i: int, j: int|
        0 <= i < j < v.len() && #[trigger] v[i] is Some && #[trigger] v[j] is Some ==> v[i] != v[j]
}

/// The type of the reply to a message.
pub open spec fn reply_kind(kind: u8) -> Option<u8> {
    if kind == DHCP_DISCOVER {
        Some(DHCP_OFFER)
    } else if kind == DHCP_REQUEST {
        Some(DHCP_ACK)
    } else {
        None
    }
}

/// The reply that leases slot `i`.
pub open spec fn lease_reply(kind: u8, xid: u32, mac: Seq<u8>, i: int, dns: Ipv4Address) -> Seq<
    u8,
> {
    reply_bytes(
        kind,
        xid,
        mac,
        pool_ip(i).bits,
        server_ip().bits,
        server_ip().bits,
        subnet_mask().bits,
        LEASE_SECS,
        OPT_DNS_SERVER,
        dns.bits,
        true,
    )
}

/// The leases after a message and the reply to it: an OFFER for a DISCOVER, an ACK for a
/// REQUEST, while the pool lasts; no other message is answered or changes anything.
pub open spec fn answered(
    v: Seq<Option<Seq<u8>>>,
    kind: u8,
    xid: u32,
    mac: Seq<u8>,
    dns: Ipv4Address,
) -> (Seq<Option<Seq<u8>>>, Option<Seq<u8>>) {
    match reply_kind(kind) {
        None => (v, None),
        Some(reply) => match slot_for(v, mac) {
            None => (v, None),
            Some(i) => (leased(v, mac), Some(lease_reply(reply, xid, mac, i, dns))),
        },
    }
}

/// The leases held in the first `n` slots, in order of address.
pub open spec fn held(v: Seq<Option<Seq<u8>>>, n: int) -> Seq<(Ipv4Address, Seq<u8>)>
    decreases n,
{
    if n <= 0 {
        Seq::empty()
    } else {
        match v[n - 1] {
            Some(mac) => held(v, n - 1).push((pool_ip(n - 1), mac)),
            None => held(v, n - 1),
        }
    }
}

/// The address of pool slot `i`.
fn ip_for(i: usize) -> (r: Ipv4Address)
    requires
        i < POOL_LEN,
    ensures
        r == pool_ip(i as int),
{
    Ipv4Address::new(192, 168, 4, POOL_BASE + i as u8)
}

impl DhcpServer {
    /// No lease held.
    pub fn new() -> (r: DhcpServer)
        ensures
            r@ == no_leases(),
            one_each(r@),
    {
        let r = DhcpServer { leases: [None;POOL_LEN] };
        assert(r@ =~= no_leases());
        r
    }

    /// Leases held, as address and hardware address, in order of address.
    pub fn active_leases(&self) -> (r: Vec<(Ipv4Address, [u8; 6])>)
        ensures
            r@.len() == held(self@, POOL_LEN as int).len(),
            forall|k: int|
                0 <= k < r@.len() ==> (#[trigger] r@[k]).0 == held(self@, POOL_LEN as int)[k].0
                    && r@[k].1@ == held(self@, POOL_LEN as int)[k].1,
    {
        let mut r: Vec<(Ipv4Address, [u8; 6])> = Vec::new();
        let mut i: usize = 0;
        while i < POOL_LEN
            invariant
                i <= POOL_LEN,
                r@.len() == held(self@, i as int).len(),
                forall|k: int|
                    0 <= k < r@.len() ==> (#[trigger] r@[k]).0 == held(self@, i as int)[k].0
                        && r@[k].1@ == held(self@, i as int)[k].1,
            decreases POOL_LEN - i,
        {
            let slot: Option<[u8; 6]> = self.leases[i];
            assert(self@[i as int] == match self.leases@[i as int] {
                Some(mac) => Some(mac@),
                None => None,
            });
            match slot {
                Some(mac) => {
                    r.push((ip_for(i), mac));
                },
                None => {},
            }
            i = i + 1;
        }
        r
    }

    /// Reuse the lease that `mac` holds, else claim the first free slot.
    pub fn allocate(&mut self, mac: [u8; 6]) -> (r: Option<Ipv4Address>)
        requires
            one_each(old(self)@),
        ensures
            final(self)@ == leased(old(self)@, mac@),
            one_each(final(self)@),
            r == match slot_for(old(self)@, mac@) {
                Some(i) => Some(pool_ip(i)),
                None => None,
            },
    {
        let ghost v = self@;
        let ghost p = held_by(v, mac@);
        proof {
            lemma_leased_one_each(v, mac@);
        }
        let mut i: usize = 0;
        while i < POOL_LEN
            invariant
                i <= POOL_LEN,
                v == self@,
                v == old(self)@,
                v.len() == POOL_LEN,
                p == held_by(v, mac@),
                one_each(v),
                one_each(leased(v, mac@)),
                forall|j: int| 0 <= j < i ==> !#[trigger] p(j),
            decreases POOL_LEN - i,
        {
            assert(v[i as int] == match self.leases@[i as int] {
                Some(mac) => Some(mac@),
                None => None,
            });
            let mine: bool = match self.leases[i] {
                Some(m) => mac_eq(&m, &mac),
                None => false,
            };
            if mine {
                proof {
                    assert(p(i as int));
                    lemma_least_found(0, POOL_LEN as int, p, i as int);
                    assert(v.update(i as int, Some(mac@)) =~= v);
                }
                return Some(ip_for(i));
            }
            assert(!p(i as int));
            i = i + 1;
        }
        proof {
            lemma_least_none(0, POOL_LEN as int, p);
        }
        let ghost q = is_free(v);
        let mut k: usize = 0;
        while k < POOL_LEN
            invariant
                k <= POOL_LEN,
                v == self@,
                v == old(self)@,
                v.len() == POOL_LEN,
                p == held_by(v, mac@),
                least(0, POOL_LEN as int, p) is None,
                q == is_free(v),
                one_each(v),
                one_each(leased(v, mac@)),
                forall|j: int| 0 <= j < k ==> !#[trigger] q(j),
            decreases POOL_LEN - k,
        {
            assert(v[k as int] == match self.leases@[k as int] {
                Some(mac) => Some(mac@),
                None => None,
            });
            if self.leases[k].is_none() {
                proof {
                    assert(q(k as int));
                    lemma_least_found(0, POOL_LEN as int, q, k as int);
                }
                self.leases[k] = Some(mac);
                assert(self@ =~= v.update(k as int, Some(mac@)));
                return Some(ip_for(k));
            }
            assert(!q(k as int));
            k = k + 1;
        }
        proof {
            lemma_least_none(0, POOL_LEN as int, q);
        }
        None
    }

    /// Answer a message of type `kind` from `mac`, offering the name server `dns`: the
    /// bytes of the reply, if there is one.
    pub fn answer(&mut self, kind: u8, xid: u32, mac: [u8; 6], dns: Ipv4Address) -> (r: Option<
        Vec<u8>,
    >)
        requires
            one_each(old(self)@),
        ensures
            one_each(final(self)@),
            final(self)@ == answered(old(self)@, kind, xid, mac@, dns).0,
            match r {
                Some(bytes) => answered(old(self)@, kind, xid, mac@, dns).1 == Some(bytes@),
                None => answered(old(self)@, kind, xid, mac@, dns).1 is None,
            },
    {
        let reply_type: u8 = if kind == DHCP_DISCOVER {
            DHCP_OFFER
        } else if kind == DHCP_REQUEST {
            DHCP_ACK
        } else {
            return None;
        };
        let your_ip: Ipv4Address = match self.allocate(mac) {
            Some(ip) => ip,
            None => {
                return None;
            },
        };
        let server: Ipv4Address = Ipv4Address::new(192, 168, 4, 1);
        let mask: Ipv4Address = Ipv4Address::new(255, 255, 255, 0);
        let mut out: Vec<u8> = Vec::new();
        let ok: bool = dhcp_emit(
            reply_type,
            xid,
            mac,
            your_ip.bits,
            server.bits,
            server.bits,
            mask.bits,
            LEASE_SECS,
            OPT_DNS_SERVER,
            dns.bits,
            true,
            &mut out,
        );
        if ok {
            Some(out)
        } else {
            None
        }
    }

    /// Parse a request and, for a DISCOVER or REQUEST, build the reply that offers the
    /// name server `dns`.
    pub fn build_reply(&mut self, req_bytes: &[u8], dns: Ipv4Address) -> (r: Option<Vec<u8>>)
        requires
            one_each(old(self)@),
        ensures
            one_each(final(self)@),
            match dhcp_parsed(req_bytes@) {
                None => r is None && final(self)@ == old(self)@,
                Some((kind, xid, mac)) => final(self)@ == answered(
                    old(self)@,
                    kind,
                    xid,
                    mac,
                    dns,
                ).0 && match r {
                    Some(bytes) => answered(old(self)@, kind, xid, mac, dns).1 == Some(bytes@)
                        && xid == be32(req_bytes@, 4) && mac == req_bytes@.subrange(28, 34),
                    None => answered(old(self)@, kind, xid, mac, dns).1 is None,
                },
            },
    {
        match dhcp_parse(req_bytes) {
            Some((kind, xid, mac)) => self.answer(kind, xid, mac, dns),
            None => None,
        }
    }
}

/// Leasing keeps one lease per client.
pub proof fn lemma_leased_one_each(v: Seq<Option<Seq<u8>>>, mac: Seq<u8>)
    requires
        one_each(v),
    ensures
        one_each(leased(v, mac)),
{
    let p = held_by(v, mac);
    let q = is_free(v);
    lemma_least(0, v.len() as int, p);
    lemma_least(0, v.len() as int, q);
    let w = leased(v, mac);
    match least(0, v.len() as int, p) {
        Some(i) => {
            assert(p(i));
            assert(w =~= v);
        },
        None => {
            assert forall|i: int, j: int|
                0 <= i < j < w.len() && #[trigger] w[i] is Some && #[trigger] w[j]
                    is Some implies w[i] != w[j] by {
                assert(!p(i));
                assert(!p(j));
            }
        },
    }
}

/// The leases after each of `macs` asks, one after another.
pub open spec fn leased_all(v: Seq<Option<Seq<u8>>>, macs: Seq<Seq<u8>>) -> Seq<Option<Seq<u8>>>
    decreases macs.len(),
{
    if macs.len() == 0 {
        v
    } else {
        leased(leased_all(v, macs.drop_last()), macs.last())
    }
}

/// A lease stays where it is when anyone asks.
proof fn lemma_lease_stays(v: Seq<Option<Seq<u8>>>, mac: Seq<u8>, i: int, other: Seq<u8>)
    requires
        one_each(v),
        0 <= i < v.len(),
        v[i] == Some(mac),
    ensures
        leased(v, other)[i] == Some(mac),
{
    lemma_least(0, v.len() as int, held_by(v, other));
    lemma_least(0, v.len() as int, is_free(v));
    match slot_for(v, other) {
        Some(j) => {
            assert(held_by(v, other)(j) || is_free(v)(j));
        },
        None => {},
    }
}

/// A lease stays where it is, however many ask.
proof fn lemma_lease_stays_for_all(
    v: Seq<Option<Seq<u8>>>,
    mac: Seq<u8>,
    i: int,
    others: Seq<Seq<u8>>,
)
    requires
        one_each(v),
        0 <= i < v.len(),
        v[i] == Some(mac),
    ensures
        one_each(leased_all(v, others)),
        leased_all(v, others)[i] == Some(mac),
    decreases others.len(),
{
    if others.len() > 0 {
        let before = leased_all(v, others.drop_last());
        lemma_lease_stays_for_all(v, mac, i, others.drop_last());
        lemma_leased_one_each(before, others.last());
        lemma_lease_stays(before, mac, i, others.last());
    }
}

/// A client keeps its address: whoever asks in between, and however often, a client that
/// was given a lease is given the same slot when it asks again.
pub proof fn lemma_lease_is_kept(v: Seq<Option<Seq<u8>>>, mac: Seq<u8>, others: Seq<Seq<u8>>)
    requires
        one_each(v),
        slot_for(v, mac) is Some,
    ensures
        slot_for(leased_all(leased(v, mac), others), mac) == slot_for(v, mac),
{
    let i = slot_for(v, mac)->0;
    lemma_least(0, v.len() as int, held_by(v, mac));
    lemma_least(0, v.len() as int, is_free(v));
    lemma_leased_one_each(v, mac);
    lemma_lease_stays_for_all(leased(v, mac), mac, i, others);
    lemma_holds(leased_all(leased(v, mac), others), mac, i);
}

proof fn lemma_holds(v: Seq<Option<Seq<u8>>>, mac: Seq<u8>, i: int)
    requires
        one_each(v),
        0 <= i < v.len(),
        v[i] == Some(mac),
    ensures
        slot_for(v, mac) == Some(i),
{
    let p = held_by(v, mac);
    assert forall|j: int| 0 <= j < i implies !#[trigger] p(j) by {
        assert(v[j] is Some ==> v[j] != v[i]);
    }
    lemma_least_found(0, v.len() as int, p, i);
}

/// From an empty pool on, whoever asks, no client holds two leases.
pub proof fn lemma_reached_one_each(macs: Seq<Seq<u8>>)
    ensures
        one_each(leased_all(no_leases(), macs)),
    decreases macs.len(),
{
    if macs.len() > 0 {
        lemma_reached_one_each(macs.drop_last());
        lemma_leased_one_each(leased_all(no_leases(), macs.drop_last()), macs.last());
    }
}

/// How addresses are given out. A client that holds a lease gets the same address again,
/// and nothing changes. A new client gets the lowest free address of 192.168.4.10 to
/// 192.168.4.41, which nobody else holds, and no other lease changes. A client is refused
/// only if it is new and all addresses are held, and then nothing changes.
pub proof fn lemma_allocation(v: Seq<Option<Seq<u8>>>, mac: Seq<u8>)
    requires
        one_each(v),
    ensures
        match slot_for(v, mac) {
            Some(i) => {
                &&& 0 <= i < POOL_LEN
                &&& pool_ip(i) == ip_of(192, 168, 4, (10 + i) as u8)
                &&& leased(v, mac)[i] == Some(mac)
                &&& forall|j: int|
                    0 <= j < POOL_LEN && j != i ==> #[trigger] leased(v, mac)[j] == v[j]
                        && leased(v, mac)[j] != Some(mac) && pool_ip(j) != pool_ip(i)
                &&& v[i] == Some(mac) && leased(v, mac) == v || v[i] is None && (forall|j: int|
                    0 <= j < POOL_LEN ==> #[trigger] v[j] != Some(mac)) && (forall|j: int|
                    0 <= j < i ==> #[trigger] v[j] is Some)
            },
            None => {
                &&& leased(v, mac) == v
                &&& forall|j: int| 0 <= j < POOL_LEN ==> #[trigger] v[j] is Some && v[j] != Some(mac)
            },
        },
{
    let p = held_by(v, mac);
    let q = is_free(v);
    lemma_least(0, v.len() as int, p);
    lemma_least(0, v.len() as int, q);
    lemma_refused_only_when_full(v, mac);
    match slot_for(v, mac) {
        Some(i) => {
            assert forall|j: int| 0 <= j < POOL_LEN && j != i implies #[trigger] leased(v, mac)[j]
                == v[j] && leased(v, mac)[j] != Some(mac) && pool_ip(j) != pool_ip(i) by {
                if least(0, v.len() as int, p) is None {
                    assert(!p(j));
                } else {
                    assert(p(i));
                    if j < i {
                        assert(v[j] is Some ==> v[j] != v[i]);
                    } else {
                        assert(v[j] is Some ==> v[i] != v[j]);
                    }
                }
            }
            if least(0, v.len() as int, p) is None {
                assert(q(i));
                assert forall|j: int| 0 <= j < POOL_LEN implies #[trigger] v[j] != Some(mac) by {
                    assert(!p(j));
                }
                assert forall|j: int| 0 <= j < i implies #[trigger] v[j] is Some by {
                    assert(!q(j));
                }
            } else {
                assert(p(i));
                assert(leased(v, mac) =~= v);
            }
        },
        None => {},
    }
}

/// No address is given to two clients.
pub proof fn lemma_leases_are_exclusive(v: Seq<Option<Seq<u8>>>, a: Seq<u8>, b: Seq<u8>)
    requires
        one_each(v),
        a != b,
        slot_for(v, a) is Some,
        slot_for(leased(v, a), b) is Some,
    ensures
        slot_for(leased(v, a), b) != slot_for(v, a),
        pool_ip(slot_for(leased(v, a), b)->0) != pool_ip(slot_for(v, a)->0),
{
    let i = slot_for(v, a)->0;
    let w = leased(v, a);
    lemma_least(0, v.len() as int, held_by(v, a));
    lemma_least(0, v.len() as int, is_free(v));
    lemma_least(0, w.len() as int, held_by(w, b));
    lemma_least(0, w.len() as int, is_free(w));
    let j = slot_for(w, b)->0;
    assert(held_by(w, b)(j) || is_free(w)(j));
    assert(w[i] == Some(a));
}

/// A client is turned away only when every address is held by another.
pub proof fn lemma_refused_only_when_full(v: Seq<Option<Seq<u8>>>, mac: Seq<u8>)
    requires
        one_each(v),
    ensures
        slot_for(v, mac) is None <==> forall|i: int|
            0 <= i < POOL_LEN ==> #[trigger] v[i] is Some && v[i] != Some(mac),
{
    let p = held_by(v, mac);
    let q = is_free(v);
    lemma_least(0, v.len() as int, p);
    lemma_least(0, v.len() as int, q);
    if slot_for(v, mac) is None {
        assert forall|i: int| 0 <= i < POOL_LEN implies #[trigger] v[i] is Some && v[i] != Some(
            mac,
        ) by {
            assert(!p(i));
            assert(!q(i));
        }
    } else {
        let i = slot_for(v, mac)->0;
        assert(p(i) || q(i));
        assert(v[i] is None || v[i] == Some(mac));
    }
}

/// A reply answers the request: it has the server's opcode, the client's transaction id
/// and hardware address, the leased address, and goes out as a broadcast.
pub proof fn lemma_reply_fields(kind: u8, xid: u32, mac: Seq<u8>, i: int, dns: Ipv4Address)
    requires
        mac.len() == 6,
        0 <= i < POOL_LEN,
    ensures
        ({
            let b = lease_reply(kind, xid, mac, i, dns);
            &&& b.len() == 274
            &&& b[0] == 2
            &&& b.subrange(4, 8) == bytes32(xid)
            &&& b[10] == 0x80
            &&& b.subrange(16, 20) == octets_of(pool_ip(i))
            &&& b.subrange(28, 34) == mac
            &&& b.subrange(240, 243) == seq![53u8, 1, kind]
            &&& b.subrange(269, 273) == octets_of(dns)
        }),
{
    let b = lease_reply(kind, xid, mac, i, dns);
    assert(b.subrange(4, 8) =~= bytes32(xid));
    assert(b.subrange(16, 20) =~= octets_of(pool_ip(i)));
    assert(b.subrange(28, 34) =~= mac);
    assert(b.subrange(240, 243) =~= seq![53u8, 1, kind]);
    assert(b.subrange(269, 273) =~= octets_of(dns));
}

/// The four bytes at `i`.
pub open spec fn quad(b: Seq<u8>, i: int) -> Seq<u8> {
    seq![b[i], b[i + 1], b[i + 2], b[i + 3]]
}

/// The bytes of a reply, but for its type and the last octet of the address: server and
/// router are 192.168.4.1, the mask is 255.255.255.0, the lease is for 3600 seconds, and the
/// name server is the one given.
pub open spec fn is_reply(b: Seq<u8>, xid: u32, mac: Seq<u8>, dns: Ipv4Address) -> bool {
    &&& b.len() == 274
    &&& quad(b, 0) == seq![2u8, 1, 6, 0]
    &&& quad(b, 4) == octets_of(Ipv4Address { bits: xid })
    &&& quad(b, 8) == seq![0u8, 0, 0x80, 0]
    &&& forall|j: int| 12 <= j < 16 || 20 <= j < 28 || 34 <= j < 236 ==> #[trigger] b[j] == 0
    &&& b[16] == 192 && b[17] == 168 && b[18] == 4
    &&& b.subrange(28, 34) == mac
    &&& quad(b, 236) == seq![0x63u8, 0x82, 0x53, 0x63]
    &&& b[240] == 53 && b[241] == 1
    &&& b[243] == 54 && b[244] == 4 && quad(b, 245) == seq![192u8, 168, 4, 1]
    &&& b[249] == 3 && b[250] == 4 && quad(b, 251) == seq![192u8, 168, 4, 1]
    &&& b[255] == 1 && b[256] == 4 && quad(b, 257) == seq![255u8, 255, 255, 0]
    &&& b[261] == 51 && b[262] == 4 && quad(b, 263) == seq![0u8, 0, 14, 16]
    &&& b[267] == 6 && b[268] == 4 && quad(b, 269) == octets_of(dns)
    &&& b[273] == 255
}

/// What a client is told. A DISCOVER (1) is answered by an OFFER (2) and a REQUEST (3) by an
/// ACK (5), as long as there is an address for the client, and nothing else is answered. The
/// address is that of the slot which the client then holds, out of 192.168.4.10 to
/// 192.168.4.41: the one it held, or else the lowest that was free.
pub proof fn lemma_what_a_client_is_told(
    v: Seq<Option<Seq<u8>>>,
    kind: u8,
    xid: u32,
    mac: Seq<u8>,
    dns: Ipv4Address,
)
    requires
        one_each(v),
        mac.len() == 6,
    ensures
        ({
            let (after, reply) = answered(v, kind, xid, mac, dns);
            let b = reply->0;
            let i = b[19] - 10;
            let served = exists|k: int|
                0 <= k < 32 && (#[trigger] v[k] == Some(mac) || v[k] is None);
            &&& reply is Some <==> (kind == 1 || kind == 3) && served
            &&& reply is None ==> after == v
            &&& reply is Some ==> {
                &&& is_reply(b, xid, mac, dns)
                &&& kind == 1 ==> b[242] == 2
                &&& kind == 3 ==> b[242] == 5
                &&& 0 <= i < 32
                &&& after.len() == 32
                &&& after[i] == Some(mac)
                &&& v[i] == Some(mac) || v[i] is None
                &&& v[i] is None ==> forall|k: int|
                    0 <= k < 32 ==> #[trigger] v[k] != Some(mac) && (k < i ==> v[k] is Some)
                &&& forall|k: int| 0 <= k < 32 && k != i ==> #[trigger] after[k] == v[k]
            }
        }),
{
    lemma_allocation(v, mac);
    if slot_for(v, mac) is Some {
        let i = slot_for(v, mac)->0;
        assert(v[i] == Some(mac) || v[i] is None);
        if let Some(told) = reply_kind(kind) {
            lemma_lease_reply(told, xid, mac, i, dns);
        }
    }
}

/// The reply that leases slot `i`.
#[verifier::rlimit(30)]
proof fn lemma_lease_reply(told: u8, xid: u32, mac: Seq<u8>, i: int, dns: Ipv4Address)
    requires
        mac.len() == 6,
        0 <= i < 32,
    ensures
        ({
            let b = lease_reply(told, xid, mac, i, dns);
            is_reply(b, xid, mac, dns) && b[19] == 10 + i && b[242] == told
        }),
{
    let server = server_ip().bits;
    let mask = subnet_mask().bits;
    lemma_spelled(192, 168, 4, (10 + i) as u8);
    lemma_spelled(192, 168, 4, 1);
    lemma_spelled(255, 255, 255, 0);
    assert(bytes32(3600) =~= seq![0u8, 0, 14, 16]);
    lemma_reply_head(told, xid, mac, pool_ip(i).bits, server, server, mask, 3600, 6, dns.bits);
    lemma_reply_options(told, xid, mac, pool_ip(i).bits, server, server, mask, 3600, 6, dns.bits);
    let b = lease_reply(told, xid, mac, i, dns);
    assert(quad(b, 16) == seq![192u8, 168, 4, (10 + i) as u8]);
    assert(quad(b, 16)[0] == b[16] && quad(b, 16)[1] == b[17] && quad(b, 16)[2] == b[18] && quad(
        b,
        16,
    )[3] == b[19]);
}

/// The fixed part of a reply.
#[verifier::rlimit(30)]
proof fn lemma_reply_head(
    told: u8,
    xid: u32,
    mac: Seq<u8>,
    your_ip: u32,
    server: u32,
    router: u32,
    mask: u32,
    lease: u32,
    kind: u8,
    data: u32,
)
    requires
        mac.len() == 6,
    ensures
        ({
            let b = reply_bytes(
                told,
                xid,
                mac,
                your_ip,
                server,
                router,
                mask,
                lease,
                kind,
                data,
                true,
            );
            &&& b.len() == 274
            &&& quad(b, 0) == seq![2u8, 1, 6, 0]
            &&& quad(b, 4) == bytes32(xid)
            &&& quad(b, 8) == seq![0u8, 0, 0x80, 0]
            &&& forall|j: int| 12 <= j < 16 || 20 <= j < 28 || 34 <= j < 236 ==> #[trigger] b[j]
                == 0
            &&& quad(b, 16) == bytes32(your_ip)
            &&& b.subrange(28, 34) == mac
            &&& quad(b, 236) == seq![0x63u8, 0x82, 0x53, 0x63]
        }),
{
    let b = reply_bytes(told, xid, mac, your_ip, server, router, mask, lease, kind, data, true);
    let head = seq![2u8, 1, 6, 0] + bytes32(xid) + seq![0u8, 0, 0x80, 0] + zeros(4) + bytes32(
        your_ip,
    ) + zeros(8) + mac + zeros(202) + seq![0x63u8, 0x82, 0x53, 0x63];
    assert(head.len() == 240);
    assert forall|j: int| 0 <= j < 240 implies #[trigger] b[j] == head[j] by {}
    assert(b.subrange(28, 34) =~= mac);
    assert(quad(b, 0) =~= seq![2u8, 1, 6, 0]);
    assert(quad(b, 4) =~= bytes32(xid));
    assert(quad(b, 8) =~= seq![0u8, 0, 0x80, 0]);
    assert(quad(b, 16) =~= bytes32(your_ip));
    assert(quad(b, 236) =~= seq![0x63u8, 0x82, 0x53, 0x63]);
}

/// The options of a reply.
#[verifier::rlimit(30)]
proof fn lemma_reply_options(
    told: u8,
    xid: u32,
    mac: Seq<u8>,
    your_ip: u32,
    server: u32,
    router: u32,
    mask: u32,
    lease: u32,
    kind: u8,
    data: u32,
)
    requires
        mac.len() == 6,
    ensures
        ({
            let b = reply_bytes(
                told,
                xid,
                mac,
                your_ip,
                server,
                router,
                mask,
                lease,
                kind,
                data,
                true,
            );
            &&& b[240] == 53 && b[241] == 1 && b[242] == told
            &&& b[243] == 54 && b[244] == 4 && quad(b, 245) == bytes32(server)
            &&& b[249] == 3 && b[250] == 4 && quad(b, 251) == bytes32(router)
            &&& b[255] == 1 && b[256] == 4 && quad(b, 257) == bytes32(mask)
            &&& b[261] == 51 && b[262] == 4 && quad(b, 263) == bytes32(lease)
            &&& b[267] == kind && b[268] == 4 && quad(b, 269) == bytes32(data)
            &&& b[273] == 255
        }),
{
    let b = reply_bytes(told, xid, mac, your_ip, server, router, mask, lease, kind, data, true);
    let head = seq![2u8, 1, 6, 0] + bytes32(xid) + seq![0u8, 0, 0x80, 0] + zeros(4) + bytes32(
        your_ip,
    ) + zeros(8) + mac + zeros(202) + seq![0x63u8, 0x82, 0x53, 0x63];
    let tail = seq![53u8, 1, told] + seq![54u8, 4] + bytes32(server) + seq![3u8, 4] + bytes32(
        router,
    ) + seq![1u8, 4] + bytes32(mask) + seq![51u8, 4] + bytes32(lease) + seq![kind, 4] + bytes32(
        data,
    ) + seq![255u8];
    assert(head.len() == 240 && tail.len() == 34);
    assert(b =~= head + tail);
    assert(b[240] == tail[0] && b[241] == tail[1] && b[242] == tail[2] && b[243] == tail[3]
        && b[244] == tail[4]);
    assert(quad(b, 245) =~= bytes32(server));
    assert(b[249] == tail[9] && b[250] == tail[10]);
    assert(quad(b, 251) =~= bytes32(router));
    assert(b[255] == tail[15] && b[256] == tail[16]);
    assert(quad(b, 257) =~= bytes32(mask));
    assert(b[261] == tail[21] && b[262] == tail[22]);
    assert(quad(b, 263) =~= bytes32(lease));
    assert(b[267] == tail[27] && b[268] == tail[28]);
    assert(quad(b, 269) =~= bytes32(data));
    assert(b[273] == tail[33]);
}

/// The leases that are listed are those held, each once, in order of address.
pub proof fn lemma_held(v: Seq<Option<Seq<u8>>>, n: int)
    requires
        0 <= n <= v.len(),
        v.len() == POOL_LEN,
    ensures
        forall|k: int|
            0 <= k < held(v, n).len() ==> exists|i: int|
                0 <= i < n && #[trigger] v[i] == Some((#[trigger] held(v, n)[k]).1) && held(v, n)[k].0
                    == ip_of(192, 168, 4, (10 + i) as u8),
        forall|i: int|
            0 <= i < n && #[trigger] v[i] is Some ==> held(v, n).contains(
                (ip_of(192, 168, 4, (10 + i) as u8), v[i]->0),
            ),
        forall|a: int, b: int|
            0 <= a < b < held(v, n).len() ==> (#[trigger] held(v, n)[a]).0.bits < (
            #[trigger] held(v, n)[b]).0.bits,
        forall|k: int|
            0 <= k < held(v, n).len() ==> (#[trigger] held(v, n)[k]).0.bits < ip_of(
                192,
                168,
                4,
                10,
            ).bits + n,
    decreases n,
{
    if n > 0 {
        lemma_held(v, n - 1);
        let before = held(v, n - 1);
        let all = held(v, n);
        assert(pool_ip(n - 1) == ip_of(192, 168, 4, (10 + (n - 1)) as u8));
        if v[n - 1] is Some {
            let last = (pool_ip(n - 1), v[n - 1]->0);
            assert(all == before.push(last));
            assert(all[all.len() - 1] == last);
            assert forall|i: int| 0 <= i < n && #[trigger] v[i] is Some implies all.contains(
                (ip_of(192, 168, 4, (10 + i) as u8), v[i]->0),
            ) by {
                if i < n - 1 {
                    let p = (ip_of(192, 168, 4, (10 + i) as u8), v[i]->0);
                    let k = before.index_of(p);
                    assert(before.contains(p));
                    assert(all[k] == p);
                }
            }
            assert forall|k: int| 0 <= k < all.len() implies exists|i: int|
                0 <= i < n && #[trigger] v[i] == Some((#[trigger] all[k]).1) && all[k].0 == ip_of(
                    192,
                    168,
                    4,
                    (10 + i) as u8,
                ) by {
                if k < before.len() {
                    assert(all[k] == before[k]);
                    let i = choose|i: int|
                        0 <= i < n - 1 && #[trigger] v[i] == Some(before[k].1) && before[k].0
                            == ip_of(192, 168, 4, (10 + i) as u8);
                    assert(v[i] == Some(all[k].1));
                } else {
                    assert(v[n - 1] == Some(all[k].1));
                }
            }
            assert forall|a: int, b: int| 0 <= a < b < all.len() implies (#[trigger] all[a]).0.bits
                < (#[trigger] all[b]).0.bits by {
                assert(all[a] == before[a]);
                if b < before.len() {
                    assert(all[b] == before[b]);
                }
            }
            assert forall|k: int| 0 <= k < all.len() implies (#[trigger] all[k]).0.bits < ip_of(
                192,
                168,
                4,
                10,
            ).bits + n by {
                if k < before.len() {
                    assert(all[k] == before[k]);
                }
            }
        } else {
            assert(all == before);
            assert forall|k: int| 0 <= k < all.len() implies exists|i: int|
                0 <= i < n && #[trigger] v[i] == Some((#[trigger] all[k]).1) && all[k].0 == ip_of(
                    192,
                    168,
                    4,
                    (10 + i) as u8,
                ) by {
                let i = choose|i: int|
                    0 <= i < n - 1 && #[trigger] v[i] == Some(before[k].1) && before[k].0
                        == ip_of(192, 168, 4, (10 + i) as u8);
                assert(v[i] == Some(all[k].1));
            }
        }
    }
}

/// The leases as a value are the leases, each in its slot.
pub proof fn lemma_leases_as_value(s: DhcpServer, i: int)
    requires
        0 <= i < 32,
    ensures
        s@.len() == 32,
        s@[i] is Some <==> s.leases@[i] is Some,
        s.leases@[i] matches Some(mac) ==> s@[i] == Some(mac@),
        no_leases().len() == 32 && no_leases()[i] is None,
{
}

/// The name server offered to clients.
pub open spec fn offered_dns(named: Option<Ipv4Address>) -> Ipv4Address {
    match named {
        Some(server) => server,
        None => ip_of(8, 8, 8, 8),
    }
}

/// Clients are told the name server that the lease named, or 8.8.8.8 before there is one.
pub proof fn lemma_offered_dns(named: Option<Ipv4Address>)
    ensures
        named matches Some(server) ==> offered_dns(named) == server,
        named is None ==> octets_of(offered_dns(named)) == seq![8u8, 8, 8, 8],
{
    lemma_spelled(8, 8, 8, 8);
}

} // verus!
