//! The WAN side as a client: lease, reachability ping, name lookup.
//!
//! The wired side leases an address, a default route and name servers, and shows that it
//! reaches the internet by pinging an off-link address and resolving a name.

use vstd::prelude::*;

use smoltcp::phy::ChecksumCapabilities;
use smoltcp::wire::{Icmpv4Packet, Icmpv4Repr};

use crate::checksum::{
    checksum_of, fold16, lemma_fold_shift, lemma_word_sum_bound, lemma_word_sum_put, word_sum,
};
use crate::conntrack::{in_step, lemma_own_ids_miss, wf, CtState, Reply};
use crate::text::{flat, joined, lemma_run_bounds, written, Piece, Text};
use crate::wire::{be16, ip_of, put16, Ipv4Address, Ipv4Cidr};

verus! {

/// The identifier of our pings.
pub const ICMP_IDENT: u16 = 0x42;

/// Most name servers handed to the resolver.
pub const MAX_SERVERS: usize = 4;

/// The address that is pinged: off-link, so that a reply shows that the default route
/// works.
pub fn ping_target() -> (r: Ipv4Address)
    ensures
        r == ip_of(8, 8, 8, 8),
{
    Ipv4Address::new(8, 8, 8, 8)
}

/// The name that is resolved.
pub fn dns_name() -> (r: &'static str)
    ensures
        r@ == "example.com"@,
{
    "example.com"
}

/// What the pings carry.
pub open spec fn ping_data() -> Seq<u8> {
    seq![0x70, 0x69, 0x63, 0x6f, 0x2d, 0x77, 0x61, 0x6e]
}

/// The state of the WAN client.
#[derive(Clone, Copy, Debug, PartialEq, Eq, Structural)]
pub struct WanState {
    /// The leased address, once there is one.
    pub addr: Option<Ipv4Cidr>,
    /// Default gateway of the lease.
    pub gw: Option<Ipv4Address>,
    /// First name server of the lease.
    pub dns0: Option<Ipv4Address>,
    /// Sequence number of the next ping.
    pub ping_seq: u16,
    pub ping_sent: u32,
    pub ping_ok: u32,
    /// A name lookup is in flight.
    pub dns_query: bool,
    /// The address the name last resolved to.
    pub resolved: Option<Ipv4Address>,
}

/// Nothing leased, nothing sent.
pub open spec fn no_wan() -> WanState {
    WanState {
        addr: None,
        gw: None,
        dns0: None,
        ping_seq: 0,
        ping_sent: 0,
        ping_ok: 0,
        dns_query: false,
        resolved: None,
    }
}

/// What the DHCP client reports.
pub enum LeaseEvent {
    /// Nothing new.
    Unchanged,
    /// The lease is gone.
    Deconfigured,
    /// A lease: address, gateway, name servers.
    Configured { addr: Ipv4Cidr, router: Option<Ipv4Address>, servers: Vec<Ipv4Address> },
}

/// What is to be done to the interface and the resolver.
pub enum LeasePlan {
    /// Nothing.
    Keep,
    /// Clear the address, the default route and the name servers.
    Clear,
    /// Install the address, replace the default route, and hand over the name servers.
    Install { addr: Ipv4Cidr, router: Option<Ipv4Address>, servers: Vec<Ipv4Address> },
}

/// A list cut to the number of servers that can be handed over.
pub open spec fn first_servers(s: Seq<Ipv4Address>) -> Seq<Ipv4Address> {
    if s.len() <= MAX_SERVERS {
        s
    } else {
        s.take(MAX_SERVERS as int)
    }
}

/// The state after an event.
pub open spec fn leased_state(w: WanState, event: LeaseEvent) -> WanState {
    match event {
        LeaseEvent::Unchanged => w,
        LeaseEvent::Deconfigured => no_wan(),
        LeaseEvent::Configured { addr, router, servers } => WanState {
            addr: Some(addr),
            gw: router,
            dns0: if servers@.len() > 0 {
                Some(servers@[0])
            } else {
                None
            },
            dns_query: false,
            ..w
        },
    }
}

/// An ICMP echo request.
pub open spec fn echo_bytes(ident: u16, seq_no: u16, data: Seq<u8>, ck: u16) -> Seq<u8> {
    seq![
        8u8,
        0,
        (ck / 256) as u8,
        (ck % 256) as u8,
        (ident / 256) as u8,
        (ident % 256) as u8,
        (seq_no / 256) as u8,
        (seq_no % 256) as u8,
    ] + data
}

/// An ICMP echo request, its checksum filled in.
pub open spec fn echo_request(ident: u16, seq_no: u16, data: Seq<u8>) -> Seq<u8> {
    echo_bytes(
        ident,
        seq_no,
        data,
        checksum_of(word_sum(echo_bytes(ident, seq_no, data, 0))) as u16,
    )
}

/// The identifier of an ICMP echo reply; `None` for anything else, and for a wrong
/// checksum.
pub open spec fn reply_ident(b: Seq<u8>) -> Option<u16> {
    if b.len() >= 8 && fold16(word_sum(b)) == 65535 && b[0] == 0 && b[1] == 0 {
        Some(be16(b, 4) as u16)
    } else {
        None
    }
}

/// `smoltcp::wire::Icmpv4Repr::emit` of an echo request, checksums computed: type 8,
/// code 0, the internet checksum of the message, identifier, sequence number and data.
#[verifier::external_body]
fn echo_emit(ident: u16, seq_no: u16, data: &[u8]) -> (out: Vec<u8>)
    requires
        data@.len() <= 1472,
    ensures
        out@ == echo_request(ident, seq_no, data@),
{
    let repr = Icmpv4Repr::EchoRequest { ident, seq_no, data };
    let mut out = vec![0u8; repr.buffer_len()];
    let mut packet = Icmpv4Packet::new_unchecked(&mut out[..]);
    repr.emit(&mut packet, &ChecksumCapabilities::default());
    out
}

/// `smoltcp::wire::Icmpv4Repr::parse` after `Icmpv4Packet::new_checked`, checksums
/// checked: the identifier where the message is an echo reply, which takes eight bytes,
/// a right checksum, type 0 and code 0.
#[verifier::external_body]
fn echo_parse(payload: &[u8]) -> (r: Option<u16>)
    requires
        payload@.len() <= 65535,
    ensures
        r == reply_ident(payload@),
{
    let packet = Icmpv4Packet::new_checked(payload).ok()?;
    match Icmpv4Repr::parse(&packet, &ChecksumCapabilities::default()) {
        Ok(Icmpv4Repr::EchoReply { ident, .. }) => Some(ident),
        _ => None,
    }
}

/// What a lookup has come to.
pub enum DnsOutcome {
    Pending,
    Failed,
    Answered(Vec<Ipv4Address>),
}

/// The state after looking at a lookup.
pub open spec fn harvested(w: WanState, outcome: DnsOutcome) -> WanState {
    if !w.dns_query {
        w
    } else {
        match outcome {
            DnsOutcome::Pending => w,
            DnsOutcome::Failed => WanState { dns_query: false, ..w },
            DnsOutcome::Answered(addrs) => WanState {
                dns_query: false,
                resolved: if addrs@.len() > 0 {
                    Some(addrs@[0])
                } else {
                    None
                },
                ..w
            },
        }
    }
}

/// One of two lists, for an option.
pub open spec fn or_none<'a>(label: &'a str, none: &'a str, ip: Option<Ipv4Address>) -> Seq<
    Piece<'a>,
> {
    match ip {
        Some(a) => seq![Piece::Str(label), Piece::Ip(a), Piece::Str(" ")],
        None => seq![Piece::Str(none)],
    }
}

/// A text after the status of the WAN client: address, gateway, name server, pings and
/// lookup, each a write of its own.
pub open spec fn wan_status(w: WanState, t: Seq<u8>, cap: int) -> Seq<u8> {
    let t1 = written(
        t,
        cap,
        match w.addr {
            Some(c) => seq![Piece::Str("ip="), Piece::Net(c), Piece::Str(" ")],
            None => seq![Piece::Str("ip=none ")],
        },
    );
    let t2 = written(t1, cap, or_none("gw=", "gw=none ", w.gw));
    let t3 = written(t2, cap, or_none("dns=", "dns=none ", w.dns0));
    let t4 = written(
        t3,
        cap,
        seq![
            Piece::Str("ping="),
            Piece::Num(w.ping_ok as u64),
            Piece::Str("/"),
            Piece::Num(w.ping_sent as u64),
            Piece::Str(" "),
        ],
    );
    written(
        t4,
        cap,
        match w.resolved {
            Some(a) => seq![Piece::Str("example.com"), Piece::Str("="), Piece::Ip(a)],
            None => seq![Piece::Str("example.com"), Piece::Str("=?")],
        },
    )
}

/// Write a labelled address, or that there is none.
fn write_or_none(t: &mut Text, label: &str, none: &str, ip: Option<Ipv4Address>)
    requires
        old(t).wf(),
    ensures
        final(t).wf(),
        final(t).cap == old(t).cap,
        final(t)@ == written(old(t)@, old(t).cap as int, or_none(label, none, ip)),
{
    match ip {
        Some(a) => {
            let ps: [Piece; 3] = [Piece::Str(label), Piece::Ip(a), Piece::Str(" ")];
            assert(ps@ =~= or_none(label, none, ip));
            t.write(&ps);
        },
        None => {
            let ps: [Piece; 1] = [Piece::Str(none)];
            assert(ps@ =~= or_none(label, none, ip));
            t.write(&ps);
        },
    }
}

impl WanState {
    /// Nothing leased, nothing sent.
    pub fn new() -> (r: WanState)
        ensures
            r == no_wan(),
    {
        WanState {
            addr: None,
            gw: None,
            dns0: None,
            ping_seq: 0,
            ping_sent: 0,
            ping_ok: 0,
            dns_query: false,
            resolved: None,
        }
    }

    /// Write the status: lease, gateway, name server, ping tally, lookup.
    pub fn write_status(&self, t: &mut Text)
        requires
            old(t).wf(),
        ensures
            final(t).wf(),
            final(t).cap == old(t).cap,
            final(t)@ == wan_status(*self, old(t)@, old(t).cap as int),
    {
        match self.addr {
            Some(c) => {
                let ps: [Piece; 3] = [Piece::Str("ip="), Piece::Net(c), Piece::Str(" ")];
                assert(ps@ =~= seq![Piece::Str("ip="), Piece::Net(c), Piece::Str(" ")]);
                t.write(&ps);
            },
            None => {
                let ps: [Piece; 1] = [Piece::Str("ip=none ")];
                assert(ps@ =~= seq![Piece::Str("ip=none ")]);
                t.write(&ps);
            },
        }
        write_or_none(t, "gw=", "gw=none ", self.gw);
        write_or_none(t, "dns=", "dns=none ", self.dns0);
        let ps: [Piece; 5] = [
            Piece::Str("ping="),
            Piece::Num(self.ping_ok as u64),
            Piece::Str("/"),
            Piece::Num(self.ping_sent as u64),
            Piece::Str(" "),
        ];
        assert(ps@ =~= seq![
            Piece::Str("ping="),
            Piece::Num(self.ping_ok as u64),
            Piece::Str("/"),
            Piece::Num(self.ping_sent as u64),
            Piece::Str(" "),
        ]);
        t.write(&ps);
        match self.resolved {
            Some(a) => {
                let ps: [Piece; 3] = [Piece::Str("example.com"), Piece::Str("="), Piece::Ip(a)];
                assert(ps@ =~= seq![Piece::Str("example.com"), Piece::Str("="), Piece::Ip(a)]);
                t.write(&ps);
            },
            None => {
                let ps: [Piece; 2] = [Piece::Str("example.com"), Piece::Str("=?")];
                assert(ps@ =~= seq![Piece::Str("example.com"), Piece::Str("=?")]);
                t.write(&ps);
            },
        }
    }
}

impl Default for WanState {
    fn default() -> (r: WanState)
        ensures
            r == no_wan(),
    {
        WanState::new()
    }
}

/// Apply a lease event: the new state, and what is to be done to the interface and the
/// resolver. A new lease abandons a lookup in flight, for its servers may have changed.
pub fn dhcp_apply(wan: &mut WanState, event: LeaseEvent) -> (plan: LeasePlan)
    ensures
        *final(wan) == leased_state(*old(wan), event),
        match event {
            LeaseEvent::Unchanged => plan is Keep,
            LeaseEvent::Deconfigured => plan is Clear,
            LeaseEvent::Configured { addr, router, servers } => plan matches LeasePlan::Install {
                addr: a,
                router: r,
                servers: s,
            } && a == addr && r == router && s@ == first_servers(servers@),
        },
{
    match event {
        LeaseEvent::Unchanged => LeasePlan::Keep,
        LeaseEvent::Deconfigured => {
            *wan = WanState::new();
            LeasePlan::Clear
        },
        LeaseEvent::Configured { addr, router, servers } => {
            wan.addr = Some(addr);
            wan.gw = router;
            wan.dns0 = if servers.len() > 0 {
                Some(servers[0])
            } else {
                None
            };
            wan.dns_query = false;
            let mut kept: Vec<Ipv4Address> = Vec::new();
            let mut i: usize = 0;
            while i < servers.len() && i < MAX_SERVERS
                invariant
                    i <= servers@.len(),
                    i <= MAX_SERVERS,
                    kept@ == servers@.take(i as int),
                decreases servers@.len() - i,
            {
                kept.push(servers[i]);
                i = i + 1;
                assert(kept@ =~= servers@.take(i as int));
            }
            assert(kept@ =~= first_servers(servers@));
            LeasePlan::Install { addr, router, servers: kept }
        },
    }
}

/// The next ping.
pub fn ping_packet(wan: &WanState) -> (r: Vec<u8>)
    ensures
        r@ == echo_request(ICMP_IDENT, wan.ping_seq, ping_data()),
{
    let data: [u8; 8] = [0x70, 0x69, 0x63, 0x6f, 0x2d, 0x77, 0x61, 0x6e];
    assert(data@ =~= ping_data());
    echo_emit(ICMP_IDENT, wan.ping_seq, &data)
}

/// A ping went out.
pub fn ping_send(wan: &mut WanState)
    ensures
        *final(wan) == ping_gone(*old(wan)),
{
    wan.ping_seq = wan.ping_seq.wrapping_add(1);
    wan.ping_sent = wan.ping_sent.wrapping_add(1);
}

/// An ICMP message arrived: count it if it is a reply to one of our pings.
pub fn ping_drain(wan: &mut WanState, payload: &[u8])
    requires
        payload@.len() <= 65535,
    ensures
        *final(wan) == ping_heard(*old(wan), payload@),
{
    match echo_parse(payload) {
        Some(ident) => {
            if ident == ICMP_IDENT {
                wan.ping_ok = wan.ping_ok.wrapping_add(1);
            }
        },
        None => {},
    }
}

/// True if a lookup is to be started: none is in flight, and a server is known.
pub fn dns_wanted(wan: &WanState) -> (r: bool)
    ensures
        r == (!wan.dns_query && wan.dns0 is Some),
{
    !wan.dns_query && wan.dns0.is_some()
}

/// The work of a second.
#[derive(Clone, Copy, Debug, PartialEq, Eq, Structural)]
pub struct SecondWork {
    /// Send a ping.
    pub ping: bool,
    /// Start a lookup.
    pub lookup: bool,
    /// Ask for the gateway's hardware address.
    pub ask_gateway: bool,
}

/// What is to be done this second: nothing without a lease; with one, a ping, a lookup
/// where one is wanted, and asking for a gateway that is not known.
pub fn second_work(wan: &WanState, gateway_known: bool) -> (r: SecondWork)
    ensures
        r == work_of(*wan, gateway_known),
{
    let leased: bool = wan.addr.is_some();
    SecondWork {
        ping: leased,
        lookup: leased && dns_wanted(wan),
        ask_gateway: leased && wan.gw.is_some() && !gateway_known,
    }
}

/// A lookup was started, or could not be.
pub fn dns_start(wan: &mut WanState, started: bool)
    ensures
        *final(wan) == lookup_begun(*old(wan), started),
{
    if started && dns_wanted(wan) {
        wan.dns_query = true;
    }
}

/// Look at a lookup: the first address of an answer is kept; a failure frees the slot
/// for another try.
pub fn dns_harvest(wan: &mut WanState, outcome: DnsOutcome)
    ensures
        *final(wan) == harvested(*old(wan), outcome),
{
    if !wan.dns_query {
        return ;
    }
    match outcome {
        DnsOutcome::Pending => {},
        DnsOutcome::Failed => {
            wan.dns_query = false;
        },
        DnsOutcome::Answered(addrs) => {
            wan.dns_query = false;
            wan.resolved = if addrs.len() > 0 {
                Some(addrs[0])
            } else {
                None
            };
        },
    }
}

/// A ping is a proper message: its checksum is right.
pub proof fn lemma_ping_is_valid(ident: u16, seq_no: u16, data: Seq<u8>)
    ensures
        fold16(word_sum(echo_request(ident, seq_no, data))) == 65535,
{
    let z = echo_bytes(ident, seq_no, data, 0);
    let ck = checksum_of(word_sum(z)) as u16;
    lemma_word_sum_bound(z);
    lemma_word_sum_bound(z.skip(2));
    crate::checksum::lemma_fold_range(word_sum(z));
    assert(echo_request(ident, seq_no, data) =~= put16(z, 2, ck));
    lemma_word_sum_put(z, 2, ck);
    let s = word_sum(z);
    assert(s > 0);
    let k = (s - 1) / 65535;
    assert(s + ck == 65535 * (k + 1));
    lemma_fold_shift(0, k + 1);
}

/// Replies to our pings are not taken for a client's: their identifier is below the ids
/// that translation hands out, so the table of flows lets them pass.
pub proof fn lemma_pings_are_ours(s: CtState, p: Reply, flags: u8, now: u64)
    requires
        wf(s),
        p.wan_id == ICMP_IDENT,
    ensures
        in_step(s, p, flags, now) == (s, None::<(Ipv4Address, u16)>),
{
    lemma_own_ids_miss(s, p, flags, now);
}

/// A lookup is only ever in flight when a server is known, whatever events come.
pub proof fn lemma_lookup_needs_server(w: WanState, event: LeaseEvent, outcome: DnsOutcome)
    requires
        w.dns_query ==> w.dns0 is Some,
    ensures
        leased_state(w, event).dns_query ==> leased_state(w, event).dns0 is Some,
        harvested(w, outcome).dns_query ==> harvested(w, outcome).dns0 is Some,
{
}

/// A lease brings its address, its gateway and its first name server, abandons a lookup in
/// flight, and keeps the rest; losing it starts everything afresh; no news changes nothing.
pub proof fn lemma_lease(w: WanState, event: LeaseEvent)
    ensures
        ({
            let v = leased_state(w, event);
            &&& event is Unchanged ==> v == w
            &&& event is Deconfigured ==> {
                &&& v.addr is None && v.gw is None && v.dns0 is None && v.resolved is None
                &&& !v.dns_query
                &&& v.ping_seq == 0 && v.ping_sent == 0 && v.ping_ok == 0
            }
            &&& event matches LeaseEvent::Configured { addr, router, servers } ==> {
                &&& v.addr == Some(addr)
                &&& v.gw == router
                &&& v.dns0 is Some <==> servers@.len() > 0
                &&& servers@.len() > 0 ==> v.dns0 == Some(servers@[0])
                &&& !v.dns_query
                &&& (v.ping_seq, v.ping_sent, v.ping_ok) == (w.ping_seq, w.ping_sent, w.ping_ok)
                &&& v.resolved == w.resolved
            }
        }),
{
}

/// The servers that are handed over are the first four.
pub proof fn lemma_servers(s: Seq<Ipv4Address>)
    ensures
        first_servers(s).len() == if s.len() < 4 {
            s.len()
        } else {
            4
        },
        forall|i: int| 0 <= i < first_servers(s).len() ==> #[trigger] first_servers(s)[i] == s[i],
{
}

/// A lookup in flight ends with an answer or a failure. Of an answer the first address is
/// kept, and one without an address is kept as such.
pub proof fn lemma_harvest(w: WanState, outcome: DnsOutcome)
    ensures
        ({
            let v = harvested(w, outcome);
            &&& !w.dns_query || outcome is Pending ==> v == w
            &&& w.dns_query && !(outcome is Pending) ==> !v.dns_query
            &&& w.dns_query && outcome is Failed ==> v.resolved == w.resolved
            &&& w.dns_query ==> (outcome matches DnsOutcome::Answered(a) ==> {
                &&& v.resolved is Some <==> a@.len() > 0
                &&& a@.len() > 0 ==> v.resolved == Some(a@[0])
            })
            &&& (v.addr, v.gw, v.dns0) == (w.addr, w.gw, w.dns0)
            &&& (v.ping_seq, v.ping_sent, v.ping_ok) == (w.ping_seq, w.ping_sent, w.ping_ok)
        }),
{
}

/// An echo request, byte by byte: type 8, code 0, a checksum that is right, identifier and
/// sequence number, and the data.
pub proof fn lemma_ping_bytes(ident: u16, seq_no: u16, data: Seq<u8>)
    ensures
        ({
            let b = echo_request(ident, seq_no, data);
            &&& b.len() == data.len() + 8
            &&& b[0] == 8 && b[1] == 0
            &&& 256 * b[4] + b[5] == ident
            &&& 256 * b[6] + b[7] == seq_no
            &&& b.skip(8) == data
            &&& fold16(word_sum(b)) == 65535
        }),
{
    lemma_ping_is_valid(ident, seq_no, data);
    assert(echo_request(ident, seq_no, data).skip(8) =~= data);
}

/// What a ping carries spells `pico-wan`.
pub proof fn lemma_ping_data()
    ensures
        ping_data() == seq![
            'p' as u8,
            'i' as u8,
            'c' as u8,
            'o' as u8,
            '-' as u8,
            'w' as u8,
            'a' as u8,
            'n' as u8,
        ],
{
    assert(ping_data() =~= seq![
        'p' as u8,
        'i' as u8,
        'c' as u8,
        'o' as u8,
        '-' as u8,
        'w' as u8,
        'a' as u8,
        'n' as u8,
    ]);
}

/// A ping is answered by the message that differs from it in its type alone: an echo reply
/// with a checksum that is right is known by its identifier, and nothing else is taken for
/// one.
pub proof fn lemma_echo_reply(b: Seq<u8>)
    ensures
        reply_ident(b) is Some <==> b.len() >= 8 && b[0] == 0 && b[1] == 0 && fold16(word_sum(b))
            == 65535,
        reply_ident(b) matches Some(id) ==> id == 256 * b[4] + b[5],
{
}

/// The state after a ping went out.
pub open spec fn ping_gone(w: WanState) -> WanState {
    WanState {
        ping_seq: ((w.ping_seq + 1) % 0x1_0000) as u16,
        ping_sent: ((w.ping_sent + 1) % 0x1_0000_0000) as u32,
        ..w
    }
}

/// The state after an ICMP message.
pub open spec fn ping_heard(w: WanState, payload: Seq<u8>) -> WanState {
    if reply_ident(payload) == Some(ICMP_IDENT) {
        WanState { ping_ok: ((w.ping_ok + 1) % 0x1_0000_0000) as u32, ..w }
    } else {
        w
    }
}

/// The state after a lookup was started, or could not be.
pub open spec fn lookup_begun(w: WanState, started: bool) -> WanState {
    if started && !w.dns_query && w.dns0 is Some {
        WanState { dns_query: true, ..w }
    } else {
        w
    }
}

/// What is to be done this second.
pub open spec fn work_of(w: WanState, gateway_known: bool) -> SecondWork {
    SecondWork {
        ping: w.addr is Some,
        lookup: w.addr is Some && !w.dns_query && w.dns0 is Some,
        ask_gateway: w.addr is Some && w.gw is Some && !gateway_known,
    }
}

/// Pings are numbered in turn and counted. A reply counts where it is an echo reply to our
/// identifier, 66; no other message changes anything.
pub proof fn lemma_pings_counted(w: WanState, payload: Seq<u8>)
    ensures
        ({
            let v = ping_gone(w);
            &&& v.ping_seq == w.ping_seq + 1 || w.ping_seq == 65535 && v.ping_seq == 0
            &&& (v.ping_sent - w.ping_sent - 1) % 0x1_0000_0000 == 0
            &&& v == (WanState { ping_seq: v.ping_seq, ping_sent: v.ping_sent, ..w })
        }),
        ({
            let v = ping_heard(w, payload);
            let ours = payload.len() >= 8 && payload[0] == 0 && payload[1] == 0 && payload[4] == 0
                && payload[5] == 66 && fold16(word_sum(payload)) == 65535;
            &&& ours ==> (v.ping_ok - w.ping_ok - 1) % 0x1_0000_0000 == 0
            &&& !ours ==> v.ping_ok == w.ping_ok
            &&& v == (WanState { ping_ok: v.ping_ok, ..w })
        }),
{
}

/// Without a lease there is nothing to do. With one, a ping is sent every second; a lookup
/// is started where a server is known and none is in flight; and a gateway is asked for
/// until its hardware address is known.
pub proof fn lemma_work(w: WanState, gateway_known: bool, started: bool)
    ensures
        ({
            let d = work_of(w, gateway_known);
            &&& d.ping <==> w.addr is Some
            &&& d.lookup <==> w.addr is Some && w.dns0 is Some && !w.dns_query
            &&& d.ask_gateway <==> w.addr is Some && w.gw is Some && !gateway_known
        }),
        lookup_begun(w, started).dns_query <==> w.dns_query || started && w.dns0 is Some,
        lookup_begun(w, started) == (WanState {
            dns_query: lookup_begun(w, started).dns_query,
            ..w
        }),
{
}

/// A write as it reads where nothing is cut.
pub open spec fn in_full(ps: Seq<Piece>) -> Seq<u8> {
    joined(flat(ps))
}

/// The status as it reads where nothing is cut: the leased address, the gateway and the name
/// server, each or that there is none; the pings answered, of those sent; and what the name
/// resolved to, or that it has not.
pub open spec fn wan_in_full(w: WanState) -> Seq<u8> {
    let addr = if w.addr is Some {
        seq![Piece::Str("ip="), Piece::Net(w.addr->0), Piece::Str(" ")]
    } else {
        seq![Piece::Str("ip=none ")]
    };
    let gw = if w.gw is Some {
        seq![Piece::Str("gw="), Piece::Ip(w.gw->0), Piece::Str(" ")]
    } else {
        seq![Piece::Str("gw=none ")]
    };
    let dns = if w.dns0 is Some {
        seq![Piece::Str("dns="), Piece::Ip(w.dns0->0), Piece::Str(" ")]
    } else {
        seq![Piece::Str("dns=none ")]
    };
    let pings = seq![
        Piece::Str("ping="),
        Piece::Num(w.ping_ok as u64),
        Piece::Str("/"),
        Piece::Num(w.ping_sent as u64),
        Piece::Str(" "),
    ];
    let name = if w.resolved is Some {
        seq![Piece::Str("example.com"), Piece::Str("="), Piece::Ip(w.resolved->0)]
    } else {
        seq![Piece::Str("example.com"), Piece::Str("=?")]
    };
    in_full(addr) + in_full(gw) + in_full(dns) + in_full(pings) + in_full(name)
}

/// Where there is room, the whole status is written, and in any case what was there stays.
pub proof fn lemma_wan_in_full(w: WanState, t: Seq<u8>, cap: int)
    requires
        t.len() <= cap,
    ensures
        t.len() + wan_in_full(w).len() <= cap ==> wan_status(w, t, cap) == t + wan_in_full(w),
        t.len() <= wan_status(w, t, cap).len() <= cap,
        wan_status(w, t, cap).take(t.len() as int) == t,
{
    let a = match w.addr {
        Some(c) => seq![Piece::Str("ip="), Piece::Net(c), Piece::Str(" ")],
        None => seq![Piece::Str("ip=none ")],
    };
    let b = or_none("gw=", "gw=none ", w.gw);
    let c = or_none("dns=", "dns=none ", w.dns0);
    let d = seq![
        Piece::Str("ping="),
        Piece::Num(w.ping_ok as u64),
        Piece::Str("/"),
        Piece::Num(w.ping_sent as u64),
        Piece::Str(" "),
    ];
    let e = match w.resolved {
        Some(a) => seq![Piece::Str("example.com"), Piece::Str("="), Piece::Ip(a)],
        None => seq![Piece::Str("example.com"), Piece::Str("=?")],
    };
    lemma_five_writes(t, cap, a, b, c, d, e);
}

/// Five writes one after another.
proof fn lemma_five_writes(
    t: Seq<u8>,
    cap: int,
    a: Seq<Piece>,
    b: Seq<Piece>,
    c: Seq<Piece>,
    d: Seq<Piece>,
    e: Seq<Piece>,
)
    requires
        t.len() <= cap,
    ensures
        ({
            let half = written(written(t, cap, a), cap, b);
            let r = written(written(written(half, cap, c), cap, d), cap, e);
            let all = in_full(a) + in_full(b) + in_full(c) + in_full(d) + in_full(e);
            &&& t.len() + all.len() <= cap ==> r == t + all
            &&& t.len() <= r.len() <= cap
            &&& r.take(t.len() as int) == t
        }),
{
    let t1 = written(t, cap, a);
    let t2 = written(t1, cap, b);
    let t3 = written(t2, cap, c);
    let t4 = written(t3, cap, d);
    let t5 = written(t4, cap, e);
    lemma_run_bounds(t, cap, flat(a));
    lemma_run_bounds(t1, cap, flat(b));
    lemma_run_bounds(t2, cap, flat(c));
    lemma_run_bounds(t3, cap, flat(d));
    lemma_run_bounds(t4, cap, flat(e));
    let n = t.len() as int;
    lemma_same_start(t4, t5, n);
    lemma_same_start(t3, t4, n);
    lemma_same_start(t2, t3, n);
    lemma_same_start(t1, t2, n);
    let all = in_full(a) + in_full(b) + in_full(c) + in_full(d) + in_full(e);
    if t.len() + all.len() <= cap {
        assert(t5 =~= t + all);
    }
}

proof fn lemma_same_start(s: Seq<u8>, u: Seq<u8>, n: int)
    requires
        0 <= n <= s.len() <= u.len(),
        u.take(s.len() as int) == s,
    ensures
        u.take(n) == s.take(n),
{
    assert(u.take(n) =~= u.take(s.len() as int).take(n));
}

} // verus!
