//! What the router does to a frame, byte by byte.
//!
//! The laws here speak of the bytes of a frame as they stand on the wire, of the entries
//! of the tables, and of nothing else.

use vstd::prelude::*;

use crate::checksum::{fold16, lemma_update_moves, lemma_word_sum_bound, word_sum};
use crate::conntrack::{
    is_echo, lemma_out_keeps_wf, out_step, wf, CtState, Entry, Proto, TcpState, CT_CAP,
};
use crate::forward::{
    arp_prefix, arp_request, class_of, diverted, dropped, egressed, endpoint_changes, flow_of,
    hopped, id_field, ingressed, is_for, l4_of, learned, lemma_learn_keeps_wf,
    lemma_learned_is_known, lemma_napt_fields, lemma_napt_keeps_checksum, lemma_routed_is_a_hop,
    napt, napt_dst, napt_src, neigh_learn, neigh_mac, neigh_slot, neigh_wf, reply_of, routed,
    sender_of, sent_on, translated, unsummed_header, Class, DropReason, ForwardingDevice, FwdStats,
    Iface, IfaceCfg, Neighbors, L4,
};
use crate::line::{counted, word_at};
use crate::search::lemma_least;
use crate::tracking::{
    counts_up, is_answered, is_held, is_of, lemma_answer, lemma_known_flow, lemma_new_flow,
    lemma_no_answer, may_take, moves_to, only_changed, patience, saw,
};
use crate::wire::{
    be16, in_subnet, ip_at, lemma_octets_spell, lemma_spelled, octets_of, Ipv4Address,
};

verus! {

/// The frame says that it is IPv4, and is long enough for a header.
pub open spec fn says_ipv4(f: Seq<u8>) -> bool {
    f.len() >= 34 && f[12] == 0x08 && f[13] == 0x00
}

/// Where the transport header starts.
pub open spec fn body_at(f: Seq<u8>) -> int {
    14 + 4 * (f[14] % 16)
}

/// The frame holds at least `least` bytes of the transport protocol `proto`.
pub open spec fn holds(f: Seq<u8>, proto: u8, least: int) -> bool {
    says_ipv4(f) && f[14] % 16 >= 5 && f[23] == proto && f.len() >= body_at(f) + least
}

/// A TCP segment.
pub open spec fn is_tcp(f: Seq<u8>) -> bool {
    holds(f, 6, 20)
}

/// A UDP datagram.
pub open spec fn is_udp(f: Seq<u8>) -> bool {
    holds(f, 17, 8)
}

/// An ICMP echo request or reply.
pub open spec fn is_ping(f: Seq<u8>) -> bool {
    holds(f, 1, 8) && (f[body_at(f)] == 0 || f[body_at(f)] == 8)
}

/// A frame of a protocol that is translated.
pub open spec fn is_translatable(f: Seq<u8>) -> bool {
    is_tcp(f) || is_udp(f) || is_ping(f)
}

/// Where the id of the sender is: its port, or the echo identifier.
pub open spec fn from_at(f: Seq<u8>) -> int {
    if is_ping(f) {
        body_at(f) + 4
    } else {
        body_at(f)
    }
}

/// Where the id of the receiver is.
pub open spec fn to_at(f: Seq<u8>) -> int {
    if is_ping(f) {
        body_at(f) + 4
    } else {
        body_at(f) + 2
    }
}

/// Where the transport checksum is.
pub open spec fn sum_at(f: Seq<u8>) -> int {
    if is_tcp(f) {
        body_at(f) + 16
    } else if is_udp(f) {
        body_at(f) + 6
    } else {
        body_at(f) + 2
    }
}

/// The flags of a TCP segment.
pub open spec fn flags_of(f: Seq<u8>) -> u8 {
    if is_tcp(f) {
        f[body_at(f) + 13]
    } else {
        0
    }
}

/// The transport, as the table of flows names it.
pub open spec fn proto_of(f: Seq<u8>) -> Proto {
    if is_tcp(f) {
        Proto::Tcp
    } else if is_udp(f) {
        Proto::Udp
    } else {
        Proto::IcmpEcho
    }
}

/// The four bytes at `i` spell the address.
pub open spec fn spells(f: Seq<u8>, i: int, ip: Ipv4Address) -> bool {
    octets_of(ip) == f.subrange(i, i + 4)
}

/// The first six bytes are the hardware address.
pub open spec fn to_mac(f: Seq<u8>, mac: Seq<u8>) -> bool {
    f.len() >= 14 && f.subrange(0, 6) == mac
}

proof fn lemma_spells(f: Seq<u8>, i: int, ip: Ipv4Address)
    requires
        0 <= i,
        i + 4 <= f.len(),
    ensures
        spells(f, i, ip) <==> ip_at(f, i) == ip,
{
    lemma_spelled(f[i], f[i + 1], f[i + 2], f[i + 3]);
    assert(seq![f[i], f[i + 1], f[i + 2], f[i + 3]] =~= f.subrange(i, i + 4));
    lemma_octets_spell(ip);
    if spells(f, i, ip) {
        let o = octets_of(ip);
        assert(o[0] == f[i] && o[1] == f[i + 1] && o[2] == f[i + 2] && o[3] == f[i + 3]) by {
            assert(f.subrange(i, i + 4)[0] == f[i] && f.subrange(i, i + 4)[1] == f[i + 1]
                && f.subrange(i, i + 4)[2] == f[i + 2] && f.subrange(i, i + 4)[3] == f[i + 3]);
        }
    }
}

proof fn lemma_says_ipv4(f: Seq<u8>)
    ensures
        says_ipv4(f) <==> f.len() >= 34 && be16(f, 12) == 0x0800,
{
}

/// A frame is in transit exactly where it is an IPv4 frame to the hardware address of an
/// interface that has an address, its destination is another one, and the interface
/// forwards to that destination. It is dropped exactly where only the last fails, and is
/// for the local stack in all other cases.
pub proof fn lemma_class(cfg: IfaceCfg, frame: Seq<u8>)
    ensures
        ({
            let passes_by = cfg.our_ip.bits != 0 && to_mac(frame, cfg.our_mac@) && says_ipv4(frame)
                && !spells(frame, 30, cfg.our_ip);
            let accepted = cfg.accept_dst is None || in_subnet(
                cfg.accept_dst->0,
                ip_at(frame, 30),
            );
            &&& class_of(cfg, frame) == Class::Transit <==> passes_by && accepted
            &&& class_of(cfg, frame) == Class::Drop <==> passes_by && !accepted
        }),
{
    lemma_says_ipv4(frame);
    if frame.len() >= 34 {
        lemma_spells(frame, 30, cfg.our_ip);
    }
}

/// What becomes of a frame depends on its length, its hardware destination, its type and its
/// destination alone.
pub proof fn lemma_class_depends(cfg: IfaceCfg, a: Seq<u8>, b: Seq<u8>)
    requires
        a.len() == b.len(),
        forall|j: int|
            0 <= j < a.len() && (j < 6 || 12 <= j < 14 || 30 <= j < 34) ==> #[trigger] a[j] == b[j],
    ensures
        class_of(cfg, a) == class_of(cfg, b),
{
    if a.len() >= 14 {
        assert(a.subrange(0, 6) =~= b.subrange(0, 6));
    }
}

/// Where a transport header is found, and what is read in it.
pub proof fn lemma_transport(f: Seq<u8>)
    ensures
        l4_of(f) is Some <==> is_translatable(f),
        l4_of(f) matches Some(l4) ==> {
            &&& l4.proto == proto_of(f)
            &&& l4.l4_off == body_at(f)
            &&& l4.src_id == word_at(f, from_at(f))
            &&& l4.dst_id == if is_ping(f) {
                0
            } else {
                word_at(f, to_at(f))
            }
            &&& l4.csum_off == sum_at(f)
            &&& l4.tcp_flags == flags_of(f)
        },
{
    lemma_says_ipv4(f);
}

/// The entry is for the flow of the frame, as seen on the LAN.
pub open spec fn entry_of(e: Entry, f: Seq<u8>) -> bool {
    &&& e.used
    &&& e.proto == proto_of(f)
    &&& spells(f, 26, e.lan_ip)
    &&& e.lan_id == word_at(f, from_at(f))
    &&& spells(f, 30, e.remote_ip)
    &&& e.remote_id == if is_ping(f) {
        0
    } else {
        word_at(f, to_at(f))
    }
}

/// What a translation may change of a frame: the address at `ip_at`, the id at `id_at` and
/// the transport checksum.
pub open spec fn rewritten(f: Seq<u8>, g: Seq<u8>, ip_off: int, id_off: int) -> bool {
    &&& g.len() == f.len()
    &&& forall|j: int|
        0 <= j < f.len() && !(ip_off <= j < ip_off + 4) && !(id_off <= j < id_off + 2) && !(sum_at(
            f,
        ) <= j < sum_at(f) + 2) ==> #[trigger] g[j] == f[j]
}

/// The transport checksum of `g` is as right as that of `f`: the sum of what it covers is
/// the same, up to end-around carries. It covers an ICMP message alone, and of TCP and UDP
/// also the addresses. A UDP checksum of zero means that there is none, and stays.
pub open spec fn checksum_follows(f: Seq<u8>, g: Seq<u8>) -> bool {
    let at = body_at(f);
    let moved = word_sum(g.skip(at)) - word_sum(f.skip(at));
    let addresses = word_sum(g.subrange(26, 34)) - word_sum(f.subrange(26, 34));
    if is_ping(f) {
        moved % 65535 == 0 && stays_small(f, g)
    } else if is_udp(f) && word_at(f, at + 6) == 0 {
        word_at(g, at + 6) == 0
    } else {
        (moved + addresses) % 65535 == 0 && stays_small(f, g)
    }
}

/// Of the two checksums that do for a sum, all ones and zero, a translation does not turn
/// any other into all ones.
pub open spec fn stays_small(f: Seq<u8>, g: Seq<u8>) -> bool {
    word_at(g, sum_at(f)) == 65535 ==> word_at(f, sum_at(f)) == 65535
}

/// What a rewrite makes of the checksum field.
proof fn lemma_sum_field(
    f: Seq<u8>,
    l4: L4,
    ip_off: int,
    id_off: int,
    new_ip: Ipv4Address,
    new_id: u16,
)
    requires
        l4_of(f) == Some(l4),
        ip_off == 26 || ip_off == 30,
        id_field(l4, id_off),
    ensures
        stays_small(f, napt(f, l4, ip_off, id_off, new_ip, new_id)),
{
    lemma_transport(f);
    let old_id = be16(f, id_off) as u16;
    let changes = if is_echo(l4.proto) {
        seq![(old_id, new_id)]
    } else {
        endpoint_changes(ip_at(f, ip_off), new_ip, old_id, new_id)
    };
    lemma_update_moves(be16(f, l4.csum_off as int) as int, changes);
    lemma_octets_spell(new_ip);
}

/// What a translation makes of a frame that leaves, before it is routed.
proof fn lemma_translated(our_ip: Ipv4Address, frame: Seq<u8>, ct: CtState, now: u64) -> (i: int)
    requires
        wf(ct),
        is_translatable(frame),
    ensures
        ({
            let (f, after) = translated(our_ip, frame, ct, now);
            let g = f->0;
            &&& f is Some
            &&& wf(after)
            &&& rewritten(frame, g, 26, from_at(frame))
            &&& spells(g, 26, our_ip)
            &&& checksum_follows(frame, g)
            &&& 0 <= i < CT_CAP
            &&& entry_of(after.slots[i], frame)
            &&& after.slots[i].last_seen == now
            &&& word_at(g, from_at(frame)) == after.slots[i].wan_id
            &&& after.slots[i].wan_id >= 49152
            &&& only_changed(ct, after, i)
            &&& if entry_of(ct.slots[i], frame) {
                saw(ct.slots[i], after.slots[i], flags_of(frame), now)
            } else {
                &&& forall|k: int| 0 <= k < CT_CAP ==> !entry_of(#[trigger] ct.slots[k], frame)
                &&& !is_held(ct, after.slots[i].wan_id as int)
                &&& may_take(ct, i, now)
                &&& moves_to(TcpState::New, flags_of(frame), after.slots[i].tcp)
            }
        }),
{
    lemma_transport(frame);
    let l4 = l4_of(frame)->0;
    let t = flow_of(frame, l4);
    assert forall|k: int| 0 <= k < CT_CAP implies #[trigger] entry_of(ct.slots[k], frame) == is_of(
        ct.slots[k],
        t,
    ) by {
        lemma_spells(frame, 26, ct.slots[k].lan_ip);
        lemma_spells(frame, 30, ct.slots[k].remote_ip);
    }
    let known = exists|k: int| 0 <= k < CT_CAP && is_of(#[trigger] ct.slots[k], t);
    let at: int = if known {
        let k = choose|k: int| 0 <= k < CT_CAP && is_of(#[trigger] ct.slots[k], t);
        lemma_known_flow(ct, t, l4.tcp_flags, now, k);
        k
    } else {
        lemma_new_flow(ct, t, l4.tcp_flags, now).0
    };
    lemma_out_keeps_wf(ct, t, l4.tcp_flags, now);
    let i = at;
    let (after, id) = out_step(ct, t, l4.tcp_flags, now);
    assert(is_of(after.slots[i], t));
    assert forall|k: int| 0 <= k < CT_CAP && !known implies !entry_of(
        #[trigger] ct.slots[k],
        frame,
    ) by {
        assert(!is_of(ct.slots[k], t));
    }
    lemma_napt_fields(frame, l4, 26, from_at(frame), our_ip, id->0);
    lemma_napt_keeps_checksum(frame, l4, 26, from_at(frame), our_ip, id->0);
    lemma_sum_field(frame, l4, 26, from_at(frame), our_ip, id->0);
    let g = napt_src(frame, l4, our_ip, id->0);
    lemma_spells(g, 26, our_ip);
    lemma_spells(frame, 26, after.slots[i].lan_ip);
    lemma_spells(frame, 30, after.slots[i].remote_ip);
    i
}

/// What is not TCP, UDP or a ping is not translated, and leaves no trace in the table.
proof fn lemma_untranslated(our_ip: Ipv4Address, frame: Seq<u8>, ct: CtState, now: u64)
    requires
        !is_translatable(frame),
    ensures
        translated(our_ip, frame, ct, now) == (Some(frame), ct),
{
    lemma_transport(frame);
}

/// The table holds the hardware address `mac` for `ip`.
pub open spec fn at_mac(n: Neighbors, ip: Ipv4Address, mac: Seq<u8>) -> bool {
    exists|i: int| 0 <= i < n.entries.len() && #[trigger] n.entries[i] == (ip, mac)
}

/// The table holds a hardware address for `ip`.
pub open spec fn is_known(n: Neighbors, ip: Ipv4Address) -> bool {
    exists|i: int| 0 <= i < n.entries.len() && (#[trigger] n.entries[i]).0 == ip
}

/// A lookup finds what the table holds.
pub proof fn lemma_lookup(n: Neighbors, ip: Ipv4Address, mac: Seq<u8>)
    requires
        neigh_wf(n),
    ensures
        neigh_mac(n, ip) == Some(mac) <==> at_mac(n, ip, mac),
        neigh_mac(n, ip) is Some <==> is_known(n, ip),
{
    let p = is_for(n, ip);
    lemma_least(0, n.entries.len() as int, p);
    match neigh_slot(n, ip) {
        Some(k) => {
            assert(p(k));
            assert(n.entries[k] == (ip, n.entries[k].1));
            if at_mac(n, ip, mac) {
                let i = choose|i: int|
                    0 <= i < n.entries.len() && #[trigger] n.entries[i] == (ip, mac);
                if i < k {
                    assert(n.entries[i].0 != n.entries[k].0);
                } else if k < i {
                    assert(n.entries[k].0 != n.entries[i].0);
                }
            }
        },
        None => {
            assert forall|i: int| 0 <= i < n.entries.len() implies (#[trigger] n.entries[i]).0
                != ip by {
                assert(!p(i));
            }
        },
    }
}

/// An IPv4 packet whose lengths agree: a header of at least 20 bytes, inside the total
/// length, inside the frame.
pub open spec fn is_sound(f: Seq<u8>) -> bool {
    &&& f.len() >= 34
    &&& f[14] % 16 >= 5
    &&& 4 * (f[14] % 16) <= word_at(f, 16) <= f.len() - 14
}

/// What routing makes of a frame.
pub open spec fn is_hop(cfg: IfaceCfg, f: Seq<u8>, n: Neighbors, g: Seq<u8>) -> bool {
    &&& g.len() == f.len()
    &&& g[22] == f[22] - 1
    &&& fold16(word_sum(g.subrange(14, body_at(f)))) == 65535
    &&& word_at(g, 24) < 65535
    &&& g.subrange(6, 12) == cfg.our_mac@
    &&& if in_subnet(cfg.subnet, ip_at(f, 30)) {
        at_mac(n, ip_at(f, 30), g.subrange(0, 6))
    } else {
        cfg.gateway is Some && at_mac(n, cfg.gateway->0, g.subrange(0, 6))
    }
}

/// Every neighbour has a hardware address of six bytes.
pub open spec fn full_macs(n: Neighbors) -> bool {
    forall|i: int| 0 <= i < n.entries.len() ==> (#[trigger] n.entries[i]).1.len() == 6
}

/// The checksum of a header is not all ones: the header is not empty.
proof fn lemma_header_sum(f: Seq<u8>)
    requires
        is_sound(f),
        f[22] > 1,
    ensures
        word_at(hopped(f), 24) < 65535,
        hopped(f).len() == f.len(),
{
    let z = unsummed_header(f.update(22, (f[22] - 1) as u8), 14);
    lemma_word_sum_bound(z);
    lemma_word_sum_bound(z.skip(2));
    assert(z[0] == f[14]);
    assert(word_sum(z) > 0);
}

/// How a frame is routed out of an interface. It is dropped as malformed exactly where its
/// lengths do not agree or its TTL is used up. Else a destination on the subnet is reached
/// at its own hardware address, and any other at the gateway's, and the frame is dropped
/// for want of a next hop exactly where that hardware address is not known. A frame that is
/// sent is a hop on, with a header checksum that is right and nothing else changed.
pub proof fn lemma_routing(cfg: IfaceCfg, f: Seq<u8>, n: Neighbors)
    requires
        f.len() >= 14,
        neigh_wf(n),
        full_macs(n),
    ensures
        ({
            let (g, drop) = routed(cfg, f, n);
            let dst = ip_at(f, 30);
            let near = in_subnet(cfg.subnet, dst);
            let reachable = near && is_known(n, dst) || !near && cfg.gateway is Some && is_known(
                n,
                cfg.gateway->0,
            );
            let malformed = !is_sound(f) || f[22] <= 1;
            &&& drop == Some(DropReason::Other) <==> malformed
            &&& drop == Some(DropReason::NoNextHop) <==> !malformed && !reachable
            &&& drop is None <==> !malformed && reachable
            &&& drop is None ==> is_hop(cfg, f, n, g)
            &&& g.len() == f.len()
            &&& forall|j: int|
                12 <= j < f.len() && j != 22 && j != 24 && j != 25 ==> #[trigger] g[j] == f[j]
        }),
{
    let (g, drop) = routed(cfg, f, n);
    let b = f.skip(14);
    if f.len() >= 34 {
        assert(b[0] == f[14] && b[2] == f[16] && b[3] == f[17]);
    }
    let h = hopped(f);
    if is_sound(f) && f[22] > 1 {
        assert(ip_at(h, 30) == ip_at(f, 30));
        let near = in_subnet(cfg.subnet, ip_at(f, 30));
        let hop = if near {
            ip_at(f, 30)
        } else {
            cfg.gateway->0
        };
        if near || cfg.gateway is Some {
            lemma_lookup(n, hop, neigh_mac(n, hop)->0);
            if drop is None {
                lemma_routed_is_a_hop(cfg, f, n);
                assert(g[14] == f[14]);
                lemma_header_sum(f);
            }
        }
    }
}

/// Why a frame that leaves is dropped, if it is. The reason depends on its lengths, its TTL,
/// its destination and the neighbours alone.
pub open spec fn leaves_by(
    cfg: IfaceCfg,
    f: Seq<u8>,
    n: Neighbors,
    drop: Option<DropReason>,
) -> bool {
    let dst = ip_at(f, 30);
    let near = in_subnet(cfg.subnet, dst);
    let malformed = !is_sound(f) || f[22] <= 1;
    &&& drop == Some(DropReason::Other) <==> malformed
    &&& !malformed && near ==> (drop is None <==> is_known(n, dst))
    &&& !malformed && !near ==> (drop is None <==> cfg.gateway is Some && is_known(
        n,
        cfg.gateway->0,
    ))
    &&& drop is None || drop == Some(DropReason::Other) || drop == Some(DropReason::NoNextHop)
}

/// What leaves a translating interface. A TCP, UDP or ping frame leaves with the interface's
/// address as its source and an id as its port or echo id, under which an entry in the table
/// holds its endpoints: the entry of its flow where there was one, with the id it had, else
/// a new one. Its transport checksum is as right as it was. Whether it is sent, and to whom,
/// depends on where it goes.
#[verifier::rlimit(50)]
pub proof fn lemma_leaves_translated(
    dev: ForwardingDevice,
    frame: Seq<u8>,
    ct: CtState,
    n: Neighbors,
    now: u64,
) -> (i: int)
    requires
        dev.nat,
        wf(ct),
        neigh_wf(n),
        full_macs(n),
        is_translatable(frame),
    ensures
        ({
            let (g, drop, after) = egressed(dev, frame, ct, n, now);
            let e = after.slots[i];
            &&& leaves_by(dev.cfg, frame, n, drop)
            &&& drop is None ==> is_hop(dev.cfg, frame, n, g)
            &&& g.len() == frame.len()
            &&& spells(g, 26, dev.cfg.our_ip)
            &&& forall|j: int|
                12 <= j < frame.len() && j != 22 && j != 24 && j != 25 && !(26 <= j < 30) && !(
                from_at(frame) <= j < from_at(frame) + 2) && !(sum_at(frame) <= j < sum_at(frame)
                    + 2) ==> #[trigger] g[j] == frame[j]
            &&& checksum_follows(frame, g)
            &&& 0 <= i < CT_CAP
            &&& entry_of(e, frame)
            &&& e.last_seen == now
            &&& word_at(g, from_at(frame)) == e.wan_id
            &&& e.wan_id >= 49152
            &&& only_changed(ct, after, i)
            &&& if entry_of(ct.slots[i], frame) {
                saw(ct.slots[i], e, flags_of(frame), now)
            } else {
                &&& forall|k: int| 0 <= k < CT_CAP ==> !entry_of(#[trigger] ct.slots[k], frame)
                &&& !is_held(ct, e.wan_id as int)
                &&& may_take(ct, i, now)
                &&& moves_to(TcpState::New, flags_of(frame), e.tcp)
            }
        }),
{
    let i = lemma_translated(dev.cfg.our_ip, frame, ct, now);
    let f = translated(dev.cfg.our_ip, frame, ct, now).0->0;
    let g = routed(dev.cfg, f, n).0;
    lemma_routing(dev.cfg, f, n);
    assert(ip_at(f, 30) == ip_at(frame, 30));
    assert(g.subrange(26, 30) =~= f.subrange(26, 30));
    assert(g.subrange(26, 34) =~= f.subrange(26, 34));
    assert(g.skip(body_at(frame)) =~= f.skip(body_at(frame)));
    i
}

/// What leaves any other way is not translated: on a plain interface nothing is, and on a
/// translating one no frame that is not TCP, UDP or a ping.
pub proof fn lemma_leaves_plain(
    dev: ForwardingDevice,
    frame: Seq<u8>,
    ct: CtState,
    n: Neighbors,
    now: u64,
)
    requires
        !dev.nat || !is_translatable(frame),
        neigh_wf(n),
        full_macs(n),
        frame.len() >= 14,
    ensures
        ({
            let (g, drop, after) = egressed(dev, frame, ct, n, now);
            &&& leaves_by(dev.cfg, frame, n, drop)
            &&& drop is None ==> is_hop(dev.cfg, frame, n, g)
            &&& g.len() == frame.len()
            &&& forall|j: int|
                12 <= j < frame.len() && j != 22 && j != 24 && j != 25 ==> #[trigger] g[j]
                    == frame[j]
            &&& after == ct
        }),
{
    if dev.nat {
        lemma_untranslated(dev.cfg.our_ip, frame, ct, now);
    }
    lemma_routing(dev.cfg, frame, n);
}

/// The frame answers the flow of the entry: it comes from the flow's peer to the flow's id,
/// by the same transport, before the entry expires.
pub open spec fn answers_entry(e: Entry, f: Seq<u8>, now: u64) -> bool {
    &&& e.used
    &&& e.proto == proto_of(f)
    &&& spells(f, 26, e.remote_ip)
    &&& e.remote_id == if is_ping(f) {
        0
    } else {
        word_at(f, from_at(f))
    }
    &&& e.wan_id == word_at(f, to_at(f))
    &&& now < e.last_seen + patience(e)
}

/// The frame is an IPv4 frame to the address of the interface.
pub open spec fn is_ours(cfg: IfaceCfg, f: Seq<u8>) -> bool {
    cfg.our_ip.bits != 0 && to_mac(f, cfg.our_mac@) && says_ipv4(f) && spells(f, 30, cfg.our_ip)
}

proof fn lemma_answers_entry(e: Entry, f: Seq<u8>, now: u64)
    requires
        is_translatable(f),
    ensures
        answers_entry(e, f, now) == is_answered(e, reply_of(f, l4_of(f)->0), now),
{
    lemma_transport(f);
    lemma_spells(f, 26, e.remote_ip);
}

/// What arrives at a translating interface, for its own address, and answers a flow is in
/// transit to the flow's client: it is addressed to the client's address and port or echo
/// id, its transport checksum is as right as it was, and nothing else in it has changed. The
/// flow's entry is renewed.
#[verifier::rlimit(50)]
pub proof fn lemma_arrives_translated(
    dev: ForwardingDevice,
    frame: Seq<u8>,
    ct: CtState,
    now: u64,
    i: int,
)
    requires
        dev.nat,
        wf(ct),
        is_ours(dev.cfg, frame),
        is_translatable(frame),
        0 <= i < CT_CAP,
        answers_entry(ct.slots[i], frame, now),
    ensures
        ({
            let (class, g, after) = ingressed(dev, frame, ct, now);
            &&& class == Class::Transit
            &&& rewritten(frame, g, 30, to_at(frame))
            &&& spells(g, 30, ct.slots[i].lan_ip)
            &&& word_at(g, to_at(frame)) == ct.slots[i].lan_id
            &&& checksum_follows(frame, g)
            &&& saw(ct.slots[i], after.slots[i], flags_of(frame), now)
            &&& only_changed(ct, after, i)
            &&& after.cursor == ct.cursor
        }),
{
    lemma_transport(frame);
    lemma_says_ipv4(frame);
    lemma_spells(frame, 30, dev.cfg.our_ip);
    lemma_answers_entry(ct.slots[i], frame, now);
    let l4 = l4_of(frame)->0;
    let e = ct.slots[i];
    lemma_answer(ct, reply_of(frame, l4), l4.tcp_flags, now, i);
    lemma_napt_fields(frame, l4, 30, to_at(frame), e.lan_ip, e.lan_id);
    lemma_napt_keeps_checksum(frame, l4, 30, to_at(frame), e.lan_ip, e.lan_id);
    lemma_sum_field(frame, l4, 30, to_at(frame), e.lan_ip, e.lan_id);
    let g = napt_dst(frame, l4, e.lan_ip, e.lan_id);
    lemma_spells(g, 30, e.lan_ip);
}

/// What arrives any other way stays as it is, leaves no trace in the table, and is
/// classified by where it goes: on a plain interface, or not for the interface's own
/// address, or not an answer to a flow.
pub proof fn lemma_arrives_plain(dev: ForwardingDevice, frame: Seq<u8>, ct: CtState, now: u64)
    requires
        wf(ct),
        !dev.nat || !is_ours(dev.cfg, frame) || !is_translatable(frame) || (forall|k: int|
            0 <= k < CT_CAP ==> !answers_entry(#[trigger] ct.slots[k], frame, now)),
    ensures
        ingressed(dev, frame, ct, now) == (class_of(dev.cfg, frame), frame, ct),
{
    lemma_transport(frame);
    lemma_says_ipv4(frame);
    if frame.len() >= 34 {
        lemma_spells(frame, 30, dev.cfg.our_ip);
    }
    if dev.nat && is_ours(dev.cfg, frame) && is_translatable(frame) {
        let p = reply_of(frame, l4_of(frame)->0);
        assert forall|k: int| 0 <= k < CT_CAP implies !is_answered(
            #[trigger] ct.slots[k],
            p,
            now,
        ) by {
            lemma_answers_entry(ct.slots[k], frame, now);
        }
        lemma_no_answer(ct, p, l4_of(frame)->0.tcp_flags, now);
    }
}

/// An ARP packet for Ethernet and IPv4.
pub open spec fn is_arp(f: Seq<u8>) -> bool {
    &&& f.len() >= 42
    &&& f[12] == 0x08 && f[13] == 0x06
    &&& f[14] == 0 && f[15] == 1
    &&& f[16] == 0x08 && f[17] == 0x00
    &&& f[18] == 6 && f[19] == 4
}

/// Whom a frame tells of: an ARP packet of the sender in it, an IPv4 packet of its source.
/// On the interface's subnet, the sender is known from now on at the hardware address that
/// the frame gives, and nobody but whom it displaces is forgotten.
pub proof fn lemma_learns(cfg: IfaceCfg, n: Neighbors, frame: Seq<u8>)
    requires
        neigh_wf(n),
        cfg.our_ip.bits != 0,
    ensures
        ({
            let m = learned(cfg, n, frame);
            if is_arp(frame) {
                if in_subnet(cfg.subnet, ip_at(frame, 28)) {
                    &&& at_mac(m, ip_at(frame, 28), frame.subrange(22, 28))
                    &&& m == neigh_learn(n, ip_at(frame, 28), frame.subrange(22, 28))
                } else {
                    m == n
                }
            } else if says_ipv4(frame) && in_subnet(cfg.subnet, ip_at(frame, 26)) {
                &&& at_mac(m, ip_at(frame, 26), frame.subrange(6, 12))
                &&& m == neigh_learn(n, ip_at(frame, 26), frame.subrange(6, 12))
            } else {
                m == n
            }
        }),
{
    lemma_says_ipv4(frame);
    let m = learned(cfg, n, frame);
    if frame.len() >= 20 {
        let p = frame.subrange(14, 20);
        assert(p[0] == frame[14] && p[1] == frame[15] && p[2] == frame[16] && p[3] == frame[17]
            && p[4] == frame[18] && p[5] == frame[19]);
        if is_arp(frame) {
            assert(p =~= arp_prefix());
        }
    }
    match sender_of(frame) {
        Some((ip, mac)) => {
            lemma_learn_keeps_wf(n, ip, mac);
            lemma_learned_is_known(n, ip, mac, ip);
            lemma_lookup(neigh_learn(n, ip, mac), ip, mac);
        },
        None => {},
    }
}

/// An interface without an address learns nothing.
pub proof fn lemma_learns_nothing(cfg: IfaceCfg, n: Neighbors, frame: Seq<u8>)
    requires
        cfg.our_ip.bits == 0,
    ensures
        learned(cfg, n, frame) == n,
{
}

/// The question for a hardware address: an Ethernet broadcast that asks who has `tpa`, and
/// tells everybody that `spa` is at `mac`, as a neighbour on the subnet learns from it.
pub proof fn lemma_asks(mac: Seq<u8>, spa: Ipv4Address, tpa: Ipv4Address)
    requires
        mac.len() == 6,
    ensures
        ({
            let f = arp_request(mac, spa, tpa);
            &&& f.len() == 42
            &&& is_arp(f)
            &&& forall|j: int| 0 <= j < 6 ==> #[trigger] f[j] == 0xFF
            &&& f.subrange(6, 12) == mac
            &&& f[20] == 0 && f[21] == 1
            &&& f.subrange(22, 28) == mac
            &&& spells(f, 28, spa)
            &&& forall|j: int| 32 <= j < 38 ==> #[trigger] f[j] == 0
            &&& spells(f, 38, tpa)
            &&& sender_of(f) == Some((spa, mac))
        }),
{
    let f = arp_request(mac, spa, tpa);
    lemma_octets_spell(spa);
    lemma_octets_spell(tpa);
    assert(f.subrange(6, 12) =~= mac);
    assert(f.subrange(22, 28) =~= mac);
    assert(f.subrange(28, 32) =~= octets_of(spa));
    assert(f.subrange(38, 42) =~= octets_of(tpa));
    assert(f.subrange(14, 20) =~= arp_prefix());
    lemma_spells(f, 28, spa);
}

/// A drop counts once in the total and once under its reason, and nowhere else.
pub proof fn lemma_drop_counts(s: FwdStats, reason: DropReason)
    ensures
        ({
            let t = dropped(s, reason);
            &&& counts_up(s.drop, t.drop)
            &&& counted(s.drop_qfull, t.drop_qfull, reason == DropReason::QueueFull)
            &&& counted(s.drop_nonh, t.drop_nonh, reason == DropReason::NoNextHop)
            &&& counted(s.drop_nat, t.drop_nat, reason == DropReason::Nat)
            &&& counted(s.drop_txbusy, t.drop_txbusy, reason == DropReason::TxBusy)
            &&& counted(s.drop_other, t.drop_other, reason == DropReason::Other)
            &&& (t.l2w, t.w2l, t.sent) == (s.l2w, s.w2l, s.sent)
            &&& (t.bytes_to_wan, t.bytes_to_lan) == (s.bytes_to_wan, s.bytes_to_lan)
            &&& (t.qhwm_l2w, t.qhwm_w2l) == (s.qhwm_l2w, s.qhwm_w2l)
        }),
{
}

/// A frame that was sent counts once, its bytes count toward the side that it went to, and
/// nothing else changes.
pub proof fn lemma_sent_counts(s: FwdStats, iface: Iface, len: int)
    requires
        0 <= len,
    ensures
        ({
            let t = sent_on(s, iface, len);
            let to_wan = if iface == Iface::Wan {
                len
            } else {
                0
            };
            &&& counts_up(s.sent, t.sent)
            &&& (t.bytes_to_wan - s.bytes_to_wan - to_wan) % 0x1_0000_0000 == 0
            &&& (t.bytes_to_lan - s.bytes_to_lan - (len - to_wan)) % 0x1_0000_0000 == 0
            &&& (t.l2w, t.w2l) == (s.l2w, s.w2l)
            &&& (t.drop, t.drop_qfull, t.drop_nonh) == (s.drop, s.drop_qfull, s.drop_nonh)
            &&& (t.drop_nat, t.drop_txbusy, t.drop_other) == (
                s.drop_nat,
                s.drop_txbusy,
                s.drop_other,
            )
            &&& (t.qhwm_l2w, t.qhwm_w2l) == (s.qhwm_l2w, s.qhwm_w2l)
        }),
{
    let m = 0x1_0000_0000int;
    let a: int = s.bytes_to_wan + len;
    let b: int = s.bytes_to_lan + len;
    assert((a % m - a) % m == 0);
    assert((b % m - b) % m == 0);
}

/// A frame that was queued counts once for its direction, the deepest queue seen is kept,
/// and nothing else changes.
pub proof fn lemma_queued_counts(s: FwdStats, iface: Iface, depth: u32)
    ensures
        ({
            let t = diverted(s, iface, depth);
            let lan = iface == Iface::Lan;
            &&& counted(s.l2w, t.l2w, lan)
            &&& counted(s.w2l, t.w2l, !lan)
            &&& s.qhwm_l2w <= t.qhwm_l2w && s.qhwm_w2l <= t.qhwm_w2l
            &&& t.qhwm_l2w == s.qhwm_l2w || lan && t.qhwm_l2w == depth
            &&& t.qhwm_w2l == s.qhwm_w2l || !lan && t.qhwm_w2l == depth
            &&& lan ==> depth <= t.qhwm_l2w
            &&& !lan ==> depth <= t.qhwm_w2l
            &&& (t.sent, t.bytes_to_wan, t.bytes_to_lan) == (
                s.sent,
                s.bytes_to_wan,
                s.bytes_to_lan,
            )
            &&& (t.drop, t.drop_qfull, t.drop_nonh) == (s.drop, s.drop_qfull, s.drop_nonh)
            &&& (t.drop_nat, t.drop_txbusy, t.drop_other) == (
                s.drop_nat,
                s.drop_txbusy,
                s.drop_other,
            )
        }),
{
}

} // verus!
