use pico_10base_t_rs::checksum::checksum_full;
use pico_10base_t_rs::conntrack::{
    add1c, addr_words, alloc_id, checksum_incr, live_count, Conntrack, Entry, Proto, TcpState, Tuple,
    CT_CAP, NAT_HI, NAT_LO, TCP_FIN, TCP_RST, TCP_SYN,
};
use pico_10base_t_rs::wire::Ipv4Address;

/// xorshift64*
struct Rng(u64);

impl Rng {
    fn next(&mut self) -> u32 {
        let mut x = self.0;
        x ^= x >> 12;
        x ^= x << 25;
        x ^= x >> 27;
        self.0 = x;
        (x.wrapping_mul(0x2545F4914F6CDD1D) >> 32) as u32
    }
    fn u16(&mut self) -> u16 {
        self.next() as u16
    }
}

fn client(n: u8) -> Ipv4Address {
    Ipv4Address::new(192, 168, 4, n)
}

fn peer() -> Ipv4Address {
    Ipv4Address::new(93, 184, 216, 34)
}

fn flow(proto: Proto, port: u16) -> Tuple {
    Tuple { proto, src_ip: client(10), src_id: port, dst_ip: peer(), dst_id: 443 }
}

#[test]
fn test_checksum() {
    let mut rng = Rng(0x1234_5678_9abc_def0);
    let hdr: [u8; 20] = [
        0x45, 0x00, 0x00, 0x73, 0x00, 0x00, 0x40, 0x00, 0x40, 0x11, 0x00, 0x00, 0xc0, 0xa8, 0x00,
        0x01, 0xc0, 0xa8, 0x00, 0xc7,
    ];
    assert_eq!(checksum_full(&hdr), 0xb861);

    for _ in 0..200_000 {
        let mut h = [0u8; 20];
        for b in h.iter_mut() {
            *b = rng.next() as u8;
        }
        h[10] = 0;
        h[11] = 0;
        let base = checksum_full(&h);
        let old_hi = u16::from_be_bytes([h[12], h[13]]);
        let old_lo = u16::from_be_bytes([h[14], h[15]]);
        let new_hi = rng.u16();
        let new_lo = rng.u16();
        h[12..14].copy_from_slice(&new_hi.to_be_bytes());
        h[14..16].copy_from_slice(&new_lo.to_be_bytes());
        let full = checksum_full(&h);
        let incr = checksum_incr(base, &[(old_hi, new_hi), (old_lo, new_lo)]);
        assert_eq!(full, incr);
    }

    for _ in 0..50_000 {
        let mut h = [0u8; 8];
        for b in h.iter_mut() {
            *b = rng.next() as u8;
        }
        h[0] = 0;
        h[1] = 0;
        let base = checksum_full(&h);
        let old = u16::from_be_bytes([h[2], h[3]]);
        let new = rng.u16();
        h[2..4].copy_from_slice(&new.to_be_bytes());
        assert_eq!(checksum_full(&h), checksum_incr(base, &[(old, new)]));
    }
}

#[test]
fn incremental_differs_where_all_is_zero() {
    let base = checksum_full(&[0, 0, 0x12, 0x34]);
    assert_eq!(checksum_full(&[0, 0, 0, 0]), 0xFFFF);
    assert_eq!(checksum_incr(base, &[(0x1234, 0)]), 0x0000);
}

#[test]
fn odd_length_is_padded() {
    assert_eq!(checksum_full(&[0x12]), !0x1200);
    assert_eq!(checksum_full(&[]), 0xFFFF);
}

#[test]
fn ones_complement_addition() {
    assert_eq!(add1c(0xFFFF, 0x0001), 0x0001);
    assert_eq!(add1c(0xFFFF, 0xFFFF), 0xFFFF);
    assert_eq!(add1c(0x1234, 0x4321), 0x5555);
    assert_eq!(add1c(0, 0), 0);
}

#[test]
fn address_halves() {
    assert_eq!(addr_words(Ipv4Address::new(192, 168, 4, 1)), (0xC0A8, 0x0401));
}

#[test]
fn test_allocator() {
    let mut used: Vec<u16> = Vec::new();
    let mut cursor = NAT_LO;

    // Distinct and in range.
    for _ in 0..1000 {
        let id = alloc_id(&mut cursor, &used).expect("space");
        assert!((NAT_LO..=NAT_HI).contains(&id));
        assert!(!used.contains(&id));
        used.push(id);
    }

    // With the whole range taken, the next one fails.
    used.clear();
    cursor = NAT_LO;
    let span = (NAT_HI - NAT_LO) as usize + 1;
    for _ in 0..span {
        let id = alloc_id(&mut cursor, &used).expect("space");
        used.push(id);
    }
    assert!(alloc_id(&mut cursor, &used).is_none());
    assert_eq!(cursor, NAT_LO);

    // The id of the router's own pings is never given out.
    assert!(NAT_LO > 0x0042);
}

#[test]
fn the_last_free_id_is_found() {
    let used: Vec<u16> = (NAT_LO..=NAT_HI).filter(|id| *id != NAT_LO + 7).collect();
    let mut cursor = NAT_LO + 8;
    assert_eq!(alloc_id(&mut cursor, &used), Some(NAT_LO + 7));
    assert_eq!(cursor, NAT_LO + 8);
}

#[test]
fn a_thousand_flows_get_distinct_ids() {
    let mut ct = Conntrack::new();
    let mut seen = std::collections::HashSet::new();
    for n in 0..1000u16 {
        let id = ct.outbound(&flow(Proto::Udp, n), 0, n as u64).expect("space");
        assert!((NAT_LO..=NAT_HI).contains(&id));
        assert!(seen.insert(id));
    }
    assert_eq!(live_count(&ct), CT_CAP);
}

#[test]
fn updates_compose() {
    let (a, b) = ([(0x1234, 0xC0A8), (0, 0xFFFF)], [(0xFFFF, 0x0001), (0xC0A8, 0x0401)]);
    let both: Vec<(u16, u16)> = a.iter().chain(b.iter()).copied().collect();
    for check in [0u16, 1, 0xB861, 0xFFFE, 0xFFFF] {
        assert_eq!(checksum_incr(checksum_incr(check, &a), &b), checksum_incr(check, &both));
    }
}

#[test]
fn updates_are_undone() {
    for check in [0u16, 1, 0xB861, 0xFFFE] {
        let there = checksum_incr(check, &[(0x1234, 0xC0A8), (0x0401, 0)]);
        assert_eq!(checksum_incr(there, &[(0xC0A8, 0x1234), (0, 0x0401)]), check);
    }
    // The two forms of zero are one.
    let there = checksum_incr(0xFFFF, &[(0x1234, 0xC0A8)]);
    assert_eq!(checksum_incr(there, &[(0xC0A8, 0x1234)]), 0);
}

fn table_of(last_seen: &[u64]) -> Conntrack {
    let mut ct = Conntrack::new();
    for (i, s) in ct.slots.iter_mut().enumerate() {
        *s = Entry {
            used: true,
            proto: Proto::Udp,
            lan_ip: client(1),
            lan_id: i as u16,
            remote_ip: peer(),
            remote_id: 53,
            wan_id: NAT_LO + i as u16,
            last_seen: 1_000_000,
            tcp: TcpState::New,
        };
    }
    for (i, t) in last_seen.iter().enumerate() {
        ct.slots[i].last_seen = *t;
    }
    ct.counters.live = CT_CAP as u32;
    ct
}

#[test]
fn test_eviction() {
    // Nothing expired: the least recently seen.
    let mut ct = table_of(&[100_000, 99_950, 100_200, 100_300]);
    assert_eq!(ct.pick_slot(100_500), 1);
    // One expired: it comes first, though another is older in the table.
    let ct2 = table_of(&[100_000, 130_000, 100_200, 100_300]);
    assert_eq!(ct2.pick_slot(130_100), 0);
    // A free slot beats both.
    ct.slots[2].used = false;
    assert_eq!(ct.pick_slot(130_100), 2);
}

#[test]
fn ties_go_to_the_first_slot() {
    let ct = table_of(&[]);
    assert_eq!(ct.pick_slot(1_000_000), 0);
}

#[test]
fn cursor_goes_round() {
    let mut ct = Conntrack::new();
    ct.cursor = NAT_HI;
    assert_eq!(ct.outbound(&flow(Proto::Tcp, 1), TCP_SYN, 0), Some(NAT_HI));
    assert_eq!(ct.outbound(&flow(Proto::Tcp, 2), TCP_SYN, 0), Some(NAT_LO));
    assert_eq!(ct.cursor, NAT_LO + 1);
}

#[test]
fn ids_in_use_are_skipped() {
    let mut ct = Conntrack::new();
    assert_eq!(ct.outbound(&flow(Proto::Tcp, 1), TCP_SYN, 0), Some(NAT_LO));
    ct.cursor = NAT_LO;
    assert_eq!(ct.outbound(&flow(Proto::Tcp, 2), TCP_SYN, 0), Some(NAT_LO + 1));
}

#[test]
fn replies_return_to_the_client() {
    let mut ct = Conntrack::new();
    let t = flow(Proto::Tcp, 5000);
    let id = ct.outbound(&t, TCP_SYN, 1_000).unwrap();
    let back = ct.inbound(Proto::Tcp, peer(), 443, id, 0, 1_500);
    assert_eq!(back, Some((client(10), 5000)));
    assert_eq!(ct.counters.out, 1);
    assert_eq!(ct.counters.inbound, 1);
    assert_eq!(ct.counters.new, 1);
    // Another peer, port, protocol or id is not a reply.
    assert_eq!(ct.inbound(Proto::Tcp, client(9), 443, id, 0, 1_500), None);
    assert_eq!(ct.inbound(Proto::Tcp, peer(), 444, id, 0, 1_500), None);
    assert_eq!(ct.inbound(Proto::Udp, peer(), 443, id, 0, 1_500), None);
    assert_eq!(ct.inbound(Proto::Tcp, peer(), 443, id + 1, 0, 1_500), None);
    assert_eq!(ct.inbound(Proto::IcmpEcho, peer(), 0, 0x42, 0, 1_500), None);
    assert_eq!(ct.counters.inbound, 1);
}

#[test]
fn a_flow_keeps_its_id() {
    let mut ct = Conntrack::new();
    let t = flow(Proto::Udp, 53);
    let a = ct.outbound(&t, 0, 0);
    let b = ct.outbound(&t, 0, 1_000_000);
    assert_eq!(a, b);
    assert_eq!(ct.counters.new, 1);
    assert_eq!(ct.counters.out, 2);
    let other = ct.outbound(&flow(Proto::Udp, 54), 0, 0);
    assert_ne!(other, a);
}

#[test]
fn timeouts_by_protocol_and_state() {
    let now = 1_000_000;
    for (proto, flags, limit) in [
        (Proto::Udp, 0, 30_000u64),
        (Proto::IcmpEcho, 0, 10_000),
        (Proto::Tcp, TCP_SYN, 10_000),
        (Proto::Tcp, 0x10, 60_000),
        (Proto::Tcp, TCP_FIN, 10_000),
        (Proto::Tcp, TCP_RST, 10_000),
    ] {
        for (wait, hit) in [(limit - 1, true), (limit, false)] {
            let mut ct = Conntrack::new();
            let t = flow(proto, 7);
            let id = ct.outbound(&t, flags, now).unwrap();
            let r = ct.inbound(proto, peer(), 443, id, 0, now + wait);
            assert_eq!(r.is_some(), hit);
        }
    }
}

#[test]
fn tcp_states() {
    let mut ct = Conntrack::new();
    let t = flow(Proto::Tcp, 7);
    ct.outbound(&t, TCP_SYN, 0);
    assert_eq!(ct.slots[0].tcp, TcpState::New);
    ct.outbound(&t, 0x10, 0);
    assert_eq!(ct.slots[0].tcp, TcpState::Established);
    ct.outbound(&t, TCP_FIN | 0x10, 0);
    assert_eq!(ct.slots[0].tcp, TcpState::Closing);
    ct.outbound(&t, TCP_SYN, 0);
    assert_eq!(ct.slots[0].tcp, TcpState::Closing);
    ct.outbound(&t, 0x10, 0);
    assert_eq!(ct.slots[0].tcp, TcpState::Established);
}

#[test]
fn a_sweep_frees_what_expired() {
    let mut ct = Conntrack::new();
    ct.outbound(&flow(Proto::IcmpEcho, 1), 0, 0);
    ct.outbound(&flow(Proto::Udp, 2), 0, 0);
    assert_eq!(live_count(&ct), 2);
    ct.reap(10_000);
    assert_eq!(live_count(&ct), 1);
    assert_eq!(ct.counters.evict, 1);
    assert!(!ct.slots[0].used);
    assert!(ct.slots[1].used);
    ct.reap(10_000);
    assert_eq!(ct.counters.evict, 1);
    // A clock that steps back expires nothing.
    ct.slots[1].last_seen = 90_000;
    ct.reap(20_000);
    assert_eq!(live_count(&ct), 1);
}

#[test]
fn a_full_table_gives_up_its_oldest_flow() {
    let mut ct = Conntrack::new();
    for n in 0..CT_CAP as u16 {
        ct.outbound(&flow(Proto::Tcp, n), 0x10, 1_000 + n as u64);
    }
    assert_eq!(live_count(&ct), 64);
    assert_eq!(ct.counters.evict, 0);
    ct.outbound(&flow(Proto::Tcp, 999), 0x10, 2_000);
    assert_eq!(live_count(&ct), 64);
    assert_eq!(ct.counters.evict, 1);
    assert_eq!(ct.slots[0].lan_id, 999);
    assert_eq!(ct.counters.drop, 0);
}

#[test]
fn the_default_table_is_empty() {
    assert_eq!(live_count(&Conntrack::default()), 0);
    assert_eq!(Conntrack::default().cursor, NAT_LO);
}

#[test]
fn the_default_table_starts_at_the_lowest_id() {
    let mut ct = Conntrack::default();
    assert_eq!(ct.cursor, NAT_LO);
    assert_eq!((ct.counters.new, ct.counters.evict, ct.counters.live), (0, 0, 0));
    assert_eq!(ct.outbound(&flow(Proto::Udp, 1), 0, 0), Some(NAT_LO));
}

#[test]
fn entries_in_use_are_those_created_less_those_reclaimed() {
    let mut rng = Rng(77);
    let mut ct = Conntrack::new();
    let mut now = 0u64;
    for _ in 0..3000 {
        now += (rng.next() % 700) as u64;
        match rng.next() % 8 {
            0 => ct.reap(now),
            1 => {
                let id = NAT_LO + rng.u16() % 200;
                let _ = ct.inbound(Proto::Udp, peer(), 443, id, 0, now);
            }
            _ => {
                let _ = ct.outbound(&flow(Proto::Udp, rng.u16() % 300), 0, now);
            }
        }
        let c = ct.counters;
        assert_eq!(live_count(&ct) as u32, c.new.wrapping_sub(c.evict));
        assert_eq!(live_count(&ct), ct.slots.iter().filter(|e| e.used).count());
    }
    assert!(ct.counters.evict > 0);
}
