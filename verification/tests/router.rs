use pico_10base_t_rs::checksum::checksum_full;
use pico_10base_t_rs::conntrack::{live_count, Conntrack, NAT_LO};
use pico_10base_t_rs::forward::{
    capture, classify, learn, nat_reap, wan_neigh_known, Class, DropReason, ForwardingDevice,
    Frame, FwdStats, Iface, IfaceCfg, NeighborTable,
};
use pico_10base_t_rs::wire::{Ipv4Address, Ipv4Cidr};

const WAN_MAC: [u8; 6] = [0x12, 0x34, 0x56, 0x78, 0x9A, 0xBC];
const GW_MAC: [u8; 6] = [2, 0, 0, 0, 0, 0xFE];
const CLIENT_MAC: [u8; 6] = [2, 0, 0, 0, 0, 0x10];

fn ip(a: u8, b: u8, c: u8, d: u8) -> Ipv4Address {
    Ipv4Address::new(a, b, c, d)
}

fn wan_cfg() -> IfaceCfg {
    IfaceCfg {
        iface: Iface::Wan,
        our_mac: WAN_MAC,
        our_ip: ip(10, 0, 0, 5),
        subnet: Ipv4Cidr::new(ip(10, 0, 0, 5), 24),
        gateway: Some(ip(10, 0, 0, 1)),
        accept_dst: Some(Ipv4Cidr::new(ip(192, 168, 4, 1), 24)),
    }
}

fn lan_cfg() -> IfaceCfg {
    IfaceCfg {
        iface: Iface::Lan,
        our_mac: [2, 0, 0, 0, 0, 1],
        our_ip: ip(192, 168, 4, 1),
        subnet: Ipv4Cidr::new(ip(192, 168, 4, 1), 24),
        gateway: None,
        accept_dst: None,
    }
}

/// Ones'-complement sum of pseudo-header and segment, folded: 0xFFFF when right.
fn transport_sum(f: &[u8]) -> u16 {
    let l4 = 14 + (f[14] & 15) as usize * 4;
    let mut data = f[26..34].to_vec();
    data.extend_from_slice(&[0, f[23]]);
    data.extend_from_slice(&((f.len() - l4) as u16).to_be_bytes());
    data.extend_from_slice(&f[l4..]);
    !checksum_full(&data)
}

/// An IPv4 frame; `proto` 6, 17 or 1 with a right transport checksum.
fn packet(dst_mac: [u8; 6], src: Ipv4Address, dst: Ipv4Address, proto: u8, sp: u16, dp: u16) -> Vec<u8> {
    let l4_len = if proto == 6 { 20 } else { 8 } + 6;
    let mut f = vec![0u8; 34 + l4_len];
    f[0..6].copy_from_slice(&dst_mac);
    f[6..12].copy_from_slice(&CLIENT_MAC);
    f[12..14].copy_from_slice(&[8, 0]);
    f[14] = 0x45;
    f[16..18].copy_from_slice(&((20 + l4_len) as u16).to_be_bytes());
    f[22] = 64;
    f[23] = proto;
    f[26..30].copy_from_slice(&src.octets());
    f[30..34].copy_from_slice(&dst.octets());
    for (i, b) in f[34..].iter_mut().enumerate() {
        *b = i as u8;
    }
    let (csum, ports) = match proto {
        6 => (34 + 16, true),
        17 => (34 + 6, true),
        _ => (34 + 2, false),
    };
    if ports {
        f[34..36].copy_from_slice(&sp.to_be_bytes());
        f[36..38].copy_from_slice(&dp.to_be_bytes());
    } else {
        f[34] = 8;
        f[35] = 0;
        f[38..40].copy_from_slice(&sp.to_be_bytes());
    }
    if proto == 6 {
        f[34 + 13] = 0x02;
    }
    f[csum] = 0;
    f[csum + 1] = 0;
    let c = if ports { !transport_sum(&f) } else { checksum_full(&f[34..]) };
    f[csum..csum + 2].copy_from_slice(&c.to_be_bytes());
    f
}

fn frame(b: &[u8]) -> Frame {
    let mut f = Frame::new();
    f.extend_from_slice(b).unwrap();
    f
}

fn known() -> NeighborTable {
    let mut n = NeighborTable::new();
    n.insert(ip(10, 0, 0, 1), GW_MAC);
    n
}

#[test]
fn nat_round_trip() {
    for proto in [6u8, 17, 1] {
        let dev = ForwardingDevice::new_napt(wan_cfg());
        let mut ct = Conntrack::new();
        let mut stats = FwdStats::new();
        let server = ip(93, 184, 216, 34);
        let client = ip(192, 168, 4, 10);
        let out = packet([9; 6], client, server, proto, 5000, 443);
        let mut f = frame(&out);
        assert!(dev.egress(&mut f, &mut ct, &known(), &mut stats, 1_000));
        assert_eq!(&f[0..6], &GW_MAC);
        assert_eq!(&f[6..12], &WAN_MAC);
        assert_eq!(f[22], 63);
        assert_eq!(&f[26..30], &[10, 0, 0, 5]);
        assert_eq!(checksum_full(&f[14..34]), 0);
        let id_at = if proto == 1 { 38 } else { 34 };
        assert_eq!(u16::from_be_bytes([f[id_at], f[id_at + 1]]), NAT_LO);
        if proto == 1 {
            assert_eq!(checksum_full(&f[34..]), 0);
        } else {
            assert_eq!(transport_sum(&f), 0xFFFF);
        }
        assert_eq!(live_count(&ct), 1);

        let mut reply = packet(WAN_MAC, server, ip(10, 0, 0, 5), proto, 443, NAT_LO);
        if proto == 1 {
            reply = packet(WAN_MAC, server, ip(10, 0, 0, 5), 1, NAT_LO, 0);
            reply[34] = 0;
            reply[36..38].copy_from_slice(&[0, 0]);
            let c = checksum_full(&reply[34..]);
            reply[36..38].copy_from_slice(&c.to_be_bytes());
        }
        let mut g = frame(&reply);
        assert_eq!(dev.classify_frame(&mut g, &mut ct, 1_500), Class::Transit);
        assert_eq!(&g[30..34], &client.octets());
        let at = if proto == 1 { 38 } else { 36 };
        assert_eq!(u16::from_be_bytes([g[at], g[at + 1]]), 5000);
        if proto == 1 {
            assert_eq!(checksum_full(&g[34..]), 0);
        } else {
            assert_eq!(transport_sum(&g), 0xFFFF);
        }
        // Without a flow the frame is ours.
        let mut other = frame(&packet(WAN_MAC, server, ip(10, 0, 0, 5), 17, 444, 49_999));
        assert_eq!(dev.classify_frame(&mut other, &mut ct, 1_500), Class::Local);
        nat_reap(&mut ct, 1_000_000);
        assert_eq!(live_count(&ct), 0);
    }
}

#[test]
fn udp_without_checksum_stays_without() {
    let dev = ForwardingDevice::new_napt(wan_cfg());
    let mut b = packet([9; 6], ip(192, 168, 4, 10), ip(8, 8, 8, 8), 17, 53, 53);
    b[40] = 0;
    b[41] = 0;
    let mut f = frame(&b);
    assert!(dev.egress(&mut f, &mut Conntrack::new(), &known(), &mut FwdStats::new(), 0));
    assert_eq!(&f[40..42], &[0, 0]);
    assert_eq!(u16::from_be_bytes([f[34], f[35]]), NAT_LO);
}

#[test]
fn other_protocols_pass_untranslated() {
    let dev = ForwardingDevice::new_napt(wan_cfg());
    let mut ct = Conntrack::new();
    let mut b = packet([9; 6], ip(192, 168, 4, 10), ip(8, 8, 8, 8), 17, 53, 53);
    b[23] = 47;
    let mut f = frame(&b);
    assert!(dev.egress(&mut f, &mut ct, &known(), &mut FwdStats::new(), 0));
    assert_eq!(&f[26..], &b[26..]);
    assert_eq!(live_count(&ct), 0);
}

#[test]
fn headers_with_options_are_translated() {
    let dev = ForwardingDevice::new_napt(wan_cfg());
    let plain = packet([9; 6], ip(192, 168, 4, 10), ip(8, 8, 8, 8), 17, 5353, 53);
    let mut b = plain[..34].to_vec();
    b[14] = 0x46;
    b.extend_from_slice(&[1, 1, 1, 0]);
    b.extend_from_slice(&plain[34..]);
    let total = (b.len() - 14) as u16;
    b[16..18].copy_from_slice(&total.to_be_bytes());
    let mut f = frame(&b);
    assert!(dev.egress(&mut f, &mut Conntrack::new(), &known(), &mut FwdStats::new(), 0));
    assert_eq!(u16::from_be_bytes([f[38], f[39]]), NAT_LO);
    assert_eq!(checksum_full(&f[14..38]), 0);
    assert_eq!(transport_sum(&f), 0xFFFF);
}

fn drop_of(dev: &ForwardingDevice, b: &[u8], n: &NeighborTable) -> FwdStats {
    let mut stats = FwdStats::new();
    let mut f = frame(b);
    assert!(!dev.egress(&mut f, &mut Conntrack::new(), n, &mut stats, 0));
    assert_eq!(stats.drop, 1);
    stats
}

#[test]
fn drops_have_reasons() {
    let lan = ForwardingDevice::new(lan_cfg());
    let mut n = NeighborTable::new();
    n.insert(ip(192, 168, 4, 10), CLIENT_MAC);
    let good = packet([9; 6], ip(8, 8, 8, 8), ip(192, 168, 4, 10), 17, 53, 5000);
    for ttl in [0u8, 1] {
        let mut b = good.clone();
        b[22] = ttl;
        assert_eq!(drop_of(&lan, &b, &n).drop_other, 1);
    }
    assert_eq!(drop_of(&lan, &good[..20], &n).drop_other, 1);
    let mut long = good.clone();
    long[17] = 200;
    assert_eq!(drop_of(&lan, &long, &n).drop_other, 1);
    let mut short_header = good.clone();
    short_header[14] = 0x44;
    assert_eq!(drop_of(&lan, &short_header, &n).drop_other, 1);
    // No gateway for an off-subnet destination, and an unknown neighbour.
    let off = packet([9; 6], ip(8, 8, 8, 8), ip(172, 16, 0, 1), 17, 53, 5000);
    assert_eq!(drop_of(&lan, &off, &n).drop_nonh, 1);
    assert_eq!(drop_of(&lan, &good, &NeighborTable::new()).drop_nonh, 1);
    let mut s = FwdStats::new();
    for r in [
        DropReason::QueueFull,
        DropReason::NoNextHop,
        DropReason::Nat,
        DropReason::TxBusy,
        DropReason::Other,
    ] {
        s.count_drop(r);
    }
    assert_eq!(s.drop, 5);
    assert_eq!(
        (s.drop_qfull, s.drop_nonh, s.drop_nat, s.drop_txbusy, s.drop_other),
        (1, 1, 1, 1, 1)
    );
}

#[test]
fn plain_forwarding_translates_nothing() {
    let lan = ForwardingDevice::new(lan_cfg());
    let mut n = NeighborTable::new();
    n.insert(ip(192, 168, 4, 10), CLIENT_MAC);
    let mut ct = Conntrack::new();
    let b = packet([9; 6], ip(8, 8, 8, 8), ip(192, 168, 4, 10), 17, 53, 5000);
    let mut f = frame(&b);
    assert!(lan.egress(&mut f, &mut ct, &n, &mut FwdStats::new(), 0));
    assert_eq!(&f[0..6], &CLIENT_MAC);
    assert_eq!(&f[26..], &b[26..]);
    assert_eq!(live_count(&ct), 0);
}

#[test]
fn classes_of_frames() {
    let cfg = wan_cfg();
    let to = |dst| packet(WAN_MAC, ip(1, 2, 3, 4), dst, 17, 1, 2);
    assert_eq!(classify(&cfg, &to(ip(10, 0, 0, 5))), Class::Local);
    assert_eq!(classify(&cfg, &to(ip(192, 168, 4, 77))), Class::Transit);
    assert_eq!(classify(&cfg, &to(ip(8, 8, 8, 8))), Class::Drop);
    let mut broadcast = to(ip(8, 8, 8, 8));
    broadcast[0..6].copy_from_slice(&[0xFF; 6]);
    assert_eq!(classify(&cfg, &broadcast), Class::Local);
    assert_eq!(classify(&cfg, &to(ip(8, 8, 8, 8))[..33]), Class::Local);
    assert_eq!(classify(&cfg, &[1, 2, 3]), Class::Local);
    let mut arp = to(ip(8, 8, 8, 8));
    arp[13] = 6;
    assert_eq!(classify(&cfg, &arp), Class::Local);
    let mut open = cfg;
    open.accept_dst = None;
    assert_eq!(classify(&open, &to(ip(8, 8, 8, 8))), Class::Transit);
    let mut unleased = cfg;
    unleased.our_ip = Ipv4Address::unspecified();
    assert_eq!(classify(&unleased, &to(ip(192, 168, 4, 77))), Class::Local);
}

#[test]
fn receiving_learns_and_counts() {
    let dev = ForwardingDevice::new_napt(wan_cfg());
    let mut ct = Conntrack::new();
    let mut n = NeighborTable::new();
    let mut s = FwdStats::new();
    let mut f = frame(&packet(WAN_MAC, ip(10, 0, 0, 9), ip(8, 8, 8, 8), 17, 1, 2));
    assert_eq!(dev.receive(&mut f, &mut ct, &mut n, &mut s, 0), Class::Drop);
    assert_eq!((s.drop, s.drop_other), (1, 1));
    assert_eq!(n.lookup(ip(10, 0, 0, 9)), Some(CLIENT_MAC));
    assert!(wan_neigh_known(&n, ip(10, 0, 0, 9)));
    assert!(!wan_neigh_known(&n, ip(10, 0, 0, 8)));
    dev.divert_done(&mut s, true, 3);
    dev.divert_done(&mut s, true, 2);
    dev.divert_done(&mut s, false, 4);
    assert_eq!((s.w2l, s.qhwm_w2l, s.drop_qfull), (2, 3, 1));
    dev.egress_done(&mut s, 100, true);
    dev.egress_done(&mut s, 100, false);
    assert_eq!((s.sent, s.bytes_to_wan, s.drop_txbusy), (1, 100, 1));
    let lan = ForwardingDevice::new(lan_cfg());
    lan.divert_done(&mut s, true, 1);
    lan.egress_done(&mut s, 60, true);
    assert_eq!((s.l2w, s.qhwm_l2w, s.bytes_to_lan), (1, 1, 60));
}

#[test]
fn learning_is_on_subnet_only() {
    let cfg = wan_cfg();
    let mut n = NeighborTable::new();
    learn(&cfg, &packet(WAN_MAC, ip(8, 8, 8, 8), ip(10, 0, 0, 5), 17, 1, 2), &mut n);
    assert_eq!(n.lookup(ip(8, 8, 8, 8)), None);
    // ARP names its sender.
    let mut arp = vec![0u8; 42];
    arp[12..14].copy_from_slice(&[8, 6]);
    arp[14..20].copy_from_slice(&[0, 1, 8, 0, 6, 4]);
    arp[22..28].copy_from_slice(&GW_MAC);
    arp[28..32].copy_from_slice(&[10, 0, 0, 1]);
    learn(&cfg, &arp[..41], &mut n);
    assert_eq!(n.lookup(ip(10, 0, 0, 1)), None);
    learn(&cfg, &arp, &mut n);
    assert_eq!(n.lookup(ip(10, 0, 0, 1)), Some(GW_MAC));
    arp[19] = 5;
    arp[31] = 2;
    learn(&cfg, &arp, &mut n);
    assert_eq!(n.lookup(ip(10, 0, 0, 2)), None);
    let mut unleased = cfg;
    unleased.our_ip = Ipv4Address::unspecified();
    arp[19] = 4;
    learn(&unleased, &arp, &mut n);
    assert_eq!(n.lookup(ip(10, 0, 0, 2)), None);
}

#[test]
fn neighbours_are_overwritten_in_turn() {
    let mut n = NeighborTable::new();
    for i in 0..8u8 {
        n.insert(ip(10, 0, 0, i), [i; 6]);
    }
    n.insert(ip(10, 0, 0, 3), [33; 6]);
    assert_eq!(n.lookup(ip(10, 0, 0, 3)), Some([33; 6]));
    assert_eq!(n.lookup(ip(10, 0, 0, 0)), Some([0; 6]));
    n.insert(ip(10, 0, 0, 8), [8; 6]);
    assert_eq!(n.lookup(ip(10, 0, 0, 0)), None);
    assert_eq!(n.lookup(ip(10, 0, 0, 8)), Some([8; 6]));
    n.insert(ip(10, 0, 0, 9), [9; 6]);
    assert_eq!(n.lookup(ip(10, 0, 0, 1)), None);
    assert_eq!(n.next, 2);
}

#[test]
fn the_gateway_is_asked_for() {
    let mut dev = ForwardingDevice::new_napt(IfaceCfg {
        our_ip: Ipv4Address::unspecified(),
        subnet: Ipv4Cidr::new(Ipv4Address::unspecified(), 0),
        gateway: None,
        ..wan_cfg()
    });
    assert!(dev.arp_gateway().is_none());
    dev.set_lease(Ipv4Cidr::new(ip(10, 0, 0, 5), 24), None);
    assert!(dev.arp_gateway().is_none());
    dev.set_lease(Ipv4Cidr::new(ip(10, 0, 0, 5), 24), Some(ip(10, 0, 0, 1)));
    let f = dev.arp_gateway().unwrap();
    let mut expect = vec![0xFF; 6];
    expect.extend_from_slice(&WAN_MAC);
    expect.extend_from_slice(&[8, 6, 0, 1, 8, 0, 6, 4, 0, 1]);
    expect.extend_from_slice(&WAN_MAC);
    expect.extend_from_slice(&[10, 0, 0, 5, 0, 0, 0, 0, 0, 0, 10, 0, 0, 1]);
    assert_eq!(f.as_slice(), expect.as_slice());
    assert_eq!(dev.cfg.our_ip, ip(10, 0, 0, 5));
}

#[test]
fn long_frames_are_cut() {
    assert_eq!(capture(&[7; 2000]).len(), 1600);
    assert_eq!(capture(&[7; 20]).as_slice(), &[7; 20]);
}

#[test]
fn subnets() {
    let net = Ipv4Cidr::new(ip(192, 168, 4, 1), 24);
    assert!(net.contains_addr(ip(192, 168, 4, 255)));
    assert!(!net.contains_addr(ip(192, 168, 5, 0)));
    assert!(Ipv4Cidr::new(ip(1, 2, 3, 4), 0).contains_addr(ip(255, 0, 0, 1)));
    let host = Ipv4Cidr::new(ip(1, 2, 3, 4), 32);
    assert!(host.contains_addr(ip(1, 2, 3, 4)));
    assert!(!host.contains_addr(ip(1, 2, 3, 5)));
    for p in 0..=32u8 {
        let ours = Ipv4Cidr::new(ip(172, 16, 99, 3), p);
        let theirs = smoltcp::wire::Ipv4Cidr::new(smoltcp::wire::Ipv4Address::new(172, 16, 99, 3), p);
        for a in [[172, 16, 99, 7], [172, 16, 98, 3], [172, 31, 0, 1], [44, 1, 1, 1]] {
            let other = smoltcp::wire::Ipv4Address::new(a[0], a[1], a[2], a[3]);
            assert_eq!(ours.contains_addr(ip(a[0], a[1], a[2], a[3])), theirs.contains_addr(&other));
        }
    }
    assert!(Ipv4Address::unspecified().is_unspecified());
    assert_eq!(ip(1, 2, 3, 4).octets(), [1, 2, 3, 4]);
}

#[test]
fn a_renewed_neighbour_keeps_its_place() {
    let mut n = NeighborTable::new();
    for i in 0..8u8 {
        n.insert(ip(10, 0, 0, i), [i; 6]);
    }
    n.insert(ip(10, 0, 0, 0), [77; 6]);
    n.insert(ip(10, 0, 0, 8), [8; 6]);
    assert_eq!(n.lookup(ip(10, 0, 0, 0)), None);
    for i in 1..=8u8 {
        assert_eq!(n.lookup(ip(10, 0, 0, i)), Some([i; 6]));
    }
}

#[test]
fn a_late_reply_reaches_its_client() {
    let dev = ForwardingDevice::new_napt(wan_cfg());
    let mut ct = Conntrack::new();
    let mut stats = FwdStats::new();
    let server = ip(93, 184, 216, 34);
    let client = ip(192, 168, 4, 10);
    let mut f = frame(&packet([9; 6], client, server, 17, 5000, 443));
    assert!(dev.egress(&mut f, &mut ct, &known(), &mut stats, 1_000));
    let id = u16::from_be_bytes([f[34], f[35]]);
    // Other flows come and go, and the table is swept.
    for port in 1..40u16 {
        let mut g = frame(&packet([9; 6], ip(192, 168, 4, 11), server, 17, port, 53));
        assert!(dev.egress(&mut g, &mut ct, &known(), &mut stats, 2_000));
        nat_reap(&mut ct, 3_000);
    }
    let mut r = frame(&packet(WAN_MAC, server, ip(10, 0, 0, 5), 17, 443, id));
    assert_eq!(dev.classify_frame(&mut r, &mut ct, 30_999), Class::Transit);
    assert_eq!(&r[30..34], &[192, 168, 4, 10]);
    assert_eq!(u16::from_be_bytes([r[36], r[37]]), 5000);
    let mut late = frame(&packet(WAN_MAC, server, ip(10, 0, 0, 5), 17, 443, id));
    assert_eq!(dev.classify_frame(&mut late, &mut ct, 60_999), Class::Local);
}
