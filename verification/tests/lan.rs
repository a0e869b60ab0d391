use pico_10base_t_rs::dhcp_server::{
    dns_offer, DhcpServer, DHCP_ACK, DHCP_DISCOVER, DHCP_OFFER, DHCP_REQUEST, POOL_LEN,
};
use pico_10base_t_rs::text::{Piece, Text};
use pico_10base_t_rs::wan::{
    dhcp_apply, dns_harvest, dns_name, dns_start, dns_wanted, ping_drain, ping_packet, ping_send,
    ping_target, second_work, DnsOutcome, LeaseEvent, LeasePlan, SecondWork, WanState, ICMP_IDENT,
};
use pico_10base_t_rs::wire::{Ipv4Address, Ipv4Cidr};

fn ip(a: u8, b: u8, c: u8, d: u8) -> Ipv4Address {
    Ipv4Address::new(a, b, c, d)
}

/// A DHCP request of message type `kind`.
fn request(kind: u8, xid: u32, mac: [u8; 6]) -> Vec<u8> {
    let mut b = vec![0u8; 240];
    b[0] = 1;
    b[1] = 1;
    b[2] = 6;
    b[4..8].copy_from_slice(&xid.to_be_bytes());
    b[28..34].copy_from_slice(&mac);
    b[236..240].copy_from_slice(&[0x63, 0x82, 0x53, 0x63]);
    b.extend_from_slice(&[53, 1, kind, 255]);
    b
}

#[test]
fn discover_is_offered_and_request_acknowledged() {
    let mut s = DhcpServer::new();
    let mac = [2, 0, 0, 0, 0, 7];
    let dns = ip(1, 1, 1, 1);
    for (kind, answer) in [(DHCP_DISCOVER, DHCP_OFFER), (DHCP_REQUEST, DHCP_ACK)] {
        let r = s.build_reply(&request(kind, 0xDEAD_BEEF, mac), dns).expect("a reply");
        assert_eq!(r.len(), 274);
        let p = smoltcp::wire::DhcpPacket::new_checked(&r[..]).unwrap();
        let d = smoltcp::wire::DhcpRepr::parse(&p).unwrap();
        assert_eq!(u8::from(d.message_type), answer);
        assert_eq!(d.transaction_id, 0xDEAD_BEEF);
        assert_eq!(d.client_hardware_address.0, mac);
        assert_eq!(d.your_ip.octets(), [192, 168, 4, 10]);
        assert_eq!(d.router.unwrap().octets(), [192, 168, 4, 1]);
        assert_eq!(d.server_identifier.unwrap().octets(), [192, 168, 4, 1]);
        assert_eq!(d.subnet_mask.unwrap().octets(), [255, 255, 255, 0]);
        assert_eq!(d.lease_duration, Some(3600));
        assert_eq!(d.dns_servers.unwrap()[0].octets(), [1, 1, 1, 1]);
        assert!(d.broadcast);
        // The bytes, field by field.
        let mut expect = vec![2, 1, 6, 0, 0xDE, 0xAD, 0xBE, 0xEF, 0, 0, 0x80, 0, 0, 0, 0, 0];
        expect.extend_from_slice(&[192, 168, 4, 10]);
        expect.extend_from_slice(&[0; 8]);
        expect.extend_from_slice(&mac);
        expect.extend_from_slice(&[0; 202]);
        expect.extend_from_slice(&[0x63, 0x82, 0x53, 0x63, 53, 1, answer]);
        expect.extend_from_slice(&[54, 4, 192, 168, 4, 1, 3, 4, 192, 168, 4, 1]);
        expect.extend_from_slice(&[1, 4, 255, 255, 255, 0, 51, 4, 0, 0, 0x0E, 0x10]);
        expect.extend_from_slice(&[6, 4, 1, 1, 1, 1, 255]);
        assert_eq!(r, expect);
    }
    assert_eq!(s.active_leases(), vec![(ip(192, 168, 4, 10), mac)]);
}

#[test]
fn other_messages_are_ignored() {
    let mut s = DhcpServer::new();
    for kind in [2u8, 4, 5, 6, 7, 8, 99] {
        assert!(s.build_reply(&request(kind, 1, [2; 6]), ip(8, 8, 8, 8)).is_none());
        assert!(s.answer(kind, 1, [2; 6], ip(8, 8, 8, 8)).is_none());
    }
    assert!(s.build_reply(&[0; 100], ip(8, 8, 8, 8)).is_none());
    let mut bad = request(DHCP_DISCOVER, 1, [2; 6]);
    bad[236] = 0;
    assert!(s.build_reply(&bad, ip(8, 8, 8, 8)).is_none());
    let mut token_ring = request(DHCP_DISCOVER, 1, [2; 6]);
    token_ring[1] = 6;
    assert!(s.build_reply(&token_ring, ip(8, 8, 8, 8)).is_none());
    assert!(s.active_leases().is_empty());
}

#[test]
fn the_pool_is_exclusive_and_finite() {
    let mut s = DhcpServer::new();
    let mut ips = std::collections::HashSet::new();
    for n in 0..POOL_LEN as u8 {
        let r = s.answer(DHCP_DISCOVER, 1, [n; 6], ip(8, 8, 8, 8)).expect("a reply");
        assert!(ips.insert(r[16..20].to_vec()));
        assert_eq!(r[19], 10 + n);
    }
    assert!(s.answer(DHCP_DISCOVER, 1, [99; 6], ip(8, 8, 8, 8)).is_none());
    // A client that holds a lease keeps it.
    let r = s.answer(DHCP_REQUEST, 2, [5; 6], ip(8, 8, 8, 8)).expect("a reply");
    assert_eq!(r[19], 15);
    assert_eq!(s.active_leases().len(), 32);
    assert_eq!(s.active_leases()[31], (ip(192, 168, 4, 41), [31; 6]));
}

fn lease() -> LeaseEvent {
    LeaseEvent::Configured {
        addr: Ipv4Cidr::new(ip(10, 0, 0, 5), 24),
        router: Some(ip(10, 0, 0, 1)),
        servers: vec![ip(9, 9, 9, 9), ip(1, 1, 1, 1)],
    }
}

#[test]
fn leases_are_applied() {
    let mut w = WanState::new();
    assert!(matches!(dhcp_apply(&mut w, LeaseEvent::Unchanged), LeasePlan::Keep));
    assert_eq!(w, WanState::default());
    w.dns_query = true;
    match dhcp_apply(&mut w, lease()) {
        LeasePlan::Install { addr, router, servers } => {
            assert_eq!(addr, Ipv4Cidr::new(ip(10, 0, 0, 5), 24));
            assert_eq!(router, Some(ip(10, 0, 0, 1)));
            assert_eq!(servers, vec![ip(9, 9, 9, 9), ip(1, 1, 1, 1)]);
        }
        _ => panic!("no lease"),
    }
    assert_eq!(w.dns0, Some(ip(9, 9, 9, 9)));
    assert!(!w.dns_query);
    let many = LeaseEvent::Configured {
        addr: Ipv4Cidr::new(ip(10, 0, 0, 5), 24),
        router: None,
        servers: vec![ip(1, 0, 0, 1); 6],
    };
    match dhcp_apply(&mut w, many) {
        LeasePlan::Install { servers, .. } => assert_eq!(servers.len(), 4),
        _ => panic!("no lease"),
    }
    assert!(matches!(dhcp_apply(&mut w, LeaseEvent::Deconfigured), LeasePlan::Clear));
    assert_eq!(w, WanState::new());
}

#[test]
fn pings() {
    let mut w = WanState::new();
    w.ping_seq = 0x0102;
    let p = ping_packet(&w);
    assert_eq!(&p[..2], &[8, 0]);
    assert_eq!(&p[4..8], &[0, 0x42, 1, 2]);
    assert_eq!(&p[8..], b"pico-wan");
    assert_eq!(pico_10base_t_rs::checksum::checksum_full(&p), 0);
    ping_send(&mut w);
    assert_eq!((w.ping_seq, w.ping_sent), (0x0103, 1));
    // The reply to it: type 0, checksum to match.
    let mut r = p.clone();
    r[0] = 0;
    r[2] = 0;
    r[3] = 0;
    let c = pico_10base_t_rs::checksum::checksum_full(&r);
    r[2..4].copy_from_slice(&c.to_be_bytes());
    ping_drain(&mut w, &r);
    assert_eq!(w.ping_ok, 1);
    // The request itself, a wrong checksum, another identifier, too short.
    ping_drain(&mut w, &p);
    let mut wrong = r.clone();
    wrong[9] ^= 1;
    ping_drain(&mut w, &wrong);
    let mut other = r.clone();
    other[5] = 0x43;
    other[3] = other[3].wrapping_sub(1);
    ping_drain(&mut w, &other);
    ping_drain(&mut w, &r[..7]);
    assert_eq!(w.ping_ok, 1);
    w.ping_seq = u16::MAX;
    ping_send(&mut w);
    assert_eq!(w.ping_seq, 0);
    assert_eq!(ping_target(), ip(8, 8, 8, 8));
    assert_eq!(ICMP_IDENT, 0x42);
}

#[test]
fn lookups() {
    let mut w = WanState::new();
    assert!(!dns_wanted(&w));
    dns_start(&mut w, true);
    assert!(!w.dns_query);
    dhcp_apply(&mut w, lease());
    assert!(dns_wanted(&w));
    dns_start(&mut w, false);
    assert!(!w.dns_query);
    dns_start(&mut w, true);
    assert!(w.dns_query && !dns_wanted(&w));
    dns_harvest(&mut w, DnsOutcome::Pending);
    assert!(w.dns_query);
    dns_harvest(&mut w, DnsOutcome::Answered(vec![ip(93, 184, 216, 34), ip(1, 2, 3, 4)]));
    assert!(!w.dns_query);
    assert_eq!(w.resolved, Some(ip(93, 184, 216, 34)));
    dns_start(&mut w, true);
    dns_harvest(&mut w, DnsOutcome::Failed);
    assert!(!w.dns_query);
    assert_eq!(w.resolved, Some(ip(93, 184, 216, 34)));
    dns_start(&mut w, true);
    dns_harvest(&mut w, DnsOutcome::Answered(vec![]));
    assert_eq!(w.resolved, None);
    // Without a lookup in flight nothing is taken.
    dns_harvest(&mut w, DnsOutcome::Answered(vec![ip(1, 1, 1, 1)]));
    assert_eq!(w.resolved, None);
    assert_eq!(dns_name(), "example.com");
}

fn status_of(w: &WanState, cap: usize) -> String {
    let mut t = Text::new(cap);
    w.write_status(&mut t);
    String::from_utf8(t.as_bytes().to_vec()).unwrap()
}

#[test]
fn wan_status_text() {
    let mut w = WanState::new();
    assert_eq!(status_of(&w, 160), "ip=none gw=none dns=none ping=0/0 example.com=?");
    dhcp_apply(&mut w, lease());
    w.ping_ok = 3;
    w.ping_sent = 4;
    w.resolved = Some(ip(93, 184, 216, 34));
    assert_eq!(
        status_of(&w, 160),
        "ip=10.0.0.5/24 gw=10.0.0.1 dns=9.9.9.9 ping=3/4 example.com=93.184.216.34"
    );
    // A write stops at the first piece that does not fit; later writes go on.
    assert_eq!(status_of(&w, 10), "ip=10.0.0.");
    assert_eq!(status_of(&w, 4), "ip=");
    assert_eq!(status_of(&WanState::new(), 9), "ip=none ");
}

/// The same writes into a `heapless` string of capacity `N`, piece by piece.
fn bounded<const N: usize>() -> Vec<u8> {
    let mut h: heapless::String<N> = heapless::String::new();
    for group in [
        vec!["net=", "10", ".", "20", ".", "30", ".", "40", "/", "24", " ", "0", "7", "0", "0", "1f"],
        vec!["n=", "12345", "\n"],
        vec!["0", "0", "0", "0", "0", "ABC"],
    ] {
        for piece in group {
            if h.push_str(piece).is_err() {
                break;
            }
        }
    }
    h.as_bytes().to_vec()
}

fn bounded_here(cap: usize) -> Vec<u8> {
    let mut t = Text::new(cap);
    t.write(&[
        Piece::Str("net="),
        Piece::Net(Ipv4Cidr::new(ip(10, 20, 30, 40), 24)),
        Piece::Str(" "),
        Piece::Hex2(7),
        Piece::Hex4(0x1F),
    ]);
    t.write(&[Piece::Str("n="), Piece::Num(12345), Piece::Str("\n")]);
    t.write(&[Piece::Hex8(0xABC)]);
    t.as_bytes().to_vec()
}

#[test]
fn texts_are_cut_like_heapless_strings() {
    assert_eq!(bounded_here(0), bounded::<0>());
    assert_eq!(bounded_here(1), bounded::<1>());
    assert_eq!(bounded_here(3), bounded::<3>());
    assert_eq!(bounded_here(4), bounded::<4>());
    assert_eq!(bounded_here(5), bounded::<5>());
    assert_eq!(bounded_here(8), bounded::<8>());
    assert_eq!(bounded_here(15), bounded::<15>());
    assert_eq!(bounded_here(17), bounded::<17>());
    assert_eq!(bounded_here(19), bounded::<19>());
    assert_eq!(bounded_here(20), bounded::<20>());
    assert_eq!(bounded_here(21), bounded::<21>());
    assert_eq!(bounded_here(23), bounded::<23>());
    assert_eq!(bounded_here(25), bounded::<25>());
    assert_eq!(bounded_here(30), bounded::<30>());
    assert_eq!(bounded_here(33), bounded::<33>());
    assert_eq!(bounded_here(37), bounded::<37>());
    assert_eq!(bounded_here(40), bounded::<40>());
    assert_eq!(bounded_here(80), bounded::<80>());
}

#[test]
fn pieces_of_text() {
    let mut t = Text::new(100);
    t.write(&[
        Piece::Hex2(5),
        Piece::Str(" "),
        Piece::Hex2(0xAB),
        Piece::Str(" "),
        Piece::Hex4(0x1F),
        Piece::Str(" "),
        Piece::Hex4(0x12345),
        Piece::Str(" "),
        Piece::Hex8(0xBEEF),
        Piece::Str(" "),
        Piece::Num(u64::MAX),
        Piece::Str(" "),
        Piece::Mac([0, 0x1A, 0xFF, 3, 4, 5]),
    ]);
    assert_eq!(
        t.as_bytes(),
        b"05 ab 001f 12345 0000BEEF 18446744073709551615 00:1a:ff:03:04:05"
    );
    let mut u = Text::new(3);
    u.write(&[Piece::Str("ab"), Piece::Str("cd"), Piece::Str("e")]);
    assert_eq!(u.as_bytes(), b"ab");
    u.write(&[Piece::Str("e"), Piece::Num(0)]);
    assert_eq!(u.as_bytes(), b"abe");
    let mut v = Text::new(1);
    v.write(&[Piece::Hex2(5)]);
    assert_eq!(v.as_bytes(), b"0");
}

#[test]
fn work_of_a_second() {
    let mut w = WanState::new();
    w.gw = Some(ip(10, 0, 0, 1));
    w.dns0 = Some(ip(9, 9, 9, 9));
    assert_eq!(
        second_work(&w, false),
        SecondWork { ping: false, lookup: false, ask_gateway: false }
    );
    w.addr = Some(Ipv4Cidr::new(ip(10, 0, 0, 5), 24));
    assert_eq!(
        second_work(&w, false),
        SecondWork { ping: true, lookup: true, ask_gateway: true }
    );
    w.dns_query = true;
    assert_eq!(
        second_work(&w, true),
        SecondWork { ping: true, lookup: false, ask_gateway: false }
    );
}

#[test]
fn name_servers_offered() {
    assert_eq!(dns_offer(None), ip(8, 8, 8, 8));
    assert_eq!(dns_offer(Some(ip(1, 2, 3, 4))), ip(1, 2, 3, 4));
}

#[test]
fn addresses_are_given_out_from_the_lowest() {
    let mut s = DhcpServer::new();
    assert_eq!(s.allocate([1; 6]), Some(ip(192, 168, 4, 10)));
    assert_eq!(s.allocate([2; 6]), Some(ip(192, 168, 4, 11)));
    assert_eq!(s.allocate([1; 6]), Some(ip(192, 168, 4, 10)));
    s.leases[0] = None;
    assert_eq!(s.allocate([3; 6]), Some(ip(192, 168, 4, 10)));
    for i in 3..=POOL_LEN {
        assert_eq!(s.allocate([100 + i as u8; 6]), Some(ip(192, 168, 4, 9 + i as u8)));
    }
    let full = s.leases;
    assert_eq!(s.allocate([1; 6]), None);
    assert_eq!(s.leases, full);
    assert_eq!(s.allocate([2; 6]), Some(ip(192, 168, 4, 11)));
    assert_eq!(s.leases[POOL_LEN - 1], Some([100 + POOL_LEN as u8; 6]));
}
