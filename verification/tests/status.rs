use pico_10base_t_rs::conntrack::NatCounters;
use pico_10base_t_rs::eth_mac::{EthMacStats, EthRxStats};
use pico_10base_t_rs::forward::{DropReason, FwdStats};
use pico_10base_t_rs::monitor::{rate, rate_kb, rate_kib, window, Monitor, RouterRates, Sample};
use pico_10base_t_rs::status::{
    bulk_head, chip_serial, core1_line, cyw43_line, fwd_line, hello_page, hex_dump, lan_line,
    last_dst, last_frame_line, log_wan, mac_counts, mac_line, mac_str, nat_line, no_serial,
    page_head, perf_line, r2b_line, router_wan_line, rx_dump, rx_line, sink_line, status_page,
    stitch_line, tx_dump, udp_payload, LanInfo, LanStages, RouterInfo,
};
use pico_10base_t_rs::text::Text;
use pico_10base_t_rs::wan::WanState;
use pico_10base_t_rs::wire::Ipv4Address;

fn s(t: &Text) -> &str {
    std::str::from_utf8(t.as_bytes()).unwrap()
}

#[test]
fn lines_of_the_wired_image() {
    assert_eq!(s(&r2b_line(7, 62, 5)), "[R2b] t=7 nlps=62 udp_sent=5\n");
    assert_eq!(s(&core1_line(true, 9)), "[Core1] launch=ok ticks=9\n");
    assert_eq!(s(&core1_line(false, 0)), "[Core1] launch=FAIL ticks=0\n");
    assert_eq!(
        s(&rx_line(1, 2, 3, 4, [0xFF; 6])),
        "[Rx] dec=1 ok=2 fail=3 filt=4 dst=ff:ff:ff:ff:ff:ff\n"
    );
    assert_eq!(s(&stitch_line(1, 2, 3, 4)), "[Stitch] dec=1 fail=2 rxstall=3 img_drop=4\n");
    assert_eq!(s(&sink_line(1, 2, 3)), "[Sink] rx=1KB/s total=2KB loop=3/s\n");
    assert_eq!(s(&udp_payload(42)), "Hello World!! Raspico 10BASE-T Rust !! n=42");
    assert_eq!(
        s(&log_wan(&WanState::new())),
        "[Wan] ip=none gw=none dns=none ping=0/0 example.com=?\n"
    );
    assert_eq!(s(&mac_str([1, 2, 3, 4, 5, 0xAB])), "01:02:03:04:05:ab");
    assert_eq!(s(&chip_serial(0xAB, 0x1234_5678)), "000000AB12345678");
    assert_eq!(s(&no_serial()), "0000000000000000");
}

#[test]
fn pages_of_the_wired_image() {
    let body = hello_page(10, 62, 3);
    assert_eq!(
        s(&body),
        "Hello from Pico-10BASE-T (Rust)!\r\nuptime=10s nlps=62 udp_sent=3\r\n"
    );
    assert_eq!(
        s(&page_head(body.as_bytes().len() as u64)),
        "HTTP/1.0 200 OK\r\nContent-Type: text/plain\r\nContent-Length: 65\r\nConnection: close\r\n\r\n"
    );
    assert_eq!(
        s(&bulk_head(1_048_576)),
        "HTTP/1.0 200 OK\r\nContent-Type: application/octet-stream\r\nContent-Length: 1048576\r\nConnection: close\r\n\r\n"
    );
}

#[test]
fn the_media_access_line() {
    let mut m = EthMacStats::new();
    m.rx_handed_out = 1;
    m.tx_arp = 2;
    m.tx_icmp = 3;
    m.tx_udp = 4;
    m.tx_other = 5;
    m.last_tx_len = 98;
    let mut rx = EthRxStats::new();
    rx.inbox_dropped = 6;
    rx.inbox_high_water = 4;
    rx.carry_capped = 7;
    assert_eq!(
        s(&mac_line(mac_counts(&m, &rx))),
        "[Mac] iface_rx=1 tx_arp=2 tx_icmp=3 tx_udp=4 tx_other=5 inbox_drop=6 inbox_hwm=4 carry_cap=7 last_tx_len=98\n"
    );
    // Long numbers are cut at the capacity of the line.
    m.rx_handed_out = u32::MAX;
    m.tx_arp = u32::MAX;
    m.tx_icmp = u32::MAX;
    m.tx_udp = u32::MAX;
    m.tx_other = u32::MAX;
    rx.inbox_dropped = u32::MAX;
    rx.carry_capped = u32::MAX;
    let t = mac_line(mac_counts(&m, &rx));
    assert!(s(&t).ends_with("carry_cap=4294967295"));
}

#[test]
fn the_line_on_the_last_frame() {
    let mut rx = EthRxStats::new();
    assert_eq!(last_dst(&rx), [0; 6]);
    for (i, b) in rx.last_frame_snapshot.iter_mut().enumerate() {
        *b = i as u8;
    }
    rx.last_frame_snapshot_len = 64;
    rx.last_frame_len = 64;
    rx.last_frame_was_ok = true;
    assert_eq!(last_dst(&rx), [0, 1, 2, 3, 4, 5]);
    assert_eq!(
        s(&last_frame_line(&rx)),
        "[Rx] frame 64 bytes, FCS OK - dst 00:01:02:03:04:05 src 06:07:08:09:0a:0b type=0c0d\n"
    );
    rx.last_frame_snapshot_len = 13;
    rx.last_frame_was_ok = false;
    assert!(s(&last_frame_line(&rx)).ends_with("FCS FAIL - dst 00:01:02:03:04:05 src 06:07:08:09:0a:0b type=0000\n"));
}

#[test]
fn dumps() {
    let data: Vec<u8> = (0..35).collect();
    let rows = hex_dump("tx ", &data);
    assert_eq!(rows.len(), 3);
    assert_eq!(s(&rows[0]), "  tx 0000: 00 01 02 03 04 05 06 07 08 09 0a 0b 0c 0d 0e 0f\n");
    assert_eq!(s(&rows[2]), "  tx 0020: 20 21 22\n");
    assert!(hex_dump("", &[]).is_empty());
    assert_eq!(s(&hex_dump("", &[0; 300])[18]), "  0120: 00 00 00 00 00 00 00 00 00 00 00 00\n");
}

#[test]
fn dumps_of_the_last_frames() {
    let mut m = EthMacStats::new();
    assert!(tx_dump(&m).is_empty());
    m.last_tx_len = 1500;
    m.last_tx[127] = 0xAB;
    let rows = tx_dump(&m);
    assert_eq!(rows.len(), 8);
    assert!(s(&rows[7]).starts_with("  tx 0070: 00"));
    assert!(s(&rows[7]).ends_with(" ab\n"));
    let mut rx = EthRxStats::new();
    assert!(rx_dump(&rx).is_empty());
    rx.last_frame_snapshot_len = 128;
    assert_eq!(rx_dump(&rx).len(), 4);
    rx.last_frame_snapshot_len = 17;
    assert_eq!(s(&rx_dump(&rx)[1]), "  0010: 00\n");
}

fn fwd() -> FwdStats {
    let mut f = FwdStats::new();
    f.l2w = 1;
    f.w2l = 2;
    f.sent = 3;
    f.count_drop(DropReason::QueueFull);
    f.count_drop(DropReason::Other);
    f.bytes_to_wan = 1000;
    f.bytes_to_lan = 2000;
    f.qhwm_l2w = 3;
    f.qhwm_w2l = 4;
    f
}

fn nat_counts() -> NatCounters {
    NatCounters { out: 10, inbound: 11, new: 12, evict: 13, drop: 0, live: 5 }
}

fn rates() -> RouterRates {
    RouterRates {
        tx_kbs: 1,
        rx_kbs: 2,
        spi0: 123,
        net0: 45,
        up_kbs: 100,
        dn_kbs: 200,
        pps: 300,
        cpu1: 67,
        cpu0: 8,
        ct_hwm: 9,
    }
}

#[test]
fn lines_of_the_router() {
    let stages = LanStages { new: 1, init: 1, led: 1, ap: 1, net: 0 };
    assert_eq!(
        s(&cyw43_line(stages, 5, 6, 7)),
        "[Cyw43] new=1 init=1 led=1 ap=1 net=0 rx=5 dhcp=6 hb=7\r\n"
    );
    assert_eq!(s(&lan_line(1, 2, 3, 4, None)), "[Lan] tx=1KB/s rx=2KB/s txbusy=3 rxframes=4\r\n");
    assert_eq!(
        s(&lan_line(1, 2, 3, 4, Some((123, 45)))),
        "[Lan] tx=1KB/s rx=2KB/s txbusy=3 rxframes=4 spi0=12.3% net0=4.5%\r\n"
    );
    assert_eq!(s(&router_wan_line(true, None)), "[Wan] core1=ok (no lease yet)\r\n");
    assert_eq!(
        s(&router_wan_line(false, Some(WanState::new()))),
        "[Wan] core1=FAIL ip=none gw=none dns=none ping=0/0 example.com=?\r\n"
    );
    assert_eq!(s(&fwd_line(fwd())), "[Fwd] l2w=1 w2l=2 sent=3 drop=2\r\n");
    assert_eq!(
        s(&nat_line(nat_counts())),
        "[Nat] ct=5/64 out=10 in=11 new=12 evict=13 drop=0\r\n"
    );
    assert_eq!(
        s(&perf_line(rates(), fwd())),
        "[Perf] up=100KB/s dn=200KB/s pps=300 cpu1=6.7% cpu0=0.8% qmax=3/4 cthwm=9/64 drop[qf=1 nh=0 nat=0 txb=0 oth=1]\r\n"
    );
}

#[test]
fn the_status_page() {
    let lan = LanInfo {
        dns: Ipv4Address::new(8, 8, 8, 8),
        uptime_s: 99,
        dhcp_replies: 2,
        rx_frames: 3,
        tx_bytes: 4,
        rx_bytes: 5,
        tx_busy: 6,
    };
    let top = "Pico RP2350 Wireless Router (Rust)\r\nAP SSID:     net\r\nLAN gateway: 192.168.4.1/24\r\nDNS offered: 8.8.8.8\r\nuptime:      99s\r\nDHCP replies:2\r\nLAN rx:      3\r\nClients:\r\n";
    assert_eq!(
        s(&status_page("net", &lan, &[], None)),
        format!("{top}  (none)\r\nLAN perf:    tx=4B rx=5B txbusy=6\r\n")
    );
    let leases = [
        (Ipv4Address::new(192, 168, 4, 10), [1u8, 2, 3, 4, 5, 6]),
        (Ipv4Address::new(192, 168, 4, 11), [7u8; 6]),
    ];
    let router = RouterInfo {
        wan: None,
        nat: nat_counts(),
        fwd: fwd(),
        cpu1: 67,
        cpu0: 8,
        spi0: 123,
        net0: 45,
    };
    let clients = "  192.168.4.10  01:02:03:04:05:06\r\n  192.168.4.11  07:07:07:07:07:07\r\n";
    let tail = "NAT:         ct=5/64 out=10 in=11 drop=0\r\nForward:     sent=3 drop=2 (qf=1 nh=0 nat=0 txb=0 oth=1)\r\nBytes:       up=1000 dn=2000\r\nQueue hwm:   l2w=3 w2l=4 (cap 4)\r\nCPU:         core1(rx-decode)=6.7% core0(forward)=0.8%\r\nLAN cpu0:    spi0(gspi)=12.3% net0(stack)=4.5%\r\n";
    assert_eq!(
        s(&status_page("net", &lan, &leases, Some(router))),
        format!("{top}{clients}LAN perf:    tx=4B rx=5B txbusy=6\r\nWAN:         (no lease)\r\n{tail}")
    );
    let leased = RouterInfo { wan: Some(WanState::new()), ..router };
    assert!(s(&status_page("net", &lan, &leases, Some(leased)))
        .contains("WAN:         ip=none gw=none dns=none ping=0/0 example.com=?\r\nNAT:"));
    // A full pool still fits.
    let full = [(Ipv4Address::new(192, 168, 4, 10), [7u8; 6]); 32];
    assert!(s(&status_page("net", &lan, &full, Some(router))).ends_with("net0(stack)=4.5%\r\n"));
}

#[test]
fn rates_over_a_window() {
    assert_eq!(rate(500, 1_000_000), 500);
    assert_eq!(rate(500, 2_000_000), 250);
    assert_eq!(rate_kib(1_048_576, 1_000_000), 1024);
    assert_eq!(rate_kb(5_000, 1_000), 5_000);
    assert_eq!(window(10, 10), 1);
    assert_eq!(window(10, 30), 20);
    assert_eq!(window(u64::MAX, 1), 2);
}

#[test]
fn reports() {
    let mut m = Monitor::new(1_000);
    let mut due = 0;
    for _ in 0..2_500 {
        if m.poll() {
            due += 1;
        }
    }
    assert_eq!(due, 2);
    assert_eq!(m.heartbeat(), 2);
    let a = Sample {
        lan_tx: 2048,
        lan_rx: 1024,
        spi: 24_000_000,
        net: 12_000_000,
        to_wan: 10_240,
        to_lan: 20_480,
        sent: 7,
        live: 9,
        core1: 120_000_000,
        fwd: 240_000_000,
    };
    let r = m.report(&a, 1_001_000);
    assert_eq!(
        r,
        RouterRates {
            tx_kbs: 2,
            rx_kbs: 1,
            spi0: 100,
            net0: 50,
            up_kbs: 10,
            dn_kbs: 20,
            pps: 7,
            cpu1: 500,
            cpu0: 1000,
            ct_hwm: 9,
        }
    );
    let b = Sample { live: 3, sent: 10, ..a };
    let r2 = m.report(&b, 2_001_000);
    assert_eq!((r2.tx_kbs, r2.pps, r2.cpu0, r2.ct_hwm), (0, 3, 0, 9));
    // Counters that wrapped.
    m.prev.sent = u32::MAX - 1;
    let r3 = m.report(&Sample { sent: 3, ..b }, 3_001_000);
    assert_eq!(r3.pps, 5);
}
