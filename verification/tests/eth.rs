use pico_10base_t_rs::crc::crc32_ieee802_3;
use pico_10base_t_rs::eth_mac::{
    half_action, img_consume, img_produce, mac_accept, scan_next, scan_runs, snapshot_rx_stats,
    EthMac, EthMacStats, EthRxStats, HalfAction, RxShared, ScanStep, StatsDelta,
};
use pico_10base_t_rs::eth_rx::{
    EthRx, PollOutcome, BUF_BYTES, MAX_CARRY_BYTES, STITCH_BUF_BYTES,
};
use pico_10base_t_rs::eth_rx_dpll::decode_frame_edge_track;
use pico_10base_t_rs::eth_tx::{
    build_eth_ipv4_udp_frame, Csma, EthTx, UdpEndpoint, CSMA_SLOT_CYCLES, TP_IDL_WORD,
};
use pico_10base_t_rs::frame::Frame;
use pico_10base_t_rs::manchester::manchester_word;

const OUR_MAC: [u8; 6] = [0x12, 0x34, 0x56, 0x78, 0x9A, 0xBC];

/// Samples of a line on which `words` are sent, three per half-bit.
fn line_samples(words: &[u32], lead: usize, steady: u8) -> Vec<u8> {
    let mut s = vec![steady; lead];
    for w in words {
        for h in 0..16 {
            let half = (w >> (2 * h)) & 3;
            let level = if half == 1 { 1 } else { 0 };
            s.extend_from_slice(&[level; 3]);
        }
    }
    s
}

fn pack_samples(s: &[u8]) -> Vec<u8> {
    let mut out = vec![0u8; s.len().div_ceil(8)];
    for (i, b) in s.iter().enumerate() {
        out[i / 8] |= b << (i % 8);
    }
    out
}

fn ipv4_body(len: usize) -> Vec<u8> {
    let mut b = vec![0u8; len];
    b[0..6].copy_from_slice(&OUR_MAC);
    b[6..12].copy_from_slice(&[2, 0, 0, 0, 0, 1]);
    b[12..14].copy_from_slice(&[0x08, 0x00]);
    b[14] = 0x45;
    b[16..18].copy_from_slice(&((len - 14) as u16).to_be_bytes());
    for (i, x) in b.iter_mut().enumerate().skip(18) {
        *x = (i * 7) as u8;
    }
    b
}

fn arp_body() -> Vec<u8> {
    let mut b = vec![0xFFu8; 6];
    b.extend_from_slice(&[2, 0, 0, 0, 0, 1]);
    b.extend_from_slice(&[0x08, 0x06]);
    b.extend_from_slice(&[0; 28]);
    b
}

fn framed(body: &[u8]) -> Vec<u8> {
    let mut f = body.to_vec();
    while f.len() < 60 {
        f.push(0);
    }
    let crc = crc32_ieee802_3(&f);
    f.extend_from_slice(&crc.to_le_bytes());
    f
}

#[test]
fn manchester_words_of_bytes() {
    assert_eq!(manchester_word(0x00), 0x6666_6666);
    assert_eq!(manchester_word(0x01), 0x6666_6669);
    assert_eq!(manchester_word(0xFF), 0x9999_9999);
    assert_eq!(manchester_word(0x55), 0x6969_6969);
    assert_eq!(manchester_word(0xD5), 0x9969_6969);
}

#[test]
fn sent_frames_are_received() {
    let tx = EthTx::new();
    for len in [34usize, 60, 61, 100, 590, 1514] {
        for lead in [0usize, 1, 5, 17] {
            for steady in [0u8, 1] {
                let body = ipv4_body(len);
                let words = tx.send_raw_frame(&body);
                let buf = pack_samples(&line_samples(&words, lead, steady));
                let frame = decode_frame_edge_track(&buf).expect("a frame");
                assert_eq!(frame.as_slice(), framed(&body).as_slice());
                let n = EthRx::derive_frame_len(&frame);
                assert_eq!(n, frame.len());
                assert!(EthRx::verify_fcs(&frame, n));
            }
        }
    }
}

#[test]
fn sent_arp_frames_are_received() {
    let tx = EthTx::new();
    let buf = pack_samples(&line_samples(&tx.send_raw_frame(&arp_body()), 9, 0));
    let frame = decode_frame_edge_track(&buf).expect("a frame");
    assert!(frame.len() >= 64);
    assert_eq!(EthRx::derive_frame_len(&frame), 64);
    assert_eq!(&frame[..64], framed(&arp_body()).as_slice());
    assert!(EthRx::verify_fcs(&frame, 64));
}

/// The line stretched or squeezed by one sample every `every` bits.
fn drifted(words: &[u32], every: usize, longer: bool) -> Vec<u8> {
    let s = line_samples(words, 8, 0);
    let mut out = s[..8].to_vec();
    for (bit, chunk) in s[8..].chunks(6).enumerate() {
        let mut c = chunk.to_vec();
        if bit > 80 && bit % every == 0 && c.len() == 6 {
            if longer {
                c.insert(0, c[0]);
            } else {
                c.pop();
            }
        }
        out.extend_from_slice(&c);
    }
    pack_samples(&out)
}

#[test]
fn drift_does_not_accumulate() {
    let words = EthTx::new().send_raw_frame(&ipv4_body(1000));
    for every in [50usize, 100, 300] {
        for longer in [true, false] {
            let frame = decode_frame_edge_track(&drifted(&words, every, longer)).expect("a frame");
            assert_eq!(frame.as_slice(), framed(&ipv4_body(1000)).as_slice());
        }
    }
}

#[test]
fn the_open_loop_decoder_loses_a_drifting_line() {
    let words = EthTx::new().send_raw_frame(&ipv4_body(1000));
    let buf = drifted(&words, 50, true);
    let frame = EthRx::decode_frame(&buf, 0, buf.len()).expect("a frame");
    assert!(!EthRx::verify_fcs(&frame, EthRx::derive_frame_len(&frame)));
}

#[test]
fn open_loop_decodes_a_steady_line() {
    for body in [ipv4_body(200), arp_body()] {
        let words = EthTx::new().send_raw_frame(&body);
        let buf = pack_samples(&line_samples(&words, 4, 0));
        let frame = EthRx::decode_frame(&buf, 0, buf.len()).expect("a frame");
        assert_eq!(frame.as_slice(), framed(&body).as_slice());
        assert_eq!(EthRx::peek_dst_mac(&buf, 0, buf.len()).unwrap().as_slice(), &body[..6]);
        // Clamped to the buffer, and out of it.
        assert!(EthRx::decode_frame(&buf, 0, buf.len() * 2).is_some());
        assert!(EthRx::decode_frame(&buf, buf.len(), 10).is_none());
    }
}

#[test]
fn nothing_is_decoded_from_a_quiet_line() {
    assert!(decode_frame_edge_track(&[0; 500]).is_none());
    assert!(decode_frame_edge_track(&[0xFF; 500]).is_none());
    assert!(decode_frame_edge_track(&[]).is_none());
    assert!(EthRx::peek_dst_mac(&[0; 500], 0, 500).is_none());
    assert!(EthRx::peek_dst_mac(&[], 0, 0).is_none());
    assert!(EthRx::peek_dst_mac(&[0x0F; 500], 500, 0).is_none());
    assert!(EthRx::decode_frame(&[0; 500], 0, 500).is_none());
    // Alternating for ever: no delimiter.
    let words = vec![manchester_word(0x55); 40];
    assert!(decode_frame_edge_track(&pack_samples(&line_samples(&words, 0, 0))).is_none());
}

#[test]
fn frame_lengths_by_header() {
    let mut f = framed(&ipv4_body(100));
    assert_eq!(EthRx::derive_frame_len(&f), 104);
    f.extend_from_slice(&[1, 2, 3]);
    assert_eq!(EthRx::derive_frame_len(&f), 104);
    assert_eq!(EthRx::derive_frame_len(&f[..90]), 90);
    assert_eq!(EthRx::derive_frame_len(&f[..17]), 17);
    let arp = framed(&arp_body());
    assert_eq!(EthRx::derive_frame_len(&[arp.clone(), vec![0; 9]].concat()), 64);
    assert_eq!(EthRx::derive_frame_len(&arp[..50]), 50);
    let mut other = framed(&ipv4_body(100));
    other[12] = 0x86;
    assert_eq!(EthRx::derive_frame_len(&other), other.len());
}

#[test]
fn check_sequences() {
    let f = framed(&ipv4_body(100));
    assert!(EthRx::verify_fcs(&f, f.len()));
    assert!(!EthRx::verify_fcs(&f, f.len() - 1));
    assert!(!EthRx::verify_fcs(&f, f.len() + 1));
    assert!(!EthRx::verify_fcs(&f, 17));
    let mut g = f.clone();
    g[30] ^= 1;
    assert!(!EthRx::verify_fcs(&g, g.len()));
}

#[test]
fn active_runs() {
    let mut b = vec![0u8; 50];
    b.extend_from_slice(&[0x0F; 20]);
    b.extend_from_slice(&[0xFF; 3]);
    b.extend_from_slice(&[0x33; 120]);
    b.push(0);
    b.extend_from_slice(&[0x55; 110]);
    assert_eq!(EthRx::find_active_run_from(&b, 0, 100), Some((73, 120)));
    assert_eq!(EthRx::find_active_run_from(&b, 0, 10), Some((50, 20)));
    assert_eq!(EthRx::find_active_run_from(&b, 193, 100), Some((194, 110)));
    assert_eq!(EthRx::find_active_run_from(&b, 80, 100), Some((80, 113)));
    assert_eq!(EthRx::find_active_run_from(&b, 304, 1), None);
    assert_eq!(EthRx::find_active_run_from(&b, 9999, 0), None);
    assert_eq!(EthRx::find_active_run_from(&b, 0, 121), None);
}

#[test]
fn halves_are_stitched() {
    let mut rx = EthRx::new();
    let mut slot = vec![0u8; STITCH_BUF_BYTES];
    let mut a = vec![0u8; BUF_BYTES];
    a[BUF_BYTES - 300..].fill(0x33);
    let mut b = vec![0u8; BUF_BYTES];
    b[..200].fill(0x55);
    b[1000..1100].fill(0x77);
    assert_eq!(
        rx.poll_into(&a, &mut slot),
        PollOutcome::Image { len: BUF_BYTES - 300, carry_prefix: 0 }
    );
    assert_eq!(rx.carry_len, 300);
    assert_eq!(
        rx.poll_into(&b, &mut slot),
        PollOutcome::Image { len: BUF_BYTES + 300, carry_prefix: 300 }
    );
    assert_eq!(&slot[..300], &[0x33; 300]);
    assert_eq!(&slot[300..500], &[0x55; 200]);
    assert_eq!(&slot[500..BUF_BYTES + 300], &b[200..]);
    assert_eq!(rx.carry_len, 0);
    assert_eq!(rx.take_carry_capped(), 0);
}

#[test]
fn endless_activity_is_dropped_and_counted() {
    let mut rx = EthRx::new();
    let mut slot = vec![0u8; STITCH_BUF_BYTES];
    let noise = vec![0x5Au8; BUF_BYTES];
    assert_eq!(rx.poll_into(&noise, &mut slot), PollOutcome::Image { len: 0, carry_prefix: 0 });
    assert_eq!(rx.carry_len, MAX_CARRY_BYTES);
    assert_eq!(rx.poll_into(&noise, &mut slot), PollOutcome::Nothing);
    assert_eq!(rx.carry_len, 0);
    assert_eq!(rx.take_carry_capped(), 1);
    assert_eq!(rx.take_carry_capped(), 0);
}

#[test]
fn a_frame_across_halves_is_received() {
    let words = EthTx::new().send_raw_frame(&ipv4_body(500));
    let samples = pack_samples(&line_samples(&words, 0, 0));
    let mut stream = vec![0u8; 2 * BUF_BYTES];
    let at = BUF_BYTES - 1000;
    stream[at..at + samples.len()].copy_from_slice(&samples);
    let mut rx = EthRx::new();
    let mut slot = vec![0u8; STITCH_BUF_BYTES];
    let mut shared = RxShared::new();
    for half in stream.chunks(BUF_BYTES) {
        if let PollOutcome::Image { len, carry_prefix } = rx.poll_into(half, &mut slot) {
            let mut acc = StatsDelta::new();
            scan_runs(&OUR_MAC, &slot[..len], carry_prefix > 0, &mut acc, &mut shared);
            shared.merge_stats(&acc);
            if carry_prefix > 0 {
                assert_eq!((acc.stitch_dec, acc.stitch_fail), (1, 0));
            }
        }
    }
    assert_eq!(shared.stats.fcs_ok, 1);
    assert_eq!(shared.pop().unwrap().as_slice(), framed(&ipv4_body(500)).as_slice());
}

fn image_of(bodies: &[Vec<u8>]) -> Vec<u8> {
    let mut image = vec![0u8; 40];
    for b in bodies {
        image.extend_from_slice(&pack_samples(&line_samples(&EthTx::new().send_raw_frame(b), 0, 0)));
        image.extend_from_slice(&[0; 40]);
    }
    image
}

#[test]
fn scanning_an_image() {
    let mut foreign = ipv4_body(80);
    foreign[0..6].copy_from_slice(&[2, 2, 2, 2, 2, 2]);
    let mut image = image_of(&[ipv4_body(100), foreign, arp_body()]);
    // A frame with a bit error: invert one data bit's samples.
    let bad_at = image.len() + 500;
    image.extend_from_slice(&image_of(&[ipv4_body(300)]));
    image[bad_at] ^= 0xFF;
    let mut acc = StatsDelta::new();
    let mut shared = RxShared::new();
    scan_runs(&OUR_MAC, &image, false, &mut acc, &mut shared);
    assert_eq!((acc.ok, acc.filtered), (2, 1));
    assert_eq!(acc.decoded, acc.ok + acc.fail);
    assert_eq!(acc.fail, 1);
    assert_eq!((acc.stitch_dec, acc.stitch_fail), (0, 0));
    assert!(acc.have_last && !acc.last_ok);
    shared.merge_stats(&acc);
    assert_eq!(shared.stats.frames_decoded, 3);
    assert_eq!(shared.stats.last_frame_snapshot_len, 128);
    assert_eq!(shared.pop().unwrap().as_slice(), framed(&ipv4_body(100)).as_slice());
    assert_eq!(shared.pop().unwrap().as_slice(), framed(&arp_body()).as_slice());
    assert!(shared.pop().is_none());
    let s = snapshot_rx_stats(&mut shared);
    assert_eq!(s.fcs_ok, 2);
    assert_eq!(shared.stats.fcs_ok, 0);
    assert_eq!(EthRxStats::default().fcs_ok, 0);
}

#[test]
fn scanning_step_by_step() {
    let image = image_of(&[ipv4_body(100)]);
    let mut acc = StatsDelta::new();
    let next = match scan_next(&OUR_MAC, &image, 0, true, &mut acc) {
        ScanStep::Found { cursor, frame } => {
            assert_eq!(frame.as_slice(), framed(&ipv4_body(100)).as_slice());
            cursor
        }
        _ => panic!("no frame"),
    };
    assert!(matches!(scan_next(&OUR_MAC, &image, next, true, &mut acc), ScanStep::Done));
    assert_eq!(acc.stitch_dec, 1);
    let mut acc2 = StatsDelta::new();
    let other = [9u8; 6];
    assert!(matches!(
        scan_next(&[2, 9, 9, 9, 9, 9], &image, 0, true, &mut acc2),
        ScanStep::Skipped { .. }
    ));
    assert_eq!(acc2.filtered, 1);
    assert_ne!(other, OUR_MAC);
}

fn frame_of(n: u8) -> Frame {
    let mut f = Frame::new();
    f.extend_from_slice(&[n; 20]).unwrap();
    f
}

#[test]
fn a_full_inbox_drops_the_oldest() {
    let mut shared = RxShared::new();
    for n in 1..=6 {
        shared.publish(frame_of(n));
    }
    assert_eq!(shared.stats.inbox_dropped, 2);
    assert_eq!(shared.stats.inbox_high_water, 4);
    let mut mac = EthMac::new(EthTx::new());
    for n in 3..=6 {
        assert_eq!(mac.receive(&mut shared).unwrap().as_slice(), &[n; 20]);
    }
    assert!(mac.receive(&mut shared).is_none());
    assert_eq!(mac.stats.rx_handed_out, 4);
    shared.add_carry_capped(3);
    assert_eq!(shared.stats.carry_capped, 3);
}

#[test]
fn addresses_accepted() {
    assert!(mac_accept(&OUR_MAC, &OUR_MAC));
    assert!(mac_accept(&[0xFF; 6], &OUR_MAC));
    assert!(mac_accept(&[0x01, 0, 0x5E, 0, 0, 1], &OUR_MAC));
    assert!(!mac_accept(&[0x12, 0x34, 0x56, 0x78, 0x9A, 0xBD], &OUR_MAC));
}

#[test]
fn the_image_ring() {
    assert_eq!(img_produce(0, 0), Some(0));
    assert_eq!(img_produce(5, 0), Some(5));
    assert_eq!(img_produce(6, 0), None);
    assert_eq!(img_produce(6, 1), Some(0));
    assert_eq!(img_consume(6, 6), None);
    assert_eq!(img_consume(7, 6), Some(0));
    let image = PollOutcome::Image { len: 100, carry_prefix: 20 };
    assert_eq!(half_action(image, false), HalfAction::Publish { len: 100, carry_prefix: 20 });
    assert_eq!(half_action(image, true), HalfAction::DropImage);
    assert_eq!(half_action(PollOutcome::Nothing, true), HalfAction::Nothing);
}

#[test]
fn transmitted_frames_are_counted() {
    let mut mac = EthMac::new(EthTx::new());
    let mut ping = ipv4_body(200);
    ping[23] = 1;
    let mut udp = ipv4_body(60);
    udp[23] = 17;
    let mut tcp = ipv4_body(60);
    tcp[23] = 6;
    for b in [&ping, &udp, &tcp, &arp_body()] {
        mac.transmit();
        let w = mac.consume(b);
        assert_eq!(w, EthTx::new().send_raw_frame(b));
    }
    let s = mac.stats;
    assert_eq!((s.tx_icmp, s.tx_udp, s.tx_other, s.tx_arp), (1, 1, 1, 1));
    assert_eq!((s.tx_consumed, s.tx_handed_out), (4, 4));
    assert_eq!(s.last_tx_len, 42);
    assert_eq!(&s.last_tx[..42], arp_body().as_slice());
    mac.consume(&[1, 2, 3]);
    assert_eq!(mac.stats.tx_consumed, 5);
    assert_eq!(mac.stats.last_tx_len, 3);
    mac.stats.reset();
    assert_eq!((mac.stats.tx_consumed, mac.stats.tx_udp), (0, 0));
    assert_eq!(mac.stats.last_tx_len, 3);
    assert_eq!(EthMac::tx_len(5000), 1600);
    assert_eq!(EthMac::tx_len(100), 100);
    assert_eq!(EthMacStats::default().tx_arp, 0);
}

#[test]
fn words_of_a_raw_frame() {
    let w = EthTx::new().send_raw_frame(&[0xAB; 60]);
    assert_eq!(w.len(), 8 + 64 + 13);
    assert_eq!(&w[..7], &[manchester_word(0x55); 7]);
    assert_eq!(w[7], manchester_word(0xD5));
    assert_eq!(w[8], manchester_word(0xAB));
    assert_eq!(w[72], TP_IDL_WORD);
    assert_eq!(&w[73..], &[0; 12]);
    // Short bodies are padded.
    let short = EthTx::new().send_raw_frame(&[0xAB; 10]);
    assert_eq!(short.len(), w.len());
    assert_eq!(short[18], manchester_word(0));
}

#[test]
fn words_of_a_link_pulse() {
    let mut expect = vec![0x0Au32];
    expect.extend_from_slice(&[0; 12]);
    assert_eq!(EthTx::new().send_nlp(), expect);
    assert_eq!(EthMac::new(EthTx::new()).send_nlp(), expect);
}

fn endpoint() -> UdpEndpoint {
    UdpEndpoint {
        src_mac: OUR_MAC,
        dst_mac: [0xFF; 6],
        src_ip: [192, 168, 37, 24],
        dst_ip: [192, 168, 37, 19],
        src_port: 1234,
        dst_port: 1234,
    }
}

#[test]
fn udp_frames() {
    let payload = b"Hello World!! Raspico 10BASE-T Rust !! n=0";
    let f = build_eth_ipv4_udp_frame(&endpoint(), payload, 7);
    assert_eq!(f.len(), 8 + 14 + 20 + 8 + payload.len() + 4);
    assert_eq!(&f[..8], &[0x55, 0x55, 0x55, 0x55, 0x55, 0x55, 0x55, 0xD5]);
    let eth = &f[8..];
    assert_eq!(&eth[..6], &[0xFF; 6]);
    assert_eq!(&eth[6..12], &OUR_MAC);
    assert_eq!(&eth[12..24], &[0x08, 0x00, 0x45, 0x00, 0, 70, 0, 7, 0x40, 0, 0x40, 0x11]);
    assert_eq!(&eth[26..34], &[192, 168, 37, 24, 192, 168, 37, 19]);
    assert_eq!(pico_10base_t_rs::checksum::checksum_full(&eth[14..34]), 0);
    assert_eq!(&eth[34..42], &[0x04, 0xD2, 0x04, 0xD2, 0, 50, 0, 0]);
    assert_eq!(&eth[42..42 + payload.len()], payload);
    assert!(EthRx::verify_fcs(eth, eth.len()));
}

#[test]
fn udp_identifications_count_up() {
    let mut tx = EthTx::new();
    let a = tx.send_udp_broadcast(&endpoint(), b"x");
    assert_eq!(tx.ip_identifier, 1);
    let b = tx.send_udp_broadcast(&endpoint(), b"x");
    assert_ne!(a, b);
    tx.ip_identifier = u16::MAX;
    tx.send_udp_broadcast(&endpoint(), b"x");
    assert_eq!(tx.ip_identifier, 0);
    let f = build_eth_ipv4_udp_frame(&endpoint(), b"x", 0);
    let w: Vec<u32> = f.iter().map(|b| manchester_word(*b)).collect();
    assert_eq!(&a[..w.len()], w.as_slice());
    assert_eq!(a.len(), w.len() + 13);
}

#[test]
fn broadcasts_decode() {
    let mut mac = EthMac::new(EthTx::new());
    let payload = [0x41u8; 40];
    let w = mac.send_udp_broadcast(&endpoint(), &payload);
    let frame = decode_frame_edge_track(&pack_samples(&line_samples(&w, 3, 0))).unwrap();
    assert!(EthRx::verify_fcs(&frame, EthRx::derive_frame_len(&frame)));
    assert_eq!(&frame[42..82], &payload);
}

#[test]
fn contest_for_an_idle_line() {
    let mut tx = EthTx::new();
    let (s, delay) = tx.csma_acquire(EthTx::csma_start(), false);
    assert_eq!(s, Csma::BackedOff { attempt: 0 });
    assert_eq!(delay % CSMA_SLOT_CYCLES, 0);
    assert!(delay <= 15 * CSMA_SLOT_CYCLES);
    assert_eq!(tx.csma_acquire(s, false), (Csma::Acquired, 0));
    assert_ne!(tx.lfsr, 0);
}

#[test]
fn contest_for_a_stuck_line_ends() {
    let mut tx = EthTx::new();
    let mut s = EthTx::csma_start();
    let mut looks = 0u32;
    while s != Csma::Acquired {
        s = tx.csma_acquire(s, true).0;
        looks += 1;
    }
    assert_eq!(looks, 10 * 200_001);
}

#[test]
fn waiting_for_the_carrier_is_bounded() {
    assert_eq!(EthTx::wait_carrier_idle(0, false), None);
    assert_eq!(EthTx::wait_carrier_idle(0, true), Some(1));
    assert_eq!(EthTx::wait_carrier_idle(199_999, true), None);
}

#[test]
fn the_generator_is_xorshift() {
    let mut tx = EthTx::new();
    let mut x: u32 = 0x2545_F491;
    for _ in 0..5 {
        x ^= x << 13;
        x ^= x >> 17;
        x ^= x << 5;
        let (_, delay) = tx.csma_acquire(EthTx::csma_start(), false);
        assert_eq!(tx.lfsr, x);
        assert_eq!(delay, (x & 15) * 240);
    }
}

/// A body of a type the receiver does not know.
fn other_body(len: usize) -> Vec<u8> {
    let mut b = ipv4_body(len);
    b[12..14].copy_from_slice(&[0x86, 0xDD]);
    b
}

/// The line with frames sent back to back.
fn back_to_back(bodies: &[Vec<u8>], lead: usize, steady: u8) -> Vec<u8> {
    let mut words: Vec<u32> = Vec::new();
    for b in bodies {
        words.extend_from_slice(&EthTx::new().send_raw_frame(b));
    }
    pack_samples(&line_samples(&words, lead, steady))
}

#[test]
fn frames_back_to_back_are_received_in_order() {
    let mut foreign = ipv4_body(200);
    foreign[0..6].copy_from_slice(&[2, 2, 2, 2, 2, 2]);
    let bodies = [ipv4_body(100), foreign, other_body(77), arp_body()];
    for lead in 0..17 {
        for steady in [0u8, 1] {
            let image = back_to_back(&bodies, lead, steady);
            let mut acc = StatsDelta::new();
            let mut shared = RxShared::new();
            scan_runs(&OUR_MAC, &image, false, &mut acc, &mut shared);
            assert_eq!((acc.ok, acc.fail, acc.filtered), (3, 0, 1));
            for b in [&bodies[0], &bodies[2], &bodies[3]] {
                assert_eq!(shared.pop().unwrap().as_slice(), framed(b).as_slice());
            }
            assert!(shared.pop().is_none());
        }
    }
}

#[test]
fn cutting_into_halves_makes_no_difference() {
    let bodies = [ipv4_body(900), arp_body(), other_body(700)];
    let frames = back_to_back(&bodies, 5, 0);
    for at in [0usize, 7000, 11000, BUF_BYTES - 6000, BUF_BYTES - 5200, BUF_BYTES - 1] {
        let mut stream = vec![0u8; 3 * BUF_BYTES];
        stream[at..at + frames.len()].copy_from_slice(&frames);
        let mut rx = EthRx::new();
        let mut slot = vec![0u8; STITCH_BUF_BYTES];
        let mut shared = RxShared::new();
        let mut acc = StatsDelta::new();
        for half in stream.chunks(BUF_BYTES) {
            if let PollOutcome::Image { len, carry_prefix } = rx.poll_into(half, &mut slot) {
                scan_runs(&OUR_MAC, &slot[..len], carry_prefix > 0, &mut acc, &mut shared);
            }
        }
        assert_eq!((acc.ok, acc.fail), (3, 0));
        for b in &bodies {
            assert_eq!(shared.pop().unwrap().as_slice(), framed(b).as_slice());
        }
    }
}

#[test]
fn long_broadcasts_are_frames_and_short_ones_runts() {
    let mut tx = EthTx::new();
    let w = tx.send_udp_broadcast(&endpoint(), &[7u8; 18]);
    let f = build_eth_ipv4_udp_frame(&endpoint(), &[7u8; 18], 0);
    assert_eq!(w, tx.send_raw_frame(&f[8..f.len() - 4]));
    tx.ip_identifier = 0;
    let w = tx.send_udp_broadcast(&endpoint(), &[7u8; 17]);
    let f = build_eth_ipv4_udp_frame(&endpoint(), &[7u8; 17], 0);
    assert_ne!(w, tx.send_raw_frame(&f[8..f.len() - 4]));
}

#[test]
fn both_decoders_read_the_same_of_a_steady_line() {
    for body in [ipv4_body(64), ipv4_body(1514), arp_body()] {
        let buf = pack_samples(&line_samples(&EthTx::new().send_raw_frame(&body), 2, 1));
        let open = EthRx::decode_frame(&buf, 0, buf.len()).unwrap();
        assert_eq!(open.as_slice(), framed(&body).as_slice());
        let closed = decode_frame_edge_track(&buf).unwrap();
        assert_eq!(&closed[..open.len()], open.as_slice());
        let dst = EthRx::peek_dst_mac(&buf, 0, buf.len()).unwrap();
        assert_eq!(dst.as_slice(), &body[..6]);
    }
}

#[test]
fn where_an_address_is_read_a_frame_is_decoded() {
    let mut x: u32 = 1;
    let mut read = 0;
    for _ in 0..200 {
        let mut noise = Vec::new();
        for _ in 0..300 {
            x = x.wrapping_mul(1_664_525).wrapping_add(1_013_904_223);
            noise.push((x >> 24) as u8);
        }
        if EthRx::peek_dst_mac(&noise, 0, noise.len()).is_some() {
            read += 1;
            assert!(decode_frame_edge_track(&noise).is_some());
        }
    }
    assert!(read > 0);
}

#[test]
fn a_new_interface_has_sent_nothing() {
    let mac = EthMac::new(EthTx::new());
    assert_eq!(mac.stats.last_tx, [0; 128]);
    assert_eq!(EthMacStats::default().last_tx, [0; 128]);
    assert_eq!(EthRxStats::default().last_frame_snapshot, [0; 128]);
}

/// Samples of a line on which `bits` are sent, three per half-bit.
fn bit_samples(bits: &[u8], lead: usize, steady: u8) -> Vec<u8> {
    let mut s = vec![steady; lead];
    for b in bits {
        s.extend_from_slice(&[*b; 3]);
        s.extend_from_slice(&[1 - b; 3]);
    }
    s
}

#[test]
fn three_ones_are_lead_in_enough() {
    for head in [&[1u8, 1, 1][..], &[1, 0, 1, 1], &[1, 0, 0, 1, 0, 1, 0, 1, 1]] {
        for body in [ipv4_body(64), arp_body()] {
            let data = framed(&body);
            let mut bits = head.to_vec();
            for b in &data {
                for k in 0..8 {
                    bits.push((b >> k) & 1);
                }
            }
            for (lead, steady) in [(0, 0), (5, 0), (17, 1)] {
                let buf = pack_samples(&bit_samples(&bits, lead, steady));
                let got = decode_frame_edge_track(&buf).unwrap();
                assert_eq!(got.as_slice(), data.as_slice());
            }
        }
    }
    // Two ones are not: the first only gives the edge.
    let mut bits = vec![1u8, 1];
    bits.extend_from_slice(&[0; 64]);
    assert!(decode_frame_edge_track(&pack_samples(&bit_samples(&bits, 5, 0))).is_none());
}

#[test]
fn peeking_is_cut_to_what_is_there() {
    let body = ipv4_body(64);
    let buf = pack_samples(&line_samples(&EthTx::new().send_raw_frame(&body), 2, 1));
    let n = buf.len();
    assert_eq!(EthRx::peek_dst_mac(&buf, 0, n + 1000), Some(OUR_MAC));
    assert_eq!(EthRx::peek_dst_mac(&buf, n, 100), None);
    assert_eq!(EthRx::peek_dst_mac(&buf, n + 1, 1), None);
    assert_eq!(EthRx::peek_dst_mac(&buf, 0, 0), None);
    assert_eq!(EthRx::peek_dst_mac(&[], 0, 8), None);
}

#[test]
fn counters_are_taken_whole_and_start_over() {
    let mut shared = RxShared::new();
    shared.stats.last_frame_snapshot = [0xEE; 128];
    let mut acc = StatsDelta::new();
    acc.have_last = true;
    acc.last_snap = [0x11; 128];
    acc.last_snap_len = 20;
    acc.last_len = 20;
    acc.decoded = 3;
    shared.merge_stats(&acc);
    // What the last frame does not cover stays.
    let mut want = [0xEE; 128];
    want[..20].copy_from_slice(&[0x11; 20]);
    assert_eq!(shared.stats.last_frame_snapshot, want);
    let taken = snapshot_rx_stats(&mut shared);
    assert_eq!(taken.last_frame_snapshot, want);
    assert_eq!(taken.frames_decoded, 3);
    assert_eq!(taken.last_frame_snapshot_len, 20);
    assert_eq!(shared.stats.last_frame_snapshot, [0; 128]);
    assert_eq!(shared.stats.frames_decoded, 0);
}
