use pico_10base_t_rs::bench::{fcs_ok, Score};
use pico_10base_t_rs::console::{ConsoleWrite, WriteOutcome, WRITE_TRIES};
use pico_10base_t_rs::crc::crc32_ieee802_3;
use pico_10base_t_rs::cycles::{permille_over, CycleSpan};
use pico_10base_t_rs::gspi::{
    cmd_bit, cmd_word, read_bits, record_pin, shift_in, swap16, write_bits, Answer, Probe,
    PROBE_STALL, PROBE_ZERO, TEST_PATTERN,
};
use pico_10base_t_rs::http::{
    chunk_len, sink_close, sink_count, BulkAction, HttpBulkState, LanHttp, LanHttpAction,
    RequestAction, HTTP_BULK_BYTES, LAN_BULK_BYTES,
};
use pico_10base_t_rs::multicore_riscv::{cmd_seq, Handshake, Launch, LaunchError};
use pico_10base_t_rs::pico_reset::{
    ControlRequest, PicoResetInterface, RebootKind, RequestType,
};
use pico_10base_t_rs::schedule::{due_after, due_every, now_ms, LogTick, NicLoop, WanLoop};
use pico_10base_t_rs::time_driver::{arm_alarm, now_us};
use pico_10base_t_rs::wire::Ipv4Address;

#[test]
fn cpu_shares() {
    assert_eq!(permille_over(240_000_000, 1_000_000), 1000);
    assert_eq!(permille_over(24_000_000, 1_000_000), 100);
    assert_eq!(permille_over(0, 1_000_000), 0);
    assert_eq!(permille_over(5, 0), 0);
    // Truncated to 32 bits.
    assert_eq!(permille_over(u32::MAX, 1), (u32::MAX as u64 * 1_000_000_000 / 240_000_000) as u32);
}

#[test]
fn spans_wrap() {
    assert_eq!(CycleSpan::new(100).finish(350), 250);
    assert_eq!(CycleSpan::new(u32::MAX - 9).finish(5), 15);
}

#[test]
fn command_words() {
    assert_eq!(cmd_word(false, true, 0, 0x14, 4), 0x4000_A004);
    assert_eq!(swap16(0x4000_A004), 0xA004_4000);
    assert_eq!(cmd_word(true, false, 7, 0xFFFF_FFFF, 0xFFFF_FFFF), 0xBFFF_FFFF);
    assert_eq!(swap16(swap16(0x1234_5678)), 0x1234_5678);
    assert_eq!(write_bits(0), 0);
    assert_eq!(write_bits(2), 63);
    assert_eq!(write_bits(u32::MAX), u32::MAX - 1);
    assert_eq!(read_bits(0), 31);
    assert_eq!(read_bits(3), 127);
    assert_eq!(read_bits(u32::MAX), u32::MAX - 1);
}

#[test]
fn bits_over_the_bus() {
    let word = 0xFEED_BEADu32;
    let mut r = 0;
    for i in (0..32).rev() {
        r = shift_in(r, cmd_bit(word, i) as u32);
    }
    assert_eq!(r, word);
    assert_eq!(record_pin(record_pin(0, 23, 1), 29, 1), (1 << 23) | (1 << 29));
    assert_eq!(record_pin(4, 24, 0), 4);
}

#[test]
fn the_bus_probe() {
    let mut p = Probe::new();
    assert!(p.read(0));
    assert_eq!(p.result(), PROBE_ZERO);
    assert!(p.read(0));
    assert!(p.stable);
    assert!(!p.read(TEST_PATTERN));
    assert_eq!((p.first, p.last, p.stable, p.reads), (0, TEST_PATTERN, false, 3));
    assert_eq!(p.result(), TEST_PATTERN);
    let mut q = Probe::new();
    let mut reads = 1;
    while q.read(7) {
        reads += 1;
    }
    assert_eq!(reads, 64);
    assert!(q.stable);
}

#[test]
fn answers_from_the_bus() {
    let mut a = Answer::new();
    assert!(a.poll(None));
    assert!(a.poll(Some(0x1234)));
    assert!(!a.poll(Some(0x5678)));
    assert_eq!(a.data, 0x1234);
    let mut stalled = Answer::new();
    stalled.spins = 2_000_000;
    assert!(!stalled.poll(None));
    assert_eq!(stalled.data, PROBE_STALL);
}

#[test]
fn status_requests() {
    let mut s = LanHttp::Idle;
    assert_eq!(s.poll(false, false), LanHttpAction::Listen);
    assert_eq!(s.poll(true, false), LanHttpAction::ReadRequest);
    assert_eq!(s.request(b"", true), RequestAction::Ignore);
    assert_eq!(s.request(b"GET / HTTP/1.0\r\n", true), RequestAction::SendPage);
    assert_eq!(s.request(b"GET / HTTP/1.0\r\n", false), RequestAction::Ignore);
    assert_eq!(s.request(b"GET /bul", true), RequestAction::SendPage);
    assert_eq!(s, LanHttp::Idle);
}

#[test]
fn lan_downloads() {
    let mut s = LanHttp::Idle;
    assert_eq!(s.request(b"GET /bulk HTTP/1.0\r\n", true), RequestAction::StartBulk);
    assert_eq!(s.poll(true, false), LanHttpAction::Wait);
    assert_eq!(s.poll(true, true), LanHttpAction::SendHeader);
    assert_eq!(s.poll(true, true), LanHttpAction::Stream);
    assert_eq!(s.chunk(false), None);
    let mut total = 0u32;
    let mut sent = 0usize;
    while let Some(n) = s.chunk(true) {
        let took = n.min(700);
        sent += took;
        assert!(s.sent(Some(took), &mut total));
        assert_eq!(s.finish(), sent == LAN_BULK_BYTES);
        if sent == LAN_BULK_BYTES {
            break;
        }
    }
    assert_eq!(s, LanHttp::Idle);
    assert_eq!(total as usize, LAN_BULK_BYTES);
    let mut t = LanHttp::Bulk { remaining: 10, header_sent: true };
    assert!(!t.sent(Some(0), &mut total));
    assert!(!t.sent(None, &mut total));
    assert_eq!(t, LanHttp::Bulk { remaining: 10, header_sent: true });
    assert_eq!(t.chunk(true), Some(10));
    assert_eq!(t.poll(false, true), LanHttpAction::Listen);
    assert_eq!(t, LanHttp::Idle);
    assert_eq!(t.chunk(true), None);
    assert!(!t.finish());
    assert!(!t.sent(Some(5), &mut total));
}

#[test]
fn wired_downloads() {
    let mut s = HttpBulkState::Idle;
    assert_eq!(s.poll(false, true), BulkAction::Listen);
    assert_eq!(s.poll(true, false), BulkAction::Drain);
    assert_eq!(s.poll(true, true), BulkAction::SendHeader);
    assert_eq!(s, HttpBulkState::Sending { remaining: HTTP_BULK_BYTES });
    assert_eq!(s.poll(true, true), BulkAction::Stream);
    let mut sent = 0;
    while let Some(n) = s.chunk(true) {
        sent += n;
        assert!(s.sent(n));
    }
    assert_eq!(sent, 1_048_576);
    assert!(s.finish());
    assert!(!s.finish());
    assert_eq!(s.chunk(true), None);
    assert!(!s.sent(0));
    assert_eq!(chunk_len(5000, true), Some(1024));
}

#[test]
fn upload_sinks() {
    let mut total = u32::MAX;
    sink_count(&mut total, 3);
    assert_eq!(total, 2);
    assert!(sink_close(false, true));
    assert!(!sink_close(true, true));
    assert!(!sink_close(false, false));
}

#[test]
fn deadlines() {
    let mut a = 100;
    assert!(!due_every(&mut a, 99, 10));
    assert!(due_every(&mut a, 250, 10));
    assert_eq!(a, 110);
    let mut b = 100;
    assert!(due_after(&mut b, 250, 10));
    assert_eq!(b, 260);
    assert_eq!(now_ms(-5), 0);
    assert_eq!(now_ms(5), 5);
}

#[test]
fn the_wired_loop() {
    let mut l = NicLoop::new(1_000);
    let t = l.poll(1_000);
    assert!(t.nlp && t.udp.is_none() && !t.ping && t.log.is_none());
    let mut pulses = 1;
    let mut udp = Vec::new();
    let mut logs = Vec::new();
    for now in (2_000..=1_001_000).step_by(1_000) {
        let t = l.poll(now);
        pulses += t.nlp as u32;
        udp.extend(t.udp);
        logs.extend(t.log);
        assert_eq!(t.ping, now == 1_001_000);
    }
    assert_eq!(pulses, 63);
    assert_eq!(udp, vec![0, 1, 2, 3, 4]);
    assert_eq!(logs, vec![LogTick { tick: 1, nlps: 63, udp_sent: 5, led: true }]);
    assert_eq!(l.nlps_sent, 0);
}

#[test]
fn the_wan_loop() {
    let mut l = WanLoop::new(0);
    let gw = Some(Ipv4Address::new(10, 0, 0, 1));
    assert!(!l.gateway_changed(None));
    assert!(l.gateway_changed(gw));
    assert!(!l.gateway_changed(gw));
    assert!(l.gateway_changed(Some(Ipv4Address::new(10, 0, 0, 2))));
    assert!(!l.gateway_changed(None));
    assert!(l.nlp_due(0));
    assert!(!l.nlp_due(15_999));
    assert!(l.nlp_due(20_000));
    assert_eq!(l.next_nlp, 36_000);
    assert!(l.second_due(5));
    assert!(!l.second_due(1_000_004));
}

#[test]
fn launching_a_core() {
    let words = cmd_seq(0x1000, 0x2000, 0x3000);
    assert_eq!(words, [0, 0, 1, 0x1000, 0x2000, 0x3000]);
    assert!(Handshake::flush_before(0));
    assert!(!Handshake::flush_before(1));
    let mut h = Handshake::new();
    for i in 0..6 {
        match h.step(words[h.seq], Some(words[h.seq])) {
            Launch::Continue(n) => h = n,
            r => assert_eq!((i, r), (5, Launch::Running)),
        }
    }
    // A wrong echo starts again.
    let mut g = Handshake { seq: 3, fails: 0 };
    assert_eq!(g.step(7, Some(8)), Launch::Continue(Handshake { seq: 0, fails: 1 }));
    // A dead core is given up.
    let mut steps = 0;
    g = Handshake::new();
    loop {
        steps += 1;
        match g.step(0, None) {
            Launch::Continue(n) => g = n,
            r => {
                assert_eq!(r, Launch::Failed(LaunchError::Unresponsive));
                break;
            }
        }
    }
    assert_eq!(steps, 17);
}

fn reboot_request(request: u8) -> ControlRequest {
    ControlRequest { request_type: RequestType::Class, to_interface: true, index: 0x0102, request }
}

#[test]
fn reboot_requests() {
    let mut p = PicoResetInterface::new(2);
    assert_eq!(p.take_pending_reboot(), None);
    assert!(p.control_out(&reboot_request(1)));
    assert_eq!(
        p.take_pending_reboot(),
        Some(RebootKind::BootSel { picoboot_disabled: false, msd_disabled: false })
    );
    assert_eq!(p.take_pending_reboot(), None);
    let vendor = ControlRequest { request_type: RequestType::Vendor, ..reboot_request(2) };
    assert!(p.control_out(&vendor));
    assert_eq!(p.take_pending_reboot(), Some(RebootKind::Normal));
    for bad in [
        reboot_request(3),
        ControlRequest { request_type: RequestType::Standard, ..reboot_request(1) },
        ControlRequest { request_type: RequestType::Reserved, ..reboot_request(1) },
        ControlRequest { to_interface: false, ..reboot_request(1) },
        ControlRequest { index: 3, ..reboot_request(1) },
    ] {
        assert!(!p.control_out(&bad));
        assert_eq!(p.pending, None);
    }
}

#[test]
fn clock_and_alarm() {
    assert_eq!(now_us(1, 2, 1), Some(0x1_0000_0002));
    assert_eq!(now_us(1, u32::MAX, 2), None);
    assert_eq!(arm_alarm(100, u64::MAX), None);
    assert_eq!(arm_alarm(100, 50), Some(102));
    assert_eq!(arm_alarm(100, 100), Some(102));
    assert_eq!(arm_alarm(100, 5_000), Some(5_000));
    assert_eq!(arm_alarm(0x1_0000_0000, 0x1_0000_0005), Some(5));
    assert_eq!(arm_alarm(100, 100 + 0x1_0000_0000), Some(99));
}

fn recorded(len: usize) -> Vec<u8> {
    let mut f = vec![0u8; 42];
    f[12] = 8;
    f[16..18].copy_from_slice(&((28 + len) as u16).to_be_bytes());
    for j in 0..len {
        f.push(j as u8);
    }
    let crc = crc32_ieee802_3(&f);
    f.extend_from_slice(&crc.to_le_bytes());
    f
}

#[test]
fn recorded_frames() {
    let f = recorded(1472);
    assert!(fcs_ok(&f));
    let mut bad = f.clone();
    bad[100] ^= 1;
    assert!(!fcs_ok(&bad));
    assert!(!fcs_ok(&f[..f.len() - 1]));
    assert!(!fcs_ok(&f[..10]));
    let mut s = Score::new();
    s.add_frame(&f);
    assert!(s.clean());
    assert_eq!(s.total, [184; 8]);
    s.add_frame(&bad);
    assert!(!s.clean());
    assert_eq!(s.wrong, [1, 0, 0, 0, 0, 0, 0, 0]);
    let mut short = Score::new();
    short.add_frame(&f[..45]);
    assert_eq!(short.total, [0; 8]);
    let mut long = f.clone();
    long.extend_from_slice(&[0; 50]);
    short.add_frame(&long);
    assert_eq!(short.total.iter().sum::<u32>(), 1472);
    // Other types are checked over their whole length.
    let mut other = f[..60].to_vec();
    other[12] = 9;
    let crc = crc32_ieee802_3(&other);
    other.extend_from_slice(&crc.to_le_bytes());
    assert!(fcs_ok(&other));
}

#[test]
fn console_lines_go_out_in_pieces() {
    let line = b"[R2b] t=1\r\n";
    let mut w = ConsoleWrite::new();
    let mut out: Vec<u8> = Vec::new();
    while let Some(rest) = w.next(line) {
        let n = rest.len().min(4);
        out.extend_from_slice(&rest[..n]);
        w = w.step(WriteOutcome::Took(n), line.len()).unwrap();
    }
    assert_eq!(out.as_slice(), line.as_slice());
    assert_eq!(w, ConsoleWrite { sent: 11, tries: 3 });
    assert!(ConsoleWrite::new().next(b"").is_none());
}

#[test]
fn a_console_nobody_reads_does_not_hang() {
    let mut w = ConsoleWrite::new();
    let mut tries = 0;
    while w.next(b"x").is_some() {
        w = w.step(WriteOutcome::Busy, 1).unwrap();
        tries += 1;
    }
    assert_eq!(tries, WRITE_TRIES);
    assert_eq!(WRITE_TRIES, 64);
    assert_eq!(ConsoleWrite::new().step(WriteOutcome::Failed, 1), None);
}
