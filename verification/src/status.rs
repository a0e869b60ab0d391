//! Status lines and pages.
//!
//! Each line has a fixed capacity and is cut at the first piece that does not fit. The
//! functions say exactly what is written, piece by piece.

use vstd::prelude::*;

use crate::conntrack::{NatCounters, CT_CAP};
use crate::eth_mac::{EthMacStats, EthRxStats, FRAME_SNAP_BYTES};
use crate::forward::{FwdStats, CHAN_DEPTH};
use crate::monitor::RouterRates;
use crate::text::{flat, lemma_run_bounds, line, written, Piece, Text};
use crate::wan::{in_full, lemma_wan_in_full, wan_in_full, wan_status, WanState};
use crate::wire::{be16, rd16, rd_mac, Ipv4Address};

verus! {

/// Capacity of the status page.
pub const STATUS_BODY_CAP: usize = 2304;

/// Capacity of most lines.
pub const LINE_CAP: usize = 160;

/// Stages of the wireless bring-up: 1 once reached.
#[derive(Clone, Copy, Debug, PartialEq, Eq, Structural)]
pub struct LanStages {
    pub new: u32,
    pub init: u32,
    pub led: u32,
    pub ap: u32,
    pub net: u32,
}

/// The counts of the media-access line.
#[derive(Clone, Copy, Debug, PartialEq, Eq, Structural)]
pub struct MacCounts {
    pub iface_rx: u32,
    pub tx_arp: u32,
    pub tx_ping: u32,
    pub tx_udp: u32,
    pub tx_other: u32,
    pub inbox_drop: u32,
    pub inbox_hwm: u32,
    pub carry_cap: u32,
    pub last_tx_len: u32,
}

/// A number.
pub open spec fn num(n: u32) -> Piece<'static> {
    Piece::Num(n as u64)
}

/// A number.
fn num_piece(n: u32) -> (r: Piece<'static>)
    ensures
        r == num(n),
{
    Piece::Num(n as u64)
}

/// One write into an empty text.
fn say(cap: usize, ps: &[Piece]) -> (t: Text)
    ensures
        t.wf(),
        t.cap == cap,
        t@ == line(cap as int, ps@),
{
    let mut t: Text = Text::new(cap);
    t.write(ps);
    t
}

/// The pieces of the heartbeat line.
pub open spec fn r2b_line_pieces(tick: u32, nlps: u32, udp_sent: u32) -> Seq<Piece<'static>> {
    seq![
        Piece::Str("[R2b] t="),
        num(tick),
        Piece::Str(" nlps="),
        num(nlps),
        Piece::Str(" udp_sent="),
        num(udp_sent),
        Piece::Str("\n"),
    ]
}

/// The heartbeat line.
pub fn r2b_line(tick: u32, nlps: u32, udp_sent: u32) -> (t: Text)
    ensures
        t.wf(),
        t@ == line(160, r2b_line_pieces(tick, nlps, udp_sent)),
{
    let ps: [Piece; 7] = [
        Piece::Str("[R2b] t="),
        num_piece(tick),
        Piece::Str(" nlps="),
        num_piece(nlps),
        Piece::Str(" udp_sent="),
        num_piece(udp_sent),
        Piece::Str("\n"),
    ];
    assert(ps@ =~= r2b_line_pieces(tick, nlps, udp_sent));
    say(160, &ps)
}

/// The pieces of the line on the receiving core.
pub open spec fn core1_line_pieces(ok: bool, ticks: u32) -> Seq<Piece<'static>> {
    seq![
        Piece::Str("[Core1] launch="),
        Piece::Str(if ok { "ok" } else { "FAIL" }),
        Piece::Str(" ticks="),
        num(ticks),
        Piece::Str("\n"),
    ]
}

/// The line on the receiving core.
pub fn core1_line(ok: bool, ticks: u32) -> (t: Text)
    ensures
        t.wf(),
        t@ == line(160, core1_line_pieces(ok, ticks)),
{
    let ps: [Piece; 5] = [
        Piece::Str("[Core1] launch="),
        Piece::Str(if ok { "ok" } else { "FAIL" }),
        Piece::Str(" ticks="),
        num_piece(ticks),
        Piece::Str("\n"),
    ];
    assert(ps@ =~= core1_line_pieces(ok, ticks));
    say(160, &ps)
}

/// The pieces of the line of receive counts.
pub open spec fn rx_line_pieces(
    decoded: u32,
    ok: u32,
    fail: u32,
    filtered: u32,
    dst: [u8; 6],
) -> Seq<Piece<'static>> {
    seq![
        Piece::Str("[Rx] dec="),
        num(decoded),
        Piece::Str(" ok="),
        num(ok),
        Piece::Str(" fail="),
        num(fail),
        Piece::Str(" filt="),
        num(filtered),
        Piece::Str(" dst="),
        Piece::Mac(dst),
        Piece::Str("\n"),
    ]
}

/// The line of receive counts.
pub fn rx_line(decoded: u32, ok: u32, fail: u32, filtered: u32, dst: [u8; 6]) -> (t: Text)
    ensures
        t.wf(),
        t@ == line(160, rx_line_pieces(decoded, ok, fail, filtered, dst)),
{
    let ps: [Piece; 11] = [
        Piece::Str("[Rx] dec="),
        num_piece(decoded),
        Piece::Str(" ok="),
        num_piece(ok),
        Piece::Str(" fail="),
        num_piece(fail),
        Piece::Str(" filt="),
        num_piece(filtered),
        Piece::Str(" dst="),
        Piece::Mac(dst),
        Piece::Str("\n"),
    ];
    assert(ps@ =~= rx_line_pieces(decoded, ok, fail, filtered, dst));
    say(160, &ps)
}

/// The pieces of the line on stitched images and lost samples.
pub open spec fn stitch_line_pieces(
    dec: u32,
    fail: u32,
    rxstall: u32,
    img_drop: u32,
) -> Seq<Piece<'static>> {
    seq![
        Piece::Str("[Stitch] dec="),
        num(dec),
        Piece::Str(" fail="),
        num(fail),
        Piece::Str(" rxstall="),
        num(rxstall),
        Piece::Str(" img_drop="),
        num(img_drop),
        Piece::Str("\n"),
    ]
}

/// The line on stitched images and lost samples.
pub fn stitch_line(dec: u32, fail: u32, rxstall: u32, img_drop: u32) -> (t: Text)
    ensures
        t.wf(),
        t@ == line(160, stitch_line_pieces(dec, fail, rxstall, img_drop)),
{
    let ps: [Piece; 9] = [
        Piece::Str("[Stitch] dec="),
        num_piece(dec),
        Piece::Str(" fail="),
        num_piece(fail),
        Piece::Str(" rxstall="),
        num_piece(rxstall),
        Piece::Str(" img_drop="),
        num_piece(img_drop),
        Piece::Str("\n"),
    ];
    assert(ps@ =~= stitch_line_pieces(dec, fail, rxstall, img_drop));
    say(160, &ps)
}

/// The pieces of the line on the upload sink.
pub open spec fn sink_line_pieces(rx_kbps: u32, total_kb: u32, loops: u32) -> Seq<Piece<'static>> {
    seq![
        Piece::Str("[Sink] rx="),
        num(rx_kbps),
        Piece::Str("KB/s total="),
        num(total_kb),
        Piece::Str("KB loop="),
        num(loops),
        Piece::Str("/s\n"),
    ]
}

/// The line on the upload sink.
pub fn sink_line(rx_kbps: u32, total_kb: u32, loops: u32) -> (t: Text)
    ensures
        t.wf(),
        t@ == line(160, sink_line_pieces(rx_kbps, total_kb, loops)),
{
    let ps: [Piece; 7] = [
        Piece::Str("[Sink] rx="),
        num_piece(rx_kbps),
        Piece::Str("KB/s total="),
        num_piece(total_kb),
        Piece::Str("KB loop="),
        num_piece(loops),
        Piece::Str("/s\n"),
    ];
    assert(ps@ =~= sink_line_pieces(rx_kbps, total_kb, loops));
    say(160, &ps)
}

/// The pieces of the payload of the broadcast.
pub open spec fn udp_payload_pieces(n: u32) -> Seq<Piece<'static>> {
    seq![
        Piece::Str("Hello World!! Raspico 10BASE-T Rust !! n="),
        num(n),
    ]
}

/// The payload of the broadcast.
pub fn udp_payload(n: u32) -> (t: Text)
    ensures
        t.wf(),
        t@ == line(64, udp_payload_pieces(n)),
{
    let ps: [Piece; 2] = [
        Piece::Str("Hello World!! Raspico 10BASE-T Rust !! n="),
        num_piece(n),
    ];
    assert(ps@ =~= udp_payload_pieces(n));
    say(64, &ps)
}

/// The pieces of the line on the last frame.
pub open spec fn rx_frame_line_pieces(
    len: u64,
    ok: bool,
    dst: [u8; 6],
    src: [u8; 6],
    etype: u32,
) -> Seq<Piece<'static>> {
    seq![
        Piece::Str("[Rx] frame "),
        Piece::Num(len),
        Piece::Str(" bytes, FCS "),
        Piece::Str(if ok { "OK" } else { "FAIL" }),
        Piece::Str(" - dst "),
        Piece::Mac(dst),
        Piece::Str(" src "),
        Piece::Mac(src),
        Piece::Str(" type="),
        Piece::Hex4(etype),
        Piece::Str("\n"),
    ]
}

/// The line on the last frame.
pub fn rx_frame_line(len: u64, ok: bool, dst: [u8; 6], src: [u8; 6], etype: u32) -> (t: Text)
    ensures
        t.wf(),
        t@ == line(160, rx_frame_line_pieces(len, ok, dst, src, etype)),
{
    let ps: [Piece; 11] = [
        Piece::Str("[Rx] frame "),
        Piece::Num(len),
        Piece::Str(" bytes, FCS "),
        Piece::Str(if ok { "OK" } else { "FAIL" }),
        Piece::Str(" - dst "),
        Piece::Mac(dst),
        Piece::Str(" src "),
        Piece::Mac(src),
        Piece::Str(" type="),
        Piece::Hex4(etype),
        Piece::Str("\n"),
    ];
    assert(ps@ =~= rx_frame_line_pieces(len, ok, dst, src, etype));
    say(160, &ps)
}

/// The pieces of the line on the wireless bring-up.
pub open spec fn cyw43_line_pieces(
    s: LanStages,
    rx: u32,
    dhcp: u32,
    hb: u32,
) -> Seq<Piece<'static>> {
    seq![
        Piece::Str("[Cyw43] new="),
        num(s.new),
        Piece::Str(" init="),
        num(s.init),
        Piece::Str(" led="),
        num(s.led),
        Piece::Str(" ap="),
        num(s.ap),
        Piece::Str(" net="),
        num(s.net),
        Piece::Str(" rx="),
        num(rx),
        Piece::Str(" dhcp="),
        num(dhcp),
        Piece::Str(" hb="),
        num(hb),
        Piece::Str("\r\n"),
    ]
}

/// The line on the wireless bring-up.
pub fn cyw43_line(s: LanStages, rx: u32, dhcp: u32, hb: u32) -> (t: Text)
    ensures
        t.wf(),
        t@ == line(96, cyw43_line_pieces(s, rx, dhcp, hb)),
{
    let ps: [Piece; 17] = [
        Piece::Str("[Cyw43] new="),
        num_piece(s.new),
        Piece::Str(" init="),
        num_piece(s.init),
        Piece::Str(" led="),
        num_piece(s.led),
        Piece::Str(" ap="),
        num_piece(s.ap),
        Piece::Str(" net="),
        num_piece(s.net),
        Piece::Str(" rx="),
        num_piece(rx),
        Piece::Str(" dhcp="),
        num_piece(dhcp),
        Piece::Str(" hb="),
        num_piece(hb),
        Piece::Str("\r\n"),
    ];
    assert(ps@ =~= cyw43_line_pieces(s, rx, dhcp, hb));
    say(96, &ps)
}

/// The pieces of the line of forwarding counts.
pub open spec fn fwd_line_pieces(s: FwdStats) -> Seq<Piece<'static>> {
    seq![
        Piece::Str("[Fwd] l2w="),
        num(s.l2w),
        Piece::Str(" w2l="),
        num(s.w2l),
        Piece::Str(" sent="),
        num(s.sent),
        Piece::Str(" drop="),
        num(s.drop),
        Piece::Str("\r\n"),
    ]
}

/// The line of forwarding counts.
pub fn fwd_line(s: FwdStats) -> (t: Text)
    ensures
        t.wf(),
        t@ == line(96, fwd_line_pieces(s)),
{
    let ps: [Piece; 9] = [
        Piece::Str("[Fwd] l2w="),
        num_piece(s.l2w),
        Piece::Str(" w2l="),
        num_piece(s.w2l),
        Piece::Str(" sent="),
        num_piece(s.sent),
        Piece::Str(" drop="),
        num_piece(s.drop),
        Piece::Str("\r\n"),
    ];
    assert(ps@ =~= fwd_line_pieces(s));
    say(96, &ps)
}

/// The pieces of the line of translation counts.
pub open spec fn nat_line_pieces(c: NatCounters) -> Seq<Piece<'static>> {
    seq![
        Piece::Str("[Nat] ct="),
        num(c.live),
        Piece::Str("/"),
        Piece::Num(CT_CAP as u64),
        Piece::Str(" out="),
        num(c.out),
        Piece::Str(" in="),
        num(c.inbound),
        Piece::Str(" new="),
        num(c.new),
        Piece::Str(" evict="),
        num(c.evict),
        Piece::Str(" drop="),
        num(c.drop),
        Piece::Str("\r\n"),
    ]
}

/// The line of translation counts.
pub fn nat_line(c: NatCounters) -> (t: Text)
    ensures
        t.wf(),
        t@ == line(96, nat_line_pieces(c)),
{
    let ps: [Piece; 15] = [
        Piece::Str("[Nat] ct="),
        num_piece(c.live),
        Piece::Str("/"),
        Piece::Num(CT_CAP as u64),
        Piece::Str(" out="),
        num_piece(c.out),
        Piece::Str(" in="),
        num_piece(c.inbound),
        Piece::Str(" new="),
        num_piece(c.new),
        Piece::Str(" evict="),
        num_piece(c.evict),
        Piece::Str(" drop="),
        num_piece(c.drop),
        Piece::Str("\r\n"),
    ];
    assert(ps@ =~= nat_line_pieces(c));
    say(96, &ps)
}

/// The pieces of the line of rates, load and drop causes.
pub open spec fn perf_line_pieces(r: RouterRates, s: FwdStats) -> Seq<Piece<'static>> {
    seq![
        Piece::Str("[Perf] up="),
        num(r.up_kbs),
        Piece::Str("KB/s dn="),
        num(r.dn_kbs),
        Piece::Str("KB/s pps="),
        num(r.pps),
        Piece::Str(" cpu1="),
        num(r.cpu1 / 10),
        Piece::Str("."),
        num(r.cpu1 % 10),
        Piece::Str("% cpu0="),
        num(r.cpu0 / 10),
        Piece::Str("."),
        num(r.cpu0 % 10),
        Piece::Str("% qmax="),
        num(s.qhwm_l2w),
        Piece::Str("/"),
        num(s.qhwm_w2l),
        Piece::Str(" cthwm="),
        num(r.ct_hwm),
        Piece::Str("/"),
        Piece::Num(CT_CAP as u64),
        Piece::Str(" drop[qf="),
        num(s.drop_qfull),
        Piece::Str(" nh="),
        num(s.drop_nonh),
        Piece::Str(" nat="),
        num(s.drop_nat),
        Piece::Str(" txb="),
        num(s.drop_txbusy),
        Piece::Str(" oth="),
        num(s.drop_other),
        Piece::Str("]\r\n"),
    ]
}

/// The line of rates, load and drop causes.
pub fn perf_line(r: RouterRates, s: FwdStats) -> (t: Text)
    ensures
        t.wf(),
        t@ == line(256, perf_line_pieces(r, s)),
{
    let ps: [Piece; 33] = [
        Piece::Str("[Perf] up="),
        num_piece(r.up_kbs),
        Piece::Str("KB/s dn="),
        num_piece(r.dn_kbs),
        Piece::Str("KB/s pps="),
        num_piece(r.pps),
        Piece::Str(" cpu1="),
        num_piece(r.cpu1 / 10),
        Piece::Str("."),
        num_piece(r.cpu1 % 10),
        Piece::Str("% cpu0="),
        num_piece(r.cpu0 / 10),
        Piece::Str("."),
        num_piece(r.cpu0 % 10),
        Piece::Str("% qmax="),
        num_piece(s.qhwm_l2w),
        Piece::Str("/"),
        num_piece(s.qhwm_w2l),
        Piece::Str(" cthwm="),
        num_piece(r.ct_hwm),
        Piece::Str("/"),
        Piece::Num(CT_CAP as u64),
        Piece::Str(" drop[qf="),
        num_piece(s.drop_qfull),
        Piece::Str(" nh="),
        num_piece(s.drop_nonh),
        Piece::Str(" nat="),
        num_piece(s.drop_nat),
        Piece::Str(" txb="),
        num_piece(s.drop_txbusy),
        Piece::Str(" oth="),
        num_piece(s.drop_other),
        Piece::Str("]\r\n"),
    ];
    assert(ps@ =~= perf_line_pieces(r, s));
    say(256, &ps)
}

/// The pieces of the header of a page of `len` bytes.
pub open spec fn page_head_pieces(len: u64) -> Seq<Piece<'static>> {
    seq![
        Piece::Str("HTTP/1.0 200 OK\r\nContent-Type: text/plain\r\nContent-Length: "),
        Piece::Num(len),
        Piece::Str("\r\nConnection: close\r\n\r\n"),
    ]
}

/// The header of a page of `len` bytes.
pub fn page_head(len: u64) -> (t: Text)
    ensures
        t.wf(),
        t@ == line(128, page_head_pieces(len)),
{
    let ps: [Piece; 3] = [
        Piece::Str("HTTP/1.0 200 OK\r\nContent-Type: text/plain\r\nContent-Length: "),
        Piece::Num(len),
        Piece::Str("\r\nConnection: close\r\n\r\n"),
    ];
    assert(ps@ =~= page_head_pieces(len));
    say(128, &ps)
}

/// The pieces of the header of a download of `len` bytes.
pub open spec fn bulk_head_pieces(len: u64) -> Seq<Piece<'static>> {
    seq![
        Piece::Str("HTTP/1.0 200 OK\r\nContent-Type: application/octet-stream\r\nContent-Length: "),
        Piece::Num(len),
        Piece::Str("\r\nConnection: close\r\n\r\n"),
    ]
}

/// The header of a download of `len` bytes.
pub fn bulk_head(len: u64) -> (t: Text)
    ensures
        t.wf(),
        t@ == line(128, bulk_head_pieces(len)),
{
    let ps: [Piece; 3] = [
        Piece::Str("HTTP/1.0 200 OK\r\nContent-Type: application/octet-stream\r\nContent-Length: "),
        Piece::Num(len),
        Piece::Str("\r\nConnection: close\r\n\r\n"),
    ];
    assert(ps@ =~= bulk_head_pieces(len));
    say(128, &ps)
}

/// The pieces of the page of the wired interface.
pub open spec fn hello_page_pieces(uptime_s: u32, nlps: u32, udp_sent: u32) -> Seq<Piece<'static>> {
    seq![
        Piece::Str("Hello from Pico-10BASE-T (Rust)!\r\nuptime="),
        num(uptime_s),
        Piece::Str("s nlps="),
        num(nlps),
        Piece::Str(" udp_sent="),
        num(udp_sent),
        Piece::Str("\r\n"),
    ]
}

/// The page of the wired interface.
pub fn hello_page(uptime_s: u32, nlps: u32, udp_sent: u32) -> (t: Text)
    ensures
        t.wf(),
        t@ == line(160, hello_page_pieces(uptime_s, nlps, udp_sent)),
{
    let ps: [Piece; 7] = [
        Piece::Str("Hello from Pico-10BASE-T (Rust)!\r\nuptime="),
        num_piece(uptime_s),
        Piece::Str("s nlps="),
        num_piece(nlps),
        Piece::Str(" udp_sent="),
        num_piece(udp_sent),
        Piece::Str("\r\n"),
    ];
    assert(ps@ =~= hello_page_pieces(uptime_s, nlps, udp_sent));
    say(160, &ps)
}

/// The pieces of the serial number of a chip.
pub open spec fn chip_serial_pieces(wafer: u32, device: u32) -> Seq<Piece<'static>> {
    seq![
        Piece::Hex8(wafer),
        Piece::Hex8(device),
    ]
}

/// The serial number of a chip.
pub fn chip_serial(wafer: u32, device: u32) -> (t: Text)
    ensures
        t.wf(),
        t@ == line(16, chip_serial_pieces(wafer, device)),
{
    let ps: [Piece; 2] = [
        Piece::Hex8(wafer),
        Piece::Hex8(device),
    ];
    assert(ps@ =~= chip_serial_pieces(wafer, device));
    say(16, &ps)
}

/// The pieces of the serial number where the chip has none.
pub open spec fn no_serial_pieces() -> Seq<Piece<'static>> {
    seq![
        Piece::Str("0000000000000000"),
    ]
}

/// The serial number where the chip has none.
pub fn no_serial() -> (t: Text)
    ensures
        t.wf(),
        t@ == line(16, no_serial_pieces()),
{
    let ps: [Piece; 1] = [
        Piece::Str("0000000000000000"),
    ];
    assert(ps@ =~= no_serial_pieces());
    say(16, &ps)
}

/// The pieces of one string.
pub open spec fn str_pieces(s: &'static str) -> Seq<Piece<'static>> {
    seq![
        Piece::Str(s),
    ]
}

/// Write one string.
fn write_str(t: &mut Text, s: &'static str)
    requires
        old(t).wf(),
    ensures
        final(t).wf(),
        final(t).cap == old(t).cap,
        final(t)@ == written(old(t)@, old(t).cap as int, str_pieces(s)),
{
    let ps: [Piece; 1] = [
        Piece::Str(s),
    ];
    assert(ps@ =~= str_pieces(s));
    t.write(&ps);
}

/// The pieces of the transmit and inbox counts.
pub open spec fn mac_counts_pieces(m: MacCounts) -> Seq<Piece<'static>> {
    seq![
        Piece::Str("[Mac] iface_rx="),
        num(m.iface_rx),
        Piece::Str(" tx_arp="),
        num(m.tx_arp),
        Piece::Str(" tx_icmp="),
        num(m.tx_ping),
        Piece::Str(" tx_udp="),
        num(m.tx_udp),
        Piece::Str(" tx_other="),
        num(m.tx_other),
        Piece::Str(" inbox_drop="),
        num(m.inbox_drop),
        Piece::Str(" inbox_hwm="),
        num(m.inbox_hwm),
        Piece::Str(" carry_cap="),
        num(m.carry_cap),
        Piece::Str(" last_tx_len="),
        num(m.last_tx_len),
        Piece::Str("\n"),
    ]
}

/// Write the transmit and inbox counts.
fn write_mac_counts(t: &mut Text, m: MacCounts)
    requires
        old(t).wf(),
    ensures
        final(t).wf(),
        final(t).cap == old(t).cap,
        final(t)@ == written(old(t)@, old(t).cap as int, mac_counts_pieces(m)),
{
    let ps: [Piece; 19] = [
        Piece::Str("[Mac] iface_rx="),
        num_piece(m.iface_rx),
        Piece::Str(" tx_arp="),
        num_piece(m.tx_arp),
        Piece::Str(" tx_icmp="),
        num_piece(m.tx_ping),
        Piece::Str(" tx_udp="),
        num_piece(m.tx_udp),
        Piece::Str(" tx_other="),
        num_piece(m.tx_other),
        Piece::Str(" inbox_drop="),
        num_piece(m.inbox_drop),
        Piece::Str(" inbox_hwm="),
        num_piece(m.inbox_hwm),
        Piece::Str(" carry_cap="),
        num_piece(m.carry_cap),
        Piece::Str(" last_tx_len="),
        num_piece(m.last_tx_len),
        Piece::Str("\n"),
    ];
    assert(ps@ =~= mac_counts_pieces(m));
    t.write(&ps);
}

/// The pieces of the LAN rates.
pub open spec fn lan_rates_pieces(
    tx_kbs: u32,
    rx_kbs: u32,
    txbusy: u32,
    rxframes: u32,
) -> Seq<Piece<'static>> {
    seq![
        Piece::Str("[Lan] tx="),
        num(tx_kbs),
        Piece::Str("KB/s rx="),
        num(rx_kbs),
        Piece::Str("KB/s txbusy="),
        num(txbusy),
        Piece::Str(" rxframes="),
        num(rxframes),
    ]
}

/// Write the LAN rates.
fn write_lan_rates(t: &mut Text, tx_kbs: u32, rx_kbs: u32, txbusy: u32, rxframes: u32)
    requires
        old(t).wf(),
    ensures
        final(t).wf(),
        final(t).cap == old(t).cap,
        final(t)@ == written(
            old(t)@,
            old(t).cap as int,
            lan_rates_pieces(tx_kbs, rx_kbs, txbusy, rxframes),
        ),
{
    let ps: [Piece; 8] = [
        Piece::Str("[Lan] tx="),
        num_piece(tx_kbs),
        Piece::Str("KB/s rx="),
        num_piece(rx_kbs),
        Piece::Str("KB/s txbusy="),
        num_piece(txbusy),
        Piece::Str(" rxframes="),
        num_piece(rxframes),
    ];
    assert(ps@ =~= lan_rates_pieces(tx_kbs, rx_kbs, txbusy, rxframes));
    t.write(&ps);
}

/// The pieces of the load of the LAN side.
pub open spec fn lan_split_pieces(spi0: u32, net0: u32) -> Seq<Piece<'static>> {
    seq![
        Piece::Str(" spi0="),
        num(spi0 / 10),
        Piece::Str("."),
        num(spi0 % 10),
        Piece::Str("% net0="),
        num(net0 / 10),
        Piece::Str("."),
        num(net0 % 10),
        Piece::Str("%"),
    ]
}

/// Write the load of the LAN side.
fn write_lan_split(t: &mut Text, spi0: u32, net0: u32)
    requires
        old(t).wf(),
    ensures
        final(t).wf(),
        final(t).cap == old(t).cap,
        final(t)@ == written(old(t)@, old(t).cap as int, lan_split_pieces(spi0, net0)),
{
    let ps: [Piece; 9] = [
        Piece::Str(" spi0="),
        num_piece(spi0 / 10),
        Piece::Str("."),
        num_piece(spi0 % 10),
        Piece::Str("% net0="),
        num_piece(net0 / 10),
        Piece::Str("."),
        num_piece(net0 % 10),
        Piece::Str("%"),
    ];
    assert(ps@ =~= lan_split_pieces(spi0, net0));
    t.write(&ps);
}

/// The pieces of whether the receiving core runs.
pub open spec fn wan_core1_pieces(ok: bool) -> Seq<Piece<'static>> {
    seq![
        Piece::Str("[Wan] core1="),
        Piece::Str(if ok { "ok" } else { "FAIL" }),
        Piece::Str(" "),
    ]
}

/// Write whether the receiving core runs.
fn write_wan_core1(t: &mut Text, ok: bool)
    requires
        old(t).wf(),
    ensures
        final(t).wf(),
        final(t).cap == old(t).cap,
        final(t)@ == written(old(t)@, old(t).cap as int, wan_core1_pieces(ok)),
{
    let ps: [Piece; 3] = [
        Piece::Str("[Wan] core1="),
        Piece::Str(if ok { "ok" } else { "FAIL" }),
        Piece::Str(" "),
    ];
    assert(ps@ =~= wan_core1_pieces(ok));
    t.write(&ps);
}

/// The pieces of the top of the status page.
pub open spec fn page_top_pieces(
    ssid: &'static str,
    dns: Ipv4Address,
    uptime_s: u64,
    dhcp: u32,
    rx: u32,
) -> Seq<Piece<'static>> {
    seq![
        Piece::Str("Pico RP2350 Wireless Router (Rust)\r\nAP SSID:     "),
        Piece::Str(ssid),
        Piece::Str("\r\nLAN gateway: 192.168.4.1/24\r\nDNS offered: "),
        Piece::Ip(dns),
        Piece::Str("\r\nuptime:      "),
        Piece::Num(uptime_s),
        Piece::Str("s\r\nDHCP replies:"),
        num(dhcp),
        Piece::Str("\r\nLAN rx:      "),
        num(rx),
        Piece::Str("\r\n"),
    ]
}

/// Write the top of the status page.
fn write_page_top(
    t: &mut Text,
    ssid: &'static str,
    dns: Ipv4Address,
    uptime_s: u64,
    dhcp: u32,
    rx: u32,
)
    requires
        old(t).wf(),
    ensures
        final(t).wf(),
        final(t).cap == old(t).cap,
        final(t)@ == written(
            old(t)@,
            old(t).cap as int,
            page_top_pieces(ssid, dns, uptime_s, dhcp, rx),
        ),
{
    let ps: [Piece; 11] = [
        Piece::Str("Pico RP2350 Wireless Router (Rust)\r\nAP SSID:     "),
        Piece::Str(ssid),
        Piece::Str("\r\nLAN gateway: 192.168.4.1/24\r\nDNS offered: "),
        Piece::Ip(dns),
        Piece::Str("\r\nuptime:      "),
        Piece::Num(uptime_s),
        Piece::Str("s\r\nDHCP replies:"),
        num_piece(dhcp),
        Piece::Str("\r\nLAN rx:      "),
        num_piece(rx),
        Piece::Str("\r\n"),
    ];
    assert(ps@ =~= page_top_pieces(ssid, dns, uptime_s, dhcp, rx));
    t.write(&ps);
}

/// The pieces of a client.
pub open spec fn client_pieces(ip: Ipv4Address, mac: [u8; 6]) -> Seq<Piece<'static>> {
    seq![
        Piece::Str("  "),
        Piece::Ip(ip),
        Piece::Str("  "),
        Piece::Mac(mac),
        Piece::Str("\r\n"),
    ]
}

/// Write a client.
fn write_client(t: &mut Text, ip: Ipv4Address, mac: [u8; 6])
    requires
        old(t).wf(),
    ensures
        final(t).wf(),
        final(t).cap == old(t).cap,
        final(t)@ == written(old(t)@, old(t).cap as int, client_pieces(ip, mac)),
{
    let ps: [Piece; 5] = [
        Piece::Str("  "),
        Piece::Ip(ip),
        Piece::Str("  "),
        Piece::Mac(mac),
        Piece::Str("\r\n"),
    ];
    assert(ps@ =~= client_pieces(ip, mac));
    t.write(&ps);
}

/// The pieces of the LAN byte counts.
pub open spec fn lan_bytes_pieces(tx: u32, rx: u32, txbusy: u32) -> Seq<Piece<'static>> {
    seq![
        Piece::Str("LAN perf:    tx="),
        num(tx),
        Piece::Str("B rx="),
        num(rx),
        Piece::Str("B txbusy="),
        num(txbusy),
        Piece::Str("\r\n"),
    ]
}

/// Write the LAN byte counts.
fn write_lan_bytes(t: &mut Text, tx: u32, rx: u32, txbusy: u32)
    requires
        old(t).wf(),
    ensures
        final(t).wf(),
        final(t).cap == old(t).cap,
        final(t)@ == written(old(t)@, old(t).cap as int, lan_bytes_pieces(tx, rx, txbusy)),
{
    let ps: [Piece; 7] = [
        Piece::Str("LAN perf:    tx="),
        num_piece(tx),
        Piece::Str("B rx="),
        num_piece(rx),
        Piece::Str("B txbusy="),
        num_piece(txbusy),
        Piece::Str("\r\n"),
    ];
    assert(ps@ =~= lan_bytes_pieces(tx, rx, txbusy));
    t.write(&ps);
}

/// The pieces of the router counts.
pub open spec fn router_counts_pieces(c: NatCounters, s: FwdStats) -> Seq<Piece<'static>> {
    seq![
        Piece::Str("\r\nNAT:         ct="),
        num(c.live),
        Piece::Str("/"),
        Piece::Num(CT_CAP as u64),
        Piece::Str(" out="),
        num(c.out),
        Piece::Str(" in="),
        num(c.inbound),
        Piece::Str(" drop="),
        num(c.drop),
        Piece::Str("\r\nForward:     sent="),
        num(s.sent),
        Piece::Str(" drop="),
        num(s.drop),
        Piece::Str(" (qf="),
        num(s.drop_qfull),
        Piece::Str(" nh="),
        num(s.drop_nonh),
        Piece::Str(" nat="),
        num(s.drop_nat),
        Piece::Str(" txb="),
        num(s.drop_txbusy),
        Piece::Str(" oth="),
        num(s.drop_other),
        Piece::Str(")\r\nBytes:       up="),
        num(s.bytes_to_wan),
        Piece::Str(" dn="),
        num(s.bytes_to_lan),
        Piece::Str("\r\nQueue hwm:   l2w="),
        num(s.qhwm_l2w),
        Piece::Str(" w2l="),
        num(s.qhwm_w2l),
        Piece::Str(" (cap "),
        Piece::Num(CHAN_DEPTH as u64),
        Piece::Str(")\r\n"),
    ]
}

/// Write the router counts.
fn write_router_counts(t: &mut Text, c: NatCounters, s: FwdStats)
    requires
        old(t).wf(),
    ensures
        final(t).wf(),
        final(t).cap == old(t).cap,
        final(t)@ == written(old(t)@, old(t).cap as int, router_counts_pieces(c, s)),
{
    let ps: [Piece; 35] = [
        Piece::Str("\r\nNAT:         ct="),
        num_piece(c.live),
        Piece::Str("/"),
        Piece::Num(CT_CAP as u64),
        Piece::Str(" out="),
        num_piece(c.out),
        Piece::Str(" in="),
        num_piece(c.inbound),
        Piece::Str(" drop="),
        num_piece(c.drop),
        Piece::Str("\r\nForward:     sent="),
        num_piece(s.sent),
        Piece::Str(" drop="),
        num_piece(s.drop),
        Piece::Str(" (qf="),
        num_piece(s.drop_qfull),
        Piece::Str(" nh="),
        num_piece(s.drop_nonh),
        Piece::Str(" nat="),
        num_piece(s.drop_nat),
        Piece::Str(" txb="),
        num_piece(s.drop_txbusy),
        Piece::Str(" oth="),
        num_piece(s.drop_other),
        Piece::Str(")\r\nBytes:       up="),
        num_piece(s.bytes_to_wan),
        Piece::Str(" dn="),
        num_piece(s.bytes_to_lan),
        Piece::Str("\r\nQueue hwm:   l2w="),
        num_piece(s.qhwm_l2w),
        Piece::Str(" w2l="),
        num_piece(s.qhwm_w2l),
        Piece::Str(" (cap "),
        Piece::Num(CHAN_DEPTH as u64),
        Piece::Str(")\r\n"),
    ];
    assert(ps@ =~= router_counts_pieces(c, s));
    t.write(&ps);
}

/// The pieces of the load of the cores.
pub open spec fn cpu_load_pieces(c1: u32, c0: u32) -> Seq<Piece<'static>> {
    seq![
        Piece::Str("CPU:         core1(rx-decode)="),
        num(c1 / 10),
        Piece::Str("."),
        num(c1 % 10),
        Piece::Str("% core0(forward)="),
        num(c0 / 10),
        Piece::Str("."),
        num(c0 % 10),
        Piece::Str("%\r\n"),
    ]
}

/// Write the load of the cores.
fn write_cpu_load(t: &mut Text, c1: u32, c0: u32)
    requires
        old(t).wf(),
    ensures
        final(t).wf(),
        final(t).cap == old(t).cap,
        final(t)@ == written(old(t)@, old(t).cap as int, cpu_load_pieces(c1, c0)),
{
    let ps: [Piece; 9] = [
        Piece::Str("CPU:         core1(rx-decode)="),
        num_piece(c1 / 10),
        Piece::Str("."),
        num_piece(c1 % 10),
        Piece::Str("% core0(forward)="),
        num_piece(c0 / 10),
        Piece::Str("."),
        num_piece(c0 % 10),
        Piece::Str("%\r\n"),
    ];
    assert(ps@ =~= cpu_load_pieces(c1, c0));
    t.write(&ps);
}

/// The pieces of the load of the LAN side, for the page.
pub open spec fn lan_load_pieces(spi0: u32, net0: u32) -> Seq<Piece<'static>> {
    seq![
        Piece::Str("LAN cpu0:    spi0(gspi)="),
        num(spi0 / 10),
        Piece::Str("."),
        num(spi0 % 10),
        Piece::Str("% net0(stack)="),
        num(net0 / 10),
        Piece::Str("."),
        num(net0 % 10),
        Piece::Str("%\r\n"),
    ]
}

/// Write the load of the LAN side, for the page.
fn write_lan_load(t: &mut Text, spi0: u32, net0: u32)
    requires
        old(t).wf(),
    ensures
        final(t).wf(),
        final(t).cap == old(t).cap,
        final(t)@ == written(old(t)@, old(t).cap as int, lan_load_pieces(spi0, net0)),
{
    let ps: [Piece; 9] = [
        Piece::Str("LAN cpu0:    spi0(gspi)="),
        num_piece(spi0 / 10),
        Piece::Str("."),
        num_piece(spi0 % 10),
        Piece::Str("% net0(stack)="),
        num_piece(net0 / 10),
        Piece::Str("."),
        num_piece(net0 % 10),
        Piece::Str("%\r\n"),
    ];
    assert(ps@ =~= lan_load_pieces(spi0, net0));
    t.write(&ps);
}

/// The pieces of the label of a dump row.
pub open spec fn row_label_pieces(label: &'static str, at: u32) -> Seq<Piece<'static>> {
    seq![
        Piece::Str("  "),
        Piece::Str(label),
        Piece::Hex4(at),
        Piece::Str(":"),
    ]
}

/// Write the label of a dump row.
fn write_row_label(t: &mut Text, label: &'static str, at: u32)
    requires
        old(t).wf(),
    ensures
        final(t).wf(),
        final(t).cap == old(t).cap,
        final(t)@ == written(old(t)@, old(t).cap as int, row_label_pieces(label, at)),
{
    let ps: [Piece; 4] = [
        Piece::Str("  "),
        Piece::Str(label),
        Piece::Hex4(at),
        Piece::Str(":"),
    ];
    assert(ps@ =~= row_label_pieces(label, at));
    t.write(&ps);
}

/// The pieces of a byte of a dump row.
pub open spec fn row_byte_pieces(b: u8) -> Seq<Piece<'static>> {
    seq![
        Piece::Str(" "),
        Piece::Hex2(b),
    ]
}

/// Write a byte of a dump row.
fn write_row_byte(t: &mut Text, b: u8)
    requires
        old(t).wf(),
    ensures
        final(t).wf(),
        final(t).cap == old(t).cap,
        final(t)@ == written(old(t)@, old(t).cap as int, row_byte_pieces(b)),
{
    let ps: [Piece; 2] = [
        Piece::Str(" "),
        Piece::Hex2(b),
    ];
    assert(ps@ =~= row_byte_pieces(b));
    t.write(&ps);
}

/// A hardware address as text.
pub fn mac_str(mac: [u8; 6]) -> (t: Text)
    ensures
        t.wf(),
        t@ == line(17, seq![Piece::Mac(mac)]),
{
    let ps: [Piece; 1] = [Piece::Mac(mac)];
    assert(ps@ =~= seq![Piece::Mac(mac)]);
    say(17, &ps)
}

/// The destination of the last frame, for the line of receive counts: zero where no
/// frame was long enough.
pub open spec fn last_dst_of(snap: Seq<u8>) -> Seq<u8> {
    if snap.len() >= 6 {
        snap.subrange(0, 6)
    } else {
        seq![0u8, 0, 0, 0, 0, 0]
    }
}

/// The destination of the last frame.
pub fn last_dst(rx: &EthRxStats) -> (r: [u8; 6])
    requires
        rx.wf(),
    ensures
        r@ == last_dst_of(rx@.last.snap),
{
    let zero: [u8; 6] = [0, 0, 0, 0, 0, 0];
    assert(zero@ =~= seq![0u8, 0, 0, 0, 0, 0]);
    if rx.last_frame_snapshot_len >= 6 {
        let r: [u8; 6] = rd_mac(&rx.last_frame_snapshot, 0);
        assert(r@ =~= rx@.last.snap.subrange(0, 6));
        r
    } else {
        zero
    }
}

/// The bytes of a hardware address.
pub open spec fn spells(mac: [u8; 6], s: Seq<u8>) -> bool {
    mac@ == s
}

/// The type field of a frame of which the first bytes are known; zero where they end
/// before it.
pub open spec fn etype_of(snap: Seq<u8>) -> u32 {
    if snap.len() >= 14 {
        be16(snap, 12) as u32
    } else {
        0
    }
}

/// The line on the last frame received.
pub fn last_frame_line(rx: &EthRxStats) -> (t: Text)
    requires
        rx.wf(),
        rx@.last.snap.len() >= 12,
    ensures
        t.wf(),
        exists|dst: [u8; 6], src: [u8; 6]| #[trigger]
            spells(dst, rx@.last.snap.subrange(0, 6)) && #[trigger] spells(
                src,
                rx@.last.snap.subrange(6, 12),
            ) && t@ == line(
                160,
                rx_frame_line_pieces(
                    rx@.last.len as u64,
                    rx@.last.ok,
                    dst,
                    src,
                    etype_of(rx@.last.snap),
                ),
            ),
{
    let f: &[u8] = &rx.last_frame_snapshot[0..rx.last_frame_snapshot_len];
    assert(f@ =~= rx@.last.snap);
    let etype: u32 = if f.len() >= 14 {
        rd16(f, 12) as u32
    } else {
        0
    };
    let dst: [u8; 6] = rd_mac(f, 0);
    let src: [u8; 6] = rd_mac(f, 6);
    assert(spells(dst, rx@.last.snap.subrange(0, 6)));
    assert(spells(src, rx@.last.snap.subrange(6, 12)));
    rx_frame_line(rx.last_frame_len as u64, rx.last_frame_was_ok, dst, src, etype)
}

/// A byte as a wider number.
fn widen8(n: u8) -> (r: u32)
    ensures
        r == n,
{
    n as u32
}

/// A half-word as a wider number.
fn widen16(n: u16) -> (r: u32)
    ensures
        r == n,
{
    n as u32
}

/// The counts of the media-access line are those of the transmit and receive counters.
pub open spec fn counts_of(m: EthMacStats, rx: EthRxStats, c: MacCounts) -> bool {
    &&& c.iface_rx == m.rx_handed_out
    &&& c.tx_arp == m.tx_arp
    &&& c.tx_ping == m.tx_icmp
    &&& c.tx_udp == m.tx_udp
    &&& c.tx_other == m.tx_other
    &&& c.inbox_drop == rx.inbox_dropped
    &&& c.inbox_hwm == rx.inbox_high_water
    &&& c.carry_cap == rx.carry_capped
    &&& c.last_tx_len == m.last_tx_len
}

/// The counts of the media-access line.
pub fn mac_counts(m: &EthMacStats, rx: &EthRxStats) -> (c: MacCounts)
    ensures
        counts_of(*m, *rx, c),
{
    MacCounts {
        iface_rx: m.rx_handed_out,
        tx_arp: m.tx_arp,
        tx_ping: m.tx_icmp,
        tx_udp: m.tx_udp,
        tx_other: m.tx_other,
        inbox_drop: rx.inbox_dropped,
        inbox_hwm: widen8(rx.inbox_high_water),
        carry_cap: rx.carry_capped,
        last_tx_len: widen16(m.last_tx_len),
    }
}

/// The media-access line.
pub fn mac_line(c: MacCounts) -> (t: Text)
    ensures
        t.wf(),
        t@ == line(160, mac_counts_pieces(c)),
{
    let mut t: Text = Text::new(LINE_CAP);
    write_mac_counts(&mut t, c);
    t
}

/// The LAN line: rates, and on a router the load.
pub open spec fn lan_text(
    tx_kbs: u32,
    rx_kbs: u32,
    txbusy: u32,
    rxframes: u32,
    split: Option<(u32, u32)>,
) -> Seq<u8> {
    let a = line(160, lan_rates_pieces(tx_kbs, rx_kbs, txbusy, rxframes));
    let b = match split {
        Some((spi0, net0)) => written(a, 160, lan_split_pieces(spi0, net0)),
        None => a,
    };
    written(b, 160, str_pieces("\r\n"))
}

/// The LAN line.
pub fn lan_line(
    tx_kbs: u32,
    rx_kbs: u32,
    txbusy: u32,
    rxframes: u32,
    split: Option<(u32, u32)>,
) -> (t: Text)
    ensures
        t.wf(),
        t@ == lan_text(tx_kbs, rx_kbs, txbusy, rxframes, split),
{
    let mut t: Text = Text::new(LINE_CAP);
    write_lan_rates(&mut t, tx_kbs, rx_kbs, txbusy, rxframes);
    match split {
        Some((spi0, net0)) => {
            write_lan_split(&mut t, spi0, net0);
        },
        None => {},
    }
    write_str(&mut t, "\r\n");
    t
}

/// The WAN line of the wired image.
pub fn log_wan(wan: &WanState) -> (t: Text)
    ensures
        t.wf(),
        t@ == written(
            wan_status(*wan, line(160, str_pieces("[Wan] ")), 160),
            160,
            str_pieces("\n"),
        ),
{
    let mut t: Text = Text::new(LINE_CAP);
    write_str(&mut t, "[Wan] ");
    wan.write_status(&mut t);
    write_str(&mut t, "\n");
    t
}

/// The WAN line of the router.
pub open spec fn router_wan_text(core1_ok: bool, wan: Option<WanState>) -> Seq<u8> {
    let a = line(160, wan_core1_pieces(core1_ok));
    let b = match wan {
        Some(w) => wan_status(w, a, 160),
        None => written(a, 160, str_pieces("(no lease yet)")),
    };
    written(b, 160, str_pieces("\r\n"))
}

/// The WAN line of the router.
pub fn router_wan_line(core1_ok: bool, wan: Option<WanState>) -> (t: Text)
    ensures
        t.wf(),
        t@ == router_wan_text(core1_ok, wan),
{
    let mut t: Text = Text::new(LINE_CAP);
    write_wan_core1(&mut t, core1_ok);
    match wan {
        Some(w) => {
            w.write_status(&mut t);
        },
        None => {
            write_str(&mut t, "(no lease yet)");
        },
    }
    write_str(&mut t, "\r\n");
    t
}

/// The first `n` bytes of a dump row written after `t`.
pub open spec fn row_bytes(t: Seq<u8>, data: Seq<u8>, n: int) -> Seq<u8>
    decreases n,
{
    if n <= 0 {
        t
    } else {
        written(row_bytes(t, data, n - 1), 160, row_byte_pieces(data[n - 1]))
    }
}

/// The dump row of `data` at offset `at`.
pub open spec fn dump_row(label: &'static str, at: u32, data: Seq<u8>) -> Seq<u8> {
    written(
        row_bytes(line(160, row_label_pieces(label, at)), data, data.len() as int),
        160,
        str_pieces("\n"),
    )
}

/// The bytes of row `row`.
pub open spec fn row_data(data: Seq<u8>, row: int) -> Seq<u8> {
    data.subrange(
        16 * row,
        if 16 * row + 16 < data.len() {
            16 * row + 16
        } else {
            data.len() as int
        },
    )
}

/// `rows` are a hexadecimal dump of `data`, 16 bytes to a row.
pub open spec fn is_dump(rows: Seq<Text>, label: &'static str, data: Seq<u8>) -> bool {
    &&& rows.len() == (data.len() + 15) / 16
    &&& forall|k: int|
        0 <= k < rows.len() ==> (#[trigger] rows[k])@ == dump_row(
            label,
            (16 * k) as u32,
            row_data(data, k),
        )
}

/// A hexadecimal dump, 16 bytes to a row.
pub fn hex_dump(label: &'static str, data: &[u8]) -> (rows: Vec<Text>)
    requires
        data@.len() + 16 <= u32::MAX,
    ensures
        is_dump(rows@, label, data@),
{
    let mut rows: Vec<Text> = Vec::new();
    let mut at: usize = 0;
    while at < data.len()
        invariant
            data@.len() + 16 <= u32::MAX,
            data@.len() + 16 <= usize::MAX,
            at % 16 == 0,
            at < data@.len() + 16,
            rows@.len() * 16 == at,
            forall|k: int|
                0 <= k < rows@.len() ==> (#[trigger] rows@[k])@ == dump_row(
                    label,
                    (16 * k) as u32,
                    row_data(data@, k),
                ),
        decreases data@.len() + 16 - at,
    {
        let end: usize = if at + 16 < data.len() {
            at + 16
        } else {
            data.len()
        };
        let chunk: &[u8] = &data[at..end];
        assert(chunk@ =~= row_data(data@, rows@.len() as int));
        let mut t: Text = Text::new(LINE_CAP);
        write_row_label(&mut t, label, at as u32);
        let ghost t0 = t@;
        let mut i: usize = 0;
        while i < chunk.len()
            invariant
                i <= chunk@.len(),
                t.wf(),
                t.cap == LINE_CAP,
                t@ == row_bytes(t0, chunk@, i as int),
            decreases chunk@.len() - i,
        {
            write_row_byte(&mut t, chunk[i]);
            i = i + 1;
        }
        write_str(&mut t, "\n");
        rows.push(t);
        at = at + 16;
    }
    rows
}

/// The smaller of two lengths.
pub open spec fn shorter(a: int, b: int) -> int {
    if a < b {
        a
    } else {
        b
    }
}

/// A dump of the last frame sent, as far as it was kept.
pub fn tx_dump(m: &EthMacStats) -> (rows: Vec<Text>)
    ensures
        is_dump(
            rows@,
            "tx ",
            m.last_tx@.take(shorter(m.last_tx_len as int, FRAME_SNAP_BYTES as int)),
        ),
{
    let n: usize = if (m.last_tx_len as usize) < FRAME_SNAP_BYTES {
        m.last_tx_len as usize
    } else {
        FRAME_SNAP_BYTES
    };
    let kept: &[u8] = &m.last_tx[0..n];
    assert(kept@ =~= m.last_tx@.take(n as int));
    hex_dump("tx ", kept)
}

/// A dump of the first 64 bytes of the last frame received.
pub fn rx_dump(rx: &EthRxStats) -> (rows: Vec<Text>)
    requires
        rx.wf(),
    ensures
        is_dump(
            rows@,
            "",
            rx@.last.snap.take(shorter(rx@.last.snap.len() as int, 64)),
        ),
{
    let n: usize = if rx.last_frame_snapshot_len < 64 {
        rx.last_frame_snapshot_len
    } else {
        64
    };
    let kept: &[u8] = &rx.last_frame_snapshot[0..n];
    assert(kept@ =~= rx@.last.snap.take(n as int));
    hex_dump("", kept)
}

/// What the status page tells of the LAN.
#[derive(Clone, Copy, Debug, PartialEq, Eq, Structural)]
pub struct LanInfo {
    pub dns: Ipv4Address,
    pub uptime_s: u64,
    pub dhcp_replies: u32,
    pub rx_frames: u32,
    pub tx_bytes: u32,
    pub rx_bytes: u32,
    pub tx_busy: u32,
}

/// What the status page tells of the router.
#[derive(Clone, Copy, Debug, PartialEq, Eq, Structural)]
pub struct RouterInfo {
    pub wan: Option<WanState>,
    pub nat: NatCounters,
    pub fwd: FwdStats,
    pub cpu1: u32,
    pub cpu0: u32,
    pub spi0: u32,
    pub net0: u32,
}

/// The first `n` clients written after `t`.
pub open spec fn clients_text(t: Seq<u8>, leases: Seq<(Ipv4Address, [u8; 6])>, n: int) -> Seq<u8>
    decreases n,
{
    if n <= 0 {
        t
    } else {
        written(
            clients_text(t, leases, n - 1),
            STATUS_BODY_CAP as int,
            client_pieces(leases[n - 1].0, leases[n - 1].1),
        )
    }
}

/// The router's part of the page written after `t`.
pub open spec fn router_text(t: Seq<u8>, r: RouterInfo) -> Seq<u8> {
    let cap = STATUS_BODY_CAP as int;
    let a = written(t, cap, str_pieces("WAN:         "));
    let b = match r.wan {
        Some(w) => wan_status(w, a, cap),
        None => written(a, cap, str_pieces("(no lease)")),
    };
    let c = written(b, cap, router_counts_pieces(r.nat, r.fwd));
    let d = written(c, cap, cpu_load_pieces(r.cpu1, r.cpu0));
    written(d, cap, lan_load_pieces(r.spi0, r.net0))
}

/// The status page.
pub open spec fn page_text(
    ssid: &'static str,
    lan: LanInfo,
    leases: Seq<(Ipv4Address, [u8; 6])>,
    router: Option<RouterInfo>,
) -> Seq<u8> {
    let cap = STATUS_BODY_CAP as int;
    let a = line(
        cap,
        page_top_pieces(ssid, lan.dns, lan.uptime_s, lan.dhcp_replies, lan.rx_frames),
    );
    let b = written(a, cap, str_pieces("Clients:\r\n"));
    let c = if leases.len() == 0 {
        written(b, cap, str_pieces("  (none)\r\n"))
    } else {
        clients_text(b, leases, leases.len() as int)
    };
    let d = written(c, cap, lan_bytes_pieces(lan.tx_bytes, lan.rx_bytes, lan.tx_busy));
    match router {
        Some(r) => router_text(d, r),
        None => d,
    }
}

/// The router's part of the page.
fn write_router(t: &mut Text, r: &RouterInfo)
    requires
        old(t).wf(),
        old(t).cap == STATUS_BODY_CAP,
    ensures
        final(t).wf(),
        final(t).cap == old(t).cap,
        final(t)@ == router_text(old(t)@, *r),
{
    write_str(t, "WAN:         ");
    match r.wan {
        Some(w) => {
            w.write_status(t);
        },
        None => {
            write_str(t, "(no lease)");
        },
    }
    write_router_counts(t, r.nat, r.fwd);
    write_cpu_load(t, r.cpu1, r.cpu0);
    write_lan_load(t, r.spi0, r.net0);
}

/// The status page: access point, LAN, clients, byte counts, and on a router its state.
pub fn status_page(
    ssid: &'static str,
    lan: &LanInfo,
    leases: &[(Ipv4Address, [u8; 6])],
    router: Option<RouterInfo>,
) -> (t: Text)
    ensures
        t.wf(),
        t@ == page_text(ssid, *lan, leases@, router),
{
    let mut t: Text = Text::new(STATUS_BODY_CAP);
    write_page_top(&mut t, ssid, lan.dns, lan.uptime_s, lan.dhcp_replies, lan.rx_frames);
    write_str(&mut t, "Clients:\r\n");
    let ghost b = t@;
    let mut i: usize = 0;
    while i < leases.len()
        invariant
            i <= leases@.len(),
            t.wf(),
            t.cap == STATUS_BODY_CAP,
            t@ == clients_text(b, leases@, i as int),
        decreases leases@.len() - i,
    {
        write_client(&mut t, leases[i].0, leases[i].1);
        i = i + 1;
    }
    if leases.len() == 0 {
        write_str(&mut t, "  (none)\r\n");
    }
    write_lan_bytes(&mut t, lan.tx_bytes, lan.rx_bytes, lan.tx_busy);
    match router {
        Some(r) => {
            write_router(&mut t, &r);
        },
        None => {},
    }
    t
}

/// The same words stand in both lists, at the same places.
pub open spec fn same_words(p: Seq<Piece>, q: Seq<Piece>) -> bool {
    &&& p.len() == q.len()
    &&& forall|i: int|
        0 <= i < p.len() ==> ((#[trigger] p[i]) is Str ==> q[i] == p[i]) && (q[i] is Str ==> p[i]
            == q[i])
}

/// The places `i` and `i + 2` tell a share in per cent and tenths, with a point between.
pub open spec fn tells_share(p: Seq<Piece>, i: int, thousandths: int) -> bool {
    match (p[i], p[i + 2]) {
        (Piece::Num(a), Piece::Num(b)) => b < 10 && 10 * a + b == thousandths,
        _ => false,
    }
}

/// The place `i` tells the number `n`.
pub open spec fn tells(p: Seq<Piece>, i: int, n: int) -> bool {
    p[i] matches Piece::Num(v) && v == n
}

/// The heartbeat line tells the tick, the link pulses and the broadcasts, and its words are
/// always the same.
pub proof fn lemma_tells_r2b_line(
    tick: u32,
    nlps: u32,
    udp_sent: u32,
    tick2: u32,
    nlps2: u32,
    udp_sent2: u32,
)
    ensures
        ({
            let p = r2b_line_pieces(tick, nlps, udp_sent);
            let q = r2b_line_pieces(tick2, nlps2, udp_sent2);
            &&& p.len() == 7
            &&& same_words(p, q)
            &&& tells(p, 1, tick as int)
            &&& tells(p, 3, nlps as int)
            &&& tells(p, 5, udp_sent as int)
        }),
{
}

/// The line on the receiving core tells whether it was launched, and its ticks.
pub proof fn lemma_tells_core1_line(ok: bool, ticks: u32, ticks2: u32)
    ensures
        ({
            let p = core1_line_pieces(ok, ticks);
            let q = core1_line_pieces(ok, ticks2);
            &&& p.len() == 5
            &&& same_words(p, q)
            &&& p[1] == Piece::Str(if ok { "ok" } else { "FAIL" })
            &&& tells(p, 3, ticks as int)
        }),
{
}

/// The line of receive counts tells each count in its place, and the last destination.
pub proof fn lemma_tells_rx_line(
    decoded: u32,
    ok: u32,
    fail: u32,
    filtered: u32,
    dst: [u8; 6],
    decoded2: u32,
    ok2: u32,
    fail2: u32,
    filtered2: u32,
    dst2: [u8; 6],
)
    ensures
        ({
            let p = rx_line_pieces(decoded, ok, fail, filtered, dst);
            let q = rx_line_pieces(decoded2, ok2, fail2, filtered2, dst2);
            &&& p.len() == 11
            &&& same_words(p, q)
            &&& tells(p, 1, decoded as int)
            &&& tells(p, 3, ok as int)
            &&& tells(p, 5, fail as int)
            &&& tells(p, 7, filtered as int)
            &&& p[9] == Piece::Mac(dst)
        }),
{
}

/// The line on stitched images tells each count in its place.
pub proof fn lemma_tells_stitch_line(
    dec: u32,
    fail: u32,
    rxstall: u32,
    img_drop: u32,
    dec2: u32,
    fail2: u32,
    rxstall2: u32,
    img_drop2: u32,
)
    ensures
        ({
            let p = stitch_line_pieces(dec, fail, rxstall, img_drop);
            let q = stitch_line_pieces(dec2, fail2, rxstall2, img_drop2);
            &&& p.len() == 9
            &&& same_words(p, q)
            &&& tells(p, 1, dec as int)
            &&& tells(p, 3, fail as int)
            &&& tells(p, 5, rxstall as int)
            &&& tells(p, 7, img_drop as int)
        }),
{
}

/// The line on the upload sink tells rate, total and loops.
pub proof fn lemma_tells_sink_line(
    rx_kbps: u32,
    total_kb: u32,
    loops: u32,
    rx_kbps2: u32,
    total_kb2: u32,
    loops2: u32,
)
    ensures
        ({
            let p = sink_line_pieces(rx_kbps, total_kb, loops);
            let q = sink_line_pieces(rx_kbps2, total_kb2, loops2);
            &&& p.len() == 7
            &&& same_words(p, q)
            &&& tells(p, 1, rx_kbps as int)
            &&& tells(p, 3, total_kb as int)
            &&& tells(p, 5, loops as int)
        }),
{
}

/// A broadcast tells its number.
pub proof fn lemma_tells_udp_payload(n: u32, n2: u32)
    ensures
        ({
            let p = udp_payload_pieces(n);
            let q = udp_payload_pieces(n2);
            &&& p.len() == 2
            &&& same_words(p, q)
            &&& tells(p, 1, n as int)
        }),
{
}

/// The line on the last frame tells its length, its addresses and its type, and whether its
/// check sequence was right.
pub proof fn lemma_tells_rx_frame_line(
    len: u64,
    ok: bool,
    dst: [u8; 6],
    src: [u8; 6],
    etype: u32,
    len2: u64,
    dst2: [u8; 6],
    src2: [u8; 6],
    etype2: u32,
)
    ensures
        ({
            let p = rx_frame_line_pieces(len, ok, dst, src, etype);
            let q = rx_frame_line_pieces(len2, ok, dst2, src2, etype2);
            &&& p.len() == 11
            &&& same_words(p, q)
            &&& tells(p, 1, len as int)
            &&& p[3] == Piece::Str(if ok { "OK" } else { "FAIL" })
            &&& p[5] == Piece::Mac(dst)
            &&& p[7] == Piece::Mac(src)
            &&& p[9] == Piece::Hex4(etype)
        }),
{
}

/// The line on the wireless bring-up tells each stage and count in its place.
pub proof fn lemma_tells_cyw43_line(
    s: LanStages,
    rx: u32,
    dhcp: u32,
    hb: u32,
    s2: LanStages,
    rx2: u32,
    dhcp2: u32,
    hb2: u32,
)
    ensures
        ({
            let p = cyw43_line_pieces(s, rx, dhcp, hb);
            let q = cyw43_line_pieces(s2, rx2, dhcp2, hb2);
            &&& p.len() == 17
            &&& same_words(p, q)
            &&& tells(p, 1, s.new as int)
            &&& tells(p, 3, s.init as int)
            &&& tells(p, 5, s.led as int)
            &&& tells(p, 7, s.ap as int)
            &&& tells(p, 9, s.net as int)
            &&& tells(p, 11, rx as int)
            &&& tells(p, 13, dhcp as int)
            &&& tells(p, 15, hb as int)
        }),
{
}

/// The line of forwarding counts tells each count in its place.
pub proof fn lemma_tells_fwd_line(s: FwdStats, s2: FwdStats)
    ensures
        ({
            let p = fwd_line_pieces(s);
            let q = fwd_line_pieces(s2);
            &&& p.len() == 9
            &&& same_words(p, q)
            &&& tells(p, 1, s.l2w as int)
            &&& tells(p, 3, s.w2l as int)
            &&& tells(p, 5, s.sent as int)
            &&& tells(p, 7, s.drop as int)
        }),
{
}

/// The line of translation counts tells each count in its place, and that there are 64
/// entries.
pub proof fn lemma_tells_nat_line(c: NatCounters, c2: NatCounters)
    ensures
        ({
            let p = nat_line_pieces(c);
            let q = nat_line_pieces(c2);
            &&& p.len() == 15
            &&& same_words(p, q)
            &&& tells(p, 1, c.live as int)
            &&& tells(p, 3, 64)
            &&& tells(p, 5, c.out as int)
            &&& tells(p, 7, c.inbound as int)
            &&& tells(p, 9, c.new as int)
            &&& tells(p, 11, c.evict as int)
            &&& tells(p, 13, c.drop as int)
        }),
{
}

/// The line of rates tells each rate and count in its place, loads in per cent and tenths.
pub proof fn lemma_tells_perf_line(r: RouterRates, s: FwdStats, r2: RouterRates, s2: FwdStats)
    ensures
        ({
            let p = perf_line_pieces(r, s);
            let q = perf_line_pieces(r2, s2);
            &&& p.len() == 33
            &&& same_words(p, q)
            &&& tells(p, 1, r.up_kbs as int)
            &&& tells(p, 3, r.dn_kbs as int)
            &&& tells(p, 5, r.pps as int)
            &&& tells_share(p, 7, r.cpu1 as int)
            &&& tells_share(p, 11, r.cpu0 as int)
            &&& tells(p, 15, s.qhwm_l2w as int)
            &&& tells(p, 17, s.qhwm_w2l as int)
            &&& tells(p, 19, r.ct_hwm as int)
            &&& tells(p, 21, 64)
            &&& tells(p, 23, s.drop_qfull as int)
            &&& tells(p, 25, s.drop_nonh as int)
            &&& tells(p, 27, s.drop_nat as int)
            &&& tells(p, 29, s.drop_txbusy as int)
            &&& tells(p, 31, s.drop_other as int)
        }),
{
}

/// The header of a page tells its length.
pub proof fn lemma_tells_page_head(len: u64, len2: u64)
    ensures
        ({
            let p = page_head_pieces(len);
            let q = page_head_pieces(len2);
            &&& p.len() == 3
            &&& same_words(p, q)
            &&& tells(p, 1, len as int)
        }),
{
}

/// The header of a download tells its length.
pub proof fn lemma_tells_bulk_head(len: u64, len2: u64)
    ensures
        ({
            let p = bulk_head_pieces(len);
            let q = bulk_head_pieces(len2);
            &&& p.len() == 3
            &&& same_words(p, q)
            &&& tells(p, 1, len as int)
        }),
{
}

/// The page of the wired interface tells its uptime and its counts.
pub proof fn lemma_tells_hello_page(
    uptime_s: u32,
    nlps: u32,
    udp_sent: u32,
    uptime_s2: u32,
    nlps2: u32,
    udp_sent2: u32,
)
    ensures
        ({
            let p = hello_page_pieces(uptime_s, nlps, udp_sent);
            let q = hello_page_pieces(uptime_s2, nlps2, udp_sent2);
            &&& p.len() == 7
            &&& same_words(p, q)
            &&& tells(p, 1, uptime_s as int)
            &&& tells(p, 3, nlps as int)
            &&& tells(p, 5, udp_sent as int)
        }),
{
}

/// A serial number is the two words of the chip.
pub proof fn lemma_tells_chip_serial(wafer: u32, device: u32, wafer2: u32, device2: u32)
    ensures
        ({
            let p = chip_serial_pieces(wafer, device);
            let q = chip_serial_pieces(wafer2, device2);
            &&& p.len() == 2
            &&& same_words(p, q)
            &&& p[0] == Piece::Hex8(wafer)
            &&& p[1] == Piece::Hex8(device)
        }),
{
}

/// The media-access line tells each count in its place.
pub proof fn lemma_tells_mac_counts(m: MacCounts, m2: MacCounts)
    ensures
        ({
            let p = mac_counts_pieces(m);
            let q = mac_counts_pieces(m2);
            &&& p.len() == 19
            &&& same_words(p, q)
            &&& tells(p, 1, m.iface_rx as int)
            &&& tells(p, 3, m.tx_arp as int)
            &&& tells(p, 5, m.tx_ping as int)
            &&& tells(p, 7, m.tx_udp as int)
            &&& tells(p, 9, m.tx_other as int)
            &&& tells(p, 11, m.inbox_drop as int)
            &&& tells(p, 13, m.inbox_hwm as int)
            &&& tells(p, 15, m.carry_cap as int)
            &&& tells(p, 17, m.last_tx_len as int)
        }),
{
}

/// The LAN line tells each rate and count in its place.
pub proof fn lemma_tells_lan_rates(
    tx_kbs: u32,
    rx_kbs: u32,
    txbusy: u32,
    rxframes: u32,
    tx_kbs2: u32,
    rx_kbs2: u32,
    txbusy2: u32,
    rxframes2: u32,
)
    ensures
        ({
            let p = lan_rates_pieces(tx_kbs, rx_kbs, txbusy, rxframes);
            let q = lan_rates_pieces(tx_kbs2, rx_kbs2, txbusy2, rxframes2);
            &&& p.len() == 8
            &&& same_words(p, q)
            &&& tells(p, 1, tx_kbs as int)
            &&& tells(p, 3, rx_kbs as int)
            &&& tells(p, 5, txbusy as int)
            &&& tells(p, 7, rxframes as int)
        }),
{
}

/// The LAN line tells the loads in per cent and tenths.
pub proof fn lemma_tells_lan_split(spi0: u32, net0: u32, spi02: u32, net02: u32)
    ensures
        ({
            let p = lan_split_pieces(spi0, net0);
            let q = lan_split_pieces(spi02, net02);
            &&& p.len() == 9
            &&& same_words(p, q)
            &&& tells_share(p, 1, spi0 as int)
            &&& tells_share(p, 5, net0 as int)
        }),
{
}

/// The top of the page tells the network, the name server, the uptime and the counts.
pub proof fn lemma_tells_page_top(
    ssid: &'static str,
    dns: Ipv4Address,
    uptime_s: u64,
    dhcp: u32,
    rx: u32,
    dns2: Ipv4Address,
    uptime_s2: u64,
    dhcp2: u32,
    rx2: u32,
)
    ensures
        ({
            let p = page_top_pieces(ssid, dns, uptime_s, dhcp, rx);
            let q = page_top_pieces(ssid, dns2, uptime_s2, dhcp2, rx2);
            &&& p.len() == 11
            &&& same_words(p, q)
            &&& p[1] == Piece::Str(ssid)
            &&& p[3] == Piece::Ip(dns)
            &&& tells(p, 5, uptime_s as int)
            &&& tells(p, 7, dhcp as int)
            &&& tells(p, 9, rx as int)
        }),
{
}

/// A client is told by address and hardware address.
pub proof fn lemma_tells_client(ip: Ipv4Address, mac: [u8; 6], ip2: Ipv4Address, mac2: [u8; 6])
    ensures
        ({
            let p = client_pieces(ip, mac);
            let q = client_pieces(ip2, mac2);
            &&& p.len() == 5
            &&& same_words(p, q)
            &&& p[1] == Piece::Ip(ip)
            &&& p[3] == Piece::Mac(mac)
        }),
{
}

/// The page tells the LAN byte counts, each in its place.
pub proof fn lemma_tells_lan_bytes(tx: u32, rx: u32, txbusy: u32, tx2: u32, rx2: u32, txbusy2: u32)
    ensures
        ({
            let p = lan_bytes_pieces(tx, rx, txbusy);
            let q = lan_bytes_pieces(tx2, rx2, txbusy2);
            &&& p.len() == 7
            &&& same_words(p, q)
            &&& tells(p, 1, tx as int)
            &&& tells(p, 3, rx as int)
            &&& tells(p, 5, txbusy as int)
        }),
{
}

/// The page tells the router's counts, each in its place, and that there are 64 entries and
/// four places in a queue.
pub proof fn lemma_tells_router_counts(c: NatCounters, s: FwdStats, c2: NatCounters, s2: FwdStats)
    ensures
        ({
            let p = router_counts_pieces(c, s);
            let q = router_counts_pieces(c2, s2);
            &&& p.len() == 35
            &&& same_words(p, q)
            &&& tells(p, 1, c.live as int)
            &&& tells(p, 3, 64)
            &&& tells(p, 5, c.out as int)
            &&& tells(p, 7, c.inbound as int)
            &&& tells(p, 9, c.drop as int)
            &&& tells(p, 11, s.sent as int)
            &&& tells(p, 13, s.drop as int)
            &&& tells(p, 15, s.drop_qfull as int)
            &&& tells(p, 17, s.drop_nonh as int)
            &&& tells(p, 19, s.drop_nat as int)
            &&& tells(p, 21, s.drop_txbusy as int)
            &&& tells(p, 23, s.drop_other as int)
            &&& tells(p, 25, s.bytes_to_wan as int)
            &&& tells(p, 27, s.bytes_to_lan as int)
            &&& tells(p, 29, s.qhwm_l2w as int)
            &&& tells(p, 31, s.qhwm_w2l as int)
            &&& tells(p, 33, 4)
        }),
{
}

/// The page tells the load of the receiving core first and of the forwarding core second,
/// in per cent and tenths.
pub proof fn lemma_tells_cpu_load(c1: u32, c0: u32, c12: u32, c02: u32)
    ensures
        ({
            let p = cpu_load_pieces(c1, c0);
            let q = cpu_load_pieces(c12, c02);
            &&& p.len() == 9
            &&& same_words(p, q)
            &&& tells_share(p, 1, c1 as int)
            &&& tells_share(p, 5, c0 as int)
        }),
{
}

/// The page tells the load of the bus first and of the stack second, in per cent and
/// tenths.
pub proof fn lemma_tells_lan_load(spi0: u32, net0: u32, spi02: u32, net02: u32)
    ensures
        ({
            let p = lan_load_pieces(spi0, net0);
            let q = lan_load_pieces(spi02, net02);
            &&& p.len() == 9
            &&& same_words(p, q)
            &&& tells_share(p, 1, spi0 as int)
            &&& tells_share(p, 5, net0 as int)
        }),
{
}

/// A row of a dump begins with its label and its offset.
pub proof fn lemma_tells_row_label(label: &'static str, at: u32, at2: u32)
    ensures
        ({
            let p = row_label_pieces(label, at);
            let q = row_label_pieces(label, at2);
            &&& p.len() == 4
            &&& same_words(p, q)
            &&& p[1] == Piece::Str(label)
            &&& p[2] == Piece::Hex4(at)
        }),
{
}

/// A byte of a dump is two digits after a space.
pub proof fn lemma_tells_row_byte(b: u8, b2: u8)
    ensures
        ({
            let p = row_byte_pieces(b);
            let q = row_byte_pieces(b2);
            &&& p.len() == 2
            &&& same_words(p, q)
            &&& p[1] == Piece::Hex2(b)
        }),
{
}

/// The clients as they read where nothing is cut: one line each, in order.
pub open spec fn clients_in_full(leases: Seq<(Ipv4Address, [u8; 6])>) -> Seq<u8>
    decreases leases.len(),
{
    if leases.len() == 0 {
        Seq::empty()
    } else {
        clients_in_full(leases.drop_last()) + in_full(
            client_pieces(leases.last().0, leases.last().1),
        )
    }
}

proof fn lemma_clients_in_full(t: Seq<u8>, leases: Seq<(Ipv4Address, [u8; 6])>, n: int)
    requires
        0 <= n <= leases.len(),
        t.len() + clients_in_full(leases.take(n)).len() <= STATUS_BODY_CAP,
    ensures
        clients_text(t, leases, n) == t + clients_in_full(leases.take(n)),
    decreases n,
{
    if n == 0 {
        assert(t + clients_in_full(leases.take(0)) =~= t);
    } else {
        assert(leases.take(n).drop_last() =~= leases.take(n - 1));
        lemma_clients_in_full(t, leases, n - 1);
        let u = clients_text(t, leases, n - 1);
        let ps = client_pieces(leases[n - 1].0, leases[n - 1].1);
        lemma_run_bounds(u, STATUS_BODY_CAP as int, flat(ps));
        assert(u + in_full(ps) =~= t + clients_in_full(leases.take(n)));
    }
}

/// The router's part of the page as it reads where nothing is cut.
pub open spec fn router_in_full(r: RouterInfo) -> Seq<u8> {
    in_full(seq![Piece::Str("WAN:         ")]) + (if r.wan is Some {
        wan_in_full(r.wan->0)
    } else {
        in_full(seq![Piece::Str("(no lease)")])
    }) + in_full(router_counts_pieces(r.nat, r.fwd)) + in_full(cpu_load_pieces(r.cpu1, r.cpu0))
        + in_full(lan_load_pieces(r.spi0, r.net0))
}

/// The page as it reads where nothing is cut: its top, every client or that there is none,
/// the byte counts, and on a router the router's part.
pub open spec fn page_in_full(
    ssid: &'static str,
    lan: LanInfo,
    leases: Seq<(Ipv4Address, [u8; 6])>,
    router: Option<RouterInfo>,
) -> Seq<u8> {
    in_full(page_top_pieces(ssid, lan.dns, lan.uptime_s, lan.dhcp_replies, lan.rx_frames)) + in_full(
        seq![Piece::Str("Clients:\r\n")],
    ) + (if leases.len() > 0 {
        clients_in_full(leases)
    } else {
        in_full(seq![Piece::Str("  (none)\r\n")])
    }) + in_full(lan_bytes_pieces(lan.tx_bytes, lan.rx_bytes, lan.tx_busy)) + (if router is Some {
        router_in_full(router->0)
    } else {
        Seq::empty()
    })
}

proof fn lemma_router_in_full(t: Seq<u8>, r: RouterInfo)
    requires
        t.len() + router_in_full(r).len() <= STATUS_BODY_CAP,
    ensures
        router_text(t, r) == t + router_in_full(r),
{
    let cap = STATUS_BODY_CAP as int;
    let a = written(t, cap, str_pieces("WAN:         "));
    lemma_run_bounds(t, cap, flat(str_pieces("WAN:         ")));
    let b = match r.wan {
        Some(w) => wan_status(w, a, cap),
        None => written(a, cap, str_pieces("(no lease)")),
    };
    match r.wan {
        Some(w) => lemma_wan_in_full(w, a, cap),
        None => lemma_run_bounds(a, cap, flat(str_pieces("(no lease)"))),
    }
    let c = written(b, cap, router_counts_pieces(r.nat, r.fwd));
    lemma_run_bounds(b, cap, flat(router_counts_pieces(r.nat, r.fwd)));
    let d = written(c, cap, cpu_load_pieces(r.cpu1, r.cpu0));
    lemma_run_bounds(c, cap, flat(cpu_load_pieces(r.cpu1, r.cpu0)));
    lemma_run_bounds(d, cap, flat(lan_load_pieces(r.spi0, r.net0)));
    assert(router_text(t, r) =~= t + router_in_full(r));
}

/// A page that fits its capacity is shown in full.
pub proof fn lemma_page_in_full(
    ssid: &'static str,
    lan: LanInfo,
    leases: Seq<(Ipv4Address, [u8; 6])>,
    router: Option<RouterInfo>,
)
    requires
        page_in_full(ssid, lan, leases, router).len() <= 2304,
    ensures
        page_text(ssid, lan, leases, router) == page_in_full(ssid, lan, leases, router),
{
    let cap = STATUS_BODY_CAP as int;
    let top = page_top_pieces(ssid, lan.dns, lan.uptime_s, lan.dhcp_replies, lan.rx_frames);
    let none = Seq::<u8>::empty();
    let a = line(cap, top);
    lemma_run_bounds(none, cap, flat(top));
    assert(none + in_full(top) =~= in_full(top));
    let b = written(a, cap, str_pieces("Clients:\r\n"));
    lemma_run_bounds(a, cap, flat(str_pieces("Clients:\r\n")));
    let c = if leases.len() == 0 {
        written(b, cap, str_pieces("  (none)\r\n"))
    } else {
        clients_text(b, leases, leases.len() as int)
    };
    if leases.len() == 0 {
        lemma_run_bounds(b, cap, flat(str_pieces("  (none)\r\n")));
    } else {
        assert(leases.take(leases.len() as int) =~= leases);
        lemma_clients_in_full(b, leases, leases.len() as int);
    }
    let bytes = lan_bytes_pieces(lan.tx_bytes, lan.rx_bytes, lan.tx_busy);
    let d = written(c, cap, bytes);
    lemma_run_bounds(c, cap, flat(bytes));
    match router {
        Some(r) => lemma_router_in_full(d, r),
        None => {},
    }
    assert(page_text(ssid, lan, leases, router) =~= page_in_full(ssid, lan, leases, router));
}

/// The LAN line and the WAN line of a router, where nothing is cut: the rates, and on a
/// router the loads; whether the receiving core runs, and the status of the client or that
/// there is no lease yet.
pub proof fn lemma_lines_in_full(
    tx_kbs: u32,
    rx_kbs: u32,
    txbusy: u32,
    rxframes: u32,
    split: Option<(u32, u32)>,
    core1_ok: bool,
    wan: Option<WanState>,
)
    ensures
        ({
            let all = in_full(lan_rates_pieces(tx_kbs, rx_kbs, txbusy, rxframes)) + (match split {
                Some((spi0, net0)) => in_full(lan_split_pieces(spi0, net0)),
                None => Seq::empty(),
            }) + in_full(seq![Piece::Str("\r\n")]);
            all.len() <= 160 ==> lan_text(tx_kbs, rx_kbs, txbusy, rxframes, split) == all
        }),
        ({
            let all = in_full(wan_core1_pieces(core1_ok)) + (if wan is Some {
                wan_in_full(wan->0)
            } else {
                in_full(seq![Piece::Str("(no lease yet)")])
            }) + in_full(seq![Piece::Str("\r\n")]);
            all.len() <= 160 ==> router_wan_text(core1_ok, wan) == all
        }),
{
    let none = Seq::<u8>::empty();
    let end = str_pieces("\r\n");
    let rates = lan_rates_pieces(tx_kbs, rx_kbs, txbusy, rxframes);
    let a = line(160, rates);
    lemma_run_bounds(none, 160, flat(rates));
    assert(none + in_full(rates) =~= in_full(rates));
    let b = match split {
        Some((spi0, net0)) => written(a, 160, lan_split_pieces(spi0, net0)),
        None => a,
    };
    match split {
        Some((spi0, net0)) => lemma_run_bounds(a, 160, flat(lan_split_pieces(spi0, net0))),
        None => {},
    }
    lemma_run_bounds(b, 160, flat(end));
    let first = in_full(rates) + (match split {
        Some((spi0, net0)) => in_full(lan_split_pieces(spi0, net0)),
        None => Seq::empty(),
    }) + in_full(end);
    if first.len() <= 160 {
        assert(written(b, 160, end) =~= first);
    }
    let core = wan_core1_pieces(core1_ok);
    let c = line(160, core);
    lemma_run_bounds(none, 160, flat(core));
    assert(none + in_full(core) =~= in_full(core));
    let d = match wan {
        Some(w) => wan_status(w, c, 160),
        None => written(c, 160, str_pieces("(no lease yet)")),
    };
    match wan {
        Some(w) => lemma_wan_in_full(w, c, 160),
        None => lemma_run_bounds(c, 160, flat(str_pieces("(no lease yet)"))),
    }
    lemma_run_bounds(d, 160, flat(end));
    let second = in_full(core) + (if wan is Some {
        wan_in_full(wan->0)
    } else {
        in_full(str_pieces("(no lease yet)"))
    }) + in_full(end);
    if second.len() <= 160 {
        assert(written(d, 160, end) =~= second);
    }
}

/// The rows of a dump: sixteen bytes each, the last with what is left, in order, so that the
/// rows end to end are the data.
pub proof fn lemma_rows(data: Seq<u8>, k: int)
    requires
        0 <= k,
        16 * k < data.len(),
    ensures
        forall|i: int| 0 <= i < row_data(data, k).len() ==> #[trigger] row_data(data, k)[i]
            == data[16 * k + i],
        row_data(data, k).len() == if data.len() - 16 * k < 16 {
            data.len() - 16 * k
        } else {
            16
        },
{
}

/// What is told of the last frame: its destination and its type, or zeros where it was too
/// short to have them.
pub proof fn lemma_last_frame(snap: Seq<u8>)
    ensures
        last_dst_of(snap).len() == 6,
        snap.len() >= 6 ==> last_dst_of(snap) == snap.take(6),
        snap.len() < 6 ==> forall|i: int| 0 <= i < 6 ==> #[trigger] last_dst_of(snap)[i] == 0,
        snap.len() >= 14 ==> etype_of(snap) == 256 * snap[12] + snap[13],
        snap.len() < 14 ==> etype_of(snap) == 0,
{
    if snap.len() >= 6 {
        assert(last_dst_of(snap) =~= snap.take(6));
    }
}

/// The row of a dump as it reads where nothing is cut: label and offset, and every byte.
pub open spec fn bytes_in_full(data: Seq<u8>) -> Seq<u8>
    decreases data.len(),
{
    if data.len() == 0 {
        Seq::empty()
    } else {
        bytes_in_full(data.drop_last()) + in_full(seq![Piece::Str(" "), Piece::Hex2(data.last())])
    }
}

proof fn lemma_bytes_in_full(t: Seq<u8>, data: Seq<u8>, n: int)
    requires
        0 <= n <= data.len(),
        t.len() + bytes_in_full(data.take(n)).len() <= 160,
    ensures
        row_bytes(t, data, n) == t + bytes_in_full(data.take(n)),
    decreases n,
{
    if n == 0 {
        assert(t + bytes_in_full(data.take(0)) =~= t);
    } else {
        assert(data.take(n).drop_last() =~= data.take(n - 1));
        lemma_bytes_in_full(t, data, n - 1);
        let u = row_bytes(t, data, n - 1);
        let ps = row_byte_pieces(data[n - 1]);
        assert(ps =~= seq![Piece::Str(" "), Piece::Hex2(data[n - 1])]);
        lemma_run_bounds(u, 160, flat(ps));
        assert(u + in_full(ps) =~= t + bytes_in_full(data.take(n)));
    }
}

/// A row that fits is shown in full.
pub proof fn lemma_row_in_full(label: &'static str, at: u32, data: Seq<u8>)
    ensures
        ({
            let all = in_full(row_label_pieces(label, at)) + bytes_in_full(data) + in_full(
                seq![Piece::Str("\n")],
            );
            all.len() <= 160 ==> dump_row(label, at, data) == all
        }),
{
    let head = row_label_pieces(label, at);
    let end = str_pieces("\n");
    let all = in_full(head) + bytes_in_full(data) + in_full(end);
    if all.len() <= 160 {
        let none = Seq::<u8>::empty();
        lemma_run_bounds(none, 160, flat(head));
        assert(none + in_full(head) =~= in_full(head));
        assert(data.take(data.len() as int) =~= data);
        lemma_bytes_in_full(in_full(head), data, data.len() as int);
        let u = row_bytes(in_full(head), data, data.len() as int);
        lemma_run_bounds(u, 160, flat(end));
        assert(u + in_full(end) =~= all);
    }
}

/// A dump has a row for every sixteen bytes and for what is left, each with its offset.
pub proof fn lemma_dump(rows: Seq<Text>, label: &'static str, data: Seq<u8>, k: int)
    requires
        is_dump(rows, label, data),
        0 <= k < rows.len(),
        16 * k <= u32::MAX,
    ensures
        data.len() <= 16 * rows.len() < data.len() + 16,
        rows[k]@ == dump_row(label, (16 * k) as u32, row_data(data, k)),
{
}

/// The media-access line tells the counts that were kept, each its own.
pub proof fn lemma_counts(m: EthMacStats, rx: EthRxStats, c: MacCounts)
    requires
        counts_of(m, rx, c),
    ensures
        (c.iface_rx, c.tx_arp, c.tx_ping) == (m.rx_handed_out, m.tx_arp, m.tx_icmp),
        (c.tx_udp, c.tx_other) == (m.tx_udp, m.tx_other),
        (c.inbox_drop, c.carry_cap) == (rx.inbox_dropped, rx.carry_capped),
        c.inbox_hwm == rx.inbox_high_water,
        c.last_tx_len == m.last_tx_len,
{
}

/// The shorter of two lengths is one of them, and no longer than the other.
pub proof fn lemma_shorter(a: int, b: int)
    ensures
        shorter(a, b) <= a && shorter(a, b) <= b,
        shorter(a, b) == a || shorter(a, b) == b,
{
}

/// Whether the receiving core runs is told in a word, and a chip without a number has
/// sixteen zeros for one.
pub proof fn lemma_tells_words(ok: bool)
    ensures
        wan_core1_pieces(ok).len() == 3,
        wan_core1_pieces(ok)[0] == Piece::Str("[Wan] core1="),
        wan_core1_pieces(ok)[1] == Piece::Str(if ok { "ok" } else { "FAIL" }),
        wan_core1_pieces(ok)[2] == Piece::Str(" "),
        no_serial_pieces() == seq![Piece::Str("0000000000000000")],
{
    assert(no_serial_pieces() =~= seq![Piece::Str("0000000000000000")]);
}

} // verus!
