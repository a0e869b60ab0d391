//! Transmit path: what goes to the line, and when.
//!
//! Frames become lists of transmit words (see [`crate::manchester`]): preamble, start
//! delimiter, body padded to the minimum, check sequence, end-of-frame marker and the
//! gap. Access to the line is carrier sense with random backoff, bounded so that a
//! stuck carrier cannot hold a frame back for ever.

use vstd::prelude::*;

use crate::checksum::{
    checksum_of, checksum_full, fold16, lemma_fold_shift, lemma_word_sum_bound,
    lemma_word_sum_put, word_sum,
};
use crate::crc::{crc32, crc32_ieee802_3, crc32_ieee802_3_padded, zeros};
use crate::eth_rx::{fcs_valid, le32};
use crate::manchester::{manchester_word, manchester_words};
use crate::wire::put16;

verus! {

/// IPv4/UDP parameters that do not change from frame to frame.
#[derive(Clone, Copy, Debug)]
pub struct UdpEndpoint {
    pub src_mac: [u8; 6],
    pub dst_mac: [u8; 6],
    pub src_ip: [u8; 4],
    pub dst_ip: [u8; 4],
    pub src_port: u16,
    pub dst_port: u16,
}

/// Longest UDP payload.
pub const MAX_UDP_PAYLOAD: usize = 1472;

/// Shortest frame body.
pub const MIN_BODY: usize = 60;

/// Most spins spent waiting for the carrier to go.
pub const CARRIER_WAIT_SPINS: u32 = 200_000;

/// One backoff slot, in cycles.
pub const CSMA_SLOT_CYCLES: u32 = 240;

/// Mask of the random number of backoff slots.
pub const CSMA_BACKOFF_MASK: u32 = 0x0F;

/// Attempts before transmitting anyway.
pub const CSMA_MAX_ATTEMPTS: u32 = 10;

/// A normal link pulse.
pub const NLP_WORD: u32 = 0x0000_000A;

/// End-of-frame marker.
pub const TP_IDL_WORD: u32 = 0x0000_0AAA;

/// Idle words of the gap between frames.
pub const IFG_WORDS: usize = 12;

/// Idle words.
pub open spec fn idle_words(n: nat) -> Seq<u32> {
    Seq::new(n, |i: int| 0u32)
}

/// Preamble and start delimiter.
pub open spec fn preamble() -> Seq<u8> {
    seq![0x55, 0x55, 0x55, 0x55, 0x55, 0x55, 0x55, 0xD5]
}

/// The four bytes of a check sequence, least significant first.
pub open spec fn fcs_bytes(crc: u32) -> Seq<u8> {
    seq![
        (crc % 0x100) as u8,
        (crc / 0x100 % 0x100) as u8,
        (crc / 0x1_0000 % 0x100) as u8,
        (crc / 0x100_0000) as u8,
    ]
}

/// A body padded with zeros to the minimum.
pub open spec fn padded(body: Seq<u8>) -> Seq<u8> {
    if body.len() < MIN_BODY {
        body + zeros((MIN_BODY - body.len()) as nat)
    } else {
        body
    }
}

/// A frame as it is checked by the receiver: padded body and check sequence.
pub open spec fn framed(body: Seq<u8>) -> Seq<u8> {
    padded(body) + fcs_bytes(crc32(padded(body)))
}

/// The words of a link pulse and its gap.
pub open spec fn nlp_words() -> Seq<u32> {
    seq![NLP_WORD] + idle_words(IFG_WORDS as nat)
}

/// End-of-frame marker and gap.
pub open spec fn frame_end() -> Seq<u32> {
    seq![TP_IDL_WORD] + idle_words(IFG_WORDS as nat)
}

/// The words of a frame with body `body`.
pub open spec fn raw_frame_words(body: Seq<u8>) -> Seq<u32> {
    manchester_words(preamble() + framed(body)) + frame_end()
}

/// The IPv4 header of a UDP packet, with checksum field `ck`.
pub open spec fn ip_header(ep: UdpEndpoint, total_len: u16, ip_id: u16, ck: u16) -> Seq<u8> {
    seq![
        0x45u8,
        0x00,
        (total_len / 256) as u8,
        (total_len % 256) as u8,
        (ip_id / 256) as u8,
        (ip_id % 256) as u8,
        0x40,
        0x00,
        0x40,
        0x11,
        (ck / 256) as u8,
        (ck % 256) as u8,
    ] + ep.src_ip@ + ep.dst_ip@
}

/// The UDP header of a packet without checksum.
pub open spec fn udp_header(ep: UdpEndpoint, udp_len: u16) -> Seq<u8> {
    seq![
        (ep.src_port / 256) as u8,
        (ep.src_port % 256) as u8,
        (ep.dst_port / 256) as u8,
        (ep.dst_port % 256) as u8,
        (udp_len / 256) as u8,
        (udp_len % 256) as u8,
        0x00,
        0x00,
    ]
}

/// The checksum of the IPv4 header of a UDP packet.
pub open spec fn ip_header_checksum(ep: UdpEndpoint, total_len: u16, ip_id: u16) -> u16 {
    checksum_of(word_sum(ip_header(ep, total_len, ip_id, 0))) as u16
}

/// A UDP packet in an Ethernet frame, without preamble and check sequence.
pub open spec fn udp_body(ep: UdpEndpoint, payload: Seq<u8>, ip_id: u16) -> Seq<u8> {
    let udp_len = (payload.len() + 8) as u16;
    let total_len = (payload.len() + 28) as u16;
    ep.dst_mac@ + ep.src_mac@ + seq![0x08u8, 0x00] + ip_header(
        ep,
        total_len,
        ip_id,
        ip_header_checksum(ep, total_len, ip_id),
    ) + udp_header(ep, udp_len) + payload
}

/// The bytes of a UDP frame on the line: preamble, packet, check sequence. It is not
/// padded.
pub open spec fn udp_frame(ep: UdpEndpoint, payload: Seq<u8>, ip_id: u16) -> Seq<u8> {
    let body = udp_body(ep, payload, ip_id);
    preamble() + body + fcs_bytes(crc32(body))
}

/// Append `s`.
fn append(v: &mut Vec<u8>, s: &[u8])
    ensures
        final(v)@ == old(v)@ + s@,
{
    let ghost v0 = v@;
    let mut i: usize = 0;
    assert(s@.take(0) =~= Seq::<u8>::empty());
    assert(v0 + s@.take(0) =~= v0);
    while i < s.len()
        invariant
            i <= s@.len(),
            v@ == v0 + s@.take(i as int),
        decreases s@.len() - i,
    {
        v.push(s[i]);
        i = i + 1;
        assert(v@ =~= v0 + s@.take(i as int));
    }
    assert(s@.take(i as int) =~= s@);
}

/// Append the words of `bytes`.
fn append_words(v: &mut Vec<u32>, bytes: &[u8])
    ensures
        final(v)@ == old(v)@ + manchester_words(bytes@),
{
    let ghost v0 = v@;
    let mut i: usize = 0;
    assert(v0 + manchester_words(bytes@).take(0) =~= v0);
    while i < bytes.len()
        invariant
            i <= bytes@.len(),
            v@ == v0 + manchester_words(bytes@).take(i as int),
        decreases bytes@.len() - i,
    {
        v.push(manchester_word(bytes[i]));
        i = i + 1;
        assert(v@ =~= v0 + manchester_words(bytes@).take(i as int));
    }
    assert(manchester_words(bytes@).take(i as int) =~= manchester_words(bytes@));
}

/// Append the words of `n` zero bytes.
fn append_zero_words(v: &mut Vec<u32>, n: usize)
    ensures
        final(v)@ == old(v)@ + manchester_words(zeros(n as nat)),
{
    let ghost v0 = v@;
    let mut i: usize = 0;
    assert(v0 + manchester_words(zeros(0)) =~= v0);
    while i < n
        invariant
            i <= n,
            v@ == v0 + manchester_words(zeros(i as nat)),
        decreases n - i,
    {
        v.push(manchester_word(0));
        i = i + 1;
        assert(v@ =~= v0 + manchester_words(zeros(i as nat)));
    }
}

/// Append a marker and the gap.
fn append_end(v: &mut Vec<u32>, marker: u32)
    ensures
        final(v)@ == old(v)@ + (seq![marker] + idle_words(IFG_WORDS as nat)),
{
    let ghost v0 = v@;
    v.push(marker);
    let mut i: usize = 0;
    assert(v@ =~= v0 + (seq![marker] + idle_words(0)));
    while i < IFG_WORDS
        invariant
            i <= IFG_WORDS,
            v@ == v0 + (seq![marker] + idle_words(i as nat)),
        decreases IFG_WORDS - i,
    {
        v.push(0);
        i = i + 1;
        assert(v@ =~= v0 + (seq![marker] + idle_words(i as nat)));
    }
}

/// The bytes of a check sequence, least significant first.
fn fcs_le(crc: u32) -> (r: [u8; 4])
    ensures
        r@ == fcs_bytes(crc),
{
    let r: [u8; 4] = [
        (crc % 0x100) as u8,
        (crc / 0x100 % 0x100) as u8,
        (crc / 0x1_0000 % 0x100) as u8,
        (crc / 0x100_0000) as u8,
    ];
    assert(r@ =~= fcs_bytes(crc));
    r
}

/// The internet checksum of an IPv4 header.
fn ipv4_checksum(header: &[u8]) -> (r: u16)
    ensures
        r == checksum_of(word_sum(header@)),
{
    checksum_full(header)
}

/// The IPv4 header of a UDP packet, checksum included.
fn build_ip_header(ep: &UdpEndpoint, total_len: u16, ip_id: u16) -> (h: [u8; 20])
    ensures
        h@ == ip_header(*ep, total_len, ip_id, ip_header_checksum(*ep, total_len, ip_id)),
{
    let s: [u8; 4] = ep.src_ip;
    let d: [u8; 4] = ep.dst_ip;
    let mut h: [u8; 20] = [
        0x45,
        0x00,
        (total_len / 256) as u8,
        (total_len % 256) as u8,
        (ip_id / 256) as u8,
        (ip_id % 256) as u8,
        0x40,
        0x00,
        0x40,
        0x11,
        0,
        0,
        s[0],
        s[1],
        s[2],
        s[3],
        d[0],
        d[1],
        d[2],
        d[3],
    ];
    assert(h@ =~= ip_header(*ep, total_len, ip_id, 0));
    let ck: u16 = ipv4_checksum(&h);
    h[10] = (ck / 256) as u8;
    h[11] = (ck % 256) as u8;
    assert(h@ =~= ip_header(*ep, total_len, ip_id, ck));
    h
}

/// The on-wire bytes of a UDP packet: preamble, Ethernet, IP and UDP headers, payload,
/// check sequence.
pub fn build_eth_ipv4_udp_frame(ep: &UdpEndpoint, payload: &[u8], ip_id: u16) -> (out: Vec<u8>)
    requires
        payload@.len() + 28 <= u16::MAX,
    ensures
        out@ == udp_frame(*ep, payload@, ip_id),
{
    let udp_len: u16 = (payload.len() + 8) as u16;
    let total_len: u16 = 20 + udp_len;
    let mut body: Vec<u8> = Vec::new();
    append(&mut body, &ep.dst_mac);
    append(&mut body, &ep.src_mac);
    append(&mut body, &[0x08, 0x00]);
    let ip: [u8; 20] = build_ip_header(ep, total_len, ip_id);
    append(&mut body, &ip);
    let udp: [u8; 8] = [
        (ep.src_port / 256) as u8,
        (ep.src_port % 256) as u8,
        (ep.dst_port / 256) as u8,
        (ep.dst_port % 256) as u8,
        (udp_len / 256) as u8,
        (udp_len % 256) as u8,
        0x00,
        0x00,
    ];
    append(&mut body, &udp);
    append(&mut body, payload);
    proof {
        let etype: [u8; 2] = [0x08, 0x00];
        assert(etype@ =~= seq![0x08u8, 0x00]);
        assert(udp@ =~= udp_header(*ep, udp_len));
        assert(body@ =~= udp_body(*ep, payload@, ip_id));
    }
    let crc: u32 = crc32_ieee802_3(&body);
    let mut out: Vec<u8> = Vec::new();
    let pre: [u8; 8] = [0x55, 0x55, 0x55, 0x55, 0x55, 0x55, 0x55, 0xD5];
    assert(pre@ =~= preamble());
    append(&mut out, &pre);
    append(&mut out, &body);
    append(&mut out, &fcs_le(crc));
    assert(out@ =~= udp_frame(*ep, payload@, ip_id));
    out
}

/// One step of the xorshift generator.
pub open spec fn xorshift(x: u32) -> u32 {
    let a = x ^ (x << 13u32);
    let b = a ^ (a >> 17u32);
    b ^ (b << 5u32)
}

/// The generator never gets stuck at zero.
pub proof fn lemma_xorshift_nonzero(x: u32)
    by (bit_vector)
    requires
        x != 0,
    ensures
        xorshift(x) != 0,
{
}

proof fn lemma_backoff_bound(x: u32)
    by (bit_vector)
    ensures
        x & 0x0F <= 15,
{
}

/// Where the contest for the line stands.
#[derive(Clone, Copy, Debug, PartialEq, Eq, Structural)]
pub enum Csma {
    /// Waiting for the carrier to go: attempts and spins so far.
    Waiting { attempt: u32, spins: u32 },
    /// Backed off; the line is to be sensed once more.
    BackedOff { attempt: u32 },
    /// The line is taken.
    Acquired,
}

impl Csma {
    /// The counts are below their limits.
    pub open spec fn wf(self) -> bool {
        match self {
            Csma::Waiting { attempt, spins } => attempt < CSMA_MAX_ATTEMPTS && spins
                < CARRIER_WAIT_SPINS,
            Csma::BackedOff { attempt } => attempt < CSMA_MAX_ATTEMPTS,
            Csma::Acquired => true,
        }
    }
}

/// The contest after one look at the carrier, where `lfsr` is the generator's state: the
/// next state, the backoff in cycles, and the generator's state.
pub open spec fn csma_next(s: Csma, carrier: bool, lfsr: u32) -> (Csma, u32, u32) {
    match s {
        Csma::Waiting { attempt, spins } => if carrier && spins + 1 < CARRIER_WAIT_SPINS {
            (Csma::Waiting { attempt, spins: (spins + 1) as u32 }, 0, lfsr)
        } else {
            (
                Csma::BackedOff { attempt },
                ((xorshift(lfsr) & CSMA_BACKOFF_MASK) * CSMA_SLOT_CYCLES) as u32,
                xorshift(lfsr),
            )
        },
        Csma::BackedOff { attempt } => if carrier && attempt + 1 < CSMA_MAX_ATTEMPTS {
            (Csma::Waiting { attempt: (attempt + 1) as u32, spins: 0 }, 0, lfsr)
        } else {
            (Csma::Acquired, 0, lfsr)
        },
        Csma::Acquired => (Csma::Acquired, 0, lfsr),
    }
}

/// How many more looks at the carrier the contest can take.
pub open spec fn csma_left(s: Csma) -> int {
    match s {
        Csma::Waiting { attempt, spins } => (CSMA_MAX_ATTEMPTS - attempt) * 200_001 - spins,
        Csma::BackedOff { attempt } => (CSMA_MAX_ATTEMPTS - attempt - 1) * 200_001 + 1,
        Csma::Acquired => 0,
    }
}

/// A stuck carrier cannot hold a frame back for ever: every look brings the contest
/// nearer to its end, whatever the carrier does, and at the end the line is taken.
pub proof fn lemma_csma_ends(s: Csma, carrier: bool, lfsr: u32)
    requires
        s.wf(),
    ensures
        csma_next(s, carrier, lfsr).0.wf(),
        s != Csma::Acquired ==> 0 <= csma_left(csma_next(s, carrier, lfsr).0) < csma_left(s),
        csma_left(s) >= 0,
        csma_left(s) == 0 ==> s == Csma::Acquired,
{
}

/// A line seen idle after the backoff is taken; one seen busy is not, until the last
/// attempt.
pub proof fn lemma_csma_defers(attempt: u32, carrier: bool, lfsr: u32)
    requires
        attempt < CSMA_MAX_ATTEMPTS,
    ensures
        csma_next(Csma::BackedOff { attempt }, carrier, lfsr).0 == Csma::Acquired <==> !carrier
            || attempt + 1 == CSMA_MAX_ATTEMPTS,
{
}

/// Transmit state.
pub struct EthTx {
    /// IPv4 identification of the next UDP packet.
    pub ip_identifier: u16,
    /// State of the backoff generator.
    pub lfsr: u32,
}

impl EthTx {
    /// The generator is not at zero.
    pub open spec fn wf(&self) -> bool {
        self.lfsr != 0
    }

    /// Nothing sent yet.
    pub fn new() -> (r: EthTx)
        ensures
            r.wf(),
            r.ip_identifier == 0,
            r.lfsr == 0x2545_F491,
    {
        EthTx { ip_identifier: 0, lfsr: 0x2545_F491 }
    }

    /// Step the generator.
    fn next_rand(&mut self) -> (r: u32)
        requires
            old(self).wf(),
        ensures
            r == xorshift(old(self).lfsr),
            final(self).lfsr == r,
            final(self).ip_identifier == old(self).ip_identifier,
            final(self).wf(),
    {
        proof {
            lemma_xorshift_nonzero(self.lfsr);
        }
        let mut x: u32 = self.lfsr;
        x = x ^ (x << 13u32);
        x = x ^ (x >> 17u32);
        x = x ^ (x << 5u32);
        self.lfsr = x;
        x
    }

    /// Start of a contest for the line.
    pub fn csma_start() -> (s: Csma)
        ensures
            s == (Csma::Waiting { attempt: 0, spins: 0 }),
            s.wf(),
    {
        Csma::Waiting { attempt: 0, spins: 0 }
    }

    /// One look at the carrier: the next state of the contest, and how many cycles to
    /// delay before the next look.
    pub fn csma_acquire(&mut self, s: Csma, carrier: bool) -> (r: (Csma, u32))
        requires
            old(self).wf(),
            s.wf(),
        ensures
            ({
                let (next, delay, lfsr) = csma_next(s, carrier, old(self).lfsr);
                &&& r == (next, delay)
                &&& final(self).lfsr == lfsr
            }),
            final(self).ip_identifier == old(self).ip_identifier,
            final(self).wf(),
            r.0.wf(),
            r.1 <= 15 * CSMA_SLOT_CYCLES,
    {
        match s {
            Csma::Waiting { attempt, spins } => {
                if carrier && spins + 1 < CARRIER_WAIT_SPINS {
                    (Csma::Waiting { attempt, spins: spins + 1 }, 0)
                } else {
                    let x: u32 = self.next_rand();
                    proof {
                        lemma_backoff_bound(x);
                    }
                    (Csma::BackedOff { attempt }, (x & CSMA_BACKOFF_MASK) * CSMA_SLOT_CYCLES)
                }
            },
            Csma::BackedOff { attempt } => {
                if carrier && attempt + 1 < CSMA_MAX_ATTEMPTS {
                    (Csma::Waiting { attempt: attempt + 1, spins: 0 }, 0)
                } else {
                    (Csma::Acquired, 0)
                }
            },
            Csma::Acquired => (Csma::Acquired, 0),
        }
    }

    /// One look at the carrier while only waiting for it to go, after `spins` others:
    /// the number of spins with which to look again, or `None` once the wait is over.
    pub fn wait_carrier_idle(spins: u32, carrier: bool) -> (r: Option<u32>)
        requires
            spins < CARRIER_WAIT_SPINS,
        ensures
            r == wait_on(spins, carrier),
    {
        if carrier && spins + 1 < CARRIER_WAIT_SPINS {
            Some(spins + 1)
        } else {
            None
        }
    }

    /// The words of a link pulse: 100 ns high, then the gap, which keeps a preamble that
    /// follows out of the peer's window after a pulse.
    pub fn send_nlp(&self) -> (w: Vec<u32>)
        ensures
            w@ == nlp_words(),
    {
        let mut w: Vec<u32> = Vec::new();
        append_end(&mut w, NLP_WORD);
        assert(w@ =~= nlp_words());
        w
    }

    /// The words of a frame with body `body` (destination address to payload): preamble,
    /// delimiter, body, padding to 60 bytes, check sequence, end marker and gap.
    pub fn send_raw_frame(&self, body: &[u8]) -> (w: Vec<u32>)
        ensures
            w@ == raw_frame_words(body@),
    {
        let pad_len: usize = MIN_BODY.saturating_sub(body.len());
        let crc: u32 = if pad_len == 0 {
            crc32_ieee802_3(body)
        } else {
            crc32_ieee802_3_padded(body, pad_len)
        };
        let pre: [u8; 8] = [0x55, 0x55, 0x55, 0x55, 0x55, 0x55, 0x55, 0xD5];
        let fcs: [u8; 4] = fcs_le(crc);
        let mut w: Vec<u32> = Vec::new();
        append_words(&mut w, &pre);
        append_words(&mut w, body);
        append_zero_words(&mut w, pad_len);
        append_words(&mut w, &fcs);
        append_end(&mut w, TP_IDL_WORD);
        proof {
            assert(pre@ =~= preamble());
            let pad = zeros(pad_len as nat);
            assert(padded(body@) =~= body@ + pad);
            assert(crc == crc32(padded(body@)));
            lemma_words_concat(preamble(), framed(body@));
            lemma_words_concat(padded(body@), fcs@);
            lemma_words_concat(body@, pad);
            assert(w@ =~= raw_frame_words(body@));
        }
        w
    }

    /// The words of a UDP packet around `payload`; each has its own identification.
    pub fn send_udp_broadcast(&mut self, ep: &UdpEndpoint, payload: &[u8]) -> (w: Vec<u32>)
        requires
            payload@.len() <= MAX_UDP_PAYLOAD,
        ensures
            w@ == manchester_words(udp_frame(*ep, payload@, old(self).ip_identifier))
                + frame_end(),
            final(self).ip_identifier == (old(self).ip_identifier + 1) % 0x1_0000,
            final(self).lfsr == old(self).lfsr,
    {
        let bytes: Vec<u8> = build_eth_ipv4_udp_frame(ep, payload, self.ip_identifier);
        self.ip_identifier = self.ip_identifier.wrapping_add(1);
        let mut w: Vec<u32> = Vec::new();
        append_words(&mut w, &bytes);
        append_end(&mut w, TP_IDL_WORD);
        assert(w@ =~= manchester_words(bytes@) + frame_end());
        w
    }
}

/// Words of consecutive pieces follow one another.
pub(crate) proof fn lemma_words_concat(a: Seq<u8>, b: Seq<u8>)
    ensures
        manchester_words(a + b) == manchester_words(a) + manchester_words(b),
{
    assert(manchester_words(a + b) =~= manchester_words(a) + manchester_words(b));
}

/// The bytes of a check sequence spell it.
pub(crate) proof fn lemma_fcs_spells(crc: u32)
    ensures
        fcs_bytes(crc).len() == 4,
        le32(fcs_bytes(crc), 0) == crc,
{
}

/// A receiver accepts what is sent: the check sequence of a frame is right.
pub proof fn lemma_framed_is_valid(body: Seq<u8>)
    ensures
        framed(body).len() >= 64,
        fcs_valid(framed(body), framed(body).len() as int),
{
    let f = framed(body);
    let n = padded(body).len() as int;
    lemma_fcs_spells(crc32(padded(body)));
    assert(f.take(n) =~= padded(body));
    assert(le32(f, n) == le32(fcs_bytes(crc32(padded(body))), 0));
}

/// A receiver accepts the UDP packets: the IPv4 header checksum and the check sequence
/// are right.
pub proof fn lemma_udp_frame_is_valid(ep: UdpEndpoint, payload: Seq<u8>, ip_id: u16)
    requires
        payload.len() + 28 <= u16::MAX,
    ensures
        ({
            let frame = udp_frame(ep, payload, ip_id).skip(8);
            &&& frame.len() == payload.len() + 46
            &&& fold16(word_sum(frame.subrange(14, 34))) == 65535
            &&& fcs_valid(frame, frame.len() as int)
        }),
{
    let body = udp_body(ep, payload, ip_id);
    let frame = udp_frame(ep, payload, ip_id).skip(8);
    assert(frame =~= body + fcs_bytes(crc32(body)));
    lemma_fcs_spells(crc32(body));
    let n = body.len() as int;
    assert(frame.take(n) =~= body);
    assert(le32(frame, n) == le32(fcs_bytes(crc32(body)), 0));
    let total_len = (payload.len() + 28) as u16;
    let z = ip_header(ep, total_len, ip_id, 0);
    let ck = ip_header_checksum(ep, total_len, ip_id);
    let h = ip_header(ep, total_len, ip_id, ck);
    assert(frame.subrange(14, 34) =~= h);
    assert(h =~= put16(z, 10, ck));
    lemma_word_sum_put(z, 10, ck);
    lemma_word_sum_bound(z);
    lemma_word_sum_bound(z.skip(2));
    let s = word_sum(z);
    assert(s > 0);
    let k = (s - 1) / 65535;
    assert(s + ck == 65535 * (k + 1));
    lemma_fold_shift(0, k + 1);
}

/// The number of spins with which to look again at the carrier, if it is to be looked at.
pub open spec fn wait_on(spins: u32, carrier: bool) -> Option<u32> {
    if carrier && spins + 1 < CARRIER_WAIT_SPINS {
        Some((spins + 1) as u32)
    } else {
        None
    }
}

/// A carrier is waited for while it is there, for up to 200000 looks.
pub proof fn lemma_wait(spins: u32, carrier: bool)
    requires
        spins < 200_000,
    ensures
        wait_on(spins, carrier) is Some <==> carrier && spins < 199_999,
        wait_on(spins, carrier) matches Some(n) ==> n == spins + 1,
{
}

} // verus!
