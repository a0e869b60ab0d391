//! What goes over the line and what is made of it, bit by bit and byte by byte.
//!
//! The laws here speak of words, samples and bytes as they stand in the buffers.

use vstd::prelude::*;

use crate::checksum::{fold16, lemma_word_sum_bound, word_sum};
use crate::crc::{crc32, lemma_crc_residue, lemma_only_the_crc_checks, sent_crc, zeros};
use crate::eth_mac::{
    accepts, merged, publishes, queue_counted, queued, scanned, tallied, verdict, RxTally, Tally,
    Verdict,
};
use crate::eth_rx::{
    active, at_most, declared_len, fcs_valid, first_fall, falls, lemma_open_count,
    lemma_last_run_start, long_run_at, next_run, open_bits, open_count, open_loop_cap,
    open_loop_frame, open_pos, pair_of_ones, peeked_mac, quiet_at, run_end, samples_from, settled,
    sfd_end, stitched, EthRx,
};
use crate::eth_rx_dpll::{anchor, first_anchor, length_cap, track_bits, tracked_frame};
use crate::eth_tx::{
    csma_next, fcs_bytes, framed, ip_header, lemma_udp_frame_is_valid, nlp_words, padded, preamble,
    raw_frame_words, udp_body, udp_frame, xorshift, Csma, UdpEndpoint,
};
use crate::manchester::manchester;
use crate::samples::{pack, sample};
use crate::search::{least, lemma_least, lemma_least_found};
use crate::tracking::counts_up;

verus! {

proof fn lemma_nibbles(b: u8, w: u32)
    by (bit_vector)
    requires
        w == manchester(b),
    ensures
        w & 0xF == if b & 1 == 1 { 9u32 } else { 6u32 },
        (w >> 4) & 0xF == if (b >> 1) & 1 == 1 { 9u32 } else { 6u32 },
        (w >> 8) & 0xF == if (b >> 2) & 1 == 1 { 9u32 } else { 6u32 },
        (w >> 12) & 0xF == if (b >> 3) & 1 == 1 { 9u32 } else { 6u32 },
        (w >> 16) & 0xF == if (b >> 4) & 1 == 1 { 9u32 } else { 6u32 },
        (w >> 20) & 0xF == if (b >> 5) & 1 == 1 { 9u32 } else { 6u32 },
        (w >> 24) & 0xF == if (b >> 6) & 1 == 1 { 9u32 } else { 6u32 },
        (w >> 28) & 0xF == if (b >> 7) & 1 == 1 { 9u32 } else { 6u32 },
{
}

/// The line code: of every byte, from the least significant bit on, a one is sent as low
/// (1) and then high (2), a zero as high and then low.
pub proof fn lemma_line_code(b: u8)
    ensures
        ({
            let w = manchester(b);
            &&& w & 0xF == if b & 1 == 1 { 9u32 } else { 6u32 }
            &&& (w >> 4) & 0xF == if (b >> 1) & 1 == 1 { 9u32 } else { 6u32 }
            &&& (w >> 8) & 0xF == if (b >> 2) & 1 == 1 { 9u32 } else { 6u32 }
            &&& (w >> 12) & 0xF == if (b >> 3) & 1 == 1 { 9u32 } else { 6u32 }
            &&& (w >> 16) & 0xF == if (b >> 4) & 1 == 1 { 9u32 } else { 6u32 }
            &&& (w >> 20) & 0xF == if (b >> 5) & 1 == 1 { 9u32 } else { 6u32 }
            &&& (w >> 24) & 0xF == if (b >> 6) & 1 == 1 { 9u32 } else { 6u32 }
            &&& (w >> 28) & 0xF == if (b >> 7) & 1 == 1 { 9u32 } else { 6u32 }
        }),
{
    lemma_nibbles(b, manchester(b));
}

/// What a frame is: the body, zeros up to sixty bytes, and the four bytes with which the
/// whole has the checksum that every right frame has.
pub proof fn lemma_frame(body: Seq<u8>)
    ensures
        ({
            let f = framed(body);
            &&& f.len() == if body.len() < 60 {
                64
            } else {
                body.len() + 4
            }
            &&& f.take(body.len() as int) == body
            &&& forall|j: int| body.len() <= j < f.len() - 4 ==> #[trigger] f[j] == 0
            &&& crc32(f) == 0x2144_DF1C
        }),
{
    let f = framed(body);
    assert(f.take(body.len() as int) =~= body);
    assert(fcs_bytes(crc32(padded(body))) =~= sent_crc(crc32(padded(body))));
    lemma_crc_residue(padded(body));
}

/// What is sent for a frame: seven bytes 0x55 and one 0xD5, the frame, and at its end a
/// high line for six half-bits and an idle line for twelve bytes' time.
pub proof fn lemma_words_of_frame(body: Seq<u8>)
    ensures
        ({
            let w = raw_frame_words(body);
            let n = framed(body).len() as int;
            &&& w.len() == n + 21
            &&& forall|j: int| 0 <= j < 7 ==> #[trigger] w[j] == manchester(0x55)
            &&& w[7] == manchester(0xD5)
            &&& forall|j: int| 0 <= j < n ==> #[trigger] w[8 + j] == manchester(framed(body)[j])
            &&& w[n + 8] == 0xAAA
            &&& forall|j: int| n + 9 <= j < n + 21 ==> #[trigger] w[j] == 0
        }),
{
}

/// What is sent for a link pulse: a high line for two half-bits, and an idle line.
pub proof fn lemma_words_of_pulse()
    ensures
        nlp_words().len() == 13,
        nlp_words()[0] == 0xA,
        forall|j: int| 1 <= j < 13 ==> #[trigger] nlp_words()[j] == 0,
{
}

/// The two bytes at `i`, the more significant one first.
pub open spec fn word_at(f: Seq<u8>, i: int) -> int {
    256 * f[i] + f[i + 1]
}

/// What is sent as a UDP packet, byte by byte: addresses and ports of the endpoint, the
/// lengths of what follows, TTL 64, not to be fragmented, no UDP checksum, the payload, a
/// header checksum that is right and a check sequence that is right.
#[verifier::rlimit(50)]
pub proof fn lemma_udp_packet(ep: UdpEndpoint, payload: Seq<u8>, ip_id: u16)
    requires
        payload.len() + 28 <= 65535,
    ensures
        ({
            let f = udp_frame(ep, payload, ip_id);
            let n = payload.len() as int;
            &&& f.len() == n + 54
            &&& forall|j: int| 0 <= j < 7 ==> #[trigger] f[j] == 0x55
            &&& f[7] == 0xD5
            &&& f.subrange(8, 14) == ep.dst_mac@
            &&& f.subrange(14, 20) == ep.src_mac@
            &&& f[20] == 0x08 && f[21] == 0x00
            &&& f[22] == 0x45 && f[23] == 0
            &&& word_at(f, 24) == n + 28
            &&& word_at(f, 26) == ip_id
            &&& f[28] == 0x40 && f[29] == 0
            &&& f[30] == 64 && f[31] == 17
            &&& fold16(word_sum(f.subrange(22, 42))) == 65535
            &&& word_at(f, 32) < 65535
            &&& f.subrange(34, 38) == ep.src_ip@
            &&& f.subrange(38, 42) == ep.dst_ip@
            &&& word_at(f, 42) == ep.src_port
            &&& word_at(f, 44) == ep.dst_port
            &&& word_at(f, 46) == n + 8
            &&& f[48] == 0 && f[49] == 0
            &&& f.subrange(50, 50 + n) == payload
            &&& crc32(f.skip(8)) == 0x2144_DF1C
        }),
{
    let f = udp_frame(ep, payload, ip_id);
    let n = payload.len() as int;
    let body = udp_body(ep, payload, ip_id);
    let g = f.skip(8);
    assert(body.len() == n + 42);
    assert(f =~= preamble() + (body + fcs_bytes(crc32(body))));
    assert(g =~= body + fcs_bytes(crc32(body)));
    lemma_udp_body(ep, payload, ip_id);
    assert forall|j: int| 0 <= j < n + 42 implies #[trigger] f[8 + j] == body[j] by {}
    assert(f.subrange(8, 14) =~= body.subrange(0, 6));
    assert(f.subrange(14, 20) =~= body.subrange(6, 12));
    assert(f.subrange(34, 38) =~= body.subrange(26, 30));
    assert(f.subrange(38, 42) =~= body.subrange(30, 34));
    assert(f.subrange(50, 50 + n) =~= body.subrange(42, 42 + n));
    assert(f[20] == body[12] && f[21] == body[13] && f[22] == body[14] && f[23] == body[15]);
    assert(f[24] == body[16] && f[25] == body[17] && f[26] == body[18] && f[27] == body[19]);
    assert(f[28] == body[20] && f[29] == body[21] && f[30] == body[22] && f[31] == body[23]);
    assert(f[32] == body[24] && f[33] == body[25]);
    assert(f[42] == body[34] && f[43] == body[35] && f[44] == body[36] && f[45] == body[37]);
    assert(f[46] == body[38] && f[47] == body[39] && f[48] == body[40] && f[49] == body[41]);
    lemma_udp_frame_is_valid(ep, payload, ip_id);
    assert(f.subrange(22, 42) =~= g.subrange(14, 34));
    assert(fcs_bytes(crc32(body)) =~= sent_crc(crc32(body)));
    lemma_crc_residue(body);
}

proof fn lemma_udp_body(ep: UdpEndpoint, payload: Seq<u8>, ip_id: u16)
    requires
        payload.len() + 28 <= 65535,
    ensures
        ({
            let f = udp_body(ep, payload, ip_id);
            let n = payload.len() as int;
            &&& f.len() == n + 42
            &&& f.subrange(0, 6) == ep.dst_mac@
            &&& f.subrange(6, 12) == ep.src_mac@
            &&& f[12] == 0x08 && f[13] == 0x00
            &&& f[14] == 0x45 && f[15] == 0
            &&& word_at(f, 16) == n + 28
            &&& word_at(f, 18) == ip_id
            &&& f[20] == 0x40 && f[21] == 0
            &&& f[22] == 64 && f[23] == 17
            &&& word_at(f, 24) < 65535
            &&& f.subrange(26, 30) == ep.src_ip@
            &&& f.subrange(30, 34) == ep.dst_ip@
            &&& word_at(f, 34) == ep.src_port
            &&& word_at(f, 36) == ep.dst_port
            &&& word_at(f, 38) == n + 8
            &&& f[40] == 0 && f[41] == 0
            &&& f.subrange(42, 42 + n) == payload
        }),
{
    let f = udp_body(ep, payload, ip_id);
    let n = payload.len() as int;
    let z = ip_header(ep, (n + 28) as u16, ip_id, 0);
    lemma_word_sum_bound(z);
    lemma_word_sum_bound(z.skip(2));
    assert(word_sum(z) > 0);
    assert(f.subrange(0, 6) =~= ep.dst_mac@);
    assert(f.subrange(6, 12) =~= ep.src_mac@);
    assert(f.subrange(26, 30) =~= ep.src_ip@);
    assert(f.subrange(30, 34) =~= ep.dst_ip@);
    assert(f.subrange(42, 42 + n) =~= payload);
}

/// The contest for the line. While the carrier is there, it is waited for, up to 200000
/// looks; then the sender backs off, for at most fifteen slots of 240 cycles, drawn anew
/// each time. If the line is then idle, or this was the tenth attempt, it is taken; else
/// the next attempt begins.
pub proof fn lemma_contest(s: Csma, carrier: bool, lfsr: u32)
    requires
        s.wf(),
    ensures
        ({
            let (next, delay, after) = csma_next(s, carrier, lfsr);
            match s {
                Csma::Waiting { attempt, spins } => if carrier && spins < 199_999 {
                    &&& next == (Csma::Waiting { attempt, spins: (spins + 1) as u32 })
                    &&& delay == 0
                    &&& after == lfsr
                } else {
                    &&& next == (Csma::BackedOff { attempt })
                    &&& delay == 240 * (after % 16)
                    &&& after == xorshift(lfsr)
                },
                Csma::BackedOff { attempt } => {
                    &&& next == if carrier && attempt < 9 {
                        Csma::Waiting { attempt: (attempt + 1) as u32, spins: 0 }
                    } else {
                        Csma::Acquired
                    }
                    &&& delay == 0
                    &&& after == lfsr
                },
                Csma::Acquired => next == Csma::Acquired && delay == 0 && after == lfsr,
            }
        }),
{
    lemma_low_four(xorshift(lfsr));
}

proof fn lemma_low_four(x: u32)
    by (bit_vector)
    ensures
        x & 0x0F == x % 16,
{
}

/// The generator's step can be undone, so that no two states run together, and adds up
/// without carries.
pub proof fn lemma_generator(x: u32, y: u32)
    by (bit_vector)
    ensures
        xorshift(x ^ y) == xorshift(x) ^ xorshift(y),
        xorshift(x) == xorshift(y) ==> x == y,
        xorshift(1) == 0x0004_2021,
{
}

/// The first falling edge: the line is high, then low, and did not fall before.
pub proof fn lemma_first_fall(buf: Seq<u8>, base: int, ns: int)
    ensures
        match first_fall(buf, base, ns) {
            Some(f) => {
                &&& 1 <= f < ns
                &&& sample(buf, base + f - 1) == 1 && sample(buf, base + f) == 0
                &&& forall|j: int|
                    1 <= j < f ==> !(sample(buf, base + j - 1) == 1 && #[trigger] sample(
                        buf,
                        base + j,
                    ) == 0)
            },
            None => forall|j: int|
                1 <= j < ns ==> !(sample(buf, base + j - 1) == 1 && #[trigger] sample(
                    buf,
                    base + j,
                ) == 0),
        },
{
    let p = falls(buf, base);
    lemma_least(1, ns, p);
    assert forall|j: int|
        sample(buf, base + j - 1) == 1 && #[trigger] sample(buf, base + j) == 0 implies p(j) by {}
}

/// The sample at which data bit `k` is read, where the line first falls at `f`: the middle
/// of a half-bit, six samples to a bit.
pub open spec fn bit_place(f: int, k: int) -> int {
    f + 4 + 6 * k
}

/// The end of the delimiter: the second of the first two ones in a row.
pub proof fn lemma_delimiter(buf: Seq<u8>, base: int, f: int, ns: int, max_bits: int)
    requires
        0 <= f,
    ensures
        match sfd_end(buf, base, f, ns, max_bits) {
            Some(k) => {
                &&& 1 <= k < max_bits
                &&& bit_place(f, k) < ns
                &&& sample(buf, base + bit_place(f, k - 1)) == 1
                &&& sample(buf, base + bit_place(f, k)) == 1
                &&& forall|j: int|
                    1 <= j < k ==> !(sample(buf, base + bit_place(f, j - 1)) == 1 && sample(
                        buf,
                        base + #[trigger] bit_place(f, j),
                    ) == 1)
            },
            None => forall|j: int|
                1 <= j < max_bits && bit_place(f, j) < ns ==> !(sample(
                    buf,
                    base + bit_place(f, j - 1),
                ) == 1 && sample(buf, base + #[trigger] bit_place(f, j)) == 1),
        },
{
    let p = pair_of_ones(buf, base, f);
    let n = open_count(f, ns);
    let hi = if max_bits < n {
        max_bits
    } else {
        n
    };
    lemma_least(1, hi, p);
    assert forall|j: int| #[trigger] bit_place(f, j) == open_pos(f, j) by {}
    assert forall|j: int| 1 <= j && !p(j) implies !(sample(buf, base + bit_place(f, j - 1)) == 1
        && sample(buf, base + #[trigger] bit_place(f, j)) == 1) by {}
    match sfd_end(buf, base, f, ns, max_bits) {
        Some(k) => {
            assert(p(k));
            lemma_open_count(f, ns, k);
        },
        None => {
            assert forall|j: int| 1 <= j < max_bits && bit_place(f, j) < ns implies !(sample(
                buf,
                base + bit_place(f, j - 1),
            ) == 1 && sample(buf, base + #[trigger] bit_place(f, j)) == 1) by {
                lemma_open_count(f, ns, j);
                assert(!p(j));
            }
        },
    }
}

/// Where the tracker starts, and what it reads: from the edge nearest to where the first bit
/// after the delimiter is expected, the level before each edge, each edge the one nearest to
/// six samples after the one before, to the end of the samples.
pub proof fn lemma_tracker(buf: Seq<u8>, f: int, k: int, tr: int)
    requires
        first_fall(buf, 0, 8 * buf.len() as int) == Some(f),
        sfd_end(buf, 0, f, 8 * buf.len() as int, 1600) == Some(k),
    ensures
        first_anchor(buf) == Some(anchor(buf, bit_place(f, k + 1) + 1)),
        0 < tr <= 8 * buf.len() ==> track_bits(buf, tr).len() > 0 && track_bits(buf, tr)[0]
            == sample(buf, tr - 1) && track_bits(buf, tr).skip(1) == track_bits(
            buf,
            anchor(buf, tr + 6),
        ),
        tr <= 0 || tr > 8 * buf.len() ==> track_bits(buf, tr).len() == 0,
{
    if 0 < tr <= 8 * buf.len() {
        assert(track_bits(buf, tr).skip(1) =~= track_bits(buf, anchor(buf, tr + 6)));
    }
}

/// What is decoded: nothing without a falling edge and a delimiter; else the bytes that the
/// tracker reads, as many as the header says.
pub proof fn lemma_decoded(buf: Seq<u8>)
    ensures
        tracked_frame(buf) is Some <==> first_anchor(buf) is Some,
        first_anchor(buf) is Some <==> first_fall(buf, 0, 8 * buf.len() as int) is Some && sfd_end(
            buf,
            0,
            first_fall(buf, 0, 8 * buf.len() as int)->0,
            8 * buf.len() as int,
            1600,
        ) is Some,
        first_anchor(buf) matches Some(tr) ==> ({
            let bytes = pack(track_bits(buf, tr));
            let frame = tracked_frame(buf)->0;
            &&& frame == bytes.take(frame.len() as int)
            &&& frame.len() == if bytes.len() < length_cap(bytes) {
                bytes.len() as int
            } else {
                length_cap(bytes)
            }
        }),
{
    if let Some(tr) = first_anchor(buf) {
        let bytes = pack(track_bits(buf, tr));
        let frame = tracked_frame(buf)->0;
        assert(frame =~= bytes.take(frame.len() as int));
    }
}

/// How long a frame with this header is, check sequence included: an IPv4 packet of the
/// length in its header, but no frame is shorter than 64 bytes.
pub open spec fn ipv4_frame_len(f: Seq<u8>) -> int {
    if 14 + word_at(f, 16) + 4 < 64 {
        64
    } else {
        14 + word_at(f, 16) + 4
    }
}

/// How the end of a frame is found. An IPv4 frame is as long as its header says, an ARP
/// frame 64 bytes, and any other as long as it was read; none is longer than was read, nor
/// than 1600 bytes.
pub proof fn lemma_frame_length(f: Seq<u8>)
    ensures
        ({
            let n = f.len() as int;
            let ipv4 = n >= 18 && f[12] == 0x08 && f[13] == 0x00;
            let arp = n >= 18 && f[12] == 0x08 && f[13] == 0x06;
            let want = if ipv4 {
                ipv4_frame_len(f)
            } else if arp {
                64
            } else {
                n
            };
            &&& declared_len(f) == if want < n {
                want
            } else {
                n
            }
            &&& length_cap(f) == if ipv4 && ipv4_frame_len(f) < 1600 {
                ipv4_frame_len(f)
            } else {
                1600
            }
            &&& open_loop_cap(f) == want
        }),
{
}

/// The check of a frame: the whole of it has the checksum that every right frame has. The
/// shortest that can be right has a header and a check sequence.
pub proof fn lemma_frame_check(f: Seq<u8>, n: int)
    ensures
        fcs_valid(f, n) <==> 18 <= n <= f.len() && crc32(f.take(n)) == 0x2144_DF1C,
{
    if 18 <= n <= f.len() {
        let data = f.take(n - 4);
        let q = f.subrange(n - 4, n);
        assert(f.take(n) =~= data + q);
        lemma_crc_residue(data);
        let c = crc32(data);
        if fcs_valid(f, n) {
            assert(q =~= sent_crc(c)) by {
                lemma_le_digits(q[0], q[1], q[2], q[3], c);
            }
        }
        if crc32(f.take(n)) == 0x2144_DF1C {
            lemma_only_the_crc_checks(data, q);
            assert(q[0] == f[n - 4] && q[1] == f[n - 3] && q[2] == f[n - 2] && q[3] == f[n - 1]);
        }
    }
}

proof fn lemma_le_digits(a: u8, b: u8, c: u8, d: u8, v: u32)
    requires
        v == a + 0x100 * b + 0x1_0000 * c + 0x100_0000 * d,
    ensures
        v % 0x100 == a,
        v / 0x100 % 0x100 == b,
        v / 0x1_0000 % 0x100 == c,
        v / 0x100_0000 == d,
{
    crate::wire::lemma_spelled(d, c, b, a);
    let o = crate::wire::octets_of(crate::wire::ip_of(d, c, b, a));
    assert(o[0] == d && o[1] == c && o[2] == b && o[3] == a);
}

proof fn lemma_steady_byte(b: u8)
    by (bit_vector)
    ensures
        (b == 0 || b == 0xFF) <==> (b & 1 == (b >> 1) & 1 && b & 1 == (b >> 2) & 1 && b & 1 == (b
            >> 3) & 1 && b & 1 == (b >> 4) & 1 && b & 1 == (b >> 5) & 1 && b & 1 == (b >> 6) & 1
            && b & 1 == (b >> 7) & 1),
{
}

/// A byte of samples is quiet exactly where the line stays at one level.
pub proof fn lemma_activity(b: u8)
    ensures
        !active(b) <==> b & 1 == (b >> 1) & 1 && b & 1 == (b >> 2) & 1 && b & 1 == (b >> 3) & 1 && b
            & 1 == (b >> 4) & 1 && b & 1 == (b >> 5) & 1 && b & 1 == (b >> 6) & 1 && b & 1 == (b
            >> 7) & 1,
{
    lemma_steady_byte(b);
}

/// The bytes from `s` to `e` are a whole run, for a search from `start`: they are active,
/// and quiet bytes or the ends of the search are before and after them.
pub open spec fn is_run(bytes: Seq<u8>, start: int, s: int, e: int) -> bool {
    &&& start <= s < e <= bytes.len()
    &&& forall|i: int| s <= i < e ==> active(#[trigger] bytes[i])
    &&& s == start || !active(bytes[s - 1])
    &&& e == bytes.len() || !active(bytes[e])
}

/// The next run is the first that is long enough: it is a whole run, and every whole run
/// before it is too short; where there is none, all are.
pub proof fn lemma_next_run(bytes: Seq<u8>, start: int, min_len: int, s: int, e: int)
    requires
        0 <= start,
    ensures
        match next_run(bytes, start, min_len) {
            Some((off, len)) => {
                &&& is_run(bytes, start, off, off + len)
                &&& len >= min_len
                &&& is_run(bytes, start, s, e) && s < off ==> e - s < min_len
            },
            None => is_run(bytes, start, s, e) ==> e - s < min_len,
        },
{
    let p = long_run_at(bytes, start, min_len);
    let q = quiet_at(bytes);
    let n = bytes.len() as int;
    lemma_least(start, n, p);
    if is_run(bytes, start, s, e) {
        assert(run_end(bytes, s) == e) by {
            lemma_least(s, n, q);
            assert forall|j: int| s <= j < e implies !#[trigger] q(j) by {
                assert(active(bytes[j]));
            }
            if e < n {
                assert(q(e));
                lemma_least_found(s, n, q, e);
            }
        }
        assert(active(bytes[s]));
        if e - s >= min_len {
            assert(p(s));
        }
    }
    if let Some(o) = least(start, n, p) {
        assert(p(o));
        lemma_least(o, n, q);
        let end = run_end(bytes, o);
        assert forall|i: int| o <= i < end implies active(#[trigger] bytes[i]) by {
            assert(!q(i));
        }
        if end < n {
            assert(q(end));
        }
    }
}

/// What a half-buffer adds. Where a carried run goes on through all of it, everything is
/// carried on, unless that would be more than 16384 bytes: then it is given up. Else the
/// image ends where the last run of the half-buffer begins, and that run is carried, whole.
pub proof fn lemma_stitching(c: Seq<u8>, h: Seq<u8>)
    ensures
        ({
            let (image, carry, lost) = stitched(c, h);
            let endless = c.len() > 0 && forall|i: int|
                0 <= i < h.len() ==> active(#[trigger] h[i]);
            let t = h.len() - carry.len();
            &&& settled(c, h) is None <==> endless
            &&& endless ==> image.len() == 0
            &&& endless && c.len() + h.len() <= 16384 ==> carry == c + h && !lost
            &&& endless && c.len() + h.len() > 16384 ==> carry.len() == 0 && lost
            &&& !endless ==> {
                &&& !lost
                &&& 0 <= t <= h.len()
                &&& image == c + h.take(t)
                &&& carry == h.skip(t)
                &&& forall|i: int| t <= i < h.len() ==> active(#[trigger] h[i])
                &&& t > 0 ==> !active(h[t - 1])
            }
        }),
{
    let q = quiet_at(h);
    lemma_last_run_start(h, h.len() as int);
    lemma_least(0, h.len() as int, q);
    let endless = c.len() > 0 && forall|i: int| 0 <= i < h.len() ==> active(#[trigger] h[i]);
    match least(0, h.len() as int, q) {
        Some(k) => {
            assert(q(k));
            assert(!active(h[k]));
        },
        None => {
            assert forall|i: int| 0 <= i < h.len() implies active(#[trigger] h[i]) by {
                assert(!q(i));
            }
        },
    }
}

/// The address that is looked at ahead of the decode: the 48 bits after the delimiter, the
/// least significant bit of each byte first, if delimiter and address end within 200 bits
/// and within the samples.
pub proof fn lemma_peek(buf: Seq<u8>, base: int, ns: int)
    ensures
        match first_fall(buf, base, ns) {
            None => peeked_mac(buf, base, ns) is None,
            Some(f) => match sfd_end(buf, base, f, ns, 200) {
                None => peeked_mac(buf, base, ns) is None,
                Some(k) => {
                    &&& peeked_mac(buf, base, ns) is Some <==> k + 48 < 200 && bit_place(f, k + 48)
                        < ns
                    &&& peeked_mac(buf, base, ns) matches Some(mac) ==> mac == pack(
                        Seq::new(48, |j: int| sample(buf, base + bit_place(f, k + 1 + j))),
                    ) && mac.len() == 6
                },
            },
        },
{
    lemma_first_fall(buf, base, ns);
    if let Some(f) = first_fall(buf, base, ns) {
        lemma_delimiter(buf, base, f, ns, 200);
        if let Some(k) = sfd_end(buf, base, f, ns, 200) {
            lemma_open_count(f, ns, k + 48);
            assert(open_bits(buf, base, f, k + 1, 48) =~= Seq::new(
                48,
                |j: int| sample(buf, base + bit_place(f, k + 1 + j)),
            ));
        }
    }
}

/// A decode without clock recovery reads the bits at their places, as many whole bytes as
/// there are, up to 1600, and as many as the header says.
pub proof fn lemma_open_loop(buf: Seq<u8>, base: int, ns: int)
    ensures
        match first_fall(buf, base, ns) {
            None => open_loop_frame(buf, base, ns) is None,
            Some(f) => match sfd_end(buf, base, f, ns, 1600) {
                None => open_loop_frame(buf, base, ns) is None,
                Some(k) => {
                    let places = (ns - bit_place(f, k + 1) + 5) / 6;
                    let all = pack(
                        Seq::new(
                            places as nat,
                            |j: int| sample(buf, base + bit_place(f, k + 1 + j)),
                        ),
                    );
                    let bytes = if all.len() > 1600 {
                        all.take(1600)
                    } else {
                        all
                    };
                    let frame = open_loop_frame(buf, base, ns)->0;
                    &&& open_loop_frame(buf, base, ns) is Some
                    &&& frame == bytes.take(frame.len() as int)
                    &&& frame.len() == if bytes.len() < open_loop_cap(bytes) {
                        bytes.len() as int
                    } else {
                        open_loop_cap(bytes)
                    }
                },
            },
        },
{
    lemma_first_fall(buf, base, ns);
    if let Some(f) = first_fall(buf, base, ns) {
        lemma_delimiter(buf, base, f, ns, 1600);
        if let Some(k) = sfd_end(buf, base, f, ns, 1600) {
            let places = (ns - bit_place(f, k + 1) + 5) / 6;
            let n = open_count(f, ns) - (k + 1);
            lemma_open_count(f, ns, k);
            assert(n == places);
            assert(open_bits(buf, base, f, k + 1, places as nat) =~= Seq::new(
                places as nat,
                |j: int| sample(buf, base + bit_place(f, k + 1 + j)),
            ));
            let all = pack(
                Seq::new(places as nat, |j: int| sample(buf, base + bit_place(f, k + 1 + j))),
            );
            let bytes = at_most(all, 1600);
            let frame = open_loop_frame(buf, base, ns)->0;
            assert(frame =~= bytes.take(frame.len() as int));
        }
    }
}

/// Who is listened to: a frame to our own address, and any whose address has the lowest bit
/// of its first byte set, as broadcasts and multicasts have.
pub proof fn lemma_filter(dst: Seq<u8>, our: Seq<u8>)
    requires
        dst.len() == 6,
        our.len() == 6,
    ensures
        accepts(dst, our) <==> (forall|i: int| 0 <= i < 6 ==> #[trigger] dst[i] == our[i]) || dst[0]
            % 2 == 1,
{
    if forall|i: int| 0 <= i < 6 ==> #[trigger] dst[i] == our[i] {
        assert(dst =~= our);
    }
}

/// What becomes of a run. It is published exactly where its address can be read and is
/// listened to, it decodes, and the whole frame, as long as its header says, has the
/// checksum that every right frame has. What is published is that frame.
pub proof fn lemma_verdict(our: Seq<u8>, bytes: Seq<u8>, off: int, len: int)
    ensures
        ({
            let v = verdict(our, bytes, off, len);
            let mac = peeked_mac(bytes, 8 * off, 8 * len);
            let frame = tracked_frame(bytes.subrange(off, off + len));
            let n = declared_len(frame->0);
            let heard = mac is Some && accepts(mac->0, our);
            let right = 18 <= n <= frame->0.len() && crc32(frame->0.take(n)) == 0x2144_DF1C;
            &&& publishes(v) == if heard && frame is Some && right {
                Some(frame->0.take(n))
            } else {
                None
            }
            &&& v is Unreadable <==> mac is None
            &&& v is Filtered <==> mac is Some && !heard
            &&& v is Undecodable <==> heard && frame is None
            &&& v == (Verdict::Decoded { frame: frame->0, len: n, ok: right }) <==> heard && frame
                is Some
        }),
{
    let frame = tracked_frame(bytes.subrange(off, off + len));
    lemma_frame_check(frame->0, declared_len(frame->0));
}

/// One more where `here`, else the same.
pub open spec fn counted(before: u32, after: u32, here: bool) -> bool {
    if here {
        counts_up(before, after)
    } else {
        after == before
    }
}

/// What is counted of a run: whether it was for someone else, and of a decode whether it was
/// right, and the same again where the image began with a carry. The last decode is kept,
/// with its first 128 bytes.
pub proof fn lemma_tally(t: Tally, v: Verdict, carried: bool)
    requires
        v matches Verdict::Decoded { frame, len, .. } ==> 0 <= len <= frame.len() && len
            <= usize::MAX,
    ensures
        ({
            let u = tallied(t, v, carried);
            let decoded = v is Decoded;
            let right = v matches Verdict::Decoded { ok: true, .. };
            &&& counted(t.filtered, u.filtered, v is Filtered)
            &&& counted(t.decoded, u.decoded, decoded)
            &&& counted(t.ok, u.ok, right)
            &&& counted(t.fail, u.fail, decoded && !right)
            &&& counted(t.stitch_dec, u.stitch_dec, decoded && carried)
            &&& counted(t.stitch_fail, u.stitch_fail, decoded && !right && carried)
            &&& u.carry == t.carry
            &&& !decoded ==> u.last == t.last
            &&& v matches Verdict::Decoded { frame, len, ok } ==> {
                &&& u.last is Some
                &&& u.last->0.len == len
                &&& u.last->0.ok == ok
                &&& u.last->0.snap.len() <= 128
                &&& u.last->0.snap == frame.take(u.last->0.snap.len() as int)
                &&& u.last->0.snap.len() == len || u.last->0.snap.len() == 128 && len > 128
            }
        }),
{
    if let Verdict::Decoded { frame, len, ok } = v {
        let snap = tallied(t, v, carried).last->0.snap;
        assert(snap =~= frame.take(snap.len() as int));
    }
}

/// A scan takes the runs of at least a hundred bytes one after another, each once, from the
/// first to the last, and publishes in that order.
pub proof fn lemma_scan(our: Seq<u8>, bytes: Seq<u8>, cursor: int, carried: bool, t: Tally)
    requires
        0 <= cursor,
    ensures
        ({
            let (after, frames) = scanned(our, bytes, cursor, carried, t);
            match next_run(bytes, cursor, 100) {
                None => after == t && frames.len() == 0,
                Some((off, len)) => {
                    let v = verdict(our, bytes, off, len);
                    let (last, rest) = scanned(
                        our,
                        bytes,
                        off + len,
                        carried,
                        tallied(t, v, carried),
                    );
                    &&& after == last
                    &&& publishes(v) is None ==> frames == rest
                    &&& publishes(v) matches Some(f) ==> frames.len() == rest.len() + 1
                        && frames[0] == f && frames.skip(1) == rest
                },
            }
        }),
{
    lemma_next_run(bytes, cursor, 100, 0, 0);
    if let Some((off, len)) = next_run(bytes, cursor, 100) {
        let v = verdict(our, bytes, off, len);
        let rest = scanned(our, bytes, off + len, carried, tallied(t, v, carried)).1;
        if let Some(f) = publishes(v) {
            assert((seq![f] + rest).skip(1) =~= rest);
        }
    }
}

/// The inbox is a queue of four: a frame goes to its end, and where it is full the oldest
/// is lost, and counted. The deepest that it has been is kept.
pub proof fn lemma_inbox(q: Seq<Seq<u8>>, s: RxTally, frame: Seq<u8>)
    requires
        q.len() <= 4,
    ensures
        ({
            let r = queued(q, frame);
            let u = queue_counted(s, q.len() as int);
            let full = q.len() == 4;
            &&& r.last() == frame
            &&& r.drop_last() == if full {
                q.skip(1)
            } else {
                q
            }
            &&& counted(s.inbox_dropped, u.inbox_dropped, full)
            &&& u.inbox_high_water >= s.inbox_high_water
            &&& u.inbox_high_water >= r.len()
            &&& u.inbox_high_water == s.inbox_high_water || u.inbox_high_water == r.len()
            &&& u.frames_decoded == s.frames_decoded
            &&& u.fcs_ok == s.fcs_ok
            &&& u.fcs_fail == s.fcs_fail
            &&& u.frames_filtered == s.frames_filtered
            &&& u.carry_capped == s.carry_capped
            &&& u.last == s.last
        }),
{
    let r = queued(q, frame);
    assert(r.drop_last() =~= if q.len() == 4 {
        q.skip(1)
    } else {
        q
    });
}

/// `c` is `a + b`, as far as 32 bits hold it.
pub open spec fn adds(a: u32, b: u32, c: u32) -> bool {
    c == a + b || c == a + b - 0x1_0000_0000
}

/// Counts are merged by adding them up; the last frame replaces the one before, if there is
/// one.
pub proof fn lemma_merge(s: RxTally, t: Tally)
    ensures
        ({
            let u = merged(s, t);
            &&& adds(s.frames_decoded, t.decoded, u.frames_decoded)
            &&& adds(s.fcs_ok, t.ok, u.fcs_ok)
            &&& adds(s.fcs_fail, t.fail, u.fcs_fail)
            &&& adds(s.frames_filtered, t.filtered, u.frames_filtered)
            &&& adds(s.carry_capped, t.carry, u.carry_capped)
            &&& u.inbox_dropped == s.inbox_dropped
            &&& u.inbox_high_water == s.inbox_high_water
            &&& t.last is None ==> u.last == s.last
            &&& t.last matches Some(l) ==> u.last == l
        }),
{
}

/// As many samples are looked at as there are in the bytes asked for, or as are left.
pub proof fn lemma_samples_from(len: int, base: int, nbytes: int)
    ensures
        samples_from(len, base, nbytes) <= 8 * nbytes,
        samples_from(len, base, nbytes) <= 8 * (len - base),
        samples_from(len, base, nbytes) == 8 * nbytes || samples_from(len, base, nbytes) == 8 * (len
            - base),
{
}

/// What a receiver carries is the filled part of its buffer.
pub proof fn lemma_carried(rx: EthRx)
    requires
        rx.wf(),
    ensures
        rx.carried() == rx.carry@.take(rx.carry_len as int),
{
    assert(rx.carried() =~= rx.carry@.take(rx.carry_len as int));
}

} // verus!
