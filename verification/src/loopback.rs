//! What is sent is what is received.
//!
//! The transmit words of a frame, put on the line and sampled three times per half-bit,
//! decode to the frame. The receiver's pin reads a low half-bit as 1 and a high one
//! as 0, and any steady level before the frame.

use vstd::prelude::*;

use crate::eth_rx::{
    at_most, declared_len, falls, fcs_valid, first_fall, lemma_open_count, open_bit, open_bits,
    open_count, open_loop_cap, open_loop_frame, open_pos, pair_of_ones, peeked_mac, sfd_end,
    PEEK_BITS, SFD_SEARCH_BITS,
};
use crate::eth_rx_dpll::{
    anchor, clean_edge, comes_near, drifting_edges, first_anchor, lemma_settles,
    lemma_tracks_drift, length_cap, track_bits, tracked_frame,
};
use crate::eth_tx::{framed, lemma_framed_is_valid, padded, preamble};
use crate::frame::MAX_FRAME_BYTES;
use crate::manchester::{bit_of, half_bit, lemma_manchester, manchester, manchester_words, LOW};
use crate::samples::{are_bits, bits_value, lemma_weights, pack, sample};
use crate::search::lemma_least_found;
use crate::wire::be16;

verus! {

/// The level the receiver reads for a half-bit.
pub open spec fn level(half: u32) -> u8 {
    if half == LOW {
        1
    } else {
        0
    }
}

/// Where sample `d` of half-bit `h` of word `w` is.
pub open spec fn slot(lead: int, w: int, h: int, d: int) -> int {
    lead + 48 * w + 3 * h + d
}

/// Sample `i` after `base`.
pub open spec fn seen(buf: Seq<u8>, base: int, i: int) -> u8 {
    sample(buf, base + i)
}

/// `buf` holds, from sample `base` on, samples of a line on which, after `lead` samples at
/// a steady level, the words were sent.
pub open spec fn carries(buf: Seq<u8>, base: int, lead: int, steady: u8, words: Seq<u32>) -> bool {
    &&& 0 <= base
    &&& 0 <= lead
    &&& base + lead + 48 * words.len() <= 8 * buf.len()
    &&& forall|i: int| 0 <= i < lead ==> #[trigger] seen(buf, base, i) == steady
    &&& forall|w: int, h: int, d: int|
        0 <= w < words.len() && 0 <= h < 16 && 0 <= d < 3 ==> seen(
            buf,
            base,
            #[trigger] slot(lead, w, h, d),
        ) == level(half_bit(words[w], h))
}

/// Bit `i` of a byte stream, least significant bit of each byte first.
pub open spec fn stream_bit(bytes: Seq<u8>, i: int) -> u8 {
    bit_of(bytes[i / 8], i % 8)
}

/// Sample `j` of a byte stream on the line: a bit is three samples of its value and three
/// of the opposite.
pub open spec fn line_sample(bytes: Seq<u8>, j: int) -> u8 {
    if j % 6 < 3 {
        stream_bit(bytes, j / 6)
    } else {
        (1 - stream_bit(bytes, j / 6)) as u8
    }
}

/// The `ns` samples from `base` on show a byte stream that starts at sample `lead` of
/// them, after a steady level. The stream may start before them, by less than a bit, and
/// may lack its last half-bit.
pub open spec fn shows(
    buf: Seq<u8>,
    base: int,
    ns: int,
    lead: int,
    steady: u8,
    bytes: Seq<u8>,
) -> bool {
    &&& 0 <= base
    &&& base + ns <= 8 * buf.len()
    &&& -3 <= lead
    &&& lead + 48 * bytes.len() - 3 <= ns
    &&& forall|i: int| 0 <= i < lead ==> #[trigger] seen(buf, base, i) == steady
    &&& forall|i: int|
        0 <= i < ns && lead <= i < lead + 48 * bytes.len() ==> #[trigger] seen(buf, base, i)
            == line_sample(bytes, i - lead)
}

/// Words sent show as their bytes.
pub(crate) proof fn lemma_carried_shows(
    buf: Seq<u8>,
    base: int,
    lead: int,
    steady: u8,
    words: Seq<u32>,
    bytes: Seq<u8>,
)
    requires
        carries(buf, base, lead, steady, words),
        words.len() >= bytes.len(),
        words.take(bytes.len() as int) == manchester_words(bytes),
    ensures
        shows(buf, base, 8 * buf.len() - base, lead, steady, bytes),
{
    assert forall|i: int| lead <= i < lead + 48 * bytes.len() implies #[trigger] seen(buf, base, i)
        == line_sample(bytes, i - lead) by {
        let j = i - lead;
        let w = j / 48;
        let h = (j % 48) / 3;
        let d = j % 3;
        assert(slot(lead, w, h, d) == i);
        assert(words.take(bytes.len() as int)[w] == words[w]);
        assert(manchester_words(bytes)[w] == manchester(bytes[w]));
        lemma_manchester(bytes[w], h / 2);
        assert(j / 6 == 8 * w + h / 2);
        assert((j % 6 < 3) == (h % 2 == 0));
        assert(2 * (h / 2) == h || 2 * (h / 2) + 1 == h);
    }
}

/// Sample `d` of bit `i`.
pub(crate) proof fn lemma_shown(
    buf: Seq<u8>,
    base: int,
    ns: int,
    lead: int,
    steady: u8,
    bytes: Seq<u8>,
    i: int,
    d: int,
)
    requires
        shows(buf, base, ns, lead, steady, bytes),
        0 <= i < 8 * bytes.len(),
        0 <= d < 6,
        0 <= lead + 6 * i + d < ns,
    ensures
        stream_bit(bytes, i) == 0 || stream_bit(bytes, i) == 1,
        sample(buf, base + (lead + 6 * i + d)) == if d < 3 {
            stream_bit(bytes, i)
        } else {
            (1 - stream_bit(bytes, i)) as u8
        },
{
    lemma_manchester(bytes[i / 8], i % 8);
    let j = 6 * i + d;
    assert(j / 6 == i && j % 6 == d);
    assert(seen(buf, base, lead + 6 * i + d) == line_sample(bytes, j));
}

proof fn lemma_preamble_bits(k: u8)
    by (bit_vector)
    requires
        k < 8,
    ensures
        (0x55u8 >> k) & 1 == if k % 2 == 0 {
            1u8
        } else {
            0u8
        },
        (0xD5u8 >> k) & 1 == if k % 2 == 0 || k == 7 {
            1u8
        } else {
            0u8
        },
{
}

/// The preamble alternates, and ends in the first pair of ones.
pub(crate) proof fn lemma_preamble(data: Seq<u8>, i: int)
    requires
        0 <= i < 64,
    ensures
        stream_bit(preamble() + data, i) == if i % 2 == 0 || i == 63 {
            1u8
        } else {
            0u8
        },
{
    lemma_preamble_bits((i % 8) as u8);
    assert((preamble() + data)[i / 8] == preamble()[i / 8]);
}

proof fn lemma_byte_sum(b: u8)
    by (bit_vector)
    ensures
        ((b >> 0u8) & 1) + ((b >> 1u8) & 1) * 2 + ((b >> 2u8) & 1) * 4 + ((b >> 3u8) & 1) * 8 + ((b
            >> 4u8) & 1) * 16 + ((b >> 5u8) & 1) * 32 + ((b >> 6u8) & 1) * 64 + ((b >> 7u8) & 1)
            * 128 == b,
{
}

/// The bits of a byte pack to the byte.
proof fn lemma_bits_of_byte(bits: Seq<u8>, b: u8)
    requires
        bits.len() == 8,
        forall|k: int| 0 <= k < 8 ==> #[trigger] bits[k] == bit_of(b, k),
    ensures
        bits_value(bits) == b,
{
    lemma_byte_sum(b);
    lemma_weights();
    reveal_with_fuel(bits_value, 9);
    let b7 = bits.drop_last();
    let b6 = b7.drop_last();
    let b5 = b6.drop_last();
    let b4 = b5.drop_last();
    let b3 = b4.drop_last();
    let b2 = b3.drop_last();
    let b1 = b2.drop_last();
    assert(b1.drop_last().len() == 0);
    assert(bits.last() == bits[7] && b7.last() == bits[6] && b6.last() == bits[5] && b5.last()
        == bits[4] && b4.last() == bits[3] && b3.last() == bits[2] && b2.last() == bits[1]
        && b1.last() == bits[0]);
}

/// The receiver finds the first falling edge of the preamble: that of its first bit, or of
/// its third where the first is not seen.
proof fn lemma_finds_edge(
    buf: Seq<u8>,
    base: int,
    ns: int,
    lead: int,
    steady: u8,
    data: Seq<u8>,
    b0: int,
)
    requires
        shows(buf, base, ns, lead, steady, preamble() + data),
        b0 == if lead < -2 {
            2int
        } else {
            0
        },
    ensures
        first_fall(buf, base, ns) == Some(lead + 6 * b0 + 3),
{
    let bytes = preamble() + data;
    let f = lead + 6 * b0 + 3;
    let p = falls(buf, base);
    lemma_preamble(data, b0);
    lemma_shown(buf, base, ns, lead, steady, bytes, b0, 2);
    lemma_shown(buf, base, ns, lead, steady, bytes, b0, 3);
    assert(p(f));
    assert forall|j: int| 1 <= j < f implies !#[trigger] p(j) by {
        if j < lead {
            assert(seen(buf, base, j - 1) == steady && seen(buf, base, j) == steady);
        } else {
            let i = (j - lead) / 6;
            let d = (j - lead) % 6;
            lemma_preamble(data, i);
            lemma_shown(buf, base, ns, lead, steady, bytes, i, d);
            if d > 0 {
                lemma_shown(buf, base, ns, lead, steady, bytes, i, d - 1);
            } else if i > 0 {
                lemma_preamble(data, i - 1);
                lemma_shown(buf, base, ns, lead, steady, bytes, i - 1, 5);
            }
        }
    }
    lemma_least_found(1, ns, p, f);
}

/// The receiver finds the end of the delimiter, wherever in the preamble it starts to
/// listen.
pub(crate) proof fn lemma_finds_delimiter(
    buf: Seq<u8>,
    base: int,
    ns: int,
    lead: int,
    steady: u8,
    data: Seq<u8>,
    max_bits: int,
) -> (r: (int, int))
    requires
        shows(buf, base, ns, lead, steady, preamble() + data),
        data.len() > 0,
        max_bits > 62,
    ensures
        first_fall(buf, base, ns) == Some(r.0),
        sfd_end(buf, base, r.0, ns, max_bits) == Some(r.1),
        r.0 + 6 * r.1 == lead + 375,
        1 <= r.0,
        60 <= r.1 <= 62,
{
    let bytes = preamble() + data;
    // The bit whose falling edge is seen first.
    let b0: int = if lead < -2 {
        2
    } else {
        0
    };
    let f = lead + 6 * b0 + 3;
    lemma_finds_edge(buf, base, ns, lead, steady, data, b0);
    let k0 = 62 - b0;
    let q = pair_of_ones(buf, base, f);
    assert forall|k: int| 0 <= k <= k0 implies #[trigger] open_bit(buf, base, f, k) == stream_bit(
        bytes,
        b0 + k + 1,
    ) by {
        lemma_shown(buf, base, ns, lead, steady, bytes, b0 + k + 1, 1);
        assert(open_pos(f, k) == lead + 6 * (b0 + k + 1) + 1);
    }
    assert(open_pos(f, k0) < ns);
    lemma_open_count(f, ns, k0);
    lemma_preamble(data, 62);
    lemma_preamble(data, 63);
    assert(open_bit(buf, base, f, k0 - 1) == 1 && open_bit(buf, base, f, k0) == 1);
    assert(q(k0));
    assert forall|k: int| 1 <= k < k0 implies !#[trigger] q(k) by {
        lemma_preamble(data, b0 + k);
        lemma_preamble(data, b0 + k + 1);
        assert(open_bit(buf, base, f, k - 1) == stream_bit(bytes, b0 + (k - 1) + 1));
        assert(open_bit(buf, base, f, k) == stream_bit(bytes, b0 + k + 1));
    }
    let hi = if max_bits < open_count(f, ns) {
        max_bits
    } else {
        open_count(f, ns)
    };
    lemma_least_found(1, hi, q, k0);
    (f, k0)
}

/// The bits of a byte stream, least significant bit of each byte first.
pub open spec fn stream_bits(bytes: Seq<u8>) -> Seq<u8> {
    Seq::new(8 * bytes.len(), |i: int| stream_bit(bytes, i))
}

/// The samples show a stream of bits that starts at sample `lead`, after a steady level.
/// The stream may start before the samples, by less than a bit, and may lack its last
/// half-bit.
pub open spec fn shows_bits(buf: Seq<u8>, lead: int, steady: u8, bits: Seq<u8>) -> bool {
    &&& -3 <= lead
    &&& lead + 6 * bits.len() - 3 <= 8 * buf.len()
    &&& are_bits(bits)
    &&& forall|i: int| 0 <= i < lead ==> #[trigger] seen(buf, 0, i) == steady
    &&& forall|i: int|
        0 <= i < 8 * buf.len() && lead <= i < lead + 6 * bits.len() ==> #[trigger] seen(buf, 0, i)
            == if (i - lead) % 6 < 3 {
            bits[(i - lead) / 6]
        } else {
            (1 - bits[(i - lead) / 6]) as u8
        }
}

/// Bytes on the line show as their bits.
proof fn lemma_shows_bits(buf: Seq<u8>, lead: int, steady: u8, bytes: Seq<u8>)
    requires
        shows(buf, 0, 8 * buf.len() as int, lead, steady, bytes),
    ensures
        shows_bits(buf, lead, steady, stream_bits(bytes)),
{
    lemma_stream_bits(bytes);
}

proof fn lemma_stream_bits(bytes: Seq<u8>)
    ensures
        are_bits(stream_bits(bytes)),
{
    let bits = stream_bits(bytes);
    assert forall|i: int| 0 <= i < bits.len() implies #[trigger] bits[i] == 0 || bits[i] == 1 by {
        lemma_manchester(bytes[i / 8], i % 8);
    }
}

/// Sample `d` of bit `i`.
proof fn lemma_bit_shown(
    buf: Seq<u8>,
    lead: int,
    steady: u8,
    bits: Seq<u8>,
    i: int,
    d: int,
)
    requires
        shows_bits(buf, lead, steady, bits),
        0 <= i < bits.len(),
        0 <= d < 6,
        0 <= lead + 6 * i + d < 8 * buf.len(),
    ensures
        bits[i] == 0 || bits[i] == 1,
        sample(buf, lead + 6 * i + d) == if d < 3 {
            bits[i]
        } else {
            (1 - bits[i]) as u8
        },
{
    let j = 6 * i + d;
    assert(j / 6 == i && j % 6 == d);
    assert(seen(buf, 0, lead + 6 * i + d) == sample(buf, lead + 6 * i + d));
}

/// The tracker settles on the edge in the middle of a bit.
proof fn lemma_settles_on_bit(
    buf: Seq<u8>,
    lead: int,
    steady: u8,
    bits: Seq<u8>,
    i: int,
    c: int,
)
    requires
        shows_bits(buf, lead, steady, bits),
        1 <= i < bits.len(),
        c == lead + 6 * i + 3 || c == lead + 6 * i + 2 && c + 2 < 8 * buf.len(),
    ensures
        anchor(buf, c) == lead + 6 * i + 3,
{
    let e = lead + 6 * i + 3;
    if c + 1 < 8 * buf.len() {
        lemma_bit_shown(buf, lead, steady, bits, i, 0);
        lemma_bit_shown(buf, lead, steady, bits, i, 1);
        lemma_bit_shown(buf, lead, steady, bits, i, 2);
        lemma_bit_shown(buf, lead, steady, bits, i, 3);
        lemma_bit_shown(buf, lead, steady, bits, i, 4);
        assert(clean_edge(buf, e));
        lemma_settles(buf, c, e);
    }
}

/// The tracker reads the bits of a stream from bit `i` on.
proof fn lemma_tracks_stream(buf: Seq<u8>, lead: int, steady: u8, bits: Seq<u8>, i: int)
    requires
        shows_bits(buf, lead, steady, bits),
        1 <= i < bits.len(),
    ensures
        ({
            let out = track_bits(buf, lead + 6 * i + 3);
            &&& out.len() >= bits.len() - i
            &&& forall|j: int| 0 <= j < bits.len() - i ==> #[trigger] out[j] == bits[i + j]
        }),
    decreases bits.len() - i,
{
    let e = lead + 6 * i + 3;
    let out = track_bits(buf, e);
    lemma_bit_shown(buf, lead, steady, bits, i, 2);
    let rest = track_bits(buf, anchor(buf, e + 6));
    assert(out == seq![sample(buf, e - 1)] + rest);
    if i + 1 < bits.len() {
        lemma_tracks_stream(buf, lead, steady, bits, i + 1);
        lemma_settles_on_bit(buf, lead, steady, bits, i + 1, e + 6);
        assert forall|j: int| 0 <= j < bits.len() - i implies #[trigger] out[j] == bits[i + j] by {
            if j > 0 {
                assert(out[j] == rest[j - 1]);
                assert(rest[j - 1] == bits[i + 1 + (j - 1)]);
            }
        }
    }
}

/// Byte `j` of a stream of which the bits are known.
proof fn lemma_packed(bits: Seq<u8>, data: Seq<u8>, j: int)
    requires
        0 <= j < data.len(),
        bits.len() >= 8 * j + 8,
        forall|i: int| 8 * j <= i < 8 * j + 8 ==> #[trigger] bits[i] == stream_bit(data, i),
    ensures
        pack(bits)[j] == data[j],
{
    let byte = bits.subrange(8 * j, 8 * j + 8);
    assert forall|k: int| 0 <= k < 8 implies #[trigger] byte[k] == bit_of(data[j], k) by {
        let i = 8 * j + k;
        assert(bits[i] == stream_bit(data, i));
        assert(i / 8 == j && i % 8 == k);
    }
    lemma_bits_of_byte(byte, data[j]);
}

/// Byte `j` of a stream of which the bits after the preamble are known.
proof fn lemma_packed_byte(bits: Seq<u8>, data: Seq<u8>, j: int)
    requires
        0 <= j < data.len(),
        bits.len() >= 8 * j + 8,
        forall|i: int|
            8 * j <= i < 8 * j + 8 ==> #[trigger] bits[i] == stream_bit(preamble() + data, 64 + i),
    ensures
        pack(bits)[j] == data[j],
{
    assert forall|i: int| 8 * j <= i < 8 * j + 8 implies #[trigger] bits[i] == stream_bit(
        data,
        i,
    ) by {
        assert((64 + i) / 8 == 8 + i / 8 && (64 + i) % 8 == i % 8);
        assert((preamble() + data)[8 + i / 8] == data[i / 8]);
    }
    lemma_packed(bits, data, j);
}

/// The tracked bits of a frame that was sent are the frame.
pub(crate) proof fn lemma_reads_data(buf: Seq<u8>, lead: int, steady: u8, data: Seq<u8>)
    requires
        shows(buf, 0, 8 * buf.len() as int, lead, steady, preamble() + data),
        data.len() > 0,
    ensures
        first_anchor(buf) == Some(lead + 387),
        pack(track_bits(buf, lead + 387)).len() >= data.len(),
        pack(track_bits(buf, lead + 387)).take(data.len() as int) == data,
{
    let bytes = preamble() + data;
    let (f, k) = lemma_finds_delimiter(
        buf,
        0,
        8 * buf.len() as int,
        lead,
        steady,
        data,
        SFD_SEARCH_BITS as int,
    );
    lemma_shows_bits(buf, lead, steady, bytes);
    lemma_settles_on_bit(buf, lead, steady, stream_bits(bytes), 64, f + 5 + 6 * (k + 1));
    lemma_tracks_stream(buf, lead, steady, stream_bits(bytes), 64);
    let bits = track_bits(buf, lead + 387);
    let out = pack(bits);
    assert forall|j: int| 0 <= j < data.len() implies #[trigger] out[j] == data[j] by {
        assert forall|i: int| 8 * j <= i < 8 * j + 8 implies #[trigger] bits[i] == stream_bit(
            bytes,
            64 + i,
        ) by {
            assert(bits[i] == stream_bits(bytes)[64 + i]);
        }
        lemma_packed_byte(bits, data, j);
    }
    assert(out.take(data.len() as int) =~= data);
}

/// The filter looks at the right address: what is read ahead of the decode is the first
/// six bytes of the frame.
pub proof fn lemma_peeks_destination(
    buf: Seq<u8>,
    base: int,
    ns: int,
    lead: int,
    steady: u8,
    data: Seq<u8>,
)
    requires
        shows(buf, base, ns, lead, steady, preamble() + data),
        data.len() >= 6,
    ensures
        peeked_mac(buf, base, ns) == Some(data.take(6)),
{
    let bytes = preamble() + data;
    let (f, k) = lemma_finds_delimiter(buf, base, ns, lead, steady, data, PEEK_BITS as int);
    assert(open_pos(f, k + 48) < ns);
    lemma_open_count(f, ns, k + 48);
    let bits = open_bits(buf, base, f, k + 1, 48);
    assert forall|j: int| 0 <= j < 48 implies #[trigger] bits[j] == stream_bit(bytes, 64 + j) by {
        lemma_shown(buf, base, ns, lead, steady, bytes, 64 + j, 1);
        assert(open_pos(f, k + 1 + j) == lead + 6 * (64 + j) + 1);
    }
    let out = pack(bits);
    assert forall|j: int| 0 <= j < 6 implies #[trigger] out[j] == data[j] by {
        lemma_packed_byte(bits, data, j);
    }
    assert(out =~= data.take(6));
}

/// The tracker takes at least five samples to a bit.
proof fn lemma_track_len(buf: Seq<u8>, tr: int)
    requires
        tr > 0,
    ensures
        tr > 8 * buf.len() ==> track_bits(buf, tr).len() == 0,
        tr <= 8 * buf.len() ==> track_bits(buf, tr).len() <= (8 * buf.len() - tr) / 5 + 1,
    decreases 8 * buf.len() + 8 - tr,
{
    if tr <= 8 * buf.len() {
        let next = anchor(buf, tr + 6);
        assert(next >= tr + 5);
        lemma_track_len(buf, next);
    }
}

/// The tracker reads little after a stream that the samples hardly outlast.
proof fn lemma_tracks_no_more(buf: Seq<u8>, lead: int, steady: u8, bits: Seq<u8>, i: int)
    requires
        shows_bits(buf, lead, steady, bits),
        8 * buf.len() <= lead + 6 * bits.len() + 7,
        1 <= i < bits.len(),
    ensures
        track_bits(buf, lead + 6 * i + 3).len() < bits.len() - i + 8,
    decreases bits.len() - i,
{
    let e = lead + 6 * i + 3;
    if i + 1 < bits.len() {
        lemma_tracks_no_more(buf, lead, steady, bits, i + 1);
        lemma_settles_on_bit(buf, lead, steady, bits, i + 1, e + 6);
    } else {
        lemma_track_len(buf, e);
    }
}

/// A lead-in that the receiver locks on: it starts with a one, and ends in the first pair
/// of ones after that.
pub open spec fn locks(head: Seq<u8>) -> bool {
    let m = head.len() as int;
    &&& 3 <= m < SFD_SEARCH_BITS + 2
    &&& are_bits(head)
    &&& head[0] == 1
    &&& head[m - 2] == 1
    &&& head[m - 1] == 1
    &&& forall|j: int| 1 <= j < m - 2 ==> !(#[trigger] head[j] == 1 && head[j + 1] == 1)
}

/// The receiver finds the end of a lead-in that it locks on.
proof fn lemma_lock_point(buf: Seq<u8>, lead: int, steady: u8, head: Seq<u8>)
    requires
        shows_bits(buf, lead, steady, head),
        -2 <= lead,
        locks(head),
    ensures
        first_anchor(buf) == Some(anchor(buf, lead + 6 * head.len() + 2)),
{
    let bits = head;
    let m = head.len() as int;
    let ns = 8 * buf.len() as int;
    let f = lead + 3;
    let p = falls(buf, 0);
    lemma_bit_shown(buf, lead, steady, bits, 0, 2);
    lemma_bit_shown(buf, lead, steady, bits, 0, 3);
    assert(p(f));
    assert forall|j: int| 1 <= j < f implies !#[trigger] p(j) by {
        if j < lead {
            assert(seen(buf, 0, j - 1) == steady && seen(buf, 0, j) == steady);
        } else {
            lemma_bit_shown(buf, lead, steady, bits, 0, j - lead);
        }
    }
    lemma_least_found(1, ns, p, f);
    let k0 = m - 2;
    let q = pair_of_ones(buf, 0, f);
    assert forall|k: int| 0 <= k <= k0 implies #[trigger] open_bit(buf, 0, f, k) == head[k
        + 1] by {
        lemma_bit_shown(buf, lead, steady, bits, k + 1, 1);
        assert(open_pos(f, k) == lead + 6 * (k + 1) + 1);
    }
    assert(open_pos(f, k0) < ns);
    lemma_open_count(f, ns, k0);
    assert(open_bit(buf, 0, f, k0 - 1) == head[m - 2] && open_bit(buf, 0, f, k0) == head[m - 1]);
    assert(q(k0));
    assert forall|k: int| 1 <= k < k0 implies !#[trigger] q(k) by {
        assert(open_bit(buf, 0, f, k - 1) == head[k]);
        assert(open_bit(buf, 0, f, k) == head[k + 1]);
    }
    let hi = if SFD_SEARCH_BITS < open_count(f, ns) {
        SFD_SEARCH_BITS as int
    } else {
        open_count(f, ns)
    };
    lemma_least_found(1, hi, q, k0);
    assert(f + 5 + 6 * (k0 + 1) == lead + 6 * m + 2);
}

/// The tracker starts at the first bit after a lead-in that it locks on.
proof fn lemma_locks(buf: Seq<u8>, lead: int, steady: u8, head: Seq<u8>, rest: Seq<u8>)
    requires
        shows_bits(buf, lead, steady, head + rest),
        -2 <= lead,
        locks(head),
        rest.len() >= 8,
    ensures
        first_anchor(buf) == Some(lead + 6 * head.len() + 3),
{
    let bits = head + rest;
    let m = head.len() as int;
    assert(shows_bits(buf, lead, steady, head)) by {
        assert forall|i: int| 0 <= i < 8 * buf.len() && lead <= i < lead + 6 * head.len() implies
            #[trigger] seen(buf, 0, i) == if (i - lead) % 6 < 3 {
            head[(i - lead) / 6]
        } else {
            (1 - head[(i - lead) / 6]) as u8
        } by {
            assert(bits[(i - lead) / 6] == head[(i - lead) / 6]);
        }
    }
    lemma_lock_point(buf, lead, steady, head);
    lemma_settles_on_bit(buf, lead, steady, bits, m, lead + 6 * m + 2);
}

/// No full preamble is needed: after any lead-in that it locks on, the tracker starts at
/// the first bit of the data and reads the data, as far as the length that its header
/// declares.
pub proof fn lemma_decodes_after_lead_in(
    buf: Seq<u8>,
    lead: int,
    steady: u8,
    head: Seq<u8>,
    data: Seq<u8>,
)
    requires
        shows_bits(buf, lead, steady, head + stream_bits(data)),
        -2 <= lead,
        locks(head),
        data.len() > 0,
    ensures
        first_anchor(buf) == Some(lead + 6 * head.len() + 3),
        tracked_frame(buf) is Some,
        ({
            let frame = tracked_frame(buf)->0;
            let sent = at_most(data, length_cap(data));
            &&& sent.len() <= frame.len()
            &&& frame.take(sent.len() as int) == sent
            &&& 8 * buf.len() <= lead + 6 * head.len() + 48 * data.len() + 7 ==> frame == sent
        }),
{
    let bits = head + stream_bits(data);
    let m = head.len() as int;
    lemma_locks(buf, lead, steady, head, stream_bits(data));
    lemma_tracks_stream(buf, lead, steady, bits, m);
    let out = track_bits(buf, lead + 6 * m + 3);
    let bytes = pack(out);
    assert forall|j: int| 0 <= j < data.len() implies #[trigger] bytes[j] == data[j] by {
        assert forall|i: int| 8 * j <= i < 8 * j + 8 implies #[trigger] out[i] == stream_bit(
            data,
            i,
        ) by {
            assert(out[i] == bits[m + i]);
            assert(bits[m + i] == stream_bits(data)[i]);
        }
        lemma_packed(out, data, j);
    }
    let frame = at_most(bytes, length_cap(bytes));
    let sent = at_most(data, length_cap(data));
    if data.len() >= 18 {
        assert(bytes[12] == data[12] && bytes[13] == data[13] && bytes[16] == data[16] && bytes[17]
            == data[17]);
    }
    assert(frame.take(sent.len() as int) =~= sent);
    if 8 * buf.len() <= lead + 6 * m + 48 * data.len() + 7 {
        lemma_tracks_no_more(buf, lead, steady, bits, m);
        assert(bytes =~= data);
    }
}

/// Three ones are lead-in enough.
pub proof fn lemma_decodes_after_three_ones(buf: Seq<u8>, lead: int, steady: u8, data: Seq<u8>)
    requires
        shows_bits(buf, lead, steady, seq![1u8, 1, 1] + stream_bits(data)),
        -2 <= lead,
        data.len() > 0,
    ensures
        first_anchor(buf) == Some(lead + 21),
        tracked_frame(buf) is Some,
        ({
            let frame = tracked_frame(buf)->0;
            let sent = at_most(data, length_cap(data));
            &&& sent.len() <= frame.len()
            &&& frame.take(sent.len() as int) == sent
            &&& 8 * buf.len() <= lead + 25 + 48 * data.len() ==> frame == sent
        }),
{
    lemma_decodes_after_lead_in(buf, lead, steady, seq![1u8, 1, 1], data);
}

/// The length that a receiver reads off the header of a frame with this body, where the
/// header says one, is the length of the frame.
pub open spec fn length_agrees(body: Seq<u8>) -> bool {
    let p = padded(body);
    &&& p.len() <= MAX_FRAME_BYTES - 4
    &&& be16(p, 12) == 0x0800 ==> p.len() + 4 == if 18 + be16(p, 16) > 64 {
        18 + be16(p, 16) as int
    } else {
        64
    }
    &&& be16(p, 12) == 0x0806 ==> p.len() == 60
}

/// The header of a frame with this body says how long the frame is.
pub open spec fn states_length(body: Seq<u8>) -> bool {
    &&& length_agrees(body)
    &&& be16(padded(body), 12) == 0x0800 || be16(padded(body), 12) == 0x0806
}

/// A frame that shows on the line decodes to the padded body and its check sequence, if
/// its header says how long it is, or the samples end with it.
pub proof fn lemma_shown_is_received(buf: Seq<u8>, lead: int, steady: u8, body: Seq<u8>)
    requires
        shows(buf, 0, 8 * buf.len() as int, lead, steady, preamble() + framed(body)),
        length_agrees(body),
        states_length(body) || 8 * buf.len() <= lead + 48 * (8 + framed(body).len()) + 7,
    ensures
        tracked_frame(buf) is Some,
        ({
            let frame = tracked_frame(buf)->0;
            let n = framed(body).len() as int;
            &&& n <= frame.len()
            &&& frame.take(n) == framed(body)
            &&& declared_len(frame) == n
            &&& fcs_valid(frame, n)
        }),
{
    let data = framed(body);
    lemma_reads_data(buf, lead, steady, data);
    if !states_length(body) {
        lemma_shows_bits(buf, lead, steady, preamble() + data);
        lemma_tracks_no_more(buf, lead, steady, stream_bits(preamble() + data), 64);
    }
    lemma_bytes_are_received(buf, lead + 387, body);
}

/// A tracker that reads the bytes of a frame decodes the frame, if its header says how long
/// it is, or nothing follows.
proof fn lemma_bytes_are_received(buf: Seq<u8>, start: int, body: Seq<u8>)
    requires
        first_anchor(buf) == Some(start),
        ({
            let bytes = pack(track_bits(buf, start));
            let n = framed(body).len();
            &&& n <= bytes.len()
            &&& bytes.take(n as int) == framed(body)
            &&& states_length(body) || bytes.len() == n
        }),
        length_agrees(body),
    ensures
        tracked_frame(buf) is Some,
        ({
            let frame = tracked_frame(buf)->0;
            let n = framed(body).len() as int;
            &&& n <= frame.len()
            &&& frame.take(n) == framed(body)
            &&& declared_len(frame) == n
            &&& fcs_valid(frame, n)
        }),
{
    let data = framed(body);
    let n = data.len() as int;
    lemma_framed_is_valid(body);
    let bytes = pack(track_bits(buf, start));
    let frame = at_most(bytes, length_cap(bytes));
    assert forall|i: int| 0 <= i < n implies bytes[i] == #[trigger] data[i] by {
        assert(bytes.take(n)[i] == bytes[i]);
    }
    let p = padded(body);
    assert(data[12] == p[12] && data[13] == p[13] && data[16] == p[16] && data[17] == p[17]);
    assert(bytes[12] == data[12] && bytes[13] == data[13] && bytes[16] == data[16] && bytes[17]
        == data[17]);
    assert(frame.take(n) =~= data);
    assert(frame.take(n - 4) =~= data.take(n - 4));
    assert(frame[n - 4] == data[n - 4] && frame[n - 3] == data[n - 3] && frame[n - 2] == data[n
        - 2] && frame[n - 1] == data[n - 1]);
}

/// A frame from a sender whose clock is off is received whole. After a lead-in, every bit
/// of the frame has an edge in its middle, before which the line is at the level of the
/// bit, and each edge comes at most one sample off a bit time from the one before. However
/// the half-bits are shortened and lengthened, the frame decodes, the length is read off
/// its header, and the check sequence is found right.
pub proof fn lemma_drifting_frame_is_received(
    buf: Seq<u8>,
    lead: int,
    steady: u8,
    head: Seq<u8>,
    edges: Seq<int>,
    body: Seq<u8>,
)
    requires
        shows_bits(buf, lead, steady, head),
        -2 <= lead,
        locks(head),
        edges.len() == 8 * framed(body).len(),
        drifting_edges(buf, edges),
        comes_near(buf, edges[0], lead + 6 * head.len() + 2),
        edges.last() + 2 < 8 * buf.len(),
        forall|i: int|
            0 <= i < edges.len() ==> sample(buf, #[trigger] edges[i] - 1) == stream_bit(
                framed(body),
                i,
            ),
        states_length(body),
    ensures
        tracked_frame(buf) is Some,
        ({
            let frame = tracked_frame(buf)->0;
            let n = framed(body).len() as int;
            &&& n <= frame.len()
            &&& frame.take(n) == framed(body)
            &&& declared_len(frame) == n
            &&& fcs_valid(frame, n)
        }),
{
    let c = lead + 6 * head.len() + 2;
    lemma_framed_is_valid(body);
    lemma_lock_point(buf, lead, steady, head);
    crate::eth_rx_dpll::lemma_edges_ordered(buf, edges, 0, edges.len() - 1);
    lemma_settles(buf, c, edges[0]);
    lemma_tracks_data(buf, edges, framed(body));
    lemma_bytes_are_received(buf, edges[0], body);
}

/// The tracker reads the data whose bits the edges mark.
proof fn lemma_tracks_data(buf: Seq<u8>, edges: Seq<int>, data: Seq<u8>)
    requires
        data.len() > 0,
        edges.len() == 8 * data.len(),
        drifting_edges(buf, edges),
        edges.last() + 2 < 8 * buf.len(),
        forall|i: int|
            0 <= i < edges.len() ==> sample(buf, #[trigger] edges[i] - 1) == stream_bit(data, i),
    ensures
        pack(track_bits(buf, edges[0])).len() >= data.len(),
        pack(track_bits(buf, edges[0])).take(data.len() as int) == data,
{
    lemma_tracks_drift(buf, edges);
    let bits = track_bits(buf, edges[0]);
    let bytes = pack(bits);
    assert forall|j: int| 0 <= j < data.len() implies #[trigger] bytes[j] == data[j] by {
        assert forall|i: int| 8 * j <= i < 8 * j + 8 implies #[trigger] bits[i] == stream_bit(
            data,
            i,
        ) by {
            assert(bits[i] == sample(buf, edges[i] - 1));
        }
        lemma_packed(bits, data, j);
    }
    assert(bytes.take(data.len() as int) =~= data);
}

/// What is sent is what is received: the words of a frame, sampled off the line, decode
/// to the padded body and its check sequence, the length is read off its header, and
/// the check sequence is found right. What follows the frame on the line makes no
/// difference.
pub proof fn lemma_sent_is_received(buf: Seq<u8>, lead: int, steady: u8, body: Seq<u8>)
    requires
        carries(buf, 0, lead, steady, manchester_words(preamble() + framed(body))),
        states_length(body),
    ensures
        tracked_frame(buf) is Some,
        ({
            let frame = tracked_frame(buf)->0;
            let n = framed(body).len() as int;
            &&& n <= frame.len()
            &&& frame.take(n) == framed(body)
            &&& declared_len(frame) == n
            &&& fcs_valid(frame, n)
        }),
{
    let bytes = preamble() + framed(body);
    let words = manchester_words(bytes);
    assert(words.take(bytes.len() as int) =~= words);
    lemma_carried_shows(buf, 0, lead, steady, words, bytes);
    lemma_shown_is_received(buf, lead, steady, body);
}

/// A decode without clock recovery reads the same frame, where there is no drift to recover
/// from.
pub proof fn lemma_open_loop_receives(
    buf: Seq<u8>,
    base: int,
    ns: int,
    lead: int,
    steady: u8,
    body: Seq<u8>,
)
    requires
        shows(buf, base, ns, lead, steady, preamble() + framed(body)),
        length_agrees(body),
        states_length(body) || ns <= lead + 48 * (8 + framed(body).len()) + 7,
    ensures
        open_loop_frame(buf, base, ns) == Some(framed(body)),
{
    let data = framed(body);
    let bytes = preamble() + data;
    let n = data.len() as int;
    lemma_framed_is_valid(body);
    let (f, k) = lemma_finds_delimiter(buf, base, ns, lead, steady, data, SFD_SEARCH_BITS as int);
    assert(open_pos(f, k + 8 * n) < ns);
    lemma_open_count(f, ns, k + 8 * n);
    let count = (open_count(f, ns) - (k + 1)) as nat;
    let bits = open_bits(buf, base, f, k + 1, count);
    assert forall|j: int| 0 <= j < 8 * n implies #[trigger] bits[j] == stream_bit(
        bytes,
        64 + j,
    ) by {
        lemma_shown(buf, base, ns, lead, steady, bytes, 64 + j, 1);
        assert(open_pos(f, k + 1 + j) == lead + 6 * (64 + j) + 1);
    }
    let out = pack(bits);
    assert forall|j: int| 0 <= j < n implies #[trigger] out[j] == data[j] by {
        lemma_packed_byte(bits, data, j);
    }
    let p = padded(body);
    assert(data[12] == p[12] && data[13] == p[13] && data[16] == p[16] && data[17] == p[17]);
    let avail = at_most(out, MAX_FRAME_BYTES as int);
    assert(at_most(avail, open_loop_cap(avail)) =~= data);
}

} // verus!
