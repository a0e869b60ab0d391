//! Frames sent one after another are received one after another.
//!
//! A frame on the line is one run of active sample bytes, between quiet ones. The scan of
//! an image finds the run, reads its address, decodes it and publishes the frame.

use vstd::prelude::*;

use crate::eth_mac::{accepts, publishes, scanned, tallied, verdict, Tally, MIN_RUN};
use crate::eth_rx::{active, long_run_at, next_run, quiet_at, run_end};
use crate::eth_tx::{
    frame_end, framed, idle_words, lemma_framed_is_valid, preamble, raw_frame_words, udp_body,
    udp_frame, UdpEndpoint, IFG_WORDS, MAX_UDP_PAYLOAD, TP_IDL_WORD,
};
use crate::loopback::{
    carries, lemma_carried_shows, lemma_peeks_destination, lemma_shown, lemma_shown_is_received,
    length_agrees, level, seen, shows, slot, states_length, stream_bit,
};
use crate::manchester::{half_bit, manchester_words};
use crate::samples::{lemma_sample_bit, sample};
use crate::search::{lemma_least, lemma_least_found};

verus! {

proof fn lemma_flat_byte(b: u8)
    by (bit_vector)
    ensures
        (b >> 0u8) & 1 == 0 && (b >> 1u8) & 1 == 0 && (b >> 2u8) & 1 == 0 && (b >> 3u8) & 1 == 0
            && (b >> 4u8) & 1 == 0 && (b >> 5u8) & 1 == 0 && (b >> 6u8) & 1 == 0 && (b >> 7u8) & 1
            == 0 ==> b == 0,
        (b >> 0u8) & 1 == 1 && (b >> 1u8) & 1 == 1 && (b >> 2u8) & 1 == 1 && (b >> 3u8) & 1 == 1
            && (b >> 4u8) & 1 == 1 && (b >> 5u8) & 1 == 1 && (b >> 6u8) & 1 == 1 && (b >> 7u8) & 1
            == 1 ==> b == 0xFF,
{
}

proof fn lemma_flat_bits(k: u8)
    by (bit_vector)
    requires
        k < 8,
    ensures
        (0x00u8 >> k) & 1 == 0,
        (0xFFu8 >> k) & 1 == 1,
{
}

/// A byte in which the line moves is active.
proof fn lemma_moving_is_active(buf: Seq<u8>, b: int, m: int)
    requires
        8 * b < m <= 8 * b + 7,
        sample(buf, m - 1) != sample(buf, m),
    ensures
        active(buf[b]),
{
    assert(m / 8 == b && (m - 1) / 8 == b);
    lemma_flat_bits((m % 8) as u8);
    lemma_flat_bits(((m - 1) % 8) as u8);
}

/// A byte in which the line does not move is quiet.
proof fn lemma_steady_is_quiet(buf: Seq<u8>, b: int)
    requires
        forall|k: int| 0 <= k < 8 ==> #[trigger] seen(buf, 8 * b, k) == sample(buf, 8 * b),
    ensures
        !active(buf[b]),
{
    lemma_sample_bit(buf, 8 * b);
    assert forall|k: int| 0 <= k < 8 implies (buf[b] >> (k as u8)) & 1 == #[trigger] seen(
        buf,
        8 * b,
        k,
    ) by {
        assert((8 * b + k) / 8 == b && (8 * b + k) % 8 == k);
    }
    let v = sample(buf, 8 * b);
    assert(seen(buf, 8 * b, 0) == v && seen(buf, 8 * b, 1) == v && seen(buf, 8 * b, 2) == v && seen(
        buf,
        8 * b,
        3,
    ) == v && seen(buf, 8 * b, 4) == v && seen(buf, 8 * b, 5) == v && seen(buf, 8 * b, 6) == v
        && seen(buf, 8 * b, 7) == v);
    lemma_flat_byte(buf[b]);
}

/// A stream that shows in full, with a low line after it.
pub open spec fn passes(
    buf: Seq<u8>,
    base: int,
    ns: int,
    lead: int,
    steady: u8,
    data: Seq<u8>,
) -> bool {
    &&& shows(buf, base, ns, lead, steady, preamble() + data)
    &&& 0 <= lead
    &&& lead + 48 * (8 + data.len()) + 16 <= ns
    &&& forall|i: int|
        lead + 48 * (8 + data.len()) <= i < lead + 48 * (8 + data.len()) + 16
            ==> #[trigger] seen(buf, base, i) == 0
}

/// The line moves in the middle of every bit.
proof fn lemma_moves_in_bit(
    buf: Seq<u8>,
    base: int,
    ns: int,
    lead: int,
    steady: u8,
    data: Seq<u8>,
    i: int,
)
    requires
        passes(buf, base, ns, lead, steady, data),
        0 <= i < 8 * (8 + data.len()),
    ensures
        sample(buf, base + lead + 6 * i + 2) != sample(buf, base + lead + 6 * i + 3),
{
    let bytes = preamble() + data;
    lemma_shown(buf, base, ns, lead, steady, bytes, i, 2);
    lemma_shown(buf, base, ns, lead, steady, bytes, i, 3);
    assert(base + (lead + 6 * i + 2) == base + lead + 6 * i + 2);
    assert(base + (lead + 6 * i + 3) == base + lead + 6 * i + 3);
}

/// A byte wholly inside a frame is active.
proof fn lemma_inside_is_active(
    buf: Seq<u8>,
    cursor: int,
    ns: int,
    lead: int,
    steady: u8,
    data: Seq<u8>,
    b: int,
)
    requires
        passes(buf, 8 * cursor, ns, lead, steady, data),
        8 * cursor + lead <= 8 * b,
        8 * b + 8 <= 8 * cursor + lead + 48 * (8 + data.len()),
    ensures
        active(buf[b]),
{
    let j = 8 * b - 8 * cursor - lead;
    let i = (j + 3) / 6;
    lemma_moves_in_bit(buf, 8 * cursor, ns, lead, steady, data, i);
    lemma_moving_is_active(buf, b, 8 * cursor + lead + 6 * i + 3);
}

/// The sample at which the line first moves, counted from the cursor.
spec fn first_move(lead: int, steady: u8) -> int {
    if steady == 0 {
        lead
    } else {
        lead + 3
    }
}

/// The line is level up to where it first moves.
proof fn lemma_level_before(
    buf: Seq<u8>,
    base: int,
    ns: int,
    lead: int,
    steady: u8,
    data: Seq<u8>,
    i: int,
)
    requires
        passes(buf, base, ns, lead, steady, data),
        0 <= i < first_move(lead, steady),
    ensures
        seen(buf, base, i) == if steady == 0 {
            0u8
        } else {
            1u8
        },
{
    if i < lead {
        lemma_sample_bit(buf, base + i);
        assert(seen(buf, base, i) == steady);
    } else {
        crate::loopback::lemma_preamble(data, 0);
        lemma_shown(buf, base, ns, lead, steady, preamble() + data, 0, i - lead);
        assert(base + (lead + 6 * 0 + (i - lead)) == base + i);
    }
}

/// Bytes before the first move are quiet, and the byte it falls in is active.
proof fn lemma_run_begins(
    buf: Seq<u8>,
    cursor: int,
    ns: int,
    lead: int,
    steady: u8,
    data: Seq<u8>,
)
    requires
        passes(buf, 8 * cursor, ns, lead, steady, data),
        data.len() > 0,
    ensures
        ({
            let off = cursor + first_move(lead, steady) / 8;
            &&& active(buf[off])
            &&& forall|b: int| cursor <= b < off ==> !active(#[trigger] buf[b])
        }),
{
    let base = 8 * cursor;
    let t = first_move(lead, steady);
    let off = cursor + t / 8;
    assert forall|b: int| cursor <= b < off implies !active(#[trigger] buf[b]) by {
        lemma_level_before(buf, base, ns, lead, steady, data, 8 * b - base);
        assert forall|k: int| 0 <= k < 8 implies #[trigger] seen(buf, 8 * b, k) == sample(
            buf,
            8 * b,
        ) by {
            lemma_level_before(buf, base, ns, lead, steady, data, 8 * b - base + k);
            assert(base + (8 * b - base + k) == 8 * b + k);
        }
        lemma_steady_is_quiet(buf, b);
    }
    if t % 8 == 0 {
        lemma_inside_is_active(buf, cursor, ns, lead, steady, data, off);
    } else {
        lemma_level_before(buf, base, ns, lead, steady, data, t - 1);
        crate::loopback::lemma_preamble(data, 0);
        lemma_shown(buf, base, ns, lead, steady, preamble() + data, 0, t - lead);
        assert(base + (lead + 6 * 0 + (t - lead)) == base + t);
        assert(base + (t - 1) == base + t - 1);
        lemma_moving_is_active(buf, off, base + t);
    }
}

/// The run ends in the quiet after the frame, and not before the last bit has been seen.
/// What is left of the frame after the run is low.
proof fn lemma_run_ends(
    buf: Seq<u8>,
    cursor: int,
    ns: int,
    lead: int,
    steady: u8,
    data: Seq<u8>,
)
    requires
        passes(buf, 8 * cursor, ns, lead, steady, data),
        data.len() > 0,
        8 * cursor + ns == 8 * buf.len(),
    ensures
        ({
            let off = cursor + first_move(lead, steady) / 8;
            let last = lead + 48 * (8 + data.len());
            let e = run_end(buf, off);
            &&& e < buf.len()
            &&& 8 * cursor + last - 3 <= 8 * e <= 8 * cursor + last + 7
            &&& forall|i: int|
                8 * (e - cursor) <= i < last ==> #[trigger] seen(buf, 8 * cursor, i) == 0
        }),
{
    let base = 8 * cursor;
    let off = cursor + first_move(lead, steady) / 8;
    let bytes = preamble() + data;
    let last = lead + 48 * (8 + data.len());
    let q = quiet_at(buf);
    let stop = cursor + (last + 7) / 8;
    assert(seen(buf, base, 8 * stop - base) == 0);
    assert forall|k: int| 0 <= k < 8 implies #[trigger] seen(buf, 8 * stop, k) == sample(
        buf,
        8 * stop,
    ) by {
        assert(seen(buf, base, 8 * stop - base + k) == 0);
        assert(base + (8 * stop - base + k) == 8 * stop + k);
    }
    lemma_steady_is_quiet(buf, stop);
    assert(q(stop));
    lemma_least(off, buf.len() as int, q);
    let e = run_end(buf, off);
    assert(off <= e <= stop);
    assert(!active(buf[e]));
    lemma_run_begins(buf, cursor, ns, lead, steady, data);
    assert(e > off);
    let m = 8 * (8 + data.len()) - 1;
    if 8 * e < base + last - 3 {
        if 8 * e + 8 <= base + last {
            lemma_inside_is_active(buf, cursor, ns, lead, steady, data, e);
        } else {
            lemma_moves_in_bit(buf, base, ns, lead, steady, data, m);
            lemma_moving_is_active(buf, e, base + lead + 6 * m + 3);
        }
    }
    assert forall|i: int| 8 * (e - cursor) <= i < last implies #[trigger] seen(buf, base, i)
        == 0 by {
        lemma_shown(buf, base, ns, lead, steady, bytes, m, i - lead - 6 * m);
        assert(base + (lead + 6 * m + (i - lead - 6 * m)) == base + i);
        if stream_bit(bytes, m) == 0 {
            lemma_shown(buf, base, ns, lead, steady, bytes, m, 5);
            assert(base + (lead + 6 * m + 5) == base + last - 1);
            assert(seen(buf, base, last) == 0);
            lemma_moving_is_active(buf, e, base + last);
        }
    }
}

/// A frame on the line is one run, which the scan finds next.
proof fn lemma_frame_is_a_run(
    buf: Seq<u8>,
    cursor: int,
    lead: int,
    steady: u8,
    data: Seq<u8>,
)
    requires
        0 <= cursor,
        passes(buf, 8 * cursor, 8 * buf.len() - 8 * cursor, lead, steady, data),
        data.len() >= 64,
    ensures
        ({
            let off = cursor + first_move(lead, steady) / 8;
            next_run(buf, cursor, MIN_RUN as int) == Some((off, run_end(buf, off) - off))
        }),
{
    let ns = 8 * buf.len() - 8 * cursor;
    let off = cursor + first_move(lead, steady) / 8;
    lemma_run_begins(buf, cursor, ns, lead, steady, data);
    lemma_run_ends(buf, cursor, ns, lead, steady, data);
    let p = long_run_at(buf, cursor, MIN_RUN as int);
    assert(p(off));
    assert forall|s: int| cursor <= s < off implies !#[trigger] p(s) by {
        assert(!active(buf[s]));
    }
    lemma_least_found(cursor, buf.len() as int, p, off);
}

/// A part of what shows a stream shows it too, if it leaves out less than a bit of it.
proof fn lemma_part_shows(
    buf: Seq<u8>,
    cursor: int,
    ns: int,
    lead: int,
    steady: u8,
    bytes: Seq<u8>,
    off: int,
    len: int,
)
    requires
        shows(buf, 8 * cursor, ns, lead, steady, bytes),
        0 <= cursor <= off,
        bytes.len() > 0,
        8 * (off + len) <= 8 * cursor + ns,
        8 * (off - cursor) <= lead + 3,
        lead - 8 * (off - cursor) + 48 * bytes.len() - 3 <= 8 * len,
    ensures
        shows(buf, 8 * off, 8 * len, lead - 8 * (off - cursor), steady, bytes),
        shows(
            buf.subrange(off, off + len),
            0,
            8 * len,
            lead - 8 * (off - cursor),
            steady,
            bytes,
        ),
{
    let k = 8 * (off - cursor);
    let part = buf.subrange(off, off + len);
    assert forall|i: int| 0 <= i < lead - k implies #[trigger] seen(buf, 8 * off, i) == steady by {
        assert(seen(buf, 8 * cursor, k + i) == steady);
        assert(8 * cursor + (k + i) == 8 * off + i);
    }
    assert forall|i: int|
        0 <= i < 8 * len && lead - k <= i < lead - k + 48 * bytes.len() implies #[trigger] seen(
        buf,
        8 * off,
        i,
    ) == crate::loopback::line_sample(bytes, i - (lead - k)) by {
        assert(seen(buf, 8 * cursor, k + i) == crate::loopback::line_sample(bytes, k + i - lead));
        assert(8 * cursor + (k + i) == 8 * off + i);
    }
    assert forall|i: int| 0 <= i < 8 * len implies #[trigger] seen(part, 0, i) == seen(
        buf,
        8 * off,
        i,
    ) by {
        assert((8 * off + i) / 8 == off + i / 8 && (8 * off + i) % 8 == i % 8);
        assert(part[i / 8] == buf[off + i / 8]);
        assert(0 + i == i);
    }
}

proof fn lemma_quiet_halves(s: u32)
    by (bit_vector)
    requires
        s < 32,
        s % 2 == 0,
    ensures
        (0x0000_0AAAu32 >> s) & 3 != 1,
        (0u32 >> s) & 3 != 1,
{
}

/// The end of a frame and the gap after it leave the line low.
proof fn lemma_end_is_low(w: int, h: int)
    requires
        0 <= w < frame_end().len(),
        0 <= h < 16,
    ensures
        level(half_bit(frame_end()[w], h)) == 0,
{
    lemma_quiet_halves((2 * h) as u32);
    if w == 0 {
        assert(frame_end()[0] == TP_IDL_WORD);
    } else {
        assert(frame_end()[w] == idle_words(IFG_WORDS as nat)[w - 1]);
    }
}

/// What was sent passes, and the line stays low for the gap.
proof fn lemma_carried_passes(
    buf: Seq<u8>,
    cursor: int,
    lead: int,
    steady: u8,
    words: Seq<u32>,
    body: Seq<u8>,
)
    requires
        carries(buf, 8 * cursor, lead, steady, words),
        words.len() >= raw_frame_words(body).len(),
        words.take(raw_frame_words(body).len() as int) == raw_frame_words(body),
    ensures
        passes(buf, 8 * cursor, 8 * buf.len() - 8 * cursor, lead, steady, framed(body)),
        raw_frame_words(body).len() == framed(body).len() + 21,
        forall|i: int|
            lead + 48 * (8 + framed(body).len()) <= i < lead + 48 * (21 + framed(body).len())
                ==> #[trigger] seen(buf, 8 * cursor, i) == 0,
{
    let base = 8 * cursor;
    let bytes = preamble() + framed(body);
    let raw = raw_frame_words(body);
    let m = bytes.len() as int;
    let last = lead + 48 * m;
    assert(words.take(m) =~= manchester_words(bytes)) by {
        assert forall|w: int| 0 <= w < m implies words[w] == #[trigger] manchester_words(
            bytes,
        )[w] by {
            assert(words.take(raw.len() as int)[w] == raw[w]);
        }
    }
    lemma_carried_shows(buf, base, lead, steady, words, bytes);
    assert forall|i: int| last <= i < last + 624 implies #[trigger] seen(buf, base, i) == 0 by {
        let j = i - last;
        let w = j / 48;
        let h = (j % 48) / 3;
        let d = j % 3;
        assert(slot(lead, m + w, h, d) == i);
        assert(words.take(raw.len() as int)[m + w] == raw[m + w]);
        assert(raw[m + w] == frame_end()[w]);
        lemma_end_is_low(w, h);
    }
}

/// The next run of a scan is the frame that was sent next. It is published if it is for
/// us, and the line is low from the end of the run to the end of the gap.
proof fn lemma_next_is_received(
    our: Seq<u8>,
    buf: Seq<u8>,
    cursor: int,
    lead: int,
    steady: u8,
    words: Seq<u32>,
    body: Seq<u8>,
) -> (r: (int, int))
    requires
        0 <= cursor,
        carries(buf, 8 * cursor, lead, steady, words),
        words.len() >= raw_frame_words(body).len(),
        words.take(raw_frame_words(body).len() as int) == raw_frame_words(body),
        length_agrees(body),
    ensures
        next_run(buf, cursor, MIN_RUN as int) == Some(r),
        cursor < r.0 + r.1 < buf.len(),
        publishes(verdict(our, buf, r.0, r.1)) == if accepts(framed(body).take(6), our) {
            Some(framed(body))
        } else {
            None
        },
        8 * (r.0 + r.1 - cursor) <= lead + 48 * raw_frame_words(body).len(),
        forall|i: int|
            8 * (r.0 + r.1 - cursor) <= i < lead + 48 * raw_frame_words(body).len()
                ==> #[trigger] seen(buf, 8 * cursor, i) == 0,
{
    let data = framed(body);
    let bytes = preamble() + data;
    let ns = 8 * buf.len() - 8 * cursor;
    lemma_framed_is_valid(body);
    lemma_carried_passes(buf, cursor, lead, steady, words, body);
    lemma_frame_is_a_run(buf, cursor, lead, steady, data);
    lemma_run_ends(buf, cursor, ns, lead, steady, data);
    let off = cursor + first_move(lead, steady) / 8;
    let len = run_end(buf, off) - off;
    lemma_part_shows(buf, cursor, ns, lead, steady, bytes, off, len);
    let part = buf.subrange(off, off + len);
    let at = lead - 8 * (off - cursor);
    lemma_peeks_destination(buf, 8 * off, 8 * len, at, steady, data);
    lemma_shown_is_received(part, at, steady, body);
    (off, len)
}

/// The words of frames sent one after another.
pub open spec fn sent(bodies: Seq<Seq<u8>>) -> Seq<u32>
    decreases bodies.len(),
{
    if bodies.len() == 0 {
        Seq::empty()
    } else {
        raw_frame_words(bodies[0]) + sent(bodies.skip(1))
    }
}

/// The frames of those that are for us.
pub open spec fn received(our: Seq<u8>, bodies: Seq<Seq<u8>>) -> Seq<Seq<u8>>
    decreases bodies.len(),
{
    if bodies.len() == 0 {
        Seq::empty()
    } else if accepts(framed(bodies[0]).take(6), our) {
        seq![framed(bodies[0])] + received(our, bodies.skip(1))
    } else {
        received(our, bodies.skip(1))
    }
}

/// Frames sent one after another are received one after another: the scan of an image of
/// the line publishes every one that is for us, padded and with its check sequence, in
/// the order in which they were sent, and none of the others. What follows them on the
/// line makes no difference.
pub proof fn lemma_frames_are_received(
    our: Seq<u8>,
    buf: Seq<u8>,
    cursor: int,
    lead: int,
    steady: u8,
    bodies: Seq<Seq<u8>>,
    stitched: bool,
    t: Tally,
)
    requires
        0 <= cursor,
        carries(buf, 8 * cursor, lead, steady, sent(bodies)),
        forall|i: int| 0 <= i < bodies.len() ==> length_agrees(#[trigger] bodies[i]),
    ensures
        ({
            let frames = scanned(our, buf, cursor, stitched, t).1;
            let n = received(our, bodies).len() as int;
            &&& n <= frames.len()
            &&& frames.take(n) == received(our, bodies)
        }),
    decreases bodies.len(),
{
    let frames = scanned(our, buf, cursor, stitched, t).1;
    if bodies.len() == 0 {
        assert(frames.take(0) =~= received(our, bodies));
    } else {
        let body = bodies[0];
        let raw = raw_frame_words(body);
        let words = sent(bodies);
        let more = sent(bodies.skip(1));
        assert(length_agrees(body));
        assert(words.take(raw.len() as int) =~= raw);
        let (off, len) = lemma_next_is_received(our, buf, cursor, lead, steady, words, body);
        let next = off + len;
        let gap = lead + 48 * raw.len() - 8 * (next - cursor);
        assert(carries(buf, 8 * next, gap, 0, more)) by {
            assert forall|i: int| 0 <= i < gap implies #[trigger] seen(buf, 8 * next, i) == 0 by {
                assert(seen(buf, 8 * cursor, 8 * (next - cursor) + i) == 0);
                assert(8 * cursor + (8 * (next - cursor) + i) == 8 * next + i);
            }
            assert forall|w: int, h: int, d: int|
                0 <= w < more.len() && 0 <= h < 16 && 0 <= d < 3 implies seen(
                buf,
                8 * next,
                #[trigger] slot(gap, w, h, d),
            ) == level(half_bit(more[w], h)) by {
                let v = raw.len() + w;
                assert(words[v] == more[w]);
                assert(seen(buf, 8 * cursor, slot(lead, v, h, d)) == level(
                    half_bit(words[v], h),
                ));
                assert(8 * cursor + slot(lead, v, h, d) == 8 * next + slot(gap, w, h, d));
            }
        }
        let v = verdict(our, buf, off, len);
        let u = tallied(t, v, stitched);
        let rest = scanned(our, buf, next, stitched, u).1;
        assert forall|i: int| 0 <= i < bodies.skip(1).len() implies length_agrees(
            #[trigger] bodies.skip(1)[i],
        ) by {
            assert(length_agrees(bodies[i + 1]));
        }
        lemma_frames_are_received(our, buf, next, gap, 0, bodies.skip(1), stitched, u);
        let tail = received(our, bodies.skip(1));
        if accepts(framed(body).take(6), our) {
            assert(frames == seq![framed(body)] + rest);
            assert(frames.take(tail.len() as int + 1) =~= seq![framed(body)] + rest.take(
                tail.len() as int,
            ));
        } else {
            assert(frames == rest);
        }
    }
}

/// A broadcast is a frame like any other: unless it is a runt, for want of padding, its
/// words are those of a frame with its packet as body, which states its length.
pub proof fn lemma_broadcast_is_a_frame(ep: UdpEndpoint, payload: Seq<u8>, ip_id: u16)
    requires
        18 <= payload.len() <= MAX_UDP_PAYLOAD,
    ensures
        manchester_words(udp_frame(ep, payload, ip_id)) + frame_end() == raw_frame_words(
            udp_body(ep, payload, ip_id),
        ),
        states_length(udp_body(ep, payload, ip_id)),
{
    let body = udp_body(ep, payload, ip_id);
    assert(body.len() == payload.len() + 42);
    assert(udp_frame(ep, payload, ip_id) =~= preamble() + framed(body));
    assert(body[12] == 0x08 && body[13] == 0x00);
    let total = (payload.len() + 28) as u16;
    assert(body[16] == (total / 256) as u8 && body[17] == (total % 256) as u8);
}

} // verus!
