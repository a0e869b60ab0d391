//! Edge-tracking Manchester decoder.
//!
//! Re-anchors to each mid-bit edge, within one sample, so that clock drift cannot walk
//! the sample point off centre. The edge is expected at `F + 5 + 6k`, and each data bit
//! is the sample just before its edge.

use vstd::prelude::*;

use crate::eth_rx::{
    at_most, find_first_falling_edge, find_sfd_end, first_fall, falls, lemma_open_rest, open_count,
    pair_of_ones, push_bit, sfd_end, SFD_SEARCH_BITS,
};
use crate::frame::{frame_bytes, frame_new, frame_slice, Frame};
use crate::samples::{are_bits, bits_value, lemma_pack_prefix, pack, partial, sample, sample_bit};
use crate::search::lemma_least;
use crate::wire::{be16, rd16};

pub use crate::frame::MAX_FRAME_BYTES;

verus! {

/// The edge nearest to `c` within one sample, the lower on a tie; `c` itself where the
/// line does not move there.
pub open spec fn edge_near(buf: Seq<u8>, c: int) -> int {
    if sample(buf, c - 1) != sample(buf, c) {
        c
    } else if sample(buf, c - 2) != sample(buf, c - 1) {
        c - 1
    } else if sample(buf, c) != sample(buf, c + 1) {
        c + 1
    } else {
        c
    }
}

/// Where the tracker settles for an edge expected at `c`; it coasts near the ends of
/// the buffer.
pub open spec fn anchor(buf: Seq<u8>, c: int) -> int {
    if c >= 2 && c + 1 < 8 * buf.len() {
        edge_near(buf, c)
    } else {
        c
    }
}

/// The data bits read by a tracker settled at `tr`, to the end of the buffer.
pub open spec fn track_bits(buf: Seq<u8>, tr: int) -> Seq<u8>
    decreases 8 * buf.len() + 8 - tr,
{
    if tr <= 0 || tr > 8 * buf.len() {
        Seq::empty()
    } else {
        seq![sample(buf, tr - 1)] + track_bits(buf, anchor(buf, tr + 6))
    }
}

/// The length at which a decode stops: what an IPv4 header declares, else the capacity.
pub open spec fn length_cap(bytes: Seq<u8>) -> int {
    if bytes.len() >= 18 && be16(bytes, 12) == 0x0800 {
        if 18 + be16(bytes, 16) <= 64 {
            64
        } else if 18 + be16(bytes, 16) >= MAX_FRAME_BYTES {
            MAX_FRAME_BYTES as int
        } else {
            18 + be16(bytes, 16) as int
        }
    } else {
        MAX_FRAME_BYTES as int
    }
}

/// Where the tracker starts: at the edge of the first bit after the delimiter.
pub open spec fn first_anchor(buf: Seq<u8>) -> Option<int> {
    let ns = 8 * buf.len() as int;
    match first_fall(buf, 0, ns) {
        None => None,
        Some(f) => match sfd_end(buf, 0, f, ns, SFD_SEARCH_BITS as int) {
            None => None,
            Some(k) => Some(anchor(buf, f + 5 + 6 * (k + 1))),
        },
    }
}

/// The frame an edge-tracking decode of `buf` reads.
pub open spec fn tracked_frame(buf: Seq<u8>) -> Option<Seq<u8>> {
    match first_anchor(buf) {
        None => None,
        Some(tr) => {
            let bytes = pack(track_bits(buf, tr));
            Some(at_most(bytes, length_cap(bytes)))
        },
    }
}

/// Nearest edge to `center` within one sample, ties low; `center` if none.
fn find_edge_w1(buf: &[u8], center: usize) -> (r: usize)
    requires
        2 <= center,
        center + 1 < 8 * buf@.len(),
        center < usize::MAX,
    ensures
        r == edge_near(buf@, center as int),
        center - 1 <= r <= center + 1,
{
    let s_m2: u8 = sample_bit(buf, center - 2);
    let s_m1: u8 = sample_bit(buf, center - 1);
    let s_0: u8 = sample_bit(buf, center);
    let s_p1: u8 = sample_bit(buf, center + 1);
    if s_m1 != s_0 {
        center
    } else if s_m2 != s_m1 {
        center - 1
    } else if s_0 != s_p1 {
        center + 1
    } else {
        center
    }
}

/// Settle on the edge expected at `center`.
fn settle(buf: &[u8], center: usize) -> (r: usize)
    requires
        8 * buf@.len() <= usize::MAX,
        center < usize::MAX,
    ensures
        r == anchor(buf@, center as int),
        center - 1 <= r <= center + 1,
{
    if center < 2 || center + 1 >= buf.len() * 8 {
        center
    } else {
        find_edge_w1(buf, center)
    }
}

/// Read the bits of a tracker settled at `start` into a frame.
fn track_frame(buf: &[u8], start: usize) -> (frame: Frame)
    requires
        8 * buf@.len() + 7 <= usize::MAX,
    ensures
        ({
            let bytes = pack(track_bits(buf@, start as int));
            frame_bytes(frame) == at_most(bytes, length_cap(bytes))
        }),
{
    let ns: usize = buf.len() * 8;
    let mut tr: usize = start;
    let mut frame: Frame = frame_new();
    let mut byte: u8 = 0;
    let mut bit_idx: u8 = 0;
    let mut cap_bytes: usize = MAX_FRAME_BYTES;
    let ghost all = track_bits(buf@, start as int);
    let ghost mut seen: Seq<u8> = Seq::empty();
    assert(seen + all =~= all);
    assert(pack(seen) =~= Seq::<u8>::empty());
    assert(partial(seen) =~= Seq::<u8>::empty());
    while tr != 0 && tr <= ns
        invariant
            ns == 8 * buf@.len(),
            ns + 7 <= usize::MAX,
            all == track_bits(buf@, start as int),
            seen + track_bits(buf@, tr as int) == all,
            are_bits(seen),
            frame_bytes(frame) == pack(seen),
            bit_idx == seen.len() % 8,
            byte == bits_value(partial(seen)),
            pack(seen).len() < cap_bytes <= MAX_FRAME_BYTES,
            pack(seen).len() < 18 ==> cap_bytes == MAX_FRAME_BYTES,
            pack(seen).len() >= 18 ==> cap_bytes == length_cap(pack(all)),
        decreases ns + 8 - tr,
    {
        let ghost rest = track_bits(buf@, anchor(buf@, tr + 6));
        let bit: u8 = sample_bit(buf, tr - 1);
        let ghost before = seen;
        let whole: bool = push_bit(&mut frame, &mut byte, &mut bit_idx, bit, Ghost(seen));
        proof {
            seen = seen.push(bit);
            assert(seen + rest =~= before + (seq![bit] + rest));
            lemma_pack_prefix(seen, rest);
        }
        if whole {
            let head: &[u8] = frame_slice(&frame);
            assert(head@ =~= pack(all).take(pack(seen).len() as int));
            if head.len() == 18 {
                assert(head@[12] == pack(all)[12] && head@[13] == pack(all)[13] && head@[16]
                    == pack(all)[16] && head@[17] == pack(all)[17]);
                if rd16(head, 12) == 0x0800 {
                    let derived: usize = 14 + rd16(head, 16) as usize + 4;
                    cap_bytes = if derived <= 64 {
                        64
                    } else if derived >= MAX_FRAME_BYTES {
                        MAX_FRAME_BYTES
                    } else {
                        derived
                    };
                }
            }
            if head.len() >= cap_bytes {
                assert(frame_bytes(frame) =~= at_most(pack(all), length_cap(pack(all))));
                return frame;
            }
        }
        tr = settle(buf, tr + 6);
    }
    assert(seen =~= all);
    frame
}

/// Where the delimiter ends lies inside the samples, and so nearly does the first edge.
proof fn lemma_start_bounds(buf: Seq<u8>, f: int, k: int)
    requires
        first_fall(buf, 0, 8 * buf.len() as int) == Some(f),
        sfd_end(buf, 0, f, 8 * buf.len() as int, SFD_SEARCH_BITS as int) == Some(k),
    ensures
        1 <= f < 8 * buf.len(),
        1 <= k < SFD_SEARCH_BITS,
        f + 5 + 6 * (k + 1) <= 8 * buf.len() + 6,
{
    let ns = 8 * buf.len() as int;
    lemma_least(1, ns, falls(buf, 0));
    let total = open_count(f, ns);
    lemma_least(
        1,
        if SFD_SEARCH_BITS < total {
            SFD_SEARCH_BITS as int
        } else {
            total
        },
        pair_of_ones(buf, 0, f),
    );
    lemma_open_rest(f, ns, k + 1);
}

/// Where the tracker starts.
fn find_start(buf: &[u8], ns_full: usize) -> (r: Option<usize>)
    requires
        buf@.len() > 0,
        ns_full == 8 * buf@.len(),
        ns_full + 7 <= usize::MAX,
    ensures
        match r {
            Some(tr) => first_anchor(buf@) == Some(tr as int),
            None => first_anchor(buf@) is None,
        },
{
    let f: usize = match find_first_falling_edge(buf, 0, ns_full) {
        Some(f) => f,
        None => {
            return None;
        },
    };
    proof {
        lemma_least(1, ns_full as int, falls(buf@, 0));
    }
    let sfd: usize = match find_sfd_end(buf, 0, f, ns_full, SFD_SEARCH_BITS) {
        Some(k) => k,
        None => {
            return None;
        },
    };
    proof {
        lemma_start_bounds(buf@, f as int, sfd as int);
    }
    let initial_center: usize = f + 5 + 6 * (sfd + 1);
    Some(settle(buf, initial_center))
}

/// Decode a frame from `buf`, capped by the IP length; `None` where no falling edge or
/// no delimiter is found, as in a buffer without samples.
pub fn decode_frame_edge_track(buf: &[u8]) -> (r: Option<Frame>)
    ensures
        buf@.len() == 0 ==> r is None,
        8 * buf@.len() > usize::MAX ==> r is None,
        8 * buf@.len() <= usize::MAX ==> match r {
            Some(frame) => tracked_frame(buf@) == Some(frame_bytes(frame)),
            None => tracked_frame(buf@) is None,
        },
{
    if buf.len() == 0 {
        return None;
    }
    let ns_full: usize = match buf.len().checked_mul(8) {
        Some(n) => n,
        None => {
            return None;
        },
    };
    match find_start(buf, ns_full) {
        Some(start) => Some(track_frame(buf, start)),
        None => None,
    }
}

/// The line is steady for three samples before `e` and two from `e` on, and moves at
/// `e`.
pub open spec fn clean_edge(buf: Seq<u8>, e: int) -> bool {
    &&& 3 <= e
    &&& e + 1 < 8 * buf.len()
    &&& sample(buf, e - 3) == sample(buf, e - 1)
    &&& sample(buf, e - 2) == sample(buf, e - 1)
    &&& sample(buf, e - 1) != sample(buf, e)
    &&& sample(buf, e + 1) == sample(buf, e)
}

/// The line is steady for two samples before `e` and two from `e` on, and moves at `e`.
pub open spec fn sharp_edge(buf: Seq<u8>, e: int) -> bool {
    &&& 2 <= e
    &&& e + 1 < 8 * buf.len()
    &&& sample(buf, e - 2) == sample(buf, e - 1)
    &&& sample(buf, e - 1) != sample(buf, e)
    &&& sample(buf, e + 1) == sample(buf, e)
}

/// The edge comes at most one sample off `c`. The half-bit before it may be a sample short
/// where it is on time or early; where it is late, it is preceded by three samples.
pub open spec fn comes_near(buf: Seq<u8>, e: int, c: int) -> bool {
    &&& sharp_edge(buf, e)
    &&& c - 1 <= e <= c + 1
    &&& e == c + 1 ==> sample(buf, e - 3) == sample(buf, e - 1)
}

/// Mid-bit edges of consecutive data bits, each at most one sample off a bit time from
/// the one before.
pub open spec fn drifting_edges(buf: Seq<u8>, edges: Seq<int>) -> bool {
    &&& forall|i: int| 0 <= i < edges.len() ==> sharp_edge(buf, #[trigger] edges[i])
    &&& forall|i: int|
        0 < i < edges.len() ==> comes_near(buf, #[trigger] edges[i], edges[i - 1] + 6)
}

/// The line moves at `j`.
pub open spec fn moves_at(buf: Seq<u8>, j: int) -> bool {
    sample(buf, j - 1) != sample(buf, j)
}

/// How far apart two samples are.
pub open spec fn apart(i: int, j: int) -> int {
    if i < j {
        j - i
    } else {
        i - j
    }
}

/// The tracker settles on the nearest edge within one sample, the earlier of two that are
/// as near; it stays where it is if there is none, and near the ends of the buffer.
pub proof fn lemma_nearest_edge(buf: Seq<u8>, c: int)
    ensures
        2 <= c && c + 1 < 8 * buf.len() ==> ({
            let r = anchor(buf, c);
            &&& c - 1 <= r <= c + 1
            &&& forall|j: int|
                c - 1 <= j <= c + 1 && #[trigger] moves_at(buf, j) ==> moves_at(buf, r) && apart(
                    r,
                    c,
                ) <= apart(j, c) && (apart(r, c) == apart(j, c) ==> r <= j)
            &&& !moves_at(buf, r) ==> r == c
        }),
        !(2 <= c && c + 1 < 8 * buf.len()) ==> anchor(buf, c) == c,
{
}

/// An edge that comes near where it is expected is the one the tracker settles on.
pub proof fn lemma_settles(buf: Seq<u8>, c: int, e: int)
    requires
        comes_near(buf, e, c),
        2 <= c,
        c + 1 < 8 * buf.len(),
    ensures
        anchor(buf, c) == e,
{
}

/// Drift does not accumulate: where every mid-bit edge comes within one sample of a bit
/// time after the one before, the tracker follows all of them, however far they have
/// wandered from the nominal grid, and reads the level before each. The half-bit that an
/// edge shortens or lengthens may be the one before it or the one after.
pub proof fn lemma_tracks_drift(buf: Seq<u8>, edges: Seq<int>)
    requires
        edges.len() > 0,
        drifting_edges(buf, edges),
        edges.last() + 2 < 8 * buf.len(),
    ensures
        track_bits(buf, edges[0]).len() >= edges.len(),
        forall|i: int|
            0 <= i < edges.len() ==> track_bits(buf, edges[0])[i] == sample(
                buf,
                #[trigger] edges[i] - 1,
            ),
    decreases edges.len(),
{
    let tr = edges[0];
    let bits = track_bits(buf, tr);
    let next = anchor(buf, tr + 6);
    assert(sharp_edge(buf, tr));
    assert(bits == seq![sample(buf, tr - 1)] + track_bits(buf, next));
    if edges.len() > 1 {
        let rest = edges.skip(1);
        assert(sharp_edge(buf, edges[1]));
        assert(comes_near(buf, edges[1], edges[1 - 1] + 6));
        lemma_edges_ordered(buf, edges, 1, edges.len() - 1);
        lemma_settles(buf, tr + 6, edges[1]);
        assert(drifting_edges(buf, rest)) by {
            assert forall|i: int| 0 <= i < rest.len() implies sharp_edge(
                buf,
                #[trigger] rest[i],
            ) by {
                assert(rest[i] == edges[i + 1]);
            }
            assert forall|i: int| 0 < i < rest.len() implies comes_near(
                buf,
                #[trigger] rest[i],
                rest[i - 1] + 6,
            ) by {
                assert(rest[i] == edges[i + 1]);
            }
        }
        lemma_tracks_drift(buf, rest);
        assert forall|i: int| 0 <= i < edges.len() implies bits[i] == sample(
            buf,
            #[trigger] edges[i] - 1,
        ) by {
            if i > 0 {
                assert(rest[i - 1] == edges[i]);
                assert(bits[i] == track_bits(buf, next)[i - 1]);
            }
        }
    }
}

/// Edges come in order.
pub(crate) proof fn lemma_edges_ordered(buf: Seq<u8>, edges: Seq<int>, i: int, j: int)
    requires
        drifting_edges(buf, edges),
        0 <= i <= j < edges.len(),
    ensures
        edges[i] <= edges[j],
    decreases j - i,
{
    if i < j {
        lemma_edges_ordered(buf, edges, i, j - 1);
        assert(comes_near(buf, edges[j], edges[j - 1] + 6));
    }
}

} // verus!
