//! Media access: from sample images to checked frames, and the counters around it.
//!
//! One core captures half-buffers into a ring of images; its thread scans each image
//! for runs of activity, decodes those addressed to us, and publishes the frames whose
//! check sequence is right. The other core takes them from the inbox and transmits.

use vstd::prelude::*;

use crate::eth_rx::{
    declared_len, fcs_valid, next_run, peeked_mac, EthRx, PollOutcome, STITCH_BUF_BYTES,
};
use crate::eth_rx_dpll::{decode_frame_edge_track, tracked_frame};
use crate::eth_tx::{frame_end, nlp_words, raw_frame_words, udp_frame, EthTx, UdpEndpoint};
use crate::frame::{
    frame_bytes, frame_slice, frame_truncate, inbox_frames, inbox_is_full, inbox_len, inbox_new,
    inbox_pop_front, inbox_push_back, Frame, Inbox,
};
use crate::manchester::manchester_words;
use crate::wire::{be16, mac_eq, rd16, splice, write_at};

pub use crate::frame::{INBOX_SLOTS, MAX_FRAME_BYTES};

verus! {

/// Largest IP packet.
pub const MTU: usize = 1500;

/// Frames the stack may have in flight; wider windows cost collisions.
pub const MAX_BURST: usize = 2;

/// Bytes of each decoded frame kept for the log.
pub const FRAME_SNAP_BYTES: usize = 128;

/// Slots of the image ring.
pub const IMG_SLOTS: u32 = 6;

/// Shortest run of active bytes that can be a frame.
pub const MIN_RUN: usize = 100;

/// The last frame decoded, for the log: its first bytes, its length, and whether its
/// check sequence was right.
pub struct LastFrame {
    pub snap: Seq<u8>,
    pub len: usize,
    pub ok: bool,
}

/// Receive counters, read and reset once a second.
#[derive(Clone, Copy)]
pub struct EthRxStats {
    /// Decodes of runs that passed the address filter.
    pub frames_decoded: u32,
    pub fcs_ok: u32,
    pub fcs_fail: u32,
    /// Runs dropped by the address filter.
    pub frames_filtered: u32,
    pub inbox_dropped: u32,
    pub inbox_high_water: u8,
    pub carry_capped: u32,
    pub last_frame_len: usize,
    pub last_frame_was_ok: bool,
    pub last_frame_snapshot: [u8; FRAME_SNAP_BYTES],
    pub last_frame_snapshot_len: usize,
}

/// Receive counters as a value.
pub struct RxTally {
    pub frames_decoded: u32,
    pub fcs_ok: u32,
    pub fcs_fail: u32,
    pub frames_filtered: u32,
    pub inbox_dropped: u32,
    pub inbox_high_water: u8,
    pub carry_capped: u32,
    pub last: LastFrame,
}

impl View for EthRxStats {
    type V = RxTally;

    open spec fn view(&self) -> RxTally {
        RxTally {
            frames_decoded: self.frames_decoded,
            fcs_ok: self.fcs_ok,
            fcs_fail: self.fcs_fail,
            frames_filtered: self.frames_filtered,
            inbox_dropped: self.inbox_dropped,
            inbox_high_water: self.inbox_high_water,
            carry_capped: self.carry_capped,
            last: LastFrame {
                snap: self.last_frame_snapshot@.take(self.last_frame_snapshot_len as int),
                len: self.last_frame_len,
                ok: self.last_frame_was_ok,
            },
        }
    }
}

/// Counters at zero, no frame seen.
pub open spec fn no_rx() -> RxTally {
    RxTally {
        frames_decoded: 0,
        fcs_ok: 0,
        fcs_fail: 0,
        frames_filtered: 0,
        inbox_dropped: 0,
        inbox_high_water: 0,
        carry_capped: 0,
        last: LastFrame { snap: Seq::empty(), len: 0, ok: false },
    }
}

impl EthRxStats {
    /// The snapshot fits its buffer.
    pub open spec fn wf(&self) -> bool {
        self.last_frame_snapshot_len <= FRAME_SNAP_BYTES
    }

    /// Counters at zero.
    pub fn new() -> (r: EthRxStats)
        ensures
            r@ == no_rx(),
            r.wf(),
            r.last_frame_snapshot@ == Seq::new(FRAME_SNAP_BYTES as nat, |i: int| 0u8),
    {
        let r = EthRxStats {
            frames_decoded: 0,
            fcs_ok: 0,
            fcs_fail: 0,
            frames_filtered: 0,
            inbox_dropped: 0,
            inbox_high_water: 0,
            carry_capped: 0,
            last_frame_len: 0,
            last_frame_was_ok: false,
            last_frame_snapshot: [0;FRAME_SNAP_BYTES],
            last_frame_snapshot_len: 0,
        };
        assert(r@.last.snap =~= Seq::<u8>::empty());
        assert(r.last_frame_snapshot@ =~= Seq::new(FRAME_SNAP_BYTES as nat, |i: int| 0u8));
        r
    }
}

impl Default for EthRxStats {
    fn default() -> (r: EthRxStats)
        ensures
            r@ == no_rx(),
            r.wf(),
            r.last_frame_snapshot@ == Seq::new(FRAME_SNAP_BYTES as nat, |i: int| 0u8),
    {
        EthRxStats::new()
    }
}

/// Counts gathered while an image is scanned, merged once after.
pub struct StatsDelta {
    pub decoded: u32,
    pub ok: u32,
    pub fail: u32,
    pub filtered: u32,
    pub carry: u32,
    pub last_snap: [u8; FRAME_SNAP_BYTES],
    pub last_snap_len: usize,
    pub last_len: usize,
    pub last_ok: bool,
    pub have_last: bool,
    /// Decodes, and failures among them, in images that began with a carry.
    pub stitch_dec: u32,
    pub stitch_fail: u32,
}

/// Gathered counts as a value.
pub struct Tally {
    pub decoded: u32,
    pub ok: u32,
    pub fail: u32,
    pub filtered: u32,
    pub carry: u32,
    pub last: Option<LastFrame>,
    pub stitch_dec: u32,
    pub stitch_fail: u32,
}

impl View for StatsDelta {
    type V = Tally;

    open spec fn view(&self) -> Tally {
        Tally {
            decoded: self.decoded,
            ok: self.ok,
            fail: self.fail,
            filtered: self.filtered,
            carry: self.carry,
            last: if self.have_last {
                Some(
                    LastFrame {
                        snap: self.last_snap@.take(self.last_snap_len as int),
                        len: self.last_len,
                        ok: self.last_ok,
                    },
                )
            } else {
                None
            },
            stitch_dec: self.stitch_dec,
            stitch_fail: self.stitch_fail,
        }
    }
}

/// Nothing counted.
pub open spec fn no_tally() -> Tally {
    Tally {
        decoded: 0,
        ok: 0,
        fail: 0,
        filtered: 0,
        carry: 0,
        last: None,
        stitch_dec: 0,
        stitch_fail: 0,
    }
}

impl StatsDelta {
    /// The snapshot fits its buffer.
    pub open spec fn wf(&self) -> bool {
        self.last_snap_len <= FRAME_SNAP_BYTES
    }

    /// Nothing counted.
    pub fn new() -> (r: StatsDelta)
        ensures
            r@ == no_tally(),
            r.wf(),
            r.last_snap@ == Seq::new(FRAME_SNAP_BYTES as nat, |i: int| 0u8),
            r.last_snap_len == 0,
            r.last_len == 0,
            !r.last_ok,
            !r.have_last,
    {
        let r = StatsDelta {
            decoded: 0,
            ok: 0,
            fail: 0,
            filtered: 0,
            carry: 0,
            last_snap: [0;FRAME_SNAP_BYTES],
            last_snap_len: 0,
            last_len: 0,
            last_ok: false,
            have_last: false,
            stitch_dec: 0,
            stitch_fail: 0,
        };
        assert(r.last_snap@ =~= Seq::new(FRAME_SNAP_BYTES as nat, |i: int| 0u8));
        r
    }
}

/// One more, wrapping.
pub open spec fn bump(n: u32) -> u32 {
    ((n + 1) % 0x1_0000_0000) as u32
}

/// Sum, wrapping.
pub open spec fn wrap(a: u32, b: u32) -> u32 {
    ((a + b) % 0x1_0000_0000) as u32
}

/// A frame to `dst` is for us: unicast to our address, broadcast or multicast.
pub open spec fn accepts(dst: Seq<u8>, our: Seq<u8>) -> bool {
    dst == our || dst[0] % 2 == 1
}

/// Accept unicast to us, broadcast and multicast.
pub fn mac_accept(dst: &[u8; 6], our: &[u8; 6]) -> (r: bool)
    ensures
        r == accepts(dst@, our@),
{
    mac_eq(dst, our) || dst[0] % 2 == 1
}

/// What a run of activity turns out to be.
pub enum Verdict {
    /// No destination address could be read.
    Unreadable,
    /// For someone else.
    Filtered,
    /// No frame could be decoded.
    Undecodable,
    /// A frame, its length by its header, and whether its check sequence is right.
    Decoded { frame: Seq<u8>, len: int, ok: bool },
}

/// What the run of `len` bytes at `off` is.
pub open spec fn verdict(our: Seq<u8>, bytes: Seq<u8>, off: int, len: int) -> Verdict {
    match peeked_mac(bytes, 8 * off, 8 * len) {
        None => Verdict::Unreadable,
        Some(dst) => if !accepts(dst, our) {
            Verdict::Filtered
        } else {
            match tracked_frame(bytes.subrange(off, off + len)) {
                None => Verdict::Undecodable,
                Some(frame) => Verdict::Decoded {
                    frame,
                    len: declared_len(frame),
                    ok: fcs_valid(frame, declared_len(frame)),
                },
            }
        },
    }
}

/// The first bytes of a frame, for the log.
pub open spec fn snapshot(frame: Seq<u8>, n: int) -> Seq<u8> {
    frame.take(
        if n < FRAME_SNAP_BYTES {
            n
        } else {
            FRAME_SNAP_BYTES as int
        },
    )
}

/// The counts after a run.
pub open spec fn tallied(t: Tally, v: Verdict, stitched: bool) -> Tally {
    match v {
        Verdict::Filtered => Tally { filtered: bump(t.filtered), ..t },
        Verdict::Decoded { frame, len, ok } => Tally {
            decoded: bump(t.decoded),
            ok: if ok {
                bump(t.ok)
            } else {
                t.ok
            },
            fail: if ok {
                t.fail
            } else {
                bump(t.fail)
            },
            last: Some(LastFrame { snap: snapshot(frame, len), len: len as usize, ok }),
            stitch_dec: if stitched {
                bump(t.stitch_dec)
            } else {
                t.stitch_dec
            },
            stitch_fail: if stitched && !ok {
                bump(t.stitch_fail)
            } else {
                t.stitch_fail
            },
            ..t
        },
        _ => t,
    }
}

/// What a run publishes: the frame, cut to its length, if its check sequence is right.
pub open spec fn publishes(v: Verdict) -> Option<Seq<u8>> {
    match v {
        Verdict::Decoded { frame, len, ok: true } => Some(frame.take(len)),
        _ => None,
    }
}

/// A scan from `cursor` to the end: the counts, and the frames published, in order.
pub open spec fn scanned(our: Seq<u8>, bytes: Seq<u8>, cursor: int, stitched: bool, t: Tally) -> (
    Tally,
    Seq<Seq<u8>>,
)
    decreases bytes.len() - cursor,
{
    match next_run(bytes, cursor, MIN_RUN as int) {
        None => (t, Seq::empty()),
        Some((off, len)) => if off + len <= cursor || off + len > bytes.len() {
            (t, Seq::empty())
        } else {
            let v = verdict(our, bytes, off, len);
            let (after, rest) = scanned(our, bytes, off + len, stitched, tallied(t, v, stitched));
            match publishes(v) {
                Some(frame) => (after, seq![frame] + rest),
                None => (after, rest),
            }
        },
    }
}

/// The inbox and the counters, shared between the cores.
pub struct RxShared {
    pub inbox: Inbox,
    pub stats: EthRxStats,
}

/// The inbox after a frame arrives: when it is full, the oldest makes room.
pub open spec fn queued(q: Seq<Seq<u8>>, frame: Seq<u8>) -> Seq<Seq<u8>> {
    if q.len() >= INBOX_SLOTS {
        q.skip(1).push(frame)
    } else {
        q.push(frame)
    }
}

/// The counters after a frame arrives in an inbox of `depth` frames.
pub open spec fn queue_counted(s: RxTally, depth: int) -> RxTally {
    let now = if depth >= INBOX_SLOTS {
        depth
    } else {
        depth + 1
    };
    RxTally {
        inbox_dropped: if depth >= INBOX_SLOTS {
            bump(s.inbox_dropped)
        } else {
            s.inbox_dropped
        },
        inbox_high_water: if now > s.inbox_high_water {
            now as u8
        } else {
            s.inbox_high_water
        },
        ..s
    }
}

/// The inbox and counters after a list of frames arrives.
pub open spec fn all_queued(q: Seq<Seq<u8>>, s: RxTally, frames: Seq<Seq<u8>>) -> (
    Seq<Seq<u8>>,
    RxTally,
)
    decreases frames.len(),
{
    if frames.len() == 0 {
        (q, s)
    } else {
        let (q1, s1) = all_queued(q, s, frames.drop_last());
        (queued(q1, frames.last()), queue_counted(s1, q1.len() as int))
    }
}

/// The counters after gathered counts are merged in.
pub open spec fn merged(s: RxTally, t: Tally) -> RxTally {
    RxTally {
        frames_decoded: wrap(s.frames_decoded, t.decoded),
        fcs_ok: wrap(s.fcs_ok, t.ok),
        fcs_fail: wrap(s.fcs_fail, t.fail),
        frames_filtered: wrap(s.frames_filtered, t.filtered),
        carry_capped: wrap(s.carry_capped, t.carry),
        last: match t.last {
            Some(last) => last,
            None => s.last,
        },
        ..s
    }
}

impl RxShared {
    /// The inbox fits, and the counters are in order.
    pub open spec fn wf(&self) -> bool {
        inbox_frames(self.inbox).len() <= INBOX_SLOTS && self.stats.wf()
    }

    /// An empty inbox and counters at zero.
    pub fn new() -> (r: RxShared)
        ensures
            r.wf(),
            inbox_frames(r.inbox) == Seq::<Seq<u8>>::empty(),
            r.stats@ == no_rx(),
            r.stats.last_frame_snapshot@ == Seq::new(FRAME_SNAP_BYTES as nat, |i: int| 0u8),
    {
        RxShared { inbox: inbox_new(), stats: EthRxStats::new() }
    }

    /// Put a frame into the inbox; when it is full, the oldest frame makes room.
    pub fn publish(&mut self, frame: Frame)
        requires
            old(self).wf(),
        ensures
            final(self).wf(),
            inbox_frames(final(self).inbox) == queued(
                inbox_frames(old(self).inbox),
                frame_bytes(frame),
            ),
            final(self).stats@ == queue_counted(
                old(self).stats@,
                inbox_frames(old(self).inbox).len() as int,
            ),
            final(self).stats.last_frame_snapshot == old(self).stats.last_frame_snapshot,
    {
        let ghost q0 = inbox_frames(self.inbox);
        if inbox_is_full(&self.inbox) {
            let _ = inbox_pop_front(&mut self.inbox);
            self.stats.inbox_dropped = self.stats.inbox_dropped.wrapping_add(1);
        }
        let _ = inbox_push_back(&mut self.inbox, frame);
        let depth: u8 = inbox_len(&self.inbox) as u8;
        if depth > self.stats.inbox_high_water {
            self.stats.inbox_high_water = depth;
        }
    }

    /// Take the oldest frame.
    pub fn pop(&mut self) -> (r: Option<Frame>)
        requires
            old(self).wf(),
        ensures
            final(self).wf(),
            final(self).stats == old(self).stats,
            match r {
                Some(f) => inbox_frames(old(self).inbox).len() > 0 && frame_bytes(f)
                    == inbox_frames(old(self).inbox)[0] && inbox_frames(final(self).inbox)
                    == inbox_frames(old(self).inbox).skip(1),
                None => inbox_frames(old(self).inbox).len() == 0 && inbox_frames(
                    final(self).inbox,
                ) == inbox_frames(old(self).inbox),
            },
    {
        inbox_pop_front(&mut self.inbox)
    }

    /// Count runs dropped because the carry overflowed.
    pub fn add_carry_capped(&mut self, capped: u32)
        requires
            old(self).wf(),
        ensures
            final(self).wf(),
            inbox_frames(final(self).inbox) == inbox_frames(old(self).inbox),
            final(self).stats@ == (RxTally {
                carry_capped: wrap(old(self).stats.carry_capped, capped),
                ..old(self).stats@
            }),
            final(self).stats.last_frame_snapshot == old(self).stats.last_frame_snapshot,
    {
        self.stats.carry_capped = self.stats.carry_capped.wrapping_add(capped);
    }

    /// Merge gathered counts and the last frame.
    pub fn merge_stats(&mut self, acc: &StatsDelta)
        requires
            old(self).wf(),
            acc.wf(),
        ensures
            final(self).wf(),
            inbox_frames(final(self).inbox) == inbox_frames(old(self).inbox),
            final(self).stats@ == merged(old(self).stats@, acc@),
            final(self).stats.last_frame_snapshot@ == if acc.have_last {
                splice(
                    old(self).stats.last_frame_snapshot@,
                    0,
                    acc.last_snap@.take(acc.last_snap_len as int),
                )
            } else {
                old(self).stats.last_frame_snapshot@
            },
    {
        self.stats.frames_decoded = self.stats.frames_decoded.wrapping_add(acc.decoded);
        self.stats.fcs_ok = self.stats.fcs_ok.wrapping_add(acc.ok);
        self.stats.fcs_fail = self.stats.fcs_fail.wrapping_add(acc.fail);
        self.stats.frames_filtered = self.stats.frames_filtered.wrapping_add(acc.filtered);
        self.stats.carry_capped = self.stats.carry_capped.wrapping_add(acc.carry);
        if acc.have_last {
            write_at(
                &mut self.stats.last_frame_snapshot,
                0,
                &acc.last_snap[0..acc.last_snap_len],
            );
            self.stats.last_frame_snapshot_len = acc.last_snap_len;
            self.stats.last_frame_len = acc.last_len;
            self.stats.last_frame_was_ok = acc.last_ok;
            assert(acc.last_snap@.subrange(0, acc.last_snap_len as int) =~= acc.last_snap@.take(
                acc.last_snap_len as int,
            ));
            assert(self.stats@.last.snap =~= acc.last_snap@.take(acc.last_snap_len as int));
        }
    }
}

/// Read and reset the receive counters.
pub fn snapshot_rx_stats(shared: &mut RxShared) -> (r: EthRxStats)
    requires
        old(shared).wf(),
    ensures
        r == old(shared).stats,
        r.wf(),
        final(shared).stats@ == no_rx(),
        final(shared).stats.last_frame_snapshot@ == Seq::new(
            FRAME_SNAP_BYTES as nat,
            |i: int| 0u8,
        ),
        inbox_frames(final(shared).inbox) == inbox_frames(old(shared).inbox),
        final(shared).wf(),
{
    let out = shared.stats;
    shared.stats = EthRxStats::new();
    out
}

/// What one step of a scan finds.
pub enum ScanStep {
    /// No run is left.
    Done,
    /// A run that publishes nothing; the scan goes on at `cursor`.
    Skipped { cursor: usize },
    /// A frame to publish; the scan goes on at `cursor`.
    Found { cursor: usize, frame: Frame },
}

/// Count a decoded frame and keep its first bytes.
fn record(acc: &mut StatsDelta, f: &[u8], n: usize, ok: bool, stitched: bool)
    requires
        old(acc).wf(),
        n <= f@.len(),
    ensures
        final(acc).wf(),
        final(acc)@ == tallied(
            old(acc)@,
            Verdict::Decoded { frame: f@, len: n as int, ok },
            stitched,
        ),
        final(acc).last_snap@ == splice(old(acc).last_snap@, 0, snapshot(f@, n as int)),
{
    acc.decoded = acc.decoded.wrapping_add(1);
    if ok {
        acc.ok = acc.ok.wrapping_add(1);
    } else {
        acc.fail = acc.fail.wrapping_add(1);
    }
    if stitched {
        acc.stitch_dec = acc.stitch_dec.wrapping_add(1);
        if !ok {
            acc.stitch_fail = acc.stitch_fail.wrapping_add(1);
        }
    }
    let snap_n: usize = if n < FRAME_SNAP_BYTES {
        n
    } else {
        FRAME_SNAP_BYTES
    };
    write_at(&mut acc.last_snap, 0, &f[0..snap_n]);
    assert(f@.subrange(0, snap_n as int) =~= snapshot(f@, n as int));
    acc.last_snap_len = snap_n;
    acc.last_len = n;
    acc.last_ok = ok;
    acc.have_last = true;
    assert(acc.last_snap@.take(snap_n as int) =~= snapshot(f@, n as int));
}

/// One step of a scan: look at the next run, decode it if it is addressed to us, and
/// check it. An image with a `stitched` prefix has its decodes counted apart.
pub fn scan_next(
    our_mac: &[u8; 6],
    bytes: &[u8],
    cursor: usize,
    stitched: bool,
    acc: &mut StatsDelta,
) -> (r: ScanStep)
    requires
        8 * bytes@.len() <= usize::MAX,
        old(acc).wf(),
    ensures
        final(acc).wf(),
        match next_run(bytes@, cursor as int, MIN_RUN as int) {
            None => r is Done && *final(acc) == *old(acc),
            Some((off, len)) => {
                let v = verdict(our_mac@, bytes@, off, len);
                &&& cursor < off + len <= bytes@.len()
                &&& final(acc)@ == tallied(old(acc)@, v, stitched)
                &&& final(acc).last_snap@ == match v {
                    Verdict::Decoded { frame, len: n, .. } => splice(
                        old(acc).last_snap@,
                        0,
                        snapshot(frame, n),
                    ),
                    _ => old(acc).last_snap@,
                }
                &&& match publishes(v) {
                    Some(f) => r matches ScanStep::Found { cursor: next, frame } && next == off
                        + len && frame_bytes(frame) == f,
                    None => r matches ScanStep::Skipped { cursor: next } && next == off + len,
                }
            },
        },
{
    let (off, len): (usize, usize) = match EthRx::find_active_run_from(bytes, cursor, MIN_RUN) {
        Some(run) => run,
        None => {
            return ScanStep::Done;
        },
    };
    let next: usize = off + len;
    let dst: [u8; 6] = match EthRx::peek_dst_mac(bytes, off, len) {
        Some(dst) => dst,
        None => {
            return ScanStep::Skipped { cursor: next };
        },
    };
    if !mac_accept(&dst, our_mac) {
        acc.filtered = acc.filtered.wrapping_add(1);
        return ScanStep::Skipped { cursor: next };
    }
    let mut frame: Frame = match decode_frame_edge_track(&bytes[off..off + len]) {
        Some(frame) => frame,
        None => {
            return ScanStep::Skipped { cursor: next };
        },
    };
    let n: usize = EthRx::derive_frame_len(frame_slice(&frame));
    let ok: bool = EthRx::verify_fcs(frame_slice(&frame), n);
    record(acc, frame_slice(&frame), n, ok, stitched);
    if !ok {
        return ScanStep::Skipped { cursor: next };
    }
    frame_truncate(&mut frame, n);
    ScanStep::Found { cursor: next, frame }
}

/// Decode and check the runs of an image, and publish the frames that are right.
pub fn scan_runs(
    our_mac: &[u8; 6],
    bytes: &[u8],
    stitched: bool,
    acc: &mut StatsDelta,
    shared: &mut RxShared,
)
    requires
        8 * bytes@.len() <= usize::MAX,
        old(acc).wf(),
        old(shared).wf(),
    ensures
        final(acc).wf(),
        final(shared).wf(),
        ({
            let (t, frames) = scanned(our_mac@, bytes@, 0, stitched, old(acc)@);
            let (q, s) = all_queued(
                inbox_frames(old(shared).inbox),
                old(shared).stats@,
                frames,
            );
            &&& final(acc)@ == t
            &&& inbox_frames(final(shared).inbox) == q
            &&& final(shared).stats@ == s
        }),
        final(shared).stats.last_frame_snapshot == old(shared).stats.last_frame_snapshot,
{
    let ghost t0 = acc@;
    let ghost all = scanned(our_mac@, bytes@, 0, stitched, t0);
    let ghost q0 = inbox_frames(shared.inbox);
    let ghost s0 = shared.stats@;
    let ghost mut done: Seq<Seq<u8>> = Seq::empty();
    let mut cursor: usize = 0;
    assert(done + all.1 =~= all.1);
    loop
        invariant_except_break
            8 * bytes@.len() <= usize::MAX,
            cursor <= bytes@.len(),
            acc.wf(),
            shared.wf(),
            shared.stats.last_frame_snapshot == old(shared).stats.last_frame_snapshot,
            all == scanned(our_mac@, bytes@, 0, stitched, t0),
            scanned(our_mac@, bytes@, cursor as int, stitched, acc@).0 == all.0,
            done + scanned(our_mac@, bytes@, cursor as int, stitched, acc@).1 == all.1,
            (inbox_frames(shared.inbox), shared.stats@) == all_queued(q0, s0, done),
        ensures
            acc.wf(),
            shared.wf(),
            shared.stats.last_frame_snapshot == old(shared).stats.last_frame_snapshot,
            acc@ == all.0,
            (inbox_frames(shared.inbox), shared.stats@) == all_queued(q0, s0, all.1),
        decreases bytes@.len() - cursor,
    {
        let ghost here = scanned(our_mac@, bytes@, cursor as int, stitched, acc@);
        match scan_next(our_mac, bytes, cursor, stitched, acc) {
            ScanStep::Done => {
                assert(done + here.1 =~= done);
                break;
            },
            ScanStep::Skipped { cursor: next } => {
                cursor = next;
            },
            ScanStep::Found { cursor: next, frame } => {
                proof {
                    let rest = scanned(our_mac@, bytes@, next as int, stitched, acc@).1;
                    let f = frame_bytes(frame);
                    assert(here.1 == seq![f] + rest);
                    assert(done.push(f).drop_last() =~= done);
                    assert(done + (seq![f] + rest) =~= done.push(f) + rest);
                    done = done.push(f);
                }
                shared.publish(frame);
                cursor = next;
            },
        }
    }
}

/// Only frames whose check sequence is right are published, and each is as long as its
/// header says.
pub proof fn lemma_published_is_valid(our: Seq<u8>, bytes: Seq<u8>, off: int, len: int)
    ensures
        publishes(verdict(our, bytes, off, len)) matches Some(f) ==> fcs_valid(f, f.len() as int),
{
    match verdict(our, bytes, off, len) {
        Verdict::Decoded { frame, len: n, ok: true } => {
            let f = frame.take(n);
            assert(f.take(n - 4) =~= frame.take(n - 4));
        },
        _ => {},
    }
}

/// Every decode is counted once, as right or as wrong.
pub proof fn lemma_decodes_add_up(t: Tally, v: Verdict, stitched: bool)
    requires
        (t.ok + t.fail - t.decoded) % 0x1_0000_0000 == 0,
    ensures
        (tallied(t, v, stitched).ok + tallied(t, v, stitched).fail - tallied(
            t,
            v,
            stitched,
        ).decoded) % 0x1_0000_0000 == 0,
{
    let u = tallied(t, v, stitched);
    let d: int = t.ok + t.fail - t.decoded;
    let e: int = u.ok + u.fail - u.decoded;
    lemma_bump(t.ok);
    lemma_bump(t.fail);
    lemma_bump(t.decoded);
    assert(e == d || e == 0x1_0000_0000 * -1 + d || e == 0x1_0000_0000 * 1 + d);
    vstd::arithmetic::div_mod::lemma_mod_multiples_vanish(-1, d, 0x1_0000_0000);
    vstd::arithmetic::div_mod::lemma_mod_multiples_vanish(1, d, 0x1_0000_0000);
}

proof fn lemma_bump(n: u32)
    ensures
        bump(n) == if n == u32::MAX {
            0
        } else {
            n + 1
        },
{
}

/// The inbox never grows over its depth, and what arrived last is in it.
pub proof fn lemma_inbox_bounded(q: Seq<Seq<u8>>, frame: Seq<u8>)
    requires
        q.len() <= INBOX_SLOTS,
    ensures
        0 < queued(q, frame).len() <= INBOX_SLOTS,
        queued(q, frame).last() == frame,
{
}

/// The slot of the ring to capture the next image into, for `w` images captured and `r`
/// read; `None` when the ring is full.
pub fn img_produce(w: u32, r: u32) -> (slot: Option<usize>)
    ensures
        match slot {
            Some(i) => produce_slot(w, r) == Some(i as int),
            None => produce_slot(w, r) is None,
        },
{
    if w.wrapping_sub(r) >= IMG_SLOTS {
        None
    } else {
        Some((w % IMG_SLOTS) as usize)
    }
}

/// The slot of the ring to read next; `None` when every image has been read.
pub fn img_consume(w: u32, r: u32) -> (slot: Option<usize>)
    ensures
        match slot {
            Some(i) => consume_slot(w, r) == Some(i as int),
            None => consume_slot(w, r) is None,
        },
{
    if r == w {
        None
    } else {
        Some((r % IMG_SLOTS) as usize)
    }
}

/// An image is never captured over one that is still to be read. The count of images
/// captured has not wrapped since the oldest of those was captured.
pub proof fn lemma_ring_keeps_unread(w: u32, r: u32, unread: u32)
    requires
        r <= unread < w,
        (w - r) % 0x1_0000_0000 < IMG_SLOTS,
    ensures
        w % IMG_SLOTS != unread % IMG_SLOTS,
{
}

/// What becomes of a completed half-buffer.
#[derive(Clone, Copy, Debug, PartialEq, Eq)]
pub enum HalfAction {
    /// No image came of it.
    Nothing,
    /// The image goes to the ring, with its length and the length of its carried prefix.
    Publish { len: u32, carry_prefix: u32 },
    /// The ring was full: the image is dropped, and counted.
    DropImage,
}

/// What becomes of a completed half-buffer, for what came of stitching it. The half is
/// stitched even when the ring is full, so that the carry stays in step with the line.
pub fn half_action(outcome: PollOutcome, ring_full: bool) -> (r: HalfAction)
    requires
        outcome matches PollOutcome::Image { len, carry_prefix } ==> len <= STITCH_BUF_BYTES
            && carry_prefix <= len,
    ensures
        r == half_outcome(outcome, ring_full),
{
    match outcome {
        PollOutcome::Nothing => HalfAction::Nothing,
        PollOutcome::Image { len, carry_prefix } => if ring_full {
            HalfAction::DropImage
        } else {
            HalfAction::Publish { len: len as u32, carry_prefix: carry_prefix as u32 }
        },
    }
}

/// What a transmitted frame is, by its header.
#[derive(Clone, Copy, Debug, PartialEq, Eq, Structural)]
pub enum TxKind {
    Arp,
    Ping,
    Udp,
    Other,
}

/// What a frame body is; too short for a header, it is nothing.
pub open spec fn tx_kind(body: Seq<u8>) -> Option<TxKind> {
    if body.len() < 14 {
        None
    } else if be16(body, 12) == 0x0806 {
        Some(TxKind::Arp)
    } else if be16(body, 12) == 0x0800 && body.len() >= 24 && body[23] == 1 {
        Some(TxKind::Ping)
    } else if be16(body, 12) == 0x0800 && body.len() >= 24 && body[23] == 17 {
        Some(TxKind::Udp)
    } else {
        Some(TxKind::Other)
    }
}

/// What a frame body is.
fn kind_of(body: &[u8]) -> (r: Option<TxKind>)
    ensures
        r == tx_kind(body@),
{
    if body.len() < 14 {
        return None;
    }
    let etype: u16 = rd16(body, 12);
    if etype == 0x0806 {
        Some(TxKind::Arp)
    } else if etype == 0x0800 && body.len() >= 24 && body[23] == 1 {
        Some(TxKind::Ping)
    } else if etype == 0x0800 && body.len() >= 24 && body[23] == 17 {
        Some(TxKind::Udp)
    } else {
        Some(TxKind::Other)
    }
}

/// Transmit counters.
#[derive(Clone, Copy)]
pub struct EthMacStats {
    /// Frames handed to the stack.
    pub rx_handed_out: u32,
    /// Times the stack was given leave to transmit.
    pub tx_handed_out: u32,
    /// Frames the stack transmitted.
    pub tx_consumed: u32,
    pub tx_arp: u32,
    pub tx_icmp: u32,
    pub tx_udp: u32,
    pub tx_other: u32,
    /// Bytes of the most recent frame body.
    pub last_tx_len: u16,
    /// The most recent frame body, its first 128 bytes.
    pub last_tx: [u8; 128],
}

/// Transmit counters of frames by kind, as a value.
pub struct TxTally {
    pub consumed: u32,
    pub arp: u32,
    pub ping: u32,
    pub udp: u32,
    pub other: u32,
}

/// The counters of frames by kind.
pub open spec fn by_kind(s: EthMacStats) -> TxTally {
    TxTally {
        consumed: s.tx_consumed,
        arp: s.tx_arp,
        ping: s.tx_icmp,
        udp: s.tx_udp,
        other: s.tx_other,
    }
}

/// The counters after a frame body.
pub open spec fn tx_counted(t: TxTally, kind: Option<TxKind>) -> TxTally {
    let u = TxTally { consumed: bump(t.consumed), ..t };
    match kind {
        None => u,
        Some(TxKind::Arp) => TxTally { arp: bump(t.arp), ..u },
        Some(TxKind::Ping) => TxTally { ping: bump(t.ping), ..u },
        Some(TxKind::Udp) => TxTally { udp: bump(t.udp), ..u },
        Some(TxKind::Other) => TxTally { other: bump(t.other), ..u },
    }
}

impl EthMacStats {
    /// Counters at zero.
    pub fn new() -> (r: EthMacStats)
        ensures
            by_kind(r) == (TxTally { consumed: 0, arp: 0, ping: 0, udp: 0, other: 0 }),
            r.rx_handed_out == 0,
            r.tx_handed_out == 0,
            r.last_tx_len == 0,
            r.last_tx@ == Seq::new(128, |i: int| 0u8),
    {
        let r = EthMacStats {
            rx_handed_out: 0,
            tx_handed_out: 0,
            tx_consumed: 0,
            tx_arp: 0,
            tx_icmp: 0,
            tx_udp: 0,
            tx_other: 0,
            last_tx_len: 0,
            last_tx: [0;128],
        };
        assert(r.last_tx@ =~= Seq::new(128, |i: int| 0u8));
        r
    }

    /// Reset the counts of a logging interval; the last frame stays.
    pub fn reset(&mut self)
        ensures
            by_kind(*final(self)) == (TxTally { consumed: 0, arp: 0, ping: 0, udp: 0, other: 0 }),
            final(self).rx_handed_out == 0,
            final(self).tx_handed_out == 0,
            final(self).last_tx_len == old(self).last_tx_len,
            final(self).last_tx == old(self).last_tx,
    {
        self.rx_handed_out = 0;
        self.tx_handed_out = 0;
        self.tx_consumed = 0;
        self.tx_arp = 0;
        self.tx_icmp = 0;
        self.tx_udp = 0;
        self.tx_other = 0;
    }

    /// Count a frame under its kind.
    fn count_kind(&mut self, kind: Option<TxKind>)
        ensures
            by_kind(*final(self)) == tx_counted(by_kind(*old(self)), kind),
            final(self).rx_handed_out == old(self).rx_handed_out,
            final(self).tx_handed_out == old(self).tx_handed_out,
            final(self).last_tx_len == old(self).last_tx_len,
            final(self).last_tx == old(self).last_tx,
    {
        match kind {
            None => {},
            Some(TxKind::Arp) => {
                self.tx_arp = self.tx_arp.wrapping_add(1);
            },
            Some(TxKind::Ping) => {
                self.tx_icmp = self.tx_icmp.wrapping_add(1);
            },
            Some(TxKind::Udp) => {
                self.tx_udp = self.tx_udp.wrapping_add(1);
            },
            Some(TxKind::Other) => {
                self.tx_other = self.tx_other.wrapping_add(1);
            },
        }
        self.tx_consumed = self.tx_consumed.wrapping_add(1);
    }

    /// Keep the body for the log.
    fn keep(&mut self, body: &[u8])
        requires
            body@.len() <= MAX_FRAME_BYTES,
        ensures
            by_kind(*final(self)) == by_kind(*old(self)),
            final(self).rx_handed_out == old(self).rx_handed_out,
            final(self).tx_handed_out == old(self).tx_handed_out,
            final(self).last_tx_len == body@.len(),
            final(self).last_tx@ == splice(
                old(self).last_tx@,
                0,
                snapshot(body@, body@.len() as int),
            ),
    {
        let n: usize = if body.len() < 128 {
            body.len()
        } else {
            128
        };
        write_at(&mut self.last_tx, 0, &body[0..n]);
        self.last_tx_len = body.len() as u16;
        assert(body@.subrange(0, n as int) =~= snapshot(body@, body@.len() as int));
    }
}

impl Default for EthMacStats {
    fn default() -> (r: EthMacStats)
        ensures
            by_kind(r) == (TxTally { consumed: 0, arp: 0, ping: 0, udp: 0, other: 0 }),
            r.rx_handed_out == 0,
            r.tx_handed_out == 0,
            r.last_tx_len == 0,
            r.last_tx@ == Seq::new(128, |i: int| 0u8),
    {
        EthMacStats::new()
    }
}

/// The transmitting side of the interface.
pub struct EthMac {
    pub tx: EthTx,
    pub stats: EthMacStats,
}

impl EthMac {
    /// An interface that transmits with `tx`.
    pub fn new(tx: EthTx) -> (r: EthMac)
        ensures
            r.tx == tx,
            by_kind(r.stats) == (TxTally { consumed: 0, arp: 0, ping: 0, udp: 0, other: 0 }),
            r.stats.rx_handed_out == 0,
            r.stats.tx_handed_out == 0,
            r.stats.last_tx_len == 0,
            r.stats.last_tx@ == Seq::new(128, |i: int| 0u8),
    {
        EthMac { tx, stats: EthMacStats::new() }
    }

    /// The words of a link pulse.
    pub fn send_nlp(&self) -> (w: Vec<u32>)
        ensures
            w@ == nlp_words(),
    {
        self.tx.send_nlp()
    }

    /// The words of a UDP packet around `payload`.
    pub fn send_udp_broadcast(&mut self, ep: &UdpEndpoint, payload: &[u8]) -> (w: Vec<u32>)
        requires
            payload@.len() <= crate::eth_tx::MAX_UDP_PAYLOAD,
        ensures
            w@ == manchester_words(udp_frame(*ep, payload@, old(self).tx.ip_identifier))
                + frame_end(),
            final(self).tx.ip_identifier == (old(self).tx.ip_identifier + 1) % 0x1_0000,
            final(self).tx.lfsr == old(self).tx.lfsr,
            final(self).stats == old(self).stats,
    {
        self.tx.send_udp_broadcast(ep, payload)
    }

    /// Hand the oldest received frame to the stack, if there is one.
    pub fn receive(&mut self, shared: &mut RxShared) -> (r: Option<Frame>)
        requires
            old(shared).wf(),
        ensures
            final(shared).wf(),
            final(shared).stats == old(shared).stats,
            final(self).tx == old(self).tx,
            match r {
                Some(f) => inbox_frames(old(shared).inbox).len() > 0 && frame_bytes(f)
                    == inbox_frames(old(shared).inbox)[0] && inbox_frames(final(shared).inbox)
                    == inbox_frames(old(shared).inbox).skip(1) && final(self).stats == (
                EthMacStats {
                    rx_handed_out: bump(old(self).stats.rx_handed_out),
                    ..old(self).stats
                }),
                None => inbox_frames(old(shared).inbox).len() == 0 && inbox_frames(
                    final(shared).inbox,
                ) == inbox_frames(old(shared).inbox) && final(self).stats == old(self).stats,
            },
    {
        let r: Option<Frame> = shared.pop();
        if r.is_some() {
            self.stats.rx_handed_out = self.stats.rx_handed_out.wrapping_add(1);
        }
        r
    }

    /// The stack is given leave to transmit.
    pub fn transmit(&mut self)
        ensures
            final(self).tx == old(self).tx,
            final(self).stats == (EthMacStats {
                tx_handed_out: bump(old(self).stats.tx_handed_out),
                ..old(self).stats
            }),
    {
        self.stats.tx_handed_out = self.stats.tx_handed_out.wrapping_add(1);
    }

    /// How many bytes of the transmit buffer a frame of `len` bytes gets.
    pub fn tx_len(len: usize) -> (r: usize)
        ensures
            r == tx_room(len as int),
    {
        if len < MAX_FRAME_BYTES {
            len
        } else {
            MAX_FRAME_BYTES
        }
    }

    /// Transmit a frame the stack has filled in: count it, keep it for the log, and
    /// return its words.
    pub fn consume(&mut self, body: &[u8]) -> (w: Vec<u32>)
        requires
            body@.len() <= MAX_FRAME_BYTES,
        ensures
            w@ == raw_frame_words(body@),
            final(self).tx == old(self).tx,
            by_kind(final(self).stats) == tx_counted(by_kind(old(self).stats), tx_kind(body@)),
            final(self).stats.rx_handed_out == old(self).stats.rx_handed_out,
            final(self).stats.tx_handed_out == old(self).stats.tx_handed_out,
            final(self).stats.last_tx_len == body@.len(),
            final(self).stats.last_tx@ == splice(
                old(self).stats.last_tx@,
                0,
                snapshot(body@, body@.len() as int),
            ),
    {
        self.stats.keep(body);
        self.stats.count_kind(kind_of(body));
        self.tx.send_raw_frame(body)
    }
}

/// Frames are told apart by their type and, where it is IPv4, by the protocol in it; one too
/// short for that is of no kind in particular, and one without a type of none at all.
pub proof fn lemma_kinds(body: Seq<u8>)
    ensures
        ({
            let typed = body.len() >= 14;
            let arp = typed && body[12] == 0x08 && body[13] == 0x06;
            let ipv4 = body.len() >= 24 && body[12] == 0x08 && body[13] == 0x00;
            &&& tx_kind(body) is None <==> !typed
            &&& tx_kind(body) == Some(TxKind::Arp) <==> arp
            &&& tx_kind(body) == Some(TxKind::Ping) <==> ipv4 && body[23] == 1
            &&& tx_kind(body) == Some(TxKind::Udp) <==> ipv4 && body[23] == 17
        }),
{
}

/// A transmitted frame counts once in all, and once under its kind if it has one.
pub proof fn lemma_kind_counts(t: TxTally, kind: Option<TxKind>)
    ensures
        ({
            let u = tx_counted(t, kind);
            &&& (u.consumed - t.consumed - 1) % 0x1_0000_0000 == 0
            &&& kind == Some(TxKind::Arp) ==> (u.arp - t.arp - 1) % 0x1_0000_0000 == 0
            &&& kind == Some(TxKind::Ping) ==> (u.ping - t.ping - 1) % 0x1_0000_0000 == 0
            &&& kind == Some(TxKind::Udp) ==> (u.udp - t.udp - 1) % 0x1_0000_0000 == 0
            &&& kind == Some(TxKind::Other) ==> (u.other - t.other - 1) % 0x1_0000_0000 == 0
            &&& kind != Some(TxKind::Arp) ==> u.arp == t.arp
            &&& kind != Some(TxKind::Ping) ==> u.ping == t.ping
            &&& kind != Some(TxKind::Udp) ==> u.udp == t.udp
            &&& kind != Some(TxKind::Other) ==> u.other == t.other
        }),
{
    lemma_bump(t.consumed);
    lemma_bump(t.arp);
    lemma_bump(t.ping);
    lemma_bump(t.udp);
    lemma_bump(t.other);
}

/// Frames go into the inbox one after another, in the order in which they were found.
pub proof fn lemma_queued_in_turn(
    q: Seq<Seq<u8>>,
    s: RxTally,
    frames: Seq<Seq<u8>>,
    frame: Seq<u8>,
)
    ensures
        all_queued(q, s, Seq::empty()) == (q, s),
        ({
            let (q1, s1) = all_queued(q, s, frames);
            all_queued(q, s, frames.push(frame)) == (
                queued(q1, frame),
                queue_counted(s1, q1.len() as int),
            )
        }),
{
    assert(frames.push(frame).drop_last() =~= frames);
}

/// The slot of the ring for the next image.
pub open spec fn produce_slot(w: u32, r: u32) -> Option<int> {
    if (w - r) % 0x1_0000_0000 >= IMG_SLOTS {
        None
    } else {
        Some((w % IMG_SLOTS) as int)
    }
}

/// The slot of the ring to read next.
pub open spec fn consume_slot(w: u32, r: u32) -> Option<int> {
    if w == r {
        None
    } else {
        Some((r % IMG_SLOTS) as int)
    }
}

/// The ring holds up to six images: there is room for one exactly while fewer than six are
/// unread, and one to read exactly while any is. What is captured next is read after all
/// that are unread now, from the slot that it went to.
pub proof fn lemma_ring(r: u32, unread: int)
    requires
        0 <= unread <= 6,
        r + unread <= u32::MAX,
    ensures
        ({
            let w = (r + unread) as u32;
            &&& produce_slot(w, r) is Some <==> unread < 6
            &&& consume_slot(w, r) is Some <==> unread > 0
            &&& produce_slot(w, r) matches Some(i) ==> 0 <= i < 6 && (w < u32::MAX ==> consume_slot(
                (w + 1) as u32,
                w,
            ) == Some(i))
            &&& produce_slot(w, r) is Some && consume_slot(w, r) is Some ==> produce_slot(w, r)
                != consume_slot(w, r)
        }),
{
}

/// Before anything has come in, nothing has been counted.
pub proof fn lemma_starts_at_zero()
    ensures
        no_rx().frames_decoded == 0 && no_rx().fcs_ok == 0 && no_rx().fcs_fail == 0,
        no_rx().frames_filtered == 0 && no_rx().inbox_dropped == 0,
        no_rx().inbox_high_water == 0 && no_rx().carry_capped == 0,
        no_rx().last.len == 0 && no_rx().last.snap.len() == 0 && !no_rx().last.ok,
        no_tally().decoded == 0 && no_tally().ok == 0 && no_tally().fail == 0,
        no_tally().filtered == 0 && no_tally().carry == 0 && no_tally().last is None,
        no_tally().stitch_dec == 0 && no_tally().stitch_fail == 0,
{
}

/// How many bytes of the transmit buffer a frame gets.
pub open spec fn tx_room(len: int) -> int {
    if len < MAX_FRAME_BYTES {
        len
    } else {
        MAX_FRAME_BYTES as int
    }
}

/// What becomes of a half-buffer.
pub open spec fn half_outcome(outcome: PollOutcome, ring_full: bool) -> HalfAction {
    match outcome {
        PollOutcome::Nothing => HalfAction::Nothing,
        PollOutcome::Image { len, carry_prefix } => if ring_full {
            HalfAction::DropImage
        } else {
            HalfAction::Publish { len: len as u32, carry_prefix: carry_prefix as u32 }
        },
    }
}

/// A frame gets as many bytes as it has, up to 1600. An image goes to the ring as it is, and
/// is lost only where the ring is full; where there is none, nothing happens.
pub proof fn lemma_room(len: int, outcome: PollOutcome, ring_full: bool)
    requires
        outcome matches PollOutcome::Image { len: n, carry_prefix: c } ==> n <= 32768 && c <= n,
    ensures
        tx_room(len) <= len && tx_room(len) <= 1600,
        tx_room(len) == len || tx_room(len) == 1600,
        half_outcome(outcome, ring_full) == HalfAction::Nothing <==> outcome is Nothing,
        half_outcome(outcome, ring_full) == HalfAction::DropImage <==> outcome is Image
            && ring_full,
        outcome matches PollOutcome::Image { len: n, carry_prefix: c } ==> !ring_full ==> (
        half_outcome(outcome, ring_full) matches HalfAction::Publish { len: m, carry_prefix: d }
            && m == n && d == c),
{
}

/// The counters as a value are the counters, each its own.
pub proof fn lemma_counters_as_value(s: EthRxStats, d: StatsDelta)
    ensures
        s@.frames_decoded == s.frames_decoded && s@.fcs_ok == s.fcs_ok && s@.fcs_fail == s.fcs_fail,
        s@.frames_filtered == s.frames_filtered && s@.inbox_dropped == s.inbox_dropped,
        s@.inbox_high_water == s.inbox_high_water && s@.carry_capped == s.carry_capped,
        s@.last.len == s.last_frame_len && s@.last.ok == s.last_frame_was_ok,
        s@.last.snap == s.last_frame_snapshot@.take(s.last_frame_snapshot_len as int),
        d@.decoded == d.decoded && d@.ok == d.ok && d@.fail == d.fail && d@.filtered == d.filtered,
        d@.carry == d.carry && d@.stitch_dec == d.stitch_dec && d@.stitch_fail == d.stitch_fail,
        d@.last is Some <==> d.have_last,
        d@.last matches Some(l) ==> l.len == d.last_len && l.ok == d.last_ok && l.snap
            == d.last_snap@.take(d.last_snap_len as int),
{
}

/// The transmit counters as a value are the counters, each its own.
pub proof fn lemma_kinds_as_value(m: EthMacStats)
    ensures
        by_kind(m).consumed == m.tx_consumed,
        by_kind(m).arp == m.tx_arp && by_kind(m).ping == m.tx_icmp,
        by_kind(m).udp == m.tx_udp && by_kind(m).other == m.tx_other,
{
}

} // verus!
