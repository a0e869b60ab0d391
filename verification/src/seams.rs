//! However the samples are cut into half-buffers, the same frames are received.
//!
//! A half-buffer may end in the middle of a frame. The run that is open there is carried
//! over, so that no run lies across two images, and scanning the images one by one
//! publishes what scanning all samples at once would.

use vstd::prelude::*;

use crate::eth_mac::{publishes, scanned, tallied, verdict, Tally, MIN_RUN};
use crate::eth_rx::{
    active, falls, first_fall, lemma_open_count, lemma_stitch_cuts_no_run,
    lemma_stitch_keeps_stream, long_run_at, next_run, open_bit, open_bits, open_count, open_pos,
    pair_of_ones, peeked_mac, quiet_at, run_end, sfd_end, stitched, PEEK_BITS,
    SFD_SEARCH_BITS,
};
use crate::eth_rx_dpll::first_anchor;
use crate::loopback::{carries, length_agrees, seen};
use crate::reception::{lemma_frames_are_received, received, sent};
use crate::search::{
    least, lemma_least, lemma_least_found, lemma_least_none, lemma_least_same,
};

verus! {

/// The frames a scan from `cursor` on publishes.
pub open spec fn published(our: Seq<u8>, bytes: Seq<u8>, cursor: int) -> Seq<Seq<u8>>
    decreases bytes.len() - cursor,
{
    match next_run(bytes, cursor, MIN_RUN as int) {
        None => Seq::empty(),
        Some((off, len)) => if off + len <= cursor || off + len > bytes.len() {
            Seq::empty()
        } else {
            let rest = published(our, bytes, off + len);
            match publishes(verdict(our, bytes, off, len)) {
                Some(frame) => seq![frame] + rest,
                None => rest,
            }
        },
    }
}

/// What a scan publishes does not depend on what it counts.
pub proof fn lemma_scan_publishes(
    our: Seq<u8>,
    bytes: Seq<u8>,
    cursor: int,
    prefixed: bool,
    t: Tally,
)
    ensures
        scanned(our, bytes, cursor, prefixed, t).1 == published(our, bytes, cursor),
    decreases bytes.len() - cursor,
{
    match next_run(bytes, cursor, MIN_RUN as int) {
        None => {},
        Some((off, len)) => if !(off + len <= cursor || off + len > bytes.len()) {
            let v = verdict(our, bytes, off, len);
            lemma_scan_publishes(our, bytes, off + len, prefixed, tallied(t, v, prefixed));
        },
    }
}

/// The address read from the same samples is the same.
proof fn lemma_peek_same(x: Seq<u8>, bx: int, y: Seq<u8>, by: int, ns: int)
    requires
        forall|i: int| 0 <= i < ns ==> #[trigger] seen(x, bx, i) == seen(y, by, i),
    ensures
        peeked_mac(x, bx, ns) == peeked_mac(y, by, ns),
{
    let p = falls(x, bx);
    let q = falls(y, by);
    assert forall|i: int| 1 <= i < ns implies #[trigger] p(i) == q(i) by {
        assert(seen(x, bx, i) == seen(y, by, i));
        assert(seen(x, bx, i - 1) == seen(y, by, i - 1));
        assert(bx + i - 1 == bx + (i - 1) && by + i - 1 == by + (i - 1));
    }
    lemma_least_same(1, ns, p, q);
    match first_fall(x, bx, ns) {
        None => {},
        Some(f) => {
            lemma_least(1, ns, p);
            let total = open_count(f, ns);
            let hi = if PEEK_BITS < total {
                PEEK_BITS as int
            } else {
                total
            };
            let pp = pair_of_ones(x, bx, f);
            let qq = pair_of_ones(y, by, f);
            assert forall|k: int| 0 <= k < total implies #[trigger] open_bit(x, bx, f, k)
                == open_bit(y, by, f, k) by {
                lemma_open_count(f, ns, k);
                assert(seen(x, bx, open_pos(f, k)) == seen(y, by, open_pos(f, k)));
            }
            assert forall|k: int| 1 <= k < hi implies #[trigger] pp(k) == qq(k) by {
                assert(open_bit(x, bx, f, k - 1) == open_bit(y, by, f, k - 1));
                assert(open_bit(x, bx, f, k) == open_bit(y, by, f, k));
            }
            lemma_least_same(1, hi, pp, qq);
            match sfd_end(x, bx, f, ns, PEEK_BITS as int) {
                None => {},
                Some(k) => {
                    lemma_least(1, hi, pp);
                    if k + 49 <= total {
                        assert(open_bits(x, bx, f, k + 1, 48) =~= open_bits(y, by, f, k + 1, 48));
                    }
                },
            }
        },
    }
}

/// The verdict on a run depends on the bytes of the run alone.
proof fn lemma_verdict_same(our: Seq<u8>, x: Seq<u8>, ox: int, y: Seq<u8>, oy: int, len: int)
    requires
        0 <= ox,
        0 <= oy,
        0 <= len,
        ox + len <= x.len(),
        oy + len <= y.len(),
        x.subrange(ox, ox + len) == y.subrange(oy, oy + len),
    ensures
        verdict(our, x, ox, len) == verdict(our, y, oy, len),
{
    assert forall|i: int| 0 <= i < 8 * len implies #[trigger] seen(x, 8 * ox, i) == seen(
        y,
        8 * oy,
        i,
    ) by {
        let k = i / 8;
        assert(x.subrange(ox, ox + len)[k] == x[ox + k]);
        assert(y.subrange(oy, oy + len)[k] == y[oy + k]);
        assert((8 * ox + i) / 8 == ox + i / 8 && (8 * ox + i) % 8 == i % 8);
        assert((8 * oy + i) / 8 == oy + i / 8 && (8 * oy + i) % 8 == i % 8);
    }
    lemma_peek_same(x, 8 * ox, y, 8 * oy, 8 * len);
}

/// Every run that passes the filter is decoded: where an address could be read, so can a
/// frame, and the count of decodes is the count of attempts.
pub proof fn lemma_every_attempt_decodes(our: Seq<u8>, bytes: Seq<u8>, off: int, len: int)
    requires
        0 <= off,
        0 <= len,
        off + len <= bytes.len(),
    ensures
        !(verdict(our, bytes, off, len) is Undecodable),
{
    let run = bytes.subrange(off, off + len);
    let ns = 8 * len;
    assert(run.subrange(0, len) =~= run);
    lemma_verdict_same(our, bytes, off, run, 0, len);
    if peeked_mac(run, 0, ns) is Some {
        let f = first_fall(run, 0, ns)->0;
        let p = pair_of_ones(run, 0, f);
        let total = open_count(f, ns);
        let few = if PEEK_BITS < total {
            PEEK_BITS as int
        } else {
            total
        };
        let many = if SFD_SEARCH_BITS < total {
            SFD_SEARCH_BITS as int
        } else {
            total
        };
        lemma_least(1, few, p);
        let k = sfd_end(run, 0, f, ns, PEEK_BITS as int)->0;
        lemma_least_found(1, many, p, k);
        assert(first_anchor(run) is Some);
    }
}

/// A run in the second of two parts ends where it ends in that part.
proof fn lemma_run_end_after(a: Seq<u8>, b: Seq<u8>, s: int)
    requires
        0 <= s <= b.len(),
    ensures
        run_end(a + b, a.len() + s) == a.len() + run_end(b, s),
        s <= run_end(b, s) <= b.len(),
{
    let n = a.len() as int;
    let p = quiet_at(a + b);
    let q = quiet_at(b);
    lemma_least(s, b.len() as int, q);
    match least(s, b.len() as int, q) {
        Some(e) => {
            assert(q(e));
            assert(p(n + e));
            assert forall|j: int| n + s <= j < n + e implies !#[trigger] p(j) by {
                assert(!q(j - n));
            }
            lemma_least_found(n + s, (a + b).len() as int, p, n + e);
        },
        None => {
            assert forall|j: int| n + s <= j < (a + b).len() implies !#[trigger] p(j) by {
                assert(!q(j - n));
            }
            lemma_least_none(n + s, (a + b).len() as int, p);
        },
    }
}

/// A run in the first of two parts ends where it ends in that part, if that part ends
/// quiet.
proof fn lemma_run_end_before(a: Seq<u8>, b: Seq<u8>, s: int)
    requires
        0 <= s < a.len(),
        !active(a.last()),
    ensures
        run_end(a + b, s) == run_end(a, s),
        s <= run_end(a, s) < a.len(),
{
    let p = quiet_at(a + b);
    let q = quiet_at(a);
    assert(q(a.len() - 1));
    lemma_least(s, a.len() as int, q);
    let e = run_end(a, s);
    assert(q(e));
    assert(p(e));
    assert forall|j: int| s <= j < e implies !#[trigger] p(j) by {
        assert(!q(j));
    }
    lemma_least_found(s, (a + b).len() as int, p, e);
}

/// What a scan publishes of the second of two parts does not depend on the first.
proof fn lemma_published_after(our: Seq<u8>, a: Seq<u8>, b: Seq<u8>, cursor: int)
    requires
        0 <= cursor <= b.len(),
    ensures
        published(our, a + b, a.len() + cursor) == published(our, b, cursor),
    decreases b.len() - cursor,
{
    let n = a.len() as int;
    let ab = a + b;
    let p = long_run_at(ab, n + cursor, MIN_RUN as int);
    let q = long_run_at(b, cursor, MIN_RUN as int);
    assert forall|s: int| cursor <= s < b.len() implies #[trigger] q(s) == p(n + s) by {
        lemma_run_end_after(a, b, s);
        assert(ab[n + s] == b[s]);
        if s > cursor {
            assert(ab[n + s - 1] == b[s - 1]);
        }
    }
    lemma_least(cursor, b.len() as int, q);
    match least(cursor, b.len() as int, q) {
        None => {
            assert forall|j: int| n + cursor <= j < ab.len() implies !#[trigger] p(j) by {
                assert(q(j - n) == p(n + (j - n)));
            }
            lemma_least_none(n + cursor, ab.len() as int, p);
        },
        Some(off) => {
            assert(q(off) == p(n + off));
            assert forall|j: int| n + cursor <= j < n + off implies !#[trigger] p(j) by {
                assert(q(j - n) == p(n + (j - n)));
            }
            lemma_least_found(n + cursor, ab.len() as int, p, n + off);
            lemma_run_end_after(a, b, off);
            let len = run_end(b, off) - off;
            assert(ab.subrange(n + off, n + off + len) =~= b.subrange(off, off + len));
            lemma_verdict_same(our, ab, n + off, b, off, len);
            lemma_published_after(our, a, b, off + len);
        },
    }
}

/// Up to where the first of two parts ends, quiet, the same runs begin in both and in the
/// first alone.
proof fn lemma_runs_before(a: Seq<u8>, b: Seq<u8>, cursor: int, s: int)
    requires
        0 <= cursor <= s < a.len(),
        !active(a.last()),
    ensures
        long_run_at(a + b, cursor, MIN_RUN as int)(s) == long_run_at(a, cursor, MIN_RUN as int)(s),
{
    lemma_run_end_before(a, b, s);
    assert((a + b)[s] == a[s]);
    if s > cursor {
        assert((a + b)[s - 1] == a[s - 1]);
    }
}

/// A run in the first of two parts is the next run of both.
proof fn lemma_next_before(our: Seq<u8>, a: Seq<u8>, b: Seq<u8>, cursor: int, off: int)
    requires
        0 <= cursor <= a.len(),
        a.len() > 0 ==> !active(a.last()),
        least(cursor, a.len() as int, long_run_at(a, cursor, MIN_RUN as int)) == Some(off),
    ensures
        cursor <= off < a.len(),
        off + MIN_RUN <= run_end(a, off) < a.len(),
        next_run(a, cursor, MIN_RUN as int) == Some((off, run_end(a, off) - off)),
        next_run(a + b, cursor, MIN_RUN as int) == Some((off, run_end(a, off) - off)),
        verdict(our, a + b, off, run_end(a, off) - off) == verdict(
            our,
            a,
            off,
            run_end(a, off) - off,
        ),
{
    let ab = a + b;
    let p = long_run_at(ab, cursor, MIN_RUN as int);
    let q = long_run_at(a, cursor, MIN_RUN as int);
    lemma_least(cursor, a.len() as int, q);
    lemma_runs_before(a, b, cursor, off);
    assert(p(off));
    assert forall|s: int| cursor <= s < off implies !#[trigger] p(s) by {
        lemma_runs_before(a, b, cursor, s);
        assert(!q(s));
    }
    lemma_least_found(cursor, ab.len() as int, p, off);
    lemma_run_end_before(a, b, off);
    let len = run_end(a, off) - off;
    assert(ab.subrange(off, off + len) =~= a.subrange(off, off + len));
    lemma_verdict_same(our, ab, off, a, off, len);
}

/// Where the first of two parts has no run left, the next run of both is the first one of
/// the second part.
proof fn lemma_next_across(a: Seq<u8>, b: Seq<u8>, cursor: int)
    requires
        0 <= cursor <= a.len(),
        a.len() > 0 ==> !active(a.last()),
        least(cursor, a.len() as int, long_run_at(a, cursor, MIN_RUN as int)) is None,
    ensures
        next_run(a + b, cursor, MIN_RUN as int) == next_run(
            a + b,
            a.len() as int,
            MIN_RUN as int,
        ),
        next_run(a + b, cursor, MIN_RUN as int) matches Some((off, len)) ==> a.len() <= off && 0
            < len && off + len <= (a + b).len(),
{
    let n = a.len() as int;
    let ab = a + b;
    let p = long_run_at(ab, cursor, MIN_RUN as int);
    let q = long_run_at(a, cursor, MIN_RUN as int);
    let r = long_run_at(ab, n, MIN_RUN as int);
    lemma_least(cursor, n, q);
    assert forall|s: int| cursor <= s < n implies !#[trigger] p(s) by {
        lemma_runs_before(a, b, cursor, s);
        assert(!q(s));
    }
    assert forall|s: int| n <= s < ab.len() implies #[trigger] r(s) == p(s) by {
        if s == n && n > 0 {
            assert(ab[n - 1] == a.last());
        }
    }
    lemma_least(n, ab.len() as int, r);
    match least(n, ab.len() as int, r) {
        Some(off) => {
            assert(r(off) == p(off));
            assert forall|j: int| cursor <= j < off implies !#[trigger] p(j) by {
                if j >= n {
                    assert(r(j) == p(j));
                }
            }
            lemma_least_found(cursor, ab.len() as int, p, off);
            lemma_run_end_after(a, b, off - n);
        },
        None => {
            assert forall|j: int| cursor <= j < ab.len() implies !#[trigger] p(j) by {
                if j >= n {
                    assert(r(j) == p(j));
                }
            }
            lemma_least_none(cursor, ab.len() as int, p);
        },
    }
}

/// A cut in a quiet place makes no difference: what a scan publishes of two parts, the
/// first of which ends quiet, is what scans of the one and of the other publish.
pub proof fn lemma_cut_in_quiet(our: Seq<u8>, a: Seq<u8>, b: Seq<u8>, cursor: int)
    requires
        0 <= cursor <= a.len(),
        a.len() > 0 ==> !active(a.last()),
    ensures
        published(our, a + b, cursor) == published(our, a, cursor) + published(our, b, 0),
    decreases a.len() - cursor,
{
    let tail = published(our, b, 0);
    match least(cursor, a.len() as int, long_run_at(a, cursor, MIN_RUN as int)) {
        Some(off) => {
            lemma_next_before(our, a, b, cursor, off);
            let len = run_end(a, off) - off;
            lemma_cut_in_quiet(our, a, b, off + len);
            let head = published(our, a, off + len);
            match publishes(verdict(our, a, off, len)) {
                Some(f) => {
                    assert(seq![f] + (head + tail) =~= seq![f] + head + tail);
                },
                None => {},
            }
        },
        None => {
            lemma_next_across(a, b, cursor);
            lemma_published_after(our, a, b, 0);
            assert(published(our, a + b, cursor) == published(our, a + b, a.len() as int));
            assert(published(our, a, cursor) + tail =~= tail);
        },
    }
}

/// Parts, one after another.
pub open spec fn joined(parts: Seq<Seq<u8>>) -> Seq<u8>
    decreases parts.len(),
{
    if parts.len() == 0 {
        Seq::empty()
    } else {
        joined(parts.drop_last()) + parts.last()
    }
}

/// The images that half-buffers become, the carry they leave, and whether a carry was
/// ever given up.
pub open spec fn images(halves: Seq<Seq<u8>>) -> (Seq<Seq<u8>>, Seq<u8>, bool)
    decreases halves.len(),
{
    if halves.len() == 0 {
        (Seq::empty(), Seq::empty(), false)
    } else {
        let (before, c, capped) = images(halves.drop_last());
        let (image, carry, now) = stitched(c, halves.last());
        (before.push(image), carry, capped || now)
    }
}

/// The frames that scans of images publish, one image after another.
pub open spec fn each_published(our: Seq<u8>, parts: Seq<Seq<u8>>) -> Seq<Seq<u8>>
    decreases parts.len(),
{
    if parts.len() == 0 {
        Seq::empty()
    } else {
        each_published(our, parts.drop_last()) + published(our, parts.last(), 0)
    }
}

/// Images, one after another, end quiet.
proof fn lemma_images_end_quiet(halves: Seq<Seq<u8>>)
    ensures
        joined(images(halves).0).len() > 0 ==> !active(joined(images(halves).0).last()),
        forall|i: int| 0 <= i < images(halves).1.len() ==> active(#[trigger] images(halves).1[i]),
    decreases halves.len(),
{
    if halves.len() > 0 {
        let (before, c, capped) = images(halves.drop_last());
        lemma_images_end_quiet(halves.drop_last());
        lemma_stitch_cuts_no_run(c, halves.last());
        let image = stitched(c, halves.last()).0;
        assert(before.push(image).drop_last() =~= before);
        assert(joined(images(halves).0) == joined(before) + image);
        if image.len() == 0 {
            assert(joined(before) + image =~= joined(before));
        }
    }
}

/// Half-buffers are received without seams: unless a carry was given up, the images and
/// the carry that is left are all the samples, in order, and scanning image by image
/// publishes what scanning the images in one piece would.
pub proof fn lemma_no_seams(our: Seq<u8>, halves: Seq<Seq<u8>>)
    requires
        !images(halves).2,
    ensures
        joined(images(halves).0) + images(halves).1 == joined(halves),
        each_published(our, images(halves).0) == published(our, joined(images(halves).0), 0),
    decreases halves.len(),
{
    if halves.len() == 0 {
        assert(joined(images(halves).0) + images(halves).1 =~= joined(halves));
        lemma_least_none(
            0,
            0,
            long_run_at(joined(images(halves).0), 0, MIN_RUN as int),
        );
    } else {
        let (before, c, capped) = images(halves.drop_last());
        let h = halves.last();
        let (image, carry, now) = stitched(c, h);
        lemma_no_seams(our, halves.drop_last());
        lemma_stitch_keeps_stream(c, h);
        let all = images(halves).0;
        assert(all.drop_last() =~= before);
        assert(joined(all) == joined(before) + image);
        assert(joined(before) + image + carry =~= joined(before) + (image + carry));
        assert(joined(before) + (c + h) =~= joined(before) + c + h);
        lemma_images_end_quiet(halves.drop_last());
        lemma_cut_in_quiet(our, joined(before), image, 0);
    }
}

/// What is sent is what is received, whatever the half-buffers: where they hold the samples
/// of frames sent one after another, and end with the line at rest, the scans of their
/// images publish every frame that is for us, in order.
pub proof fn lemma_halves_receive(
    our: Seq<u8>,
    halves: Seq<Seq<u8>>,
    lead: int,
    steady: u8,
    bodies: Seq<Seq<u8>>,
)
    requires
        !images(halves).2,
        joined(halves).len() > 0 ==> !active(joined(halves).last()),
        carries(joined(halves), 0, lead, steady, sent(bodies)),
        forall|i: int| 0 <= i < bodies.len() ==> length_agrees(#[trigger] bodies[i]),
    ensures
        ({
            let frames = each_published(our, images(halves).0);
            let n = received(our, bodies).len() as int;
            &&& n <= frames.len()
            &&& frames.take(n) == received(our, bodies)
        }),
{
    let (parts, carry, capped) = images(halves);
    let all = joined(parts);
    lemma_no_seams(our, halves);
    lemma_images_end_quiet(halves);
    if carry.len() > 0 {
        assert(joined(halves).last() == carry.last());
        assert(active(carry[carry.len() - 1]));
    }
    assert(all =~= joined(halves));
    let t = Tally {
        decoded: 0,
        ok: 0,
        fail: 0,
        filtered: 0,
        carry: 0,
        last: None,
        stitch_dec: 0,
        stitch_fail: 0,
    };
    lemma_frames_are_received(our, all, 0, lead, steady, bodies, false, t);
    lemma_scan_publishes(our, all, 0, false, t);
}

} // verus!
