//! Receive path: finding frames in the sampled line and stitching half-buffers.
//!
//! The sampler packs one bit per sample, eight to a byte. At 60 MHz a half-bit is three
//! samples and a data bit six. A frame opens with an alternating preamble and a
//! start-of-frame delimiter whose last two bits are the first pair of ones.

use vstd::prelude::*;

use crate::crc::{crc32, crc32_ieee802_3};
use crate::frame::{frame_bytes, frame_new, frame_push, frame_slice, Frame, MAX_FRAME_BYTES};
use crate::samples::{
    are_bits, bits_value, lemma_bits_value_bound, lemma_pack_prefix, lemma_pack_push,
    lemma_weights, pack, pack_bit, partial, sample, sample_bit, weight,
};
use crate::search::{least, lemma_least, lemma_least_found, lemma_least_none};
use crate::wire::{be16, rd16, splice, write_at};

verus! {

/// Sampler rate: 60 MHz is three samples per half-bit.
pub const SAMPLE_HZ: u32 = 60_000_000;

/// Samples per data bit.
pub const SAMPLES_PER_BIT: usize = 6;

/// Offset from the start of a bit to the middle of its second half.
pub const HB1_CENTER_OFFSET: usize = 4;

/// Words per half-buffer.
pub const BUF_WORDS: usize = 4096;

/// Bytes per half-buffer.
pub const BUF_BYTES: usize = 16384;

/// Most bytes carried into the next half for a straddling frame.
pub const MAX_CARRY_BYTES: usize = 16384;

/// Image slot size: the longest carry plus one half.
pub const STITCH_BUF_BYTES: usize = 32768;

/// Bound on the search for the start-of-frame delimiter.
pub const SFD_SEARCH_BITS: usize = 1600;

/// Bits in which the destination address has to end, for the quick look at it.
pub const PEEK_BITS: usize = 200;

/// The line goes from high to low at sample `i` after `base`.
pub open spec fn falls(buf: Seq<u8>, base: int) -> spec_fn(int) -> bool {
    |i: int| sample(buf, base + i - 1) == 1 && sample(buf, base + i) == 0
}

/// The first falling edge among `ns` samples: where half-bit 0 begins.
pub open spec fn first_fall(buf: Seq<u8>, base: int, ns: int) -> Option<int> {
    least(1, ns, falls(buf, base))
}

/// Where open-loop data bit `k` is read, relative to `base`.
pub open spec fn open_pos(f: int, k: int) -> int {
    f + 4 + 6 * k
}

/// Open-loop data bit `k` of a frame anchored at `f`.
pub open spec fn open_bit(buf: Seq<u8>, base: int, f: int, k: int) -> u8 {
    sample(buf, base + open_pos(f, k))
}

/// How many open-loop data bits `ns` samples hold.
pub open spec fn open_count(f: int, ns: int) -> int {
    if f + 4 >= ns {
        0
    } else {
        (ns - f - 5) / 6 + 1
    }
}

/// Data bits `k - 1` and `k` are both one.
pub open spec fn pair_of_ones(buf: Seq<u8>, base: int, f: int) -> spec_fn(int) -> bool {
    |k: int| open_bit(buf, base, f, k - 1) == 1 && open_bit(buf, base, f, k) == 1
}

/// The bit that ends the start-of-frame delimiter.
pub open spec fn sfd_end(buf: Seq<u8>, base: int, f: int, ns: int, max_bits: int) -> Option<int> {
    least(
        1,
        if max_bits < open_count(f, ns) {
            max_bits
        } else {
            open_count(f, ns)
        },
        pair_of_ones(buf, base, f),
    )
}

/// Open-loop data bits `start..start + n`.
pub open spec fn open_bits(buf: Seq<u8>, base: int, f: int, start: int, n: nat) -> Seq<u8> {
    Seq::new(n, |j: int| open_bit(buf, base, f, start + j))
}

/// Bit `k` lies inside `ns` samples exactly when it is counted.
pub(crate) proof fn lemma_open_count(f: int, ns: int, k: int)
    requires
        k >= 0,
    ensures
        (open_pos(f, k) < ns) == (k < open_count(f, ns)),
        open_count(f, ns) >= 0,
{
}

/// The bits from `start` on, counted from where the first of them is read.
pub(crate) proof fn lemma_open_rest(f: int, ns: int, start: int)
    requires
        1 <= start <= open_count(f, ns),
    ensures
        open_pos(f, start) <= ns + 5,
        open_pos(f, start) < ns ==> (ns - 1 - open_pos(f, start)) / 6 + 1 == open_count(f, ns)
            - start,
        open_pos(f, start) >= ns ==> open_count(f, ns) == start,
        open_count(f, ns) > start ==> open_pos(f, start) + 6 * (open_count(f, ns) - start - 1)
            < ns,
{
}

/// Offset of the first falling edge, if any.
pub(crate) fn find_first_falling_edge(bytes: &[u8], base_bit: usize, nsamples: usize) -> (r: Option<
    usize,
>)
    requires
        base_bit / 8 < bytes@.len(),
        base_bit + nsamples <= 8 * bytes@.len(),
        base_bit + nsamples <= usize::MAX,
    ensures
        match r {
            Some(f) => first_fall(bytes@, base_bit as int, nsamples as int) == Some(f as int),
            None => first_fall(bytes@, base_bit as int, nsamples as int) is None,
        },
{
    let mut prev: u8 = sample_bit(bytes, base_bit);
    let mut i: usize = 1;
    let ghost p = falls(bytes@, base_bit as int);
    while i < nsamples
        invariant
            1 <= i,
            i == 1 || i <= nsamples,
            base_bit + nsamples <= 8 * bytes@.len(),
            base_bit + nsamples <= usize::MAX,
            prev == sample(bytes@, base_bit + i - 1),
            p == falls(bytes@, base_bit as int),
            forall|j: int| 1 <= j < i ==> !#[trigger] p(j),
        decreases nsamples - i,
    {
        let s: u8 = sample_bit(bytes, base_bit + i);
        if prev == 1 && s == 0 {
            proof {
                lemma_least_found(1, nsamples as int, p, i as int);
            }
            return Some(i);
        }
        prev = s;
        i = i + 1;
    }
    proof {
        lemma_least_none(1, nsamples as int, p);
    }
    None
}

/// Open-loop data bit `k`; `None` once past `nsamples`.
pub(crate) fn data_bit(bytes: &[u8], base_bit: usize, f: usize, k: usize, nsamples: usize) -> (r:
    Option<u8>)
    requires
        base_bit + nsamples <= 8 * bytes@.len(),
        base_bit + nsamples <= usize::MAX,
        open_pos(f as int, k as int) <= usize::MAX,
    ensures
        match r {
            Some(b) => k < open_count(f as int, nsamples as int) && b == open_bit(
                bytes@,
                base_bit as int,
                f as int,
                k as int,
            ) && (b == 0 || b == 1),
            None => k >= open_count(f as int, nsamples as int),
        },
{
    proof {
        lemma_open_count(f as int, nsamples as int, k as int);
    }
    let idx: usize = f + HB1_CENTER_OFFSET + SAMPLES_PER_BIT * k;
    if idx >= nsamples {
        None
    } else {
        Some(sample_bit(bytes, base_bit + idx))
    }
}

/// The bit that ends the start-of-frame delimiter: the second of the first pair of ones
/// within `max_bits`. Frame data starts at the next bit.
pub(crate) fn find_sfd_end(
    bytes: &[u8],
    base_bit: usize,
    f: usize,
    nsamples: usize,
    max_bits: usize,
) -> (r: Option<usize>)
    requires
        base_bit + nsamples <= 8 * bytes@.len(),
        base_bit + nsamples <= usize::MAX,
        f < nsamples,
        nsamples + 5 <= usize::MAX,
    ensures
        match r {
            Some(k) => sfd_end(bytes@, base_bit as int, f as int, nsamples as int, max_bits as int)
                == Some(k as int),
            None => sfd_end(
                bytes@,
                base_bit as int,
                f as int,
                nsamples as int,
                max_bits as int,
            ) is None,
        },
{
    let ghost p = pair_of_ones(bytes@, base_bit as int, f as int);
    let ghost n = open_count(f as int, nsamples as int);
    let ghost hi = if max_bits < n {
        max_bits as int
    } else {
        n
    };
    let mut prev: u8 = match data_bit(bytes, base_bit, f, 0, nsamples) {
        Some(b) => b,
        None => {
            return None;
        },
    };
    let mut k: usize = 1;
    while k < max_bits
        invariant
            1 <= k <= n,
            n == open_count(f as int, nsamples as int),
            hi == if max_bits < n { max_bits as int } else { n },
            base_bit + nsamples <= 8 * bytes@.len(),
            base_bit + nsamples <= usize::MAX,
            f < nsamples,
            nsamples + 5 <= usize::MAX,
            prev == open_bit(bytes@, base_bit as int, f as int, k - 1),
            p == pair_of_ones(bytes@, base_bit as int, f as int),
            forall|j: int| 1 <= j < k ==> !#[trigger] p(j),
        decreases max_bits - k,
    {
        let cur: u8 = match data_bit(bytes, base_bit, f, k, nsamples) {
            Some(b) => b,
            None => {
                proof {
                    lemma_least_none(1, hi, p);
                }
                return None;
            },
        };
        if cur == 1 && prev == 1 {
            proof {
                lemma_least_found(1, hi, p, k as int);
            }
            return Some(k);
        }
        prev = cur;
        k = k + 1;
    }
    proof {
        lemma_least_none(1, hi, p);
    }
    None
}

/// The line is moving in this sample byte: it is neither all low nor all high.
pub open spec fn active(b: u8) -> bool {
    b != 0x00 && b != 0xFF
}

/// Byte `i` is quiet.
pub open spec fn quiet_at(bytes: Seq<u8>) -> spec_fn(int) -> bool {
    |i: int| !active(bytes[i])
}

/// Where the run of active bytes that contains or follows `s` ends.
pub open spec fn run_end(bytes: Seq<u8>, s: int) -> int {
    match least(s, bytes.len() as int, quiet_at(bytes)) {
        Some(e) => e,
        None => bytes.len() as int,
    }
}

/// A run of at least `min_len` active bytes begins at `s`, for a scan from `start`.
pub open spec fn long_run_at(bytes: Seq<u8>, start: int, min_len: int) -> spec_fn(int) -> bool {
    |s: int|
        active(bytes[s]) && (s == start || !active(bytes[s - 1])) && run_end(bytes, s) - s
            >= min_len
}

/// The first run of at least `min_len` active bytes from `start` on: begin and length.
pub open spec fn next_run(bytes: Seq<u8>, start: int, min_len: int) -> Option<(int, int)> {
    match least(start, bytes.len() as int, long_run_at(bytes, start, min_len)) {
        Some(s) => Some((s, run_end(bytes, s) - s)),
        None => None,
    }
}

/// The destination address as an open-loop decode of `ns` samples reads it.
pub open spec fn peeked_mac(buf: Seq<u8>, base: int, ns: int) -> Option<Seq<u8>> {
    match first_fall(buf, base, ns) {
        None => None,
        Some(f) => match sfd_end(buf, base, f, ns, PEEK_BITS as int) {
            None => None,
            Some(k) => if k + 49 > PEEK_BITS || k + 49 > open_count(f, ns) {
                None
            } else {
                Some(pack(open_bits(buf, base, f, k + 1, 48)))
            },
        },
    }
}

/// A byte's worth of bits packs to the sum of their weights.
proof fn lemma_pack_step(bits: Seq<u8>, b: u8, byte: u8, idx: u8)
    requires
        are_bits(bits),
        b == 0 || b == 1,
        idx == bits.len() % 8,
        byte == bits_value(partial(bits)),
    ensures
        are_bits(bits.push(b)),
        byte < weight(idx as nat),
        bits_value(partial(bits).push(b)) == byte + b * weight(idx as nat),
        byte + b * weight(idx as nat) < 256,
{
    let part = partial(bits);
    assert(are_bits(part)) by {
        assert forall|i: int| 0 <= i < part.len() implies #[trigger] part[i] == 0 || part[i]
            == 1 by {
            assert(bits[8 * (bits.len() as int / 8) + i] == 0 || bits[8 * (bits.len() as int / 8)
                + i] == 1);
        }
    }
    lemma_bits_value_bound(part);
    let more = part.push(b);
    assert(more.drop_last() =~= part);
    assert(are_bits(more));
    lemma_bits_value_bound(more);
    lemma_weights();
    assert(more.len() == idx + 1);
    assert(weight(idx as nat + 1) <= 256);
    assert(b as nat * weight(idx as nat) == b * weight(idx as nat));
}

/// One more data bit for the byte under construction; the byte goes to `frame` when it
/// is complete.
pub(crate) fn push_bit(frame: &mut Frame, byte: &mut u8, idx: &mut u8, b: u8, Ghost(bits): Ghost<
    Seq<u8>,
>) -> (whole: bool)
    requires
        are_bits(bits),
        b == 0 || b == 1,
        frame_bytes(*old(frame)) == pack(bits),
        pack(bits).len() < MAX_FRAME_BYTES,
        *old(idx) == bits.len() % 8,
        *old(byte) == bits_value(partial(bits)),
    ensures
        are_bits(bits.push(b)),
        frame_bytes(*final(frame)) == pack(bits.push(b)),
        *final(idx) == bits.push(b).len() % 8,
        *final(byte) == bits_value(partial(bits.push(b))),
        whole == (bits.len() % 8 == 7),
        pack(bits.push(b)).len() == pack(bits).len() + if whole { 1int } else { 0 },
        pack(bits) == pack(bits.push(b)).take(pack(bits).len() as int),
{
    proof {
        lemma_pack_step(bits, b, *byte, *idx);
        lemma_pack_push(bits, b);
        lemma_pack_prefix(bits, seq![b]);
        assert(bits + seq![b] =~= bits.push(b));
    }
    *byte = pack_bit(*byte, *idx, b);
    *idx = *idx + 1;
    if *idx == 8 {
        let _ = frame_push(frame, *byte);
        *byte = 0;
        *idx = 0;
        true
    } else {
        false
    }
}

/// The length an open-loop decode stops at, once the header is in: what the header
/// declares where the type is known.
pub open spec fn open_loop_cap(bytes: Seq<u8>) -> int {
    if bytes.len() < 18 {
        bytes.len() as int
    } else if be16(bytes, 12) == 0x0800 {
        if 18 + be16(bytes, 16) > 64 {
            18 + be16(bytes, 16) as int
        } else {
            64
        }
    } else if be16(bytes, 12) == 0x0806 {
        64
    } else {
        bytes.len() as int
    }
}

/// `bytes` cut to at most `n`.
pub open spec fn at_most(bytes: Seq<u8>, n: int) -> Seq<u8> {
    if n < bytes.len() {
        bytes.take(n)
    } else {
        bytes
    }
}

/// The frame an open-loop decode of `ns` samples reads.
pub open spec fn open_loop_frame(buf: Seq<u8>, base: int, ns: int) -> Option<Seq<u8>> {
    match first_fall(buf, base, ns) {
        None => None,
        Some(f) => match sfd_end(buf, base, f, ns, SFD_SEARCH_BITS as int) {
            None => None,
            Some(k) => {
                let start = k + 1;
                let n = if open_count(f, ns) > start {
                    (open_count(f, ns) - start) as nat
                } else {
                    0
                };
                let bytes = at_most(
                    pack(open_bits(buf, base, f, start, n)),
                    MAX_FRAME_BYTES as int,
                );
                Some(at_most(bytes, open_loop_cap(bytes)))
            },
        },
    }
}

/// The samples of `nbytes` bytes from `base` on, as far as `len` bytes hold them.
pub open spec fn samples_from(len: int, base: int, nbytes: int) -> int {
    if nbytes < len - base {
        8 * nbytes
    } else {
        8 * (len - base)
    }
}

/// Frame length including the check sequence, as the header declares it.
pub open spec fn declared_len(frame: Seq<u8>) -> int {
    let n = frame.len() as int;
    if n < 18 {
        n
    } else if be16(frame, 12) == 0x0800 {
        let computed = if 18 + be16(frame, 16) > 64 {
            18 + be16(frame, 16) as int
        } else {
            64
        };
        if computed <= n {
            computed
        } else {
            n
        }
    } else if be16(frame, 12) == 0x0806 && n >= 64 {
        64
    } else {
        n
    }
}

/// The little-endian 32-bit number at `i`.
pub open spec fn le32(s: Seq<u8>, i: int) -> int {
    s[i] + 0x100 * s[i + 1] + 0x1_0000 * s[i + 2] + 0x100_0000 * s[i + 3]
}

/// The last four of `n` frame bytes are the check sequence of those before.
pub open spec fn fcs_valid(frame: Seq<u8>, n: int) -> bool {
    18 <= n <= frame.len() && crc32(frame.take(n - 4)) == le32(frame, n - 4)
}

/// What one half-buffer adds to a carry `c`: where the settled part of `h` ends, or
/// `None` where the carried run has not ended in it.
pub open spec fn settled(c: Seq<u8>, h: Seq<u8>) -> Option<int> {
    if c.len() > 0 && least(0, h.len() as int, quiet_at(h)) is None {
        None
    } else {
        Some(last_run_start(h, h.len() as int))
    }
}

/// What a carry `c` and a half-buffer `h` become: an image, the carry that is left, and
/// whether the carry was given up because it would have grown over its limit.
pub open spec fn stitched(c: Seq<u8>, h: Seq<u8>) -> (Seq<u8>, Seq<u8>, bool) {
    match settled(c, h) {
        Some(t) => (c + h.take(t), h.skip(t), false),
        None => if c.len() + h.len() <= MAX_CARRY_BYTES {
            (Seq::empty(), c + h, false)
        } else {
            (Seq::empty(), Seq::empty(), true)
        },
    }
}

/// Where the run of active bytes that ends at `n` begins.
pub open spec fn last_run_start(h: Seq<u8>, n: int) -> int
    decreases n,
{
    if n <= 0 || !active(h[n - 1]) {
        n
    } else {
        last_run_start(h, n - 1)
    }
}

/// `last_run_start` is the least index from which all bytes up to `n` are active.
pub(crate) proof fn lemma_last_run_start(h: Seq<u8>, n: int)
    requires
        0 <= n <= h.len(),
    ensures
        0 <= last_run_start(h, n) <= n,
        last_run_start(h, n) == 0 || !active(h[last_run_start(h, n) - 1]),
        forall|i: int| last_run_start(h, n) <= i < n ==> active(#[trigger] h[i]),
    decreases n,
{
    if n > 0 && active(h[n - 1]) {
        lemma_last_run_start(h, n - 1);
    }
}

/// `n` samples, six apart, from `first` on.
pub open spec fn stride_bits(buf: Seq<u8>, first: int, n: nat) -> Seq<u8> {
    Seq::new(n, |j: int| sample(buf, first + 6 * j))
}

/// Pack strided samples into at most `nframe_avail` bytes, fewer where the header
/// declares fewer.
fn read_strided(bytes: &[u8], first_off: usize, avail_bits: usize, nframe_avail: usize) -> (r:
    Frame)
    requires
        nframe_avail == if avail_bits / 8 < MAX_FRAME_BYTES {
            (avail_bits / 8) as int
        } else {
            MAX_FRAME_BYTES as int
        },
        avail_bits > 0 ==> first_off + 6 * (avail_bits - 1) < 8 * bytes@.len(),
        8 * bytes@.len() + 7 <= usize::MAX,
        first_off <= usize::MAX,
    ensures
        ({
            let avail = at_most(
                pack(stride_bits(bytes@, first_off as int, avail_bits as nat)),
                MAX_FRAME_BYTES as int,
            );
            frame_bytes(r) == at_most(avail, open_loop_cap(avail))
        }),
{
    let mut nframe: usize = nframe_avail;
    let mut frame: Frame = frame_new();
    let mut byte: u8 = 0;
    let mut idx: u8 = 0;
    let mut off: usize = first_off;
    let mut n: usize = 0;
    let ghost all = stride_bits(bytes@, first_off as int, avail_bits as nat);
    let ghost avail = at_most(pack(all), MAX_FRAME_BYTES as int);
    let ghost cap = open_loop_cap(avail);
    assert(all.take(0) =~= Seq::<u8>::empty());
    assert(pack(Seq::<u8>::empty()) =~= Seq::<u8>::empty());
    assert(partial(Seq::<u8>::empty()) =~= Seq::<u8>::empty());
    while n < 8 * nframe
        invariant
            n <= 8 * nframe <= 8 * nframe_avail <= avail_bits,
            nframe_avail <= MAX_FRAME_BYTES,
            all == stride_bits(bytes@, first_off as int, avail_bits as nat),
            avail == at_most(pack(all), MAX_FRAME_BYTES as int),
            avail.len() == nframe_avail,
            cap == open_loop_cap(avail),
            n < avail_bits ==> off == first_off + 6 * n,
            avail_bits > 0 ==> first_off + 6 * (avail_bits - 1) < 8 * bytes@.len(),
            8 * bytes@.len() + 7 <= usize::MAX,
            are_bits(all.take(n as int)),
            frame_bytes(frame) == pack(all.take(n as int)),
            idx == n % 8,
            byte == bits_value(partial(all.take(n as int))),
            n < 18 * 8 ==> nframe == nframe_avail,
            n >= 18 * 8 ==> nframe == if cap < nframe_avail {
                cap
            } else {
                nframe_avail as int
            },
        decreases 8 * nframe_avail - n,
    {
        let ghost seen = all.take(n as int);
        let b: u8 = sample_bit(bytes, off);
        assert(b == all[n as int]);
        assert(pack(seen).len() == n / 8);
        let whole: bool = push_bit(&mut frame, &mut byte, &mut idx, b, Ghost(seen));
        off = off + SAMPLES_PER_BIT;
        n = n + 1;
        assert(all.take(n as int) =~= seen.push(b));
        if whole && n == 18 * 8 {
            let head: &[u8] = frame_slice(&frame);
            proof {
                lemma_header_kept(all, n as int);
            }
            let etype: u16 = rd16(head, 12);
            let declared: usize = if etype == 0x0800 {
                let len: usize = 14 + rd16(head, 16) as usize + 4;
                if len > 64 {
                    len
                } else {
                    64
                }
            } else if etype == 0x0806 {
                64
            } else {
                nframe_avail
            };
            if declared < nframe_avail {
                nframe = declared;
            }
        }
    }
    proof {
        lemma_pack_prefix(all.take(n as int), all.skip(n as int));
        assert(all.take(n as int) + all.skip(n as int) =~= all);
        assert(frame_bytes(frame) =~= at_most(avail, cap));
    }
    frame
}

/// The bytes a prefix of the stream packs to are those the whole stream begins with.
pub(crate) proof fn lemma_header_kept(all: Seq<u8>, n: int)
    requires
        0 <= n <= all.len(),
    ensures
        pack(all).len() >= pack(all.take(n)).len(),
        forall|i: int|
            0 <= i < pack(all.take(n)).len() ==> #[trigger] pack(all.take(n))[i] == pack(all)[i],
{
    lemma_pack_prefix(all.take(n), all.skip(n));
    assert(all.take(n) + all.skip(n) =~= all);
    let short = pack(all.take(n));
    assert forall|i: int| 0 <= i < short.len() implies #[trigger] short[i] == pack(all)[i] by {
        assert(pack(all).take(short.len() as int)[i] == pack(all)[i]);
    }
}

/// The strided samples of a frame are its open-loop data bits.
proof fn lemma_stride_is_open(buf: Seq<u8>, base: int, f: int, start: int, n: nat)
    ensures
        open_bits(buf, base, f, start, n) == stride_bits(buf, base + open_pos(f, start), n),
{
    let a = open_bits(buf, base, f, start, n);
    let b = stride_bits(buf, base + open_pos(f, start), n);
    assert forall|j: int| 0 <= j < n implies a[j] == b[j] by {
        assert(base + open_pos(f, start + j) == base + open_pos(f, start) + 6 * j);
    }
    assert(a =~= b);
}

/// Open-loop decode of `nsamples` samples from `base_bit` on.
fn decode_open_loop(bytes: &[u8], base_bit: usize, nsamples: usize) -> (r: Option<Frame>)
    requires
        base_bit / 8 < bytes@.len(),
        base_bit + nsamples <= 8 * bytes@.len(),
        8 * bytes@.len() + 7 <= usize::MAX,
    ensures
        match r {
            Some(frame) => open_loop_frame(bytes@, base_bit as int, nsamples as int) == Some(
                frame_bytes(frame),
            ),
            None => open_loop_frame(bytes@, base_bit as int, nsamples as int) is None,
        },
{
    let f: usize = match find_first_falling_edge(bytes, base_bit, nsamples) {
        Some(f) => f,
        None => {
            return None;
        },
    };
    proof {
        lemma_least(1, nsamples as int, falls(bytes@, base_bit as int));
    }
    let k: usize = match find_sfd_end(bytes, base_bit, f, nsamples, SFD_SEARCH_BITS) {
        Some(k) => k,
        None => {
            return None;
        },
    };
    let ghost total = open_count(f as int, nsamples as int);
    proof {
        lemma_least(
            1,
            if SFD_SEARCH_BITS < total {
                SFD_SEARCH_BITS as int
            } else {
                total
            },
            pair_of_ones(bytes@, base_bit as int, f as int),
        );
        lemma_open_rest(f as int, nsamples as int, k + 1);
        lemma_stride_is_open(
            bytes@,
            base_bit as int,
            f as int,
            k + 1,
            (total - (k + 1)) as nat,
        );
    }
    let start_bit: usize = k + 1;
    let limit: usize = base_bit + nsamples;
    let first_off: usize = base_bit + f + HB1_CENTER_OFFSET + SAMPLES_PER_BIT * start_bit;
    let avail_bits: usize = if first_off < limit {
        (limit - 1 - first_off) / SAMPLES_PER_BIT + 1
    } else {
        0
    };
    assert(avail_bits == total - start_bit);
    let nframe_avail: usize = if avail_bits / 8 < MAX_FRAME_BYTES {
        avail_bits / 8
    } else {
        MAX_FRAME_BYTES
    };
    Some(read_strided(bytes, first_off, avail_bits, nframe_avail))
}

/// Receive state between half-buffers. `carry[..carry_len]` is the active run that was
/// still open when the last half ended.
pub struct EthRx {
    pub carry: [u8; MAX_CARRY_BYTES],
    pub carry_len: usize,
    /// Times a carried run outgrew the carry and was dropped.
    pub carry_capped: u32,
}

/// Result of [`EthRx::poll_into`].
#[derive(Clone, Copy, Debug, PartialEq, Eq)]
pub enum PollOutcome {
    /// No image to process.
    Nothing,
    /// `slot[..len]` holds the continuous sample image; its first `carry_prefix` bytes
    /// come from the carry.
    Image { len: usize, carry_prefix: usize },
}

impl EthRx {
    /// The carried samples.
    pub open spec fn carried(&self) -> Seq<u8> {
        self.carry@.take(self.carry_len as int)
    }

    /// The carry fits its buffer.
    pub open spec fn wf(&self) -> bool {
        self.carry_len <= MAX_CARRY_BYTES
    }

    /// Nothing carried, nothing dropped.
    pub fn new() -> (r: EthRx)
        ensures
            r.wf(),
            r.carried() == Seq::<u8>::empty(),
            r.carry@ == Seq::new(MAX_CARRY_BYTES as nat, |i: int| 0u8),
            r.carry_len == 0,
            r.carry_capped == 0,
    {
        let r = EthRx { carry: [0;MAX_CARRY_BYTES], carry_len: 0, carry_capped: 0 };
        assert(r.carried() =~= Seq::<u8>::empty());
        assert(r.carry@ =~= Seq::new(MAX_CARRY_BYTES as nat, |i: int| 0u8));
        r
    }

    /// Read and reset the count of dropped runs.
    pub fn take_carry_capped(&mut self) -> (v: u32)
        requires
            old(self).wf(),
        ensures
            v == old(self).carry_capped,
            final(self).carry_capped == 0,
            final(self).carried() == old(self).carried(),
            final(self).wf(),
    {
        let v: u32 = self.carry_capped;
        self.carry_capped = 0;
        v
    }

    /// Next run of active bytes (neither 0x00 nor 0xFF) of at least `min_len`, from
    /// `start`: where it begins and how long it is. Shorter runs are skipped.
    pub fn find_active_run_from(bytes: &[u8], start: usize, min_len: usize) -> (r: Option<
        (usize, usize),
    >)
        ensures
            match r {
                Some((s, n)) => next_run(bytes@, start as int, min_len as int) == Some(
                    (s as int, n as int),
                ) && start <= s && s + n <= bytes@.len() && n >= min_len && n > 0,
                None => next_run(bytes@, start as int, min_len as int) is None,
            },
    {
        let ghost p = long_run_at(bytes@, start as int, min_len as int);
        let ghost q = quiet_at(bytes@);
        let n: usize = bytes.len();
        let mut i: usize = start;
        loop
            invariant
                n == bytes@.len(),
                start <= i,
                i == start || i <= n,
                p == long_run_at(bytes@, start as int, min_len as int),
                q == quiet_at(bytes@),
                i == start || i == n || !active(bytes@[i as int]),
                forall|j: int| start <= j < i ==> !#[trigger] p(j),
            decreases n - i,
        {
            let ghost from = i;
            while i < n && (bytes[i] == 0x00 || bytes[i] == 0xFF)
                invariant
                    n == bytes@.len(),
                    start <= from <= i,
                    i == start || i <= n,
                    p == long_run_at(bytes@, start as int, min_len as int),
                    i == start || i == n || !active(bytes@[i as int]) || !active(bytes@[i - 1]),
                    forall|j: int| start <= j < i ==> !#[trigger] p(j),
                decreases n - i,
            {
                assert(!p(i as int));
                i = i + 1;
            }
            if i >= n {
                proof {
                    lemma_least_none(start as int, n as int, p);
                }
                return None;
            }
            let run_start: usize = i;
            assert(active(bytes@[i as int]));
            while i < n && bytes[i] != 0x00 && bytes[i] != 0xFF
                invariant
                    n == bytes@.len(),
                    run_start <= i <= n,
                    run_start == i ==> active(bytes@[i as int]),
                    q == quiet_at(bytes@),
                    forall|j: int| run_start <= j < i ==> active(#[trigger] bytes@[j]),
                    forall|j: int| run_start <= j < i ==> !#[trigger] q(j),
                decreases n - i,
            {
                assert(!q(i as int));
                i = i + 1;
            }
            proof {
                if i < n {
                    assert(q(i as int));
                    lemma_least_found(run_start as int, n as int, q, i as int);
                } else {
                    lemma_least_none(run_start as int, n as int, q);
                }
                assert(run_end(bytes@, run_start as int) == i);
            }
            let run_len: usize = i - run_start;
            if run_len >= min_len {
                proof {
                    assert(p(run_start as int));
                    lemma_least_found(start as int, n as int, p, run_start as int);
                }
                return Some((run_start, run_len));
            }
            assert forall|j: int| start <= j < i implies !#[trigger] p(j) by {
                if j > run_start {
                    assert(active(bytes@[j - 1]));
                }
            }
            if i >= n {
                proof {
                    lemma_least_none(start as int, n as int, p);
                }
                return None;
            }
        }
    }

    /// Open-loop decode of just the destination address, which comes early enough to
    /// ignore drift. Of the `nbytes` bytes from `base` on it looks at those that are there.
    /// `None` where no edge or no delimiter is found in time.
    pub fn peek_dst_mac(bytes: &[u8], base: usize, nbytes: usize) -> (r: Option<[u8; 6]>)
        requires
            8 * base <= usize::MAX,
            8 * nbytes <= usize::MAX,
            base < bytes@.len() ==> 8 * base + samples_from(
                bytes@.len() as int,
                base as int,
                nbytes as int,
            ) <= usize::MAX,
        ensures
            base >= bytes@.len() ==> r is None,
            base < bytes@.len() ==> ({
                let ns = samples_from(bytes@.len() as int, base as int, nbytes as int);
                match r {
                    Some(mac) => peeked_mac(bytes@, 8 * base, ns) == Some(mac@),
                    None => peeked_mac(bytes@, 8 * base, ns) is None,
                }
            }),
    {
        if base >= bytes.len() || nbytes == 0 {
            return None;
        }
        let present: usize = if nbytes < bytes.len() - base {
            nbytes
        } else {
            bytes.len() - base
        };
        let nsamples: usize = present * 8;
        let base_bit: usize = base * 8;
        let f: usize = match find_first_falling_edge(bytes, base_bit, nsamples) {
            Some(f) => f,
            None => {
                return None;
            },
        };
        proof {
            lemma_least(1, nsamples as int, falls(bytes@, base_bit as int));
        }
        let k: usize = match find_sfd_end(bytes, base_bit, f, nsamples, PEEK_BITS) {
            Some(k) => k,
            None => {
                return None;
            },
        };
        let ghost total = open_count(f as int, nsamples as int);
        proof {
            lemma_least(
                1,
                if PEEK_BITS < total {
                    PEEK_BITS as int
                } else {
                    total
                },
                pair_of_ones(bytes@, base_bit as int, f as int),
            );
        }
        let start_bit: usize = k + 1;
        if start_bit + 48 > PEEK_BITS {
            return None;
        }
        let mut mac: [u8; 6] = [0;6];
        let mut i: usize = 0;
        let ghost bits = open_bits(bytes@, base_bit as int, f as int, start_bit as int, 48);
        while i < 6
            invariant
                i <= 6,
                nsamples + 5 <= usize::MAX,
                base_bit + nsamples <= 8 * bytes@.len(),
                base_bit + nsamples <= usize::MAX,
                f < nsamples,
                k + 1 == start_bit,
                start_bit + 48 <= PEEK_BITS,
                total == open_count(f as int, nsamples as int),
                start_bit + 8 * i <= total,
                k < total,
                bits == open_bits(bytes@, base_bit as int, f as int, start_bit as int, 48),
                first_fall(bytes@, base_bit as int, nsamples as int) == Some(f as int),
                sfd_end(
                    bytes@,
                    base_bit as int,
                    f as int,
                    nsamples as int,
                    PEEK_BITS as int,
                ) == Some(k as int),
                forall|m: int| 0 <= m < i ==> #[trigger] mac@[m] == pack(bits)[m],
                base_bit == 8 * base,
                nsamples == samples_from(bytes@.len() as int, base as int, nbytes as int),
                base < bytes@.len(),
            decreases 6 - i,
        {
            let mut b: u8 = 0;
            let mut j: usize = 0;
            let ghost mut part: Seq<u8> = Seq::empty();
            while j < 8
                invariant
                    j <= 8,
                    i < 6,
                    nsamples + 5 <= usize::MAX,
                    base_bit + nsamples <= 8 * bytes@.len(),
                    base_bit + nsamples <= usize::MAX,
                    f < nsamples,
                    k + 1 == start_bit,
                    start_bit + 48 <= PEEK_BITS,
                    total == open_count(f as int, nsamples as int),
                    start_bit + 8 * i + j <= total,
                    bits == open_bits(bytes@, base_bit as int, f as int, start_bit as int, 48),
                    first_fall(bytes@, base_bit as int, nsamples as int) == Some(f as int),
                    sfd_end(
                        bytes@,
                        base_bit as int,
                        f as int,
                        nsamples as int,
                        PEEK_BITS as int,
                    ) == Some(k as int),
                    base_bit == 8 * base,
                    nsamples == samples_from(bytes@.len() as int, base as int, nbytes as int),
                    base < bytes@.len(),
                    part == bits.subrange(8 * i as int, 8 * i + j),
                    are_bits(part),
                    b == bits_value(part),
                decreases 8 - j,
            {
                proof {
                    lemma_open_count(f as int, nsamples as int, total - 1);
                }
                let bit: u8 = match data_bit(bytes, base_bit, f, start_bit + i * 8 + j, nsamples) {
                    Some(v) => v,
                    None => {
                        return None;
                    },
                };
                proof {
                    assert(partial(part) =~= part);
                    lemma_pack_step(part, bit, b, j as u8);
                    assert(bits.subrange(8 * i as int, 8 * i + j + 1) =~= part.push(bit));
                    part = part.push(bit);
                }
                b = pack_bit(b, j as u8, bit);
                j = j + 1;
            }
            mac[i] = b;
            i = i + 1;
        }
        assert(mac@ =~= pack(bits));
        Some(mac)
    }

    /// Open-loop decode of a whole frame: lock to the first falling edge, read each bit
    /// at a fixed stride, and stop at the length the header declares. The bytes after
    /// the delimiter are returned unchecked; see [`EthRx::verify_fcs`].
    pub fn decode_frame(bytes: &[u8], base: usize, nbytes: usize) -> (r: Option<Frame>)
        requires
            8 * base <= usize::MAX,
            8 * nbytes <= usize::MAX,
            8 * bytes@.len() <= usize::MAX,
        ensures
            base >= bytes@.len() ==> r is None,
            base < bytes@.len() ==> match r {
                Some(frame) => open_loop_frame(
                    bytes@,
                    8 * base,
                    samples_from(bytes@.len() as int, base as int, nbytes as int),
                ) == Some(frame_bytes(frame)),
                None => open_loop_frame(
                    bytes@,
                    8 * base,
                    samples_from(bytes@.len() as int, base as int, nbytes as int),
                ) is None,
            },
    {
        let base_bit: usize = base * 8;
        let buf_bits: usize = bytes.len() * 8;
        if base_bit >= buf_bits {
            return None;
        }
        let nsamples: usize = if nbytes * 8 < buf_bits - base_bit {
            nbytes * 8
        } else {
            buf_bits - base_bit
        };
        assert(nsamples == samples_from(bytes@.len() as int, base as int, nbytes as int));
        assert(base_bit / 8 < bytes@.len());
        decode_open_loop(bytes, base_bit, nsamples)
    }

    /// Frame length including the check sequence, from the type and the IP length:
    /// `max(14 + ip_total_len + 4, 64)` for IPv4 where that many bytes are there, 64
    /// for ARP, the whole of `frame` otherwise.
    pub fn derive_frame_len(frame: &[u8]) -> (n: usize)
        ensures
            n == declared_len(frame@),
    {
        if frame.len() < 18 {
            return frame.len();
        }
        let etype: u16 = rd16(frame, 12);
        if etype == 0x0800 {
            let ip_total_len: usize = rd16(frame, 16) as usize;
            let computed: usize = if 14 + ip_total_len + 4 > 64 {
                14 + ip_total_len + 4
            } else {
                64
            };
            if computed <= frame.len() {
                computed
            } else {
                frame.len()
            }
        } else if etype == 0x0806 && frame.len() >= 64 {
            64
        } else {
            frame.len()
        }
    }

    /// True if the trailing four-byte check sequence (little-endian) matches.
    pub fn verify_fcs(frame: &[u8], frame_len: usize) -> (r: bool)
        ensures
            r == fcs_valid(frame@, frame_len as int),
    {
        if frame_len < 14 + 4 || frame_len > frame.len() {
            return false;
        }
        let computed: u32 = crc32_ieee802_3(&frame[0..frame_len - 4]);
        assert(frame@.subrange(0, frame_len - 4) =~= frame@.take(frame_len - 4));
        let on_wire: u32 = frame[frame_len - 4] as u32 + 0x100 * frame[frame_len - 3] as u32
            + 0x1_0000 * frame[frame_len - 2] as u32 + 0x100_0000 * frame[frame_len - 1] as u32;
        computed == on_wire
    }

    /// Service a completed half-buffer `half`: write carry and settled bytes into
    /// `slot` as one continuous image, and carry the run that is still open.
    pub fn poll_into(&mut self, half: &[u8], slot: &mut [u8]) -> (r: PollOutcome)
        requires
            old(self).wf(),
            half@.len() == BUF_BYTES,
            old(slot)@.len() >= STITCH_BUF_BYTES,
        ensures
            final(self).wf(),
            ({
                let (image, carry, capped) = stitched(old(self).carried(), half@);
                &&& final(self).carried() == carry
                &&& final(self).carry_capped == if capped {
                    (old(self).carry_capped + 1) % 0x1_0000_0000
                } else {
                    old(self).carry_capped as int
                }
                &&& if settled(old(self).carried(), half@) is Some {
                    &&& r == (PollOutcome::Image {
                        len: image.len() as usize,
                        carry_prefix: old(self).carried().len() as usize,
                    })
                    &&& image.len() <= STITCH_BUF_BYTES
                    &&& final(slot)@ == splice(old(slot)@, 0, image)
                } else {
                    r == PollOutcome::Nothing && final(slot)@ == old(slot)@
                }
            }),
    {
        let cl: usize = self.carry_len;
        let ghost c = self.carried();
        let ghost q = quiet_at(half@);
        let ghost before = slot@;
        let mut k: usize = 0;
        if cl > 0 {
            while k < BUF_BYTES && half[k] != 0x00 && half[k] != 0xFF
                invariant
                    k <= BUF_BYTES,
                    half@.len() == BUF_BYTES,
                    q == quiet_at(half@),
                    forall|j: int| 0 <= j < k ==> !#[trigger] q(j),
                decreases BUF_BYTES - k,
            {
                assert(!q(k as int));
                k = k + 1;
            }
            if k == BUF_BYTES {
                proof {
                    lemma_least_none(0, BUF_BYTES as int, q);
                }
                if cl + BUF_BYTES <= MAX_CARRY_BYTES {
                    write_at(&mut self.carry, cl, half);
                    self.carry_len = cl + BUF_BYTES;
                    assert(self.carried() =~= c + half@);
                } else {
                    self.carry_capped = self.carry_capped.wrapping_add(1);
                    self.carry_len = 0;
                    assert(self.carried() =~= Seq::<u8>::empty());
                }
                return PollOutcome::Nothing;
            }
            proof {
                assert(q(k as int));
                lemma_least_found(0, BUF_BYTES as int, q, k as int);
            }
        }
        let mut tail_start: usize = BUF_BYTES;
        proof {
            lemma_last_run_start(half@, BUF_BYTES as int);
        }
        loop
            invariant
                k <= tail_start <= BUF_BYTES,
                half@.len() == BUF_BYTES,
                cl > 0 ==> k < BUF_BYTES && !active(half@[k as int]),
                cl == 0 ==> k == 0,
                forall|j: int| tail_start <= j < BUF_BYTES ==> active(#[trigger] half@[j]),
                last_run_start(half@, tail_start as int) == last_run_start(
                    half@,
                    BUF_BYTES as int,
                ),
            ensures
                tail_start == last_run_start(half@, BUF_BYTES as int),
                tail_start <= BUF_BYTES,
            decreases tail_start,
        {
            if tail_start <= k {
                break;
            }
            let b: u8 = half[tail_start - 1];
            if b == 0x00 || b == 0xFF {
                break;
            }
            tail_start = tail_start - 1;
        }
        write_at(slot, 0, &self.carry[0..cl]);
        write_at(slot, cl, &half[0..tail_start]);
        let new_carry_len: usize = BUF_BYTES - tail_start;
        write_at(&mut self.carry, 0, &half[tail_start..BUF_BYTES]);
        self.carry_len = new_carry_len;
        proof {
            let t = tail_start as int;
            let image = c + half@.take(t);
            assert(slot@ =~= splice(before, 0, image));
            assert(self.carried() =~= half@.skip(t));
        }
        PollOutcome::Image { len: cl + tail_start, carry_prefix: cl }
    }
}

/// No sample is lost or reordered: unless the carry was given up, an image followed by
/// the carry it leaves is the old carry followed by the half-buffer.
pub proof fn lemma_stitch_keeps_stream(c: Seq<u8>, h: Seq<u8>)
    requires
        !stitched(c, h).2,
    ensures
        stitched(c, h).0 + stitched(c, h).1 == c + h,
{
    lemma_last_run_start(h, h.len() as int);
    match settled(c, h) {
        Some(t) => {
            assert(c + h.take(t) + h.skip(t) =~= c + h);
        },
        None => {
            assert(Seq::<u8>::empty() + (c + h) =~= c + h);
        },
    }
}

/// No frame is cut: an image is empty or ends in a quiet byte, and what is carried is
/// one run of active bytes, so no run lies across two images.
pub proof fn lemma_stitch_cuts_no_run(c: Seq<u8>, h: Seq<u8>)
    requires
        forall|i: int| 0 <= i < c.len() ==> active(#[trigger] c[i]),
    ensures
        stitched(c, h).0.len() > 0 ==> !active(stitched(c, h).0.last()),
        forall|i: int| 0 <= i < stitched(c, h).1.len() ==> active(#[trigger] stitched(c, h).1[i]),
{
    lemma_last_run_start(h, h.len() as int);
    lemma_least(0, h.len() as int, quiet_at(h));
    let q = quiet_at(h);
    match settled(c, h) {
        Some(t) => {
            if t == 0 && c.len() > 0 {
                let k = least(0, h.len() as int, q)->0;
                assert(q(k));
                assert(active(h[k]));
            }
        },
        None => {
            assert forall|i: int| 0 <= i < (c + h).len() implies active(
                #[trigger] (c + h)[i],
            ) by {
                if i >= c.len() {
                    assert(!q(i - c.len()));
                }
            }
        },
    }
}

} // verus!
