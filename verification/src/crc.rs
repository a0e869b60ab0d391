//! CRC-32 (IEEE 802.3) for the Ethernet frame check sequence.
//!
//! Reflected polynomial `0xEDB88320`, initial value and final xor `0xFFFFFFFF`,
//! sent little-endian.

use vstd::prelude::*;

use crate::samples::weight;

verus! {

/// The reflected generator polynomial.
pub const POLY: u32 = 0xEDB8_8320;

/// One step of the shift register: feed in a message bit, shift it right by one.
pub open spec fn crc_bit(state: u32, bit: u32) -> u32 {
    if (state ^ bit) & 1 == 1 {
        (state >> 1) ^ POLY
    } else {
        state >> 1
    }
}

/// The register after the low `n` bits of `b`, least significant bit first.
pub open spec fn crc_low_bits(state: u32, b: u8, n: nat) -> u32
    decreases n,
{
    if n == 0 {
        state
    } else {
        crc_bit(crc_low_bits(state, b, (n - 1) as nat), (b as u32 >> ((n - 1) as u32)) & 1)
    }
}

/// The register after one byte.
pub open spec fn crc_byte(state: u32, b: u8) -> u32 {
    crc_low_bits(state, b, 8)
}

/// The register after a run of bytes.
pub open spec fn crc_bytes(state: u32, data: Seq<u8>) -> u32
    decreases data.len(),
{
    if data.len() == 0 {
        state
    } else {
        crc_byte(crc_bytes(state, data.drop_last()), data.last())
    }
}

/// The CRC-32 of `data`.
pub open spec fn crc32(data: Seq<u8>) -> u32 {
    crc_bytes(0xFFFF_FFFF, data) ^ 0xFFFF_FFFF
}

/// `n` zero bytes.
pub open spec fn zeros(n: nat) -> Seq<u8> {
    Seq::new(n, |i: int| 0u8)
}

/// The checksum may be fed in pieces: the register after `a ++ b` is the register
/// after `b` started from the register after `a`.
pub proof fn lemma_crc_concat(state: u32, a: Seq<u8>, b: Seq<u8>)
    ensures
        crc_bytes(state, a + b) == crc_bytes(crc_bytes(state, a), b),
    decreases b.len(),
{
    if b.len() == 0 {
        assert(a + b =~= a);
    } else {
        assert((a + b).drop_last() =~= a + b.drop_last());
        lemma_crc_concat(state, a, b.drop_last());
    }
}

/// The bits of `data` in the order in which they are fed in.
pub open spec fn data_bits(data: Seq<u8>) -> Seq<u8> {
    Seq::new(8 * data.len(), |i: int| (data[i / 8] >> ((i % 8) as u8)) & 1)
}

/// The register after a run of bits.
pub open spec fn crc_run(state: u32, bits: Seq<u8>) -> u32
    decreases bits.len(),
{
    if bits.len() == 0 {
        state
    } else {
        crc_bit(crc_run(state, bits.drop_last()), bits.last() as u32)
    }
}

proof fn lemma_run_concat(state: u32, a: Seq<u8>, b: Seq<u8>)
    ensures
        crc_run(state, a + b) == crc_run(crc_run(state, a), b),
    decreases b.len(),
{
    if b.len() == 0 {
        assert(a + b =~= a);
    } else {
        assert((a + b).drop_last() =~= a + b.drop_last());
        lemma_run_concat(state, a, b.drop_last());
    }
}

proof fn lemma_bit_widens(b: u8, k: u32, kb: u8)
    by (bit_vector)
    requires
        k < 8,
        kb == k,
    ensures
        (b as u32 >> k) & 1 == ((b >> kb) & 1) as u32,
        (b >> kb) & 1 == 0 || (b >> kb) & 1 == 1,
{
}

/// Feeding in a byte is feeding in its bits.
proof fn lemma_byte_is_bits(state: u32, b: u8, n: nat)
    requires
        n <= 8,
    ensures
        crc_low_bits(state, b, n) == crc_run(state, data_bits(seq![b]).take(n as int)),
    decreases n,
{
    if n > 0 {
        let bits = data_bits(seq![b]);
        lemma_byte_is_bits(state, b, (n - 1) as nat);
        assert(bits.take(n as int).drop_last() =~= bits.take(n - 1));
        lemma_bit_widens(b, (n - 1) as u32, (n - 1) as u8);
        assert(bits.take(n as int).last() == (b >> ((n - 1) as u8)) & 1);
    }
}

/// Feeding in bytes is feeding in their bits.
proof fn lemma_bytes_are_bits(state: u32, data: Seq<u8>)
    ensures
        crc_bytes(state, data) == crc_run(state, data_bits(data)),
    decreases data.len(),
{
    if data.len() > 0 {
        let front = data.drop_last();
        let last = seq![data.last()];
        lemma_bytes_are_bits(state, front);
        assert(data_bits(data) =~= data_bits(front) + data_bits(last)) by {
            let joined = data_bits(front) + data_bits(last);
            assert forall|i: int| 0 <= i < 8 * data.len() implies data_bits(data)[i]
                == #[trigger] joined[i] by {
                let j = i - 8 * front.len();
                if j >= 0 {
                    assert(i / 8 == front.len() && i % 8 == j && j / 8 == 0 && j % 8 == j);
                } else {
                    assert(i / 8 < front.len());
                }
            }
        }
        lemma_run_concat(state, data_bits(front), data_bits(last));
        lemma_byte_is_bits(crc_bytes(state, front), data.last(), 8);
        assert(data_bits(last).take(8) =~= data_bits(last));
    }
}

/// Two registers that differ below the top bit after a step differed by twice as much
/// before it, and in the lowest bit just where the bits fed in did.
proof fn lemma_step_back(x: u32, y: u32, a: u32, b: u32, d: u32)
    by (bit_vector)
    requires
        a == 0 || a == 1,
        b == 0 || b == 1,
        d == crc_bit(x, a) ^ crc_bit(y, b),
        d < 0x8000_0000,
    ensures
        (x ^ y) >> 1 == d,
        (x ^ y) & 1 == a ^ b,
        (x ^ y) == 2 * d + (a ^ b),
        a ^ b <= 1,
        a ^ b == 0 ==> a == b,
{
}

proof fn lemma_same_register(x: u32, y: u32)
    by (bit_vector)
    ensures
        x ^ y == 0 <==> x == y,
        (x ^ 0xFFFF_FFFFu32 == y ^ 0xFFFF_FFFFu32) ==> x == y,
{
}

proof fn lemma_below_top(m: nat)
    requires
        m <= 31,
    ensures
        weight(m) <= 0x8000_0000,
    decreases 31 - m,
{
    if m == 31 {
        reveal_with_fuel(weight, 32);
    } else {
        lemma_below_top(m + 1);
    }
}

/// Of 32 bits fed in or fewer, none is lost: where the registers end within `2^m` of each
/// other, they began within `2^(m + w)`, and where they began equal, the bits were equal.
proof fn lemma_window(x: u32, y: u32, a: Seq<u8>, b: Seq<u8>, m: nat)
    requires
        a.len() == b.len(),
        a.len() + m <= 32,
        forall|i: int| 0 <= i < a.len() ==> #[trigger] a[i] == 0 || a[i] == 1,
        forall|i: int| 0 <= i < b.len() ==> #[trigger] b[i] == 0 || b[i] == 1,
        (crc_run(x, a) ^ crc_run(y, b)) < weight(m),
        x == y,
    ensures
        a == b,
    decreases a.len(),
{
    if a.len() > 0 {
        let p = a.drop_last();
        let q = b.drop_last();
        let s = crc_run(x, p);
        let t = crc_run(y, q);
        let d = crc_run(x, a) ^ crc_run(y, b);
        assert(a.last() == a[a.len() - 1] && b.last() == b[b.len() - 1]);
        lemma_below_top(m);
        lemma_step_back(s, t, a.last() as u32, b.last() as u32, d);
        assert(weight(m + 1) == 2 * weight(m));
        assert forall|i: int| 0 <= i < p.len() implies #[trigger] p[i] == 0 || p[i] == 1 by {
            assert(p[i] == a[i]);
        }
        assert forall|i: int| 0 <= i < q.len() implies #[trigger] q[i] == 0 || q[i] == 1 by {
            assert(q[i] == b[i]);
        }
        lemma_window(x, y, p, q, m + 1);
        lemma_same_register(s, t);
        assert(a =~= p.push(a.last()) && b =~= q.push(b.last()));
    } else {
        assert(a =~= b);
    }
}

/// Feeding in the same bits keeps registers apart.
proof fn lemma_run_keeps_apart(x: u32, y: u32, bits: Seq<u8>)
    requires
        forall|i: int| 0 <= i < bits.len() ==> #[trigger] bits[i] == 0 || bits[i] == 1,
        crc_run(x, bits) == crc_run(y, bits),
    ensures
        x == y,
    decreases bits.len(),
{
    if bits.len() > 0 {
        let p = bits.drop_last();
        let s = crc_run(x, p);
        let t = crc_run(y, p);
        let c = bits.last() as u32;
        assert(bits.last() == bits[bits.len() - 1]);
        lemma_same_register(crc_run(x, bits), crc_run(y, bits));
        lemma_step_back(s, t, c, c, crc_bit(s, c) ^ crc_bit(t, c));
        lemma_same_register(c, c);
        lemma_same_register(s, t);
        assert forall|i: int| 0 <= i < p.len() implies #[trigger] p[i] == 0 || p[i] == 1 by {
            assert(p[i] == bits[i]);
        }
        lemma_run_keeps_apart(x, y, p);
    }
}

proof fn lemma_same_byte(x: u8, y: u8)
    by (bit_vector)
    requires
        (x >> 0u8) & 1 == (y >> 0u8) & 1,
        (x >> 1u8) & 1 == (y >> 1u8) & 1,
        (x >> 2u8) & 1 == (y >> 2u8) & 1,
        (x >> 3u8) & 1 == (y >> 3u8) & 1,
        (x >> 4u8) & 1 == (y >> 4u8) & 1,
        (x >> 5u8) & 1 == (y >> 5u8) & 1,
        (x >> 6u8) & 1 == (y >> 6u8) & 1,
        (x >> 7u8) & 1 == (y >> 7u8) & 1,
    ensures
        x == y,
{
}

/// Data of the same bits is the same.
proof fn lemma_same_bits(a: Seq<u8>, b: Seq<u8>)
    requires
        data_bits(a) == data_bits(b),
    ensures
        a == b,
{
    assert(a.len() == b.len()) by {
        assert(data_bits(a).len() == 8 * a.len() && data_bits(b).len() == 8 * b.len());
    }
    assert forall|j: int| 0 <= j < a.len() implies a[j] == b[j] by {
        let p = data_bits(a);
        let q = data_bits(b);
        assert forall|k: int| 0 <= k < 8 implies (a[j] >> (k as u8)) & 1 == (#[trigger] (b[j] >> (
        k as u8))) & 1 by {
            assert(p[8 * j + k] == q[8 * j + k]);
            assert((8 * j + k) / 8 == j && (8 * j + k) % 8 == k);
        }
        assert((a[j] >> 0u8) & 1 == (b[j] >> 0u8) & 1 && (a[j] >> 1u8) & 1 == (b[j] >> 1u8) & 1
            && (a[j] >> 2u8) & 1 == (b[j] >> 2u8) & 1 && (a[j] >> 3u8) & 1 == (b[j] >> 3u8) & 1
            && (a[j] >> 4u8) & 1 == (b[j] >> 4u8) & 1 && (a[j] >> 5u8) & 1 == (b[j] >> 5u8) & 1
            && (a[j] >> 6u8) & 1 == (b[j] >> 6u8) & 1 && (a[j] >> 7u8) & 1 == (b[j] >> 7u8) & 1)
            by {
            assert((b[j] >> ((0int) as u8)) == b[j] >> 0u8);
            assert((b[j] >> ((1int) as u8)) == b[j] >> 1u8);
            assert((b[j] >> ((2int) as u8)) == b[j] >> 2u8);
            assert((b[j] >> ((3int) as u8)) == b[j] >> 3u8);
            assert((b[j] >> ((4int) as u8)) == b[j] >> 4u8);
            assert((b[j] >> ((5int) as u8)) == b[j] >> 5u8);
            assert((b[j] >> ((6int) as u8)) == b[j] >> 6u8);
            assert((b[j] >> ((7int) as u8)) == b[j] >> 7u8);
        }
        lemma_same_byte(a[j], b[j]);
    }
    assert(a =~= b);
}

proof fn lemma_run_in_three(state: u32, bits: Seq<u8>, lo: int, hi: int)
    requires
        0 <= lo <= hi <= bits.len(),
    ensures
        crc_run(state, bits) == crc_run(
            crc_run(crc_run(state, bits.take(lo)), bits.subrange(lo, hi)),
            bits.skip(hi),
        ),
{
    assert(bits =~= bits.take(lo) + bits.subrange(lo, hi) + bits.skip(hi));
    lemma_run_concat(state, bits.take(lo) + bits.subrange(lo, hi), bits.skip(hi));
    lemma_run_concat(state, bits.take(lo), bits.subrange(lo, hi));
}

/// Every burst is caught: where data of the same length differs, and only within 32
/// consecutive bits, the checksums differ.
pub proof fn lemma_crc_catches_bursts(a: Seq<u8>, b: Seq<u8>, at: int)
    requires
        a.len() == b.len(),
        a != b,
        forall|i: int|
            0 <= i < 8 * a.len() && !(at <= i < at + 32) ==> #[trigger] data_bits(a)[i]
                == data_bits(b)[i],
    ensures
        crc32(a) != crc32(b),
{
    if crc32(a) == crc32(b) {
        let p = data_bits(a);
        let q = data_bits(b);
        let n = 8 * a.len() as int;
        let lo = if at < 0 {
            0
        } else if at > n {
            n
        } else {
            at
        };
        let hi = if at + 32 < lo {
            lo
        } else if at + 32 > n {
            n
        } else {
            at + 32
        };
        lemma_bytes_are_bits(0xFFFF_FFFF, a);
        lemma_bytes_are_bits(0xFFFF_FFFF, b);
        lemma_same_register(crc_bytes(0xFFFF_FFFF, a), crc_bytes(0xFFFF_FFFF, b));
        let s = crc_run(0xFFFF_FFFF, p.take(lo));
        assert(p.take(lo) =~= q.take(lo));
        let pw = p.subrange(lo, hi);
        let qw = q.subrange(lo, hi);
        let end = p.skip(hi);
        assert(end =~= q.skip(hi));
        lemma_run_in_three(0xFFFF_FFFF, p, lo, hi);
        lemma_run_in_three(0xFFFF_FFFF, q, lo, hi);
        lemma_are_bits(a);
        lemma_are_bits(b);
        assert forall|i: int| 0 <= i < end.len() implies #[trigger] end[i] == 0 || end[i] == 1 by {
            assert(end[i] == p[hi + i]);
        }
        lemma_run_keeps_apart(crc_run(s, pw), crc_run(s, qw), end);
        lemma_same_register(crc_run(s, pw), crc_run(s, qw));
        assert forall|i: int| 0 <= i < pw.len() implies #[trigger] pw[i] == 0 || pw[i] == 1 by {
            assert(pw[i] == p[lo + i]);
        }
        assert forall|i: int| 0 <= i < qw.len() implies #[trigger] qw[i] == 0 || qw[i] == 1 by {
            assert(qw[i] == q[lo + i]);
        }
        assert(weight(0) == 1);
        lemma_window(s, s, pw, qw, 0);
        assert(p =~= p.take(lo) + pw + end);
        assert(q =~= q.take(lo) + qw + end);
        lemma_same_bits(a, b);
    }
}

proof fn lemma_are_bits(data: Seq<u8>)
    ensures
        forall|i: int|
            0 <= i < 8 * data.len() ==> #[trigger] data_bits(data)[i] == 0 || data_bits(data)[i]
                == 1,
{
    assert forall|i: int| 0 <= i < 8 * data.len() implies #[trigger] data_bits(data)[i] == 0
        || data_bits(data)[i] == 1 by {
        lemma_bit_widens(data[i / 8], (i % 8) as u32, (i % 8) as u8);
    }
}

/// One step of the byte-parallel form: with the unread bits xored into the register,
/// shifting it is the same as feeding in the next bit.
proof fn lemma_parallel_step(s: u32, b: u32, j: u32)
    by (bit_vector)
    requires
        j < 8,
    ensures
        ({
            let c = s ^ (b >> j);
            let rest = b >> ((j + 1) as u32);
            let fed = (s ^ ((b >> j) & 1)) & 1;
            &&& (c & 1 == 1) == (fed == 1)
            &&& c >> 1 == (s >> 1) ^ rest
            &&& ((c >> 1) ^ 0xEDB8_8320u32) == ((s >> 1) ^ 0xEDB8_8320u32) ^ rest
        }),
{
}

proof fn lemma_parallel_ends(s: u32, b: u8)
    by (bit_vector)
    ensures
        s ^ (b as u32) == s ^ ((b as u32) >> 0u32),
        s ^ ((b as u32) >> 8u32) == s,
        s ^ 0 == s,
{
}

/// Feed one byte into the register.
fn step_byte(crc: u32, b: u8) -> (r: u32)
    ensures
        r == crc_byte(crc, b),
{
    let mut c: u32 = crc ^ (b as u32);
    let mut j: u32 = 0;
    proof {
        lemma_parallel_ends(crc, b);
    }
    while j < 8
        invariant
            j <= 8,
            c == crc_low_bits(crc, b, j as nat) ^ ((b as u32) >> j),
        decreases 8 - j,
    {
        proof {
            lemma_parallel_step(crc_low_bits(crc, b, j as nat), b as u32, j);
        }
        c = if c & 1 == 1 {
            (c >> 1) ^ POLY
        } else {
            c >> 1
        };
        j = j + 1;
    }
    proof {
        lemma_parallel_ends(crc_low_bits(crc, b, 8), b);
    }
    c
}

/// Feed a run of bytes into the register.
fn update(crc: u32, data: &[u8]) -> (r: u32)
    ensures
        r == crc_bytes(crc, data@),
{
    let mut c: u32 = crc;
    let mut i: usize = 0;
    while i < data.len()
        invariant
            i <= data@.len(),
            c == crc_bytes(crc, data@.take(i as int)),
        decreases data@.len() - i,
    {
        c = step_byte(c, data[i]);
        i = i + 1;
        assert(data@.take(i as int).drop_last() =~= data@.take(i - 1));
    }
    assert(data@.take(i as int) =~= data@);
    c
}

/// The final xor.
fn finalize(crc: u32) -> (r: u32)
    ensures
        r == crc ^ 0xFFFF_FFFF,
{
    crc ^ 0xFFFF_FFFF
}

/// CRC-32 of `data`.
pub fn crc32_ieee802_3(data: &[u8]) -> (r: u32)
    ensures
        r == crc32(data@),
{
    finalize(update(0xFFFF_FFFF, data))
}

/// CRC-32 of `data` followed by `pad_len` zero bytes.
pub fn crc32_ieee802_3_padded(data: &[u8], pad_len: usize) -> (r: u32)
    ensures
        r == crc32(data@ + zeros(pad_len as nat)),
{
    let mut crc: u32 = update(0xFFFF_FFFF, data);
    let mut i: usize = 0;
    assert(data@ + zeros(0) =~= data@);
    while i < pad_len
        invariant
            i <= pad_len,
            crc == crc_bytes(0xFFFF_FFFF, data@ + zeros(i as nat)),
        decreases pad_len - i,
    {
        crc = step_byte(crc, 0);
        i = i + 1;
        assert((data@ + zeros(i as nat)).drop_last() =~= data@ + zeros((i - 1) as nat));
    }
    finalize(crc)
}

/// The four bytes of a checksum as they are sent, least significant first.
pub open spec fn sent_crc(c: u32) -> Seq<u8> {
    seq![
        (c % 0x100) as u8,
        (c / 0x100 % 0x100) as u8,
        (c / 0x1_0000 % 0x100) as u8,
        (c / 0x100_0000) as u8,
    ]
}

proof fn lemma_byte_of_register(s0: u32, b: u8)
    by (bit_vector)
    ensures
        ({
            let b0 = b as u32;
            let s1 = crc_bit(s0, (b0 >> 0) & 1);
            let s2 = crc_bit(s1, (b0 >> 1) & 1);
            let s3 = crc_bit(s2, (b0 >> 2) & 1);
            let s4 = crc_bit(s3, (b0 >> 3) & 1);
            let s5 = crc_bit(s4, (b0 >> 4) & 1);
            let s6 = crc_bit(s5, (b0 >> 5) & 1);
            let s7 = crc_bit(s6, (b0 >> 6) & 1);
            let s8 = crc_bit(s7, (b0 >> 7) & 1);
            let t0 = (s0 ^ b0) & 0xFF;
            let t1 = crc_bit(t0, 0);
            let t2 = crc_bit(t1, 0);
            let t3 = crc_bit(t2, 0);
            let t4 = crc_bit(t3, 0);
            let t5 = crc_bit(t4, 0);
            let t6 = crc_bit(t5, 0);
            let t7 = crc_bit(t6, 0);
            let t8 = crc_bit(t7, 0);
            &&& s8 == (s0 >> 8) ^ t8
            &&& t0 == 0xFF ==> t8 == 0x2D02_EF8D
            &&& t0 == 0x72 ==> t8 == 0xBE0B_1010
            &&& t0 == 0x00 ==> t8 == 0x0000_0000
            &&& t0 == 0xED ==> t8 == 0xDEBB_9EC5
        }),
{
}

/// The register after a byte, where the byte makes the low end of the register one of the
/// values that a check sequence brings about.
proof fn lemma_byte_fed(s: u32, b: u8)
    ensures
        (s ^ (b as u32)) & 0xFF == 0xFF ==> crc_byte(s, b) == (s >> 8) ^ 0x2D02_EF8D,
        (s ^ (b as u32)) & 0xFF == 0x72 ==> crc_byte(s, b) == (s >> 8) ^ 0xBE0B_1010,
        (s ^ (b as u32)) & 0xFF == 0x00 ==> crc_byte(s, b) == (s >> 8) ^ 0x0000_0000,
        (s ^ (b as u32)) & 0xFF == 0xED ==> crc_byte(s, b) == (s >> 8) ^ 0xDEBB_9EC5,
{
    reveal_with_fuel(crc_low_bits, 9);
    lemma_byte_of_register(s, b);
}

proof fn lemma_register_cancels(r: u32, c: u32, s1: u32, s2: u32, s3: u32)
    by (bit_vector)
    requires
        c == r ^ 0xFFFF_FFFFu32,
    ensures
        (r ^ (((c & 0xFFu32) as u8) as u32)) & 0xFF == 0xFF,
        s1 == (r >> 8) ^ 0x2D02_EF8D ==> (s1 ^ ((((c >> 8u32) & 0xFFu32) as u8) as u32)) & 0xFF == 0x72,
        s1 == (r >> 8) ^ 0x2D02_EF8D && s2 == (s1 >> 8) ^ 0xBE0B_1010 ==> (s2 ^ ((((c >> 16u32)
            & 0xFFu32) as u8) as u32)) & 0xFF == 0x00,
        s1 == (r >> 8) ^ 0x2D02_EF8D && s2 == (s1 >> 8) ^ 0xBE0B_1010 && s3 == (s2 >> 8)
            ^ 0x0000_0000 ==> (s3 ^ (((c >> 24u32) as u8) as u32)) & 0xFF == 0xED && (s3
            >> 8) ^ 0xDEBB_9EC5 == 0xDEBB_20E3,
        0xDEBB_20E3u32 ^ 0xFFFF_FFFFu32 == 0x2144_DF1Cu32,
        c ^ 0xFFFF_FFFFu32 == r,
{
}

proof fn lemma_crc_digits(c: u32)
    by (bit_vector)
    ensures
        c % 0x100 == c & 0xFF,
        c / 0x100 % 0x100 == (c >> 8) & 0xFF,
        c / 0x1_0000 % 0x100 == (c >> 16) & 0xFF,
        c / 0x100_0000 == c >> 24,
{
}

/// What a check sequence is for: data and its check sequence together have the checksum
/// 0x2144DF1C, whatever the data.
pub proof fn lemma_crc_residue(data: Seq<u8>)
    ensures
        crc32(data + sent_crc(crc32(data))) == 0x2144_DF1C,
{
    let r = crc_bytes(0xFFFF_FFFF, data);
    let c = crc32(data);
    let q = sent_crc(c);
    let s1 = crc_byte(r, q[0]);
    let s2 = crc_byte(s1, q[1]);
    let s3 = crc_byte(s2, q[2]);
    lemma_crc_digits(c);
    lemma_register_cancels(r, c, s1, s2, s3);
    lemma_byte_fed(r, q[0]);
    lemma_byte_fed(s1, q[1]);
    lemma_byte_fed(s2, q[2]);
    lemma_byte_fed(s3, q[3]);
    lemma_crc_concat(0xFFFF_FFFF, data, q);
    lemma_four_fed(r, q);
}

proof fn lemma_four_fed(r: u32, q: Seq<u8>)
    requires
        q.len() == 4,
    ensures
        crc_bytes(r, q) == crc_byte(crc_byte(crc_byte(crc_byte(r, q[0]), q[1]), q[2]), q[3]),
{
    let a = q.drop_last();
    let b = a.drop_last();
    let c = b.drop_last();
    assert(c.drop_last().len() == 0);
    assert(a.last() == q[2] && b.last() == q[1] && c.last() == q[0]);
    reveal_with_fuel(crc_bytes, 5);
}

/// Nothing else has that checksum: where data and four bytes together have it, the four
/// bytes are the check sequence of the data.
pub proof fn lemma_only_the_crc_checks(data: Seq<u8>, q: Seq<u8>)
    requires
        q.len() == 4,
        crc32(data + q) == 0x2144_DF1C,
    ensures
        q == sent_crc(crc32(data)),
{
    let p = sent_crc(crc32(data));
    lemma_crc_residue(data);
    if p != q {
        let a = data + p;
        let b = data + q;
        let at = 8 * data.len() as int;
        assert forall|i: int|
            0 <= i < 8 * a.len() && !(at <= i < at + 32) implies #[trigger] data_bits(a)[i]
            == data_bits(b)[i] by {
            assert(a[i / 8] == data[i / 8] && b[i / 8] == data[i / 8]);
        }
        assert(a != b) by {
            assert(a.skip(data.len() as int) =~= p && b.skip(data.len() as int) =~= q);
        }
        lemma_crc_catches_bursts(a, b, at);
    }
}

/// The checksum is affine: of three messages of one length, the checksum of their sum
/// without carries is the sum of their checksums.
pub proof fn lemma_crc_is_affine(a: Seq<u8>, b: Seq<u8>, c: Seq<u8>)
    requires
        a.len() == b.len(),
        a.len() == c.len(),
    ensures
        crc32(Seq::new(a.len(), |i: int| a[i] ^ b[i] ^ c[i])) == crc32(a) ^ crc32(b) ^ crc32(c),
{
    let d = Seq::new(a.len(), |i: int| a[i] ^ b[i] ^ c[i]);
    lemma_registers_add(a, b, c, d);
    lemma_three_sums(
        crc_bytes(0xFFFF_FFFF, a),
        crc_bytes(0xFFFF_FFFF, b),
        crc_bytes(0xFFFF_FFFF, c),
    );
}

proof fn lemma_three_sums(x: u32, y: u32, z: u32)
    by (bit_vector)
    ensures
        (x ^ y ^ z) ^ 0xFFFF_FFFFu32 == (x ^ 0xFFFF_FFFFu32) ^ (y ^ 0xFFFF_FFFFu32) ^ (z
            ^ 0xFFFF_FFFFu32),
        0xFFFF_FFFFu32 ^ 0xFFFF_FFFFu32 ^ 0xFFFF_FFFFu32 == 0xFFFF_FFFFu32,
{
}

proof fn lemma_bits_add(x: u32, y: u32, z: u32, a: u8, b: u8, c: u8, k: u32)
    by (bit_vector)
    requires
        k < 8,
    ensures
        crc_bit(x ^ y ^ z, (((a ^ b ^ c) as u32) >> k) & 1) == crc_bit(x, ((a as u32) >> k) & 1)
            ^ crc_bit(y, ((b as u32) >> k) & 1) ^ crc_bit(z, ((c as u32) >> k) & 1),
{
}

proof fn lemma_low_bits_add(x: u32, y: u32, z: u32, a: u8, b: u8, c: u8, n: nat)
    requires
        n <= 8,
    ensures
        crc_low_bits(x ^ y ^ z, a ^ b ^ c, n) == crc_low_bits(x, a, n) ^ crc_low_bits(y, b, n)
            ^ crc_low_bits(z, c, n),
    decreases n,
{
    if n > 0 {
        let m = (n - 1) as nat;
        lemma_low_bits_add(x, y, z, a, b, c, m);
        lemma_bits_add(
            crc_low_bits(x, a, m),
            crc_low_bits(y, b, m),
            crc_low_bits(z, c, m),
            a,
            b,
            c,
            m as u32,
        );
    }
}

proof fn lemma_registers_add(a: Seq<u8>, b: Seq<u8>, c: Seq<u8>, d: Seq<u8>)
    requires
        a.len() == b.len(),
        a.len() == c.len(),
        a.len() == d.len(),
        forall|i: int| 0 <= i < d.len() ==> #[trigger] d[i] == a[i] ^ b[i] ^ c[i],
    ensures
        crc_bytes(0xFFFF_FFFF, d) == crc_bytes(0xFFFF_FFFF, a) ^ crc_bytes(0xFFFF_FFFF, b)
            ^ crc_bytes(0xFFFF_FFFF, c),
    decreases d.len(),
{
    if d.len() == 0 {
        lemma_three_sums(0, 0, 0);
    } else {
        let (p, q, r, s) = (a.drop_last(), b.drop_last(), c.drop_last(), d.drop_last());
        assert forall|i: int| 0 <= i < s.len() implies #[trigger] s[i] == p[i] ^ q[i] ^ r[i] by {
            assert(s[i] == d[i]);
        }
        lemma_registers_add(p, q, r, s);
        lemma_low_bits_add(
            crc_bytes(0xFFFF_FFFF, p),
            crc_bytes(0xFFFF_FFFF, q),
            crc_bytes(0xFFFF_FFFF, r),
            a.last(),
            b.last(),
            c.last(),
            8,
        );
        assert(d[d.len() - 1] == a[a.len() - 1] ^ b[b.len() - 1] ^ c[c.len() - 1]);
    }
}

} // verus!
