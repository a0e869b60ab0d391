//! The wireless chip's serial bus: command words, bit counts, and the probe of its test
//! register.

use vstd::prelude::*;

use crate::samples::weight;

verus! {

/// What the test register reads.
pub const TEST_PATTERN: u32 = 0xFEED_BEAD;

/// Shown where the probe ran and read nothing but zeros.
pub const PROBE_ZERO: u32 = 0xDEAD_0000;

/// Shown where the bus stalled.
pub const PROBE_STALL: u32 = 0xDEAD_0001;

/// Address of the test register.
pub const TEST_REGISTER: u32 = 0x14;

/// Most reads of the test register.
pub const PROBE_READS: u32 = 64;

/// Most polls of a FIFO.
pub const FIFO_SPINS: u32 = 8_000_000;

/// Pins.
pub const PIN_PWR: u32 = 23;

pub const PIN_DATA: u32 = 24;

pub const PIN_CS: u32 = 25;

pub const PIN_CLK: u32 = 29;

/// A command word: write flag, increment flag, two bits of function, 17 of address, 11
/// of length.
pub open spec fn command(write: bool, incr: bool, func: u32, addr: u32, len: u32) -> u32 {
    ((if write {
        0x8000_0000int
    } else {
        0
    }) + (if incr {
        0x4000_0000int
    } else {
        0
    }) + (func % 4) * 0x1000_0000 + (addr % 0x2_0000) * 0x800 + len % 0x800) as u32
}

/// A command word.
pub fn cmd_word(write: bool, incr: bool, func: u32, addr: u32, len: u32) -> (r: u32)
    ensures
        r == command(write, incr, func, addr, len),
{
    let w: u32 = if write {
        0x8000_0000
    } else {
        0
    };
    let i: u32 = if incr {
        0x4000_0000
    } else {
        0
    };
    w + i + (func % 4) * 0x1000_0000 + (addr % 0x2_0000) * 0x800 + len % 0x800
}

/// The fields of a command word can be read back.
pub proof fn lemma_command_fields(write: bool, incr: bool, func: u32, addr: u32, len: u32)
    ensures
        ({
            let c = command(write, incr, func, addr, len);
            &&& c / 0x8000_0000 == if write {
                1int
            } else {
                0
            }
            &&& c / 0x4000_0000 % 2 == if incr {
                1int
            } else {
                0
            }
            &&& c / 0x1000_0000 % 4 == func % 4
            &&& c / 0x800 % 0x2_0000 == addr % 0x2_0000
            &&& c % 0x800 == len % 0x800
        }),
{
    let c: int = command(write, incr, func, addr, len) as int;
    let w: int = if write {
        1
    } else {
        0
    };
    let i: int = if incr {
        1
    } else {
        0
    };
    let f: int = (func % 4) as int;
    let a: int = (addr % 0x2_0000) as int;
    let n: int = (len % 0x800) as int;
    let top: int = 8 * w + 4 * i + f;
    assert(c == (top * 0x2_0000 + a) * 0x800 + n);
    assert(c / 0x800 == top * 0x2_0000 + a);
    assert(c % 0x800 == n);
    assert((top * 0x2_0000 + a) % 0x2_0000 == a);
    assert(c / 0x1000_0000 == top) by {
        assert(c == top * 0x1000_0000 + (a * 0x800 + n));
    }
    assert(c / 0x4000_0000 == 2 * w + i) by {
        assert(c == (2 * w + i) * 0x4000_0000 + (f * 0x1000_0000 + a * 0x800 + n));
    }
    assert(c / 0x8000_0000 == w) by {
        assert(c == w * 0x8000_0000 + (i * 0x4000_0000 + f * 0x1000_0000 + a * 0x800 + n));
    }
}

/// A word with its halves exchanged.
pub open spec fn swapped(x: u32) -> u32 {
    (x % 0x1_0000 * 0x1_0000 + x / 0x1_0000) as u32
}

/// Exchange the halves of a word: the bus starts out in that order.
pub fn swap16(x: u32) -> (r: u32)
    ensures
        r == swapped(x),
{
    x % 0x1_0000 * 0x1_0000 + x / 0x1_0000
}

/// Exchanging twice changes nothing.
pub proof fn lemma_swap_twice(x: u32)
    ensures
        swapped(swapped(x)) == x,
{
}

/// A product or sum held at the top of the range.
pub open spec fn sat32(n: int) -> u32 {
    if n > u32::MAX {
        u32::MAX
    } else {
        n as u32
    }
}

/// Thirty-two times `n`, held at the top of the range.
fn times32(n: u32) -> (r: u32)
    ensures
        r == sat32(32 * n),
{
    if n >= 0x0800_0000 {
        u32::MAX
    } else {
        32 * n
    }
}

/// The count of bits to write, less one, for `words` words.
pub fn write_bits(words: u32) -> (r: u32)
    ensures
        r == bits_out(words),
{
    times32(words).saturating_sub(1)
}

/// The count of bits to read, less one, for `words` words and the status word.
pub fn read_bits(words: u32) -> (r: u32)
    ensures
        r == bits_in(words),
{
    times32(words.saturating_add(1)).saturating_sub(1)
}

/// Counts that fit are exact.
pub proof fn lemma_bit_counts(words: u32)
    requires
        words < 0x0400_0000,
    ensures
        sat32(32 * words) == 32 * words,
        sat32(32 * sat32(words + 1)) == 32 * (words + 1),
{
}

/// Bit `i` of a command, for sending it most significant bit first.
pub fn cmd_bit(cmd: u32, i: u32) -> (r: bool)
    requires
        i < 32,
    ensures
        r == ((cmd >> i) & 1 != 0),
{
    (cmd >> i) & 1 != 0
}

/// The word that bits read most significant first make up.
pub open spec fn msb_value(bits: Seq<u32>) -> nat
    decreases bits.len(),
{
    if bits.len() == 0 {
        0
    } else {
        2 * msb_value(bits.drop_last()) + bits.last() as nat
    }
}

/// One more bit, read most significant first. What is shifted out at the top is lost.
pub fn shift_in(r: u32, bit: u32) -> (s: u32)
    requires
        bit <= 1,
    ensures
        s == (2 * r + bit) % 0x1_0000_0000,
{
    (r % 0x8000_0000) * 2 + bit
}

/// Up to 32 bits shifted in one after another make up their word: none is lost.
pub proof fn lemma_shift_in_word(bits: Seq<u32>)
    requires
        0 < bits.len() <= 32,
        forall|i: int| 0 <= i < bits.len() ==> #[trigger] bits[i] <= 1,
    ensures
        msb_value(bits) <= u32::MAX,
        (2 * msb_value(bits.drop_last()) + bits.last()) % 0x1_0000_0000 == msb_value(bits),
{
    lemma_msb_bound(bits);
    crate::wire::lemma_weight(bits.len());
}

proof fn lemma_msb_bound(bits: Seq<u32>)
    requires
        forall|i: int| 0 <= i < bits.len() ==> #[trigger] bits[i] <= 1,
    ensures
        msb_value(bits) < weight(bits.len()),
    decreases bits.len(),
{
    if bits.len() > 0 {
        assert forall|i: int| 0 <= i < bits.drop_last().len() implies #[trigger] bits.drop_last()[i]
            <= 1 by {
            assert(bits.drop_last()[i] == bits[i]);
        }
        lemma_msb_bound(bits.drop_last());
    }
}

/// What the probe of the test register has seen.
#[derive(Clone, Copy, Debug, PartialEq, Eq, Structural)]
pub struct Probe {
    /// Reads so far.
    pub reads: u32,
    pub first: u32,
    pub last: u32,
    /// Every read gave the same.
    pub stable: bool,
}

/// The probe after a read.
pub open spec fn probed(p: Probe, v: u32) -> Probe {
    Probe {
        reads: (p.reads + 1) as u32,
        first: if p.reads == 0 {
            v
        } else {
            p.first
        },
        last: v,
        stable: p.stable && (p.reads == 0 || v == p.last),
    }
}

impl Probe {
    /// Nothing read yet.
    pub fn new() -> (r: Probe)
        ensures
            r == (Probe { reads: 0, first: 0, last: 0, stable: true }),
    {
        Probe { reads: 0, first: 0, last: 0, stable: true }
    }

    /// A read of the test register. True if the probe goes on: the pattern has not been
    /// seen, and reads are left.
    pub fn read(&mut self, v: u32) -> (more: bool)
        requires
            old(self).reads < PROBE_READS,
        ensures
            *final(self) == probed(*old(self), v),
            more == goes_on(*final(self)),
    {
        if self.reads == 0 {
            self.first = v;
        } else if v != self.last {
            self.stable = false;
        }
        self.last = v;
        self.reads = self.reads + 1;
        v != TEST_PATTERN && self.reads < PROBE_READS
    }

    /// What the probe shows: the last value read, or a marker for nothing but zeros.
    pub fn result(&self) -> (r: u32)
        ensures
            r == shown(*self),
    {
        if self.last == 0 {
            PROBE_ZERO
        } else {
            self.last
        }
    }
}

/// A bus is called stable exactly when all reads gave the same.
pub proof fn lemma_stable_means_equal(p: Probe, v: u32)
    requires
        p.reads > 0,
        p.stable ==> p.first == p.last,
    ensures
        probed(p, v).stable ==> probed(p, v).first == probed(p, v).last,
        probed(p, v).stable <==> p.stable && v == p.last,
{
}

/// The answer to a read command over the bus: data word, then status word.
#[derive(Clone, Copy, Debug, PartialEq, Eq, Structural)]
pub struct Answer {
    pub got: u32,
    pub data: u32,
    pub spins: u32,
}

impl Answer {
    /// Nothing has come.
    pub fn new() -> (r: Answer)
        ensures
            r == (Answer { got: 0, data: PROBE_STALL, spins: 0 }),
    {
        Answer { got: 0, data: PROBE_STALL, spins: 0 }
    }

    /// A look at the FIFO. True if it is to be looked at again: fewer than two words
    /// have come, and the bus has not stalled.
    pub fn poll(&mut self, word: Option<u32>) -> (more: bool)
        requires
            old(self).got < 2,
            old(self).spins <= 2_000_000,
        ensures
            match word {
                Some(w) => *final(self) == looked(*old(self), word) && more == (final(self).got
                    < 2),
                None => *final(self) == looked(*old(self), word) && more == (final(self).spins
                    <= 2_000_000),
            },
    {
        match word {
            Some(w) => {
                if self.got == 0 {
                    self.data = w;
                }
                self.got = self.got + 1;
                self.got < 2
            },
            None => {
                self.spins = self.spins + 1;
                self.spins <= 2_000_000
            },
        }
    }
}

/// Record the level of `pin` in a word of pin levels in which it is still clear.
pub fn record_pin(levels: u32, pin: u32, level: u32) -> (r: u32)
    requires
        pin < 32,
        level <= 1,
    ensures
        r == levels | (level << pin),
{
    levels | (level << pin)
}

/// Exchanging the halves puts the lower one above and the upper one below.
pub proof fn lemma_swap_exchanges(x: u32)
    ensures
        swapped(x) / 0x1_0000 == x % 0x1_0000,
        swapped(x) % 0x1_0000 == x / 0x1_0000,
{
}

/// What is held at the top of the range: a number that fits is itself, and none is larger
/// than the range.
pub proof fn lemma_saturates(n: int)
    requires
        n >= 0,
    ensures
        n <= 0xFFFF_FFFF ==> sat32(n) == n,
        n > 0xFFFF_FFFF ==> sat32(n) == 0xFFFF_FFFF,
{
}

/// The probe keeps the first value and the last, counts its reads, and calls the bus stable
/// as long as no value differs from the one before.
pub proof fn lemma_probe(p: Probe, v: u32)
    requires
        p.reads < 64,
    ensures
        probed(p, v).reads == p.reads + 1,
        probed(p, v).last == v,
        p.reads == 0 ==> probed(p, v).first == v && probed(p, v).stable == p.stable,
        p.reads > 0 ==> probed(p, v).first == p.first && probed(p, v).stable == (p.stable && v
            == p.last),
{
}

/// Bits are read most significant first: the first of 32 is worth 2^31, the last 1.
pub proof fn lemma_most_significant_first(first: u32, rest: Seq<u32>)
    ensures
        msb_value(seq![first]) == first,
        msb_value(seq![first] + rest) == first * weight(rest.len()) + msb_value(rest),
    decreases rest.len(),
{
    let one = seq![first];
    assert(one.drop_last() =~= Seq::empty());
    reveal_with_fuel(msb_value, 2);
    if rest.len() == 0 {
        assert(one + rest =~= one);
        assert(weight(0) == 1);
    } else {
        let all = one + rest;
        assert(all.drop_last() =~= one + rest.drop_last());
        assert(all.last() == rest.last());
        assert(msb_value(all) == 2 * msb_value(all.drop_last()) + all.last());
        lemma_most_significant_first(first, rest.drop_last());
        let w = weight((rest.len() - 1) as nat);
        assert(weight(rest.len()) == 2 * w);
        assert(first * (2 * w) == 2 * (first * w)) by (nonlinear_arith);
    }
}

/// The probe goes on after a read that brought it to `p`.
pub open spec fn goes_on(p: Probe) -> bool {
    p.last != TEST_PATTERN && p.reads < PROBE_READS
}

/// What the probe shows.
pub open spec fn shown(p: Probe) -> u32 {
    if p.last == 0 {
        PROBE_ZERO
    } else {
        p.last
    }
}

/// The probe ends with the pattern 0xFEEDBEAD, or after 64 reads, and shows what it read
/// last, or 0xDEAD0000 for a zero.
pub proof fn lemma_probe_ends(p: Probe)
    ensures
        goes_on(p) <==> p.last != 0xFEED_BEAD && p.reads < 64,
        p.last != 0 ==> shown(p) == p.last,
        p.last == 0 ==> shown(p) == 0xDEAD_0000,
{
}

/// The answer after a look at the FIFO.
pub open spec fn looked(a: Answer, word: Option<u32>) -> Answer {
    match word {
        Some(w) => Answer {
            got: (a.got + 1) as u32,
            data: if a.got == 0 {
                w
            } else {
                a.data
            },
            spins: a.spins,
        },
        None => Answer { spins: (a.spins + 1) as u32, ..a },
    }
}

/// Of the two words of an answer the first is the data and the second is passed over; a look
/// that finds nothing is counted, and changes nothing else.
pub proof fn lemma_looked(a: Answer, word: Option<u32>)
    requires
        a.got < 2,
        a.spins <= 2_000_000,
    ensures
        word is None ==> looked(a, word).spins == a.spins + 1 && looked(a, word).got == a.got
            && looked(a, word).data == a.data,
        word matches Some(w) ==> looked(a, word).got == a.got + 1 && looked(a, word).spins
            == a.spins && looked(a, word).data == if a.got == 0 {
            w
        } else {
            a.data
        },
{
}

/// The count of bits to write, less one.
pub open spec fn bits_out(words: u32) -> int {
    if words == 0 {
        0
    } else {
        sat32(32 * words) - 1
    }
}

/// The count of bits to read, less one.
pub open spec fn bits_in(words: u32) -> int {
    sat32(32 * sat32(words + 1)) - 1
}

/// Words are written in 32 bits each, and read with one more word, the status.
pub proof fn lemma_bits_counted(words: u32)
    requires
        words < 0x0400_0000,
    ensures
        words > 0 ==> bits_out(words) + 1 == 32 * words,
        words == 0 ==> bits_out(words) == 0,
        bits_in(words) + 1 == 32 * words + 32,
{
}

} // verus!
