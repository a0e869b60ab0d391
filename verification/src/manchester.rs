//! Manchester line code.
//!
//! A transmit word holds the sixteen half-bits of one byte, two bits each, least
//! significant first: 0 is an idle line, 1 low, 2 high. A one is low then high, a zero
//! high then low, and the bits of a byte go out least significant first.

use vstd::prelude::*;

verus! {

/// An idle line.
pub const IDLE: u32 = 0;

/// A low half-bit.
pub const LOW: u32 = 1;

/// A high half-bit.
pub const HIGH: u32 = 2;

/// The half-bit at position `h` of a word.
pub open spec fn half_bit(w: u32, h: int) -> u32 {
    (w >> ((2 * h) as u32)) & 3
}

/// Bit `k` of a byte.
pub open spec fn bit_of(b: u8, k: int) -> u8 {
    (b >> (k as u8)) & 1
}

/// The nibble of a word that bit `k` turns over.
pub open spec fn nibble_mask(b: u8, k: u32) -> u32 {
    if (b as u32 >> k) & 1 == 1 {
        0xFu32 << (4 * k) as u32
    } else {
        0
    }
}

/// The word of a byte: `0x6` for each zero, `0x9` for each one.
pub open spec fn manchester(b: u8) -> u32 {
    0x6666_6666 ^ nibble_mask(b, 0) ^ nibble_mask(b, 1) ^ nibble_mask(b, 2) ^ nibble_mask(b, 3)
        ^ nibble_mask(b, 4) ^ nibble_mask(b, 5) ^ nibble_mask(b, 6) ^ nibble_mask(b, 7)
}

/// A bit is two opposite half-bits: low then high for a one, high then low for a zero.
pub(crate) proof fn lemma_manchester(b: u8, k: int)
    requires
        0 <= k < 8,
    ensures
        bit_of(b, k) == 0 || bit_of(b, k) == 1,
        bit_of(b, k) == 1 ==> half_bit(manchester(b), 2 * k) == LOW && half_bit(
            manchester(b),
            2 * k + 1,
        ) == HIGH,
        bit_of(b, k) == 0 ==> half_bit(manchester(b), 2 * k) == HIGH && half_bit(
            manchester(b),
            2 * k + 1,
        ) == LOW,
{
    let j: u32 = k as u32;
    let kb: u8 = k as u8;
    let first: u32 = (2 * (2 * k)) as u32;
    let second: u32 = (2 * (2 * k + 1)) as u32;
    let w: u32 = manchester(b);
    lemma_manchester_bits(b, w, j, kb, first, second);
}

proof fn lemma_manchester_bits(b: u8, w: u32, j: u32, kb: u8, first: u32, second: u32)
    by (bit_vector)
    requires
        j < 8,
        kb == j,
        first == 4 * j,
        second == 4 * j + 2,
        w == manchester(b),
    ensures
        (b >> kb) & 1 == 0 || (b >> kb) & 1 == 1,
        (b >> kb) & 1 == 1 ==> (w >> first) & 3 == 1 && (w >> second) & 3 == 2,
        (b >> kb) & 1 == 0 ==> (w >> first) & 3 == 2 && (w >> second) & 3 == 1,
{
}

/// The word of a byte.
pub fn manchester_word(b: u8) -> (w: u32)
    ensures
        w == manchester(b),
{
    mask(b, 7, mask(b, 6, mask(b, 5, mask(b, 4, mask(b, 3, mask(b, 2, mask(b, 1, mask(
        b,
        0,
        0x6666_6666,
    ))))))))
}

/// Turn over the nibble of bit `k`.
fn mask(b: u8, k: u32, w: u32) -> (r: u32)
    requires
        k < 8,
    ensures
        r == w ^ nibble_mask(b, k),
{
    proof {
        assert(w ^ 0 == w) by (bit_vector);
    }
    if (b as u32 >> k) & 1 == 1 {
        w ^ (0xFu32 << (4 * k))
    } else {
        w
    }
}

/// The words of a run of bytes.
pub open spec fn manchester_words(bytes: Seq<u8>) -> Seq<u32> {
    Seq::new(bytes.len(), |i: int| manchester(bytes[i]))
}

} // verus!
