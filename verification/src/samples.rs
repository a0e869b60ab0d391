//! Line samples: one bit per sample, eight to a byte, least significant bit first.

use vstd::prelude::*;

verus! {

/// The sample at `off`: 1 for a high line, 0 for a low one.
pub open spec fn sample(buf: Seq<u8>, off: int) -> u8 {
    (buf[off / 8] >> ((off % 8) as u8)) & 1
}

/// A sample is 0 or 1.
pub(crate) proof fn lemma_sample_bit(buf: Seq<u8>, off: int)
    ensures
        sample(buf, off) == 0 || sample(buf, off) == 1,
{
    let b: u8 = buf[off / 8];
    let k: u8 = (off % 8) as u8;
    assert((b >> k) & 1 == 0 || (b >> k) & 1 == 1) by (bit_vector);
}

/// The sample at `off`.
pub(crate) fn sample_bit(buf: &[u8], off: usize) -> (r: u8)
    requires
        off / 8 < buf@.len(),
    ensures
        r == sample(buf@, off as int),
        r == 0 || r == 1,
{
    proof {
        lemma_sample_bit(buf@, off as int);
    }
    (buf[off / 8] >> ((off % 8) as u8)) & 1
}

/// `2^n`.
pub open spec fn weight(n: nat) -> nat
    decreases n,
{
    if n == 0 {
        1
    } else {
        2 * weight((n - 1) as nat)
    }
}

/// The number whose binary digits are `bits`, least significant first.
pub open spec fn bits_value(bits: Seq<u8>) -> nat
    decreases bits.len(),
{
    if bits.len() == 0 {
        0
    } else {
        bits_value(bits.drop_last()) + bits.last() as nat * weight((bits.len() - 1) as nat)
    }
}

/// Every element is 0 or 1.
pub open spec fn are_bits(bits: Seq<u8>) -> bool {
    forall|i: int| 0 <= i < bits.len() ==> #[trigger] bits[i] == 0 || bits[i] == 1
}

/// `n` binary digits stand for a number below `2^n`.
pub(crate) proof fn lemma_bits_value_bound(bits: Seq<u8>)
    requires
        are_bits(bits),
    ensures
        bits_value(bits) < weight(bits.len()),
    decreases bits.len(),
{
    if bits.len() > 0 {
        lemma_bits_value_bound(bits.drop_last());
        let w: nat = weight((bits.len() - 1) as nat);
        let b: nat = bits.last() as nat;
        assert(b * w == 0 || b * w == w) by (nonlinear_arith)
            requires
                b == 0 || b == 1,
        ;
    }
}

pub(crate) proof fn lemma_weights()
    ensures
        weight(0) == 1,
        weight(1) == 2,
        weight(2) == 4,
        weight(3) == 8,
        weight(4) == 16,
        weight(5) == 32,
        weight(6) == 64,
        weight(7) == 128,
        weight(8) == 256,
{
    reveal_with_fuel(weight, 9);
}

/// The whole bytes of a bit stream, least significant bit first.
pub open spec fn pack(bits: Seq<u8>) -> Seq<u8> {
    Seq::new(bits.len() / 8, |j: int| bits_value(bits.subrange(8 * j, 8 * j + 8)) as u8)
}

/// Packing reads the stream from the front: what follows does not change the bytes
/// already complete.
pub(crate) proof fn lemma_pack_prefix(bits: Seq<u8>, more: Seq<u8>)
    ensures
        pack(bits + more).len() >= pack(bits).len(),
        pack(bits + more).take(pack(bits).len() as int) == pack(bits),
{
    assert forall|j: int| 0 <= j < pack(bits).len() implies #[trigger] pack(bits + more)[j] == pack(
        bits,
    )[j] by {
        assert((bits + more).subrange(8 * j, 8 * j + 8) =~= bits.subrange(8 * j, 8 * j + 8));
    }
    assert(pack(bits + more).take(pack(bits).len() as int) =~= pack(bits));
}

/// The bits of a stream that do not yet fill a byte.
pub open spec fn partial(bits: Seq<u8>) -> Seq<u8> {
    bits.skip(8 * (bits.len() as int / 8))
}

/// One more bit completes a byte or lengthens the unfinished one.
pub(crate) proof fn lemma_pack_push(bits: Seq<u8>, b: u8)
    ensures
        bits.len() % 8 == 7 ==> pack(bits.push(b)) == pack(bits).push(
            bits_value(partial(bits).push(b)) as u8,
        ) && partial(bits.push(b)) == Seq::<u8>::empty(),
        bits.len() % 8 != 7 ==> pack(bits.push(b)) == pack(bits) && partial(bits.push(b))
            == partial(bits).push(b),
{
    let more = bits.push(b);
    lemma_pack_prefix(bits, seq![b]);
    assert(bits + seq![b] =~= more);
    let n = bits.len() as int / 8;
    if bits.len() % 8 == 7 {
        assert(more.subrange(8 * n, 8 * n + 8) =~= partial(bits).push(b));
        assert(pack(more) =~= pack(bits).push(bits_value(partial(bits).push(b)) as u8));
        assert(partial(more) =~= Seq::<u8>::empty());
    } else {
        assert(pack(more) =~= pack(bits));
        assert(partial(more) =~= partial(bits).push(b));
    }
}

/// Set bit `idx` of a byte whose bits from `idx` up are still clear.
pub(crate) fn pack_bit(byte: u8, idx: u8, bit: u8) -> (r: u8)
    requires
        idx < 8,
        byte < weight(idx as nat),
        bit <= 1,
    ensures
        r == byte + bit * weight(idx as nat),
{
    proof {
        lemma_weights();
        assert(idx < 8 ==> 1u8 << idx == (if idx == 0 {
            1u8
        } else if idx == 1 {
            2u8
        } else if idx == 2 {
            4u8
        } else if idx == 3 {
            8u8
        } else if idx == 4 {
            16u8
        } else if idx == 5 {
            32u8
        } else if idx == 6 {
            64u8
        } else {
            128u8
        })) by (bit_vector);
        assert(1u8 << idx == weight(idx as nat));
        assert(idx < 8 && byte < 1u8 << idx && bit <= 1 ==> byte | (bit << idx) == (if bit == 1 {
            byte + (1u8 << idx)
        } else {
            byte + 0
        })) by (bit_vector);
        assert(bit as int * weight(idx as nat) as int == (if bit == 1 {
            weight(idx as nat) as int
        } else {
            0int
        })) by (nonlinear_arith)
            requires
                bit == 0 || bit == 1,
        ;
    }
    byte | (bit << idx)
}

proof fn lemma_byte_of_bits(b: u8)
    by (bit_vector)
    ensures
        b == ((b >> 0u8) & 1) + 2 * ((b >> 1u8) & 1) + 4 * ((b >> 2u8) & 1) + 8 * ((b >> 3u8) & 1)
            + 16 * ((b >> 4u8) & 1) + 32 * ((b >> 5u8) & 1) + 64 * ((b >> 6u8) & 1) + 128 * ((b
            >> 7u8) & 1),
{
}

/// Eight samples to a byte, the first in the least significant bit.
pub proof fn lemma_samples_of_byte(buf: Seq<u8>, i: int)
    requires
        0 <= i < buf.len(),
    ensures
        buf[i] == sample(buf, 8 * i) + 2 * sample(buf, 8 * i + 1) + 4 * sample(buf, 8 * i + 2) + 8
            * sample(buf, 8 * i + 3) + 16 * sample(buf, 8 * i + 4) + 32 * sample(buf, 8 * i + 5)
            + 64 * sample(buf, 8 * i + 6) + 128 * sample(buf, 8 * i + 7),
        forall|k: int| 8 * i <= k < 8 * i + 8 ==> #[trigger] sample(buf, k) <= 1,
{
    lemma_byte_of_bits(buf[i]);
    assert forall|k: int| 8 * i <= k < 8 * i + 8 implies #[trigger] sample(buf, k) <= 1 by {
        lemma_sample_bit(buf, k);
    }
    assert((8 * i) / 8 == i && (8 * i) % 8 == 0);
    assert((8 * i + 1) / 8 == i && (8 * i + 1) % 8 == 1);
    assert((8 * i + 2) / 8 == i && (8 * i + 2) % 8 == 2);
    assert((8 * i + 3) / 8 == i && (8 * i + 3) % 8 == 3);
    assert((8 * i + 4) / 8 == i && (8 * i + 4) % 8 == 4);
    assert((8 * i + 5) / 8 == i && (8 * i + 5) % 8 == 5);
    assert((8 * i + 6) / 8 == i && (8 * i + 6) % 8 == 6);
    assert((8 * i + 7) / 8 == i && (8 * i + 7) % 8 == 7);
}

/// Packing undoes sampling: the samples of a buffer, packed, are the buffer.
pub proof fn lemma_pack_undoes_sampling(buf: Seq<u8>)
    ensures
        pack(Seq::new(8 * buf.len(), |k: int| sample(buf, k))) == buf,
{
    let bits = Seq::new(8 * buf.len(), |k: int| sample(buf, k));
    let out = pack(bits);
    assert(out.len() == buf.len());
    assert forall|j: int| 0 <= j < buf.len() implies #[trigger] out[j] == buf[j] by {
        lemma_samples_of_byte(buf, j);
        lemma_value_of_eight(bits.subrange(8 * j, 8 * j + 8));
    }
    assert(out =~= buf);
}

proof fn lemma_value_of_eight(b: Seq<u8>)
    requires
        b.len() == 8,
    ensures
        bits_value(b) == b[0] + 2 * b[1] + 4 * b[2] + 8 * b[3] + 16 * b[4] + 32 * b[5] + 64 * b[6]
            + 128 * b[7],
{
    lemma_weights();
    reveal_with_fuel(bits_value, 9);
    let b7 = b.drop_last();
    let b6 = b7.drop_last();
    let b5 = b6.drop_last();
    let b4 = b5.drop_last();
    let b3 = b4.drop_last();
    let b2 = b3.drop_last();
    let b1 = b2.drop_last();
    assert(b1.drop_last().len() == 0);
    assert(b.last() == b[7] && b7.last() == b[6] && b6.last() == b[5] && b5.last() == b[4]
        && b4.last() == b[3] && b3.last() == b[2] && b2.last() == b[1] && b1.last() == b[0]);
}

/// Eight bits to a byte, the first in the least significant bit; bits that do not fill a
/// byte are left out.
pub proof fn lemma_packing(bits: Seq<u8>, j: int)
    requires
        are_bits(bits),
        0 <= j,
        8 * j + 8 <= bits.len(),
    ensures
        8 * pack(bits).len() <= bits.len() < 8 * pack(bits).len() + 8,
        pack(bits)[j] == bits[8 * j] + 2 * bits[8 * j + 1] + 4 * bits[8 * j + 2] + 8 * bits[8 * j
            + 3] + 16 * bits[8 * j + 4] + 32 * bits[8 * j + 5] + 64 * bits[8 * j + 6] + 128
            * bits[8 * j + 7],
{
    let byte = bits.subrange(8 * j, 8 * j + 8);
    lemma_value_of_eight(byte);
    assert(are_bits(byte)) by {
        assert forall|i: int| 0 <= i < byte.len() implies #[trigger] byte[i] == 0 || byte[i] == 1 by {
            assert(byte[i] == bits[8 * j + i]);
        }
    }
    lemma_bits_value_bound(byte);
    lemma_weights();
}

} // verus!
