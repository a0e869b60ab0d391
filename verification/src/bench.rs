//! Scoring decodes of recorded frames.

use vstd::prelude::*;

use crate::crc::crc32;
use crate::eth_rx::{le32, EthRx};
use crate::line::lemma_frame_check;
use crate::wire::{be16, rd16};

verus! {

/// Payload bytes per error bin.
pub const BIN_SIZE: usize = 184;

/// Number of error bins.
pub const BINS: usize = 8;

/// Longest payload scored.
pub const MAX_PAYLOAD: usize = 1472;

/// The length of a recorded frame: by its header for IPv4, all of it otherwise.
pub open spec fn recorded_len(frame: Seq<u8>) -> int {
    if be16(frame, 12) == 0x0800 {
        if 18 + be16(frame, 16) > 64 {
            18 + be16(frame, 16) as int
        } else {
            64
        }
    } else {
        frame.len() as int
    }
}

/// The check sequence of a recorded frame is right.
pub open spec fn recorded_ok(frame: Seq<u8>) -> bool {
    18 <= frame.len() && 18 <= recorded_len(frame) <= frame.len() && crc32(
        frame.take(recorded_len(frame) - 4),
    ) == le32(frame, recorded_len(frame) - 4)
}

/// True if the check sequence of a recorded frame is right.
pub fn fcs_ok(frame: &[u8]) -> (r: bool)
    ensures
        r == recorded_ok(frame@),
{
    if frame.len() < 18 {
        return false;
    }
    let frame_len: usize = if rd16(frame, 12) == 0x0800 {
        let n: usize = 14 + rd16(frame, 16) as usize + 4;
        if n > 64 {
            n
        } else {
            64
        }
    } else {
        frame.len()
    };
    EthRx::verify_fcs(frame, frame_len)
}

/// The bin of payload byte `j`.
pub open spec fn bin_of(j: int) -> int {
    if j / (BIN_SIZE as int) < 7 {
        j / (BIN_SIZE as int)
    } else {
        7
    }
}

/// How many payload bytes of a frame are scored.
pub open spec fn scored_len(n: int) -> int {
    if n < 46 {
        0
    } else if n - 46 < MAX_PAYLOAD {
        n - 46
    } else {
        MAX_PAYLOAD as int
    }
}

/// Bytes of the first `n` payload bytes that fall into bin `b`, or, with `wrong`, those
/// among them that differ from the test pattern, which counts up from zero.
pub open spec fn bin_count(frame: Seq<u8>, n: int, b: int, wrong: bool) -> int
    decreases n,
{
    if n <= 0 {
        0
    } else {
        bin_count(frame, n - 1, b, wrong) + if bin_of(n - 1) == b && (!wrong || frame[42 + n - 1]
            != (n - 1) % 256) {
            1int
        } else {
            0
        }
    }
}

/// Totals and errors of a corpus, by bin.
pub struct Score {
    pub total: [u32; BINS],
    pub wrong: [u32; BINS],
}

impl Score {
    /// Nothing scored.
    pub fn new() -> (r: Score)
        ensures
            forall|b: int| 0 <= b < BINS ==> #[trigger] r.total@[b] == 0 && r.wrong@[b] == 0,
    {
        Score { total: [0;BINS], wrong: [0;BINS] }
    }

    /// Score the payload of a frame that decoded.
    pub fn add_frame(&mut self, frame: &[u8])
        requires
            forall|b: int|
                0 <= b < BINS ==> #[trigger] old(self).total@[b] <= u32::MAX - 1472
                    && old(self).wrong@[b] <= u32::MAX - 1472,
        ensures
            forall|b: int|
                0 <= b < BINS ==> #[trigger] final(self).total@[b] == old(self).total@[b]
                    + bin_count(frame@, scored_len(frame@.len() as int), b, false),
            forall|b: int|
                0 <= b < BINS ==> #[trigger] final(self).wrong@[b] == old(self).wrong@[b]
                    + bin_count(frame@, scored_len(frame@.len() as int), b, true),
    {
        let ghost t0 = self.total@;
        let ghost w0 = self.wrong@;
        let plen: usize = if frame.len() < 46 {
            0
        } else if frame.len() - 46 < MAX_PAYLOAD {
            frame.len() - 46
        } else {
            MAX_PAYLOAD
        };
        let mut j: usize = 0;
        while j < plen
            invariant
                j <= plen <= MAX_PAYLOAD,
                plen == scored_len(frame@.len() as int),
                forall|b: int|
                    0 <= b < BINS ==> #[trigger] t0[b] <= u32::MAX - 1472 && w0[b] <= u32::MAX
                        - 1472,
                forall|b: int|
                    0 <= b < BINS ==> #[trigger] self.total@[b] == t0[b] + bin_count(
                        frame@,
                        j as int,
                        b,
                        false,
                    ),
                forall|b: int|
                    0 <= b < BINS ==> #[trigger] self.wrong@[b] == w0[b] + bin_count(
                        frame@,
                        j as int,
                        b,
                        true,
                    ),
                forall|b: int|
                    0 <= b < BINS ==> 0 <= #[trigger] bin_count(frame@, j as int, b, false) <= j
                        && 0 <= bin_count(frame@, j as int, b, true) <= j,
            decreases plen - j,
        {
            let k: usize = j / BIN_SIZE;
            let b: usize = if k < 7 {
                k
            } else {
                7
            };
            assert(b == bin_of(j as int));
            let bad: bool = frame[42 + j] != (j % 256) as u8;
            let ghost total = self.total@;
            let ghost wrong = self.wrong@;
            assert(total[b as int] == t0[b as int] + bin_count(frame@, j as int, b as int, false));
            assert(wrong[b as int] == w0[b as int] + bin_count(frame@, j as int, b as int, true));
            assert(0 <= bin_count(frame@, j as int, b as int, false) <= j);
            assert(t0[b as int] <= u32::MAX - 1472);
            self.total[b] = self.total[b] + 1;
            if bad {
                self.wrong[b] = self.wrong[b] + 1;
            }
            j = j + 1;
            assert forall|c: int| 0 <= c < BINS implies 0 <= #[trigger] bin_count(
                frame@,
                j as int,
                c,
                false,
            ) <= j && 0 <= bin_count(frame@, j as int, c, true) <= j by {
                assert(0 <= bin_count(frame@, j - 1, c, false) <= j - 1);
            }
            assert forall|c: int| 0 <= c < BINS implies #[trigger] self.total@[c] == t0[c]
                + bin_count(frame@, j as int, c, false) by {
                assert(total[c] == t0[c] + bin_count(frame@, j - 1, c, false));
            }
            assert forall|c: int| 0 <= c < BINS implies #[trigger] self.wrong@[c] == w0[c]
                + bin_count(frame@, j as int, c, true) by {
                assert(wrong[c] == w0[c] + bin_count(frame@, j - 1, c, true));
            }
        }
    }

    /// True if no byte was wrong.
    pub fn clean(&self) -> (r: bool)
        ensures
            r == (forall|b: int| 0 <= b < BINS ==> #[trigger] self.wrong@[b] == 0),
    {
        let mut b: usize = 0;
        while b < BINS
            invariant
                b <= BINS,
                forall|c: int| 0 <= c < b ==> #[trigger] self.wrong@[c] == 0,
            decreases BINS - b,
        {
            if self.wrong[b] != 0 {
                assert(self.wrong@[b as int] != 0);
                return false;
            }
            b = b + 1;
        }
        true
    }
}

/// A recorded frame is right exactly where the whole of it, as long as an IPv4 header says
/// or all of any other, has the checksum that every right frame has.
pub proof fn lemma_recorded(frame: Seq<u8>)
    ensures
        ({
            let ipv4 = frame[12] == 0x08 && frame[13] == 0x00;
            let total = 256 * frame[16] + frame[17] + 18;
            let n = if !ipv4 {
                frame.len() as int
            } else if total < 64 {
                64
            } else {
                total
            };
            recorded_ok(frame) <==> 18 <= frame.len() && 18 <= n <= frame.len() && crc32(
                frame.take(n),
            ) == 0x2144_DF1C
        }),
{
    lemma_frame_check(frame, recorded_len(frame));
}

/// The payload is what lies between 42 bytes of headers and the four of the check sequence,
/// up to 1472 bytes; each of its bytes is in one of eight bins, of 184 bytes each, the last
/// with all that are left.
pub proof fn lemma_bins(n: int, j: int)
    requires
        0 <= n,
        0 <= j,
    ensures
        0 <= scored_len(n) <= 1472,
        46 <= n <= 1518 ==> scored_len(n) == n - 46,
        n > 1518 ==> scored_len(n) == 1472,
        n < 46 ==> scored_len(n) == 0,
        0 <= bin_of(j) < 8,
        bin_of(j) < 7 ==> 184 * bin_of(j) <= j < 184 * bin_of(j) + 184,
        bin_of(j) == 7 ==> j >= 1288,
{
}

/// The bytes of the payload that are counted in a bin, or those that are wrong.
pub open spec fn counted_bytes(frame: Seq<u8>, n: int, b: int, wrong: bool) -> Set<int> {
    Set::new(|j: int| 0 <= j < n && bin_of(j) == b && (wrong ==> frame[42 + j] != j % 256))
}

/// Every byte of the payload counts once, in its bin, and among the wrong ones where it is
/// not its place modulo 256.
pub proof fn lemma_bin_counts(frame: Seq<u8>, n: int, b: int, wrong: bool)
    ensures
        counted_bytes(frame, n, b, wrong).finite(),
        bin_count(frame, n, b, wrong) == counted_bytes(frame, n, b, wrong).len(),
    decreases n,
{
    let s = counted_bytes(frame, n, b, wrong);
    if n <= 0 {
        assert(s =~= Set::empty());
    } else {
        lemma_bin_counts(frame, n - 1, b, wrong);
        let r = counted_bytes(frame, n - 1, b, wrong);
        let j = n - 1;
        if bin_of(j) == b && (wrong ==> frame[42 + j] != j % 256) {
            assert(s =~= r.insert(j));
        } else {
            assert(s =~= r);
        }
    }
}

} // verus!
