//! Launching the second core: the boot handshake.
//!
//! The boot ROM of the second core echoes each word of a fixed sequence. A wrong or
//! missing echo starts the sequence again, and after too many of those the launch has
//! failed.

use vstd::prelude::*;

verus! {

/// Why a launch failed.
#[derive(Clone, Copy, Debug, PartialEq, Eq, Structural)]
pub enum LaunchError {
    /// The core never echoed the handshake within the retries.
    Unresponsive,
}

/// Words of the handshake.
pub const SEQ_LEN: usize = 6;

/// Polls for one echo.
pub const READ_SPINS: u32 = 2_000_000;

/// Wrong or missing echoes that are forgiven.
pub const MAX_FAILS: u32 = 16;

/// The words of the handshake: two to flush, one to start, then trap vector, stack
/// pointer and entry point.
pub open spec fn launch_words(mtvec: u32, sp: u32, entry: u32) -> Seq<u32> {
    seq![0, 0, 1, mtvec, sp, entry]
}

/// The words of the handshake.
pub fn cmd_seq(mtvec: u32, sp: u32, entry: u32) -> (r: [u32; SEQ_LEN])
    ensures
        r@ == launch_words(mtvec, sp, entry),
{
    let r: [u32; SEQ_LEN] = [0, 0, 1, mtvec, sp, entry];
    assert(r@ =~= launch_words(mtvec, sp, entry));
    r
}

/// Where the handshake stands: the next word, and the wrong echoes so far.
#[derive(Clone, Copy, Debug, PartialEq, Eq, Structural)]
pub struct Handshake {
    pub seq: usize,
    pub fails: u32,
}

/// What an echo leads to.
#[derive(Clone, Copy, Debug, PartialEq, Eq, Structural)]
pub enum Launch {
    /// Go on with the next word.
    Continue(Handshake),
    /// The core runs.
    Running,
    /// It does not.
    Failed(LaunchError),
}

impl Handshake {
    /// The counts are below their limits.
    pub open spec fn wf(self) -> bool {
        self.seq < SEQ_LEN && self.fails <= MAX_FAILS
    }

    /// Start of a handshake.
    pub fn new() -> (r: Handshake)
        ensures
            r == (Handshake { seq: 0, fails: 0 }),
            r.wf(),
    {
        Handshake { seq: 0, fails: 0 }
    }

    /// True if stale echoes are to be flushed, and the core woken, before word `cmd`.
    pub fn flush_before(cmd: u32) -> (r: bool)
        ensures
            r == (cmd == 0),
    {
        cmd == 0
    }

    /// The word `cmd` was sent, and `echo` came back, if anything did.
    pub fn step(self, cmd: u32, echo: Option<u32>) -> (r: Launch)
        requires
            self.wf(),
        ensures
            r == handshake_next(self, echo == Some(cmd)),
            r matches Launch::Continue(h) ==> h.wf(),
    {
        let matched: bool = match echo {
            Some(v) => v == cmd,
            None => false,
        };
        if matched {
            if self.seq + 1 >= SEQ_LEN {
                Launch::Running
            } else {
                Launch::Continue(Handshake { seq: self.seq + 1, fails: self.fails })
            }
        } else if self.fails + 1 > MAX_FAILS {
            Launch::Failed(LaunchError::Unresponsive)
        } else {
            Launch::Continue(Handshake { seq: 0, fails: self.fails + 1 })
        }
    }
}

/// What an echo leads to.
pub open spec fn handshake_next(h: Handshake, matched: bool) -> Launch {
    if matched {
        if h.seq + 1 >= SEQ_LEN {
            Launch::Running
        } else {
            Launch::Continue(Handshake { seq: (h.seq + 1) as usize, fails: h.fails })
        }
    } else if h.fails + 1 > MAX_FAILS {
        Launch::Failed(LaunchError::Unresponsive)
    } else {
        Launch::Continue(Handshake { seq: 0, fails: (h.fails + 1) as u32 })
    }
}

/// How many more words the handshake can take.
pub open spec fn words_left(h: Handshake) -> int {
    (MAX_FAILS + 1 - h.fails) * 6 - h.seq
}

/// A dead core cannot hang the launch: every word brings the handshake nearer to its
/// end, and it takes at most 102.
pub proof fn lemma_launch_ends(h: Handshake, matched: bool)
    requires
        h.wf(),
    ensures
        handshake_next(h, matched) matches Launch::Continue(n) ==> n.wf() && 0 < words_left(n)
            < words_left(h),
        0 < words_left(h) <= 102,
{
}

/// What a list of echoes leads to, from the start.
pub open spec fn handshake_run(echoes: Seq<bool>) -> Launch
    decreases echoes.len(),
{
    if echoes.len() == 0 {
        Launch::Continue(Handshake { seq: 0, fails: 0 })
    } else {
        match handshake_run(echoes.drop_last()) {
            Launch::Continue(h) => handshake_next(h, echoes.last()),
            done => done,
        }
    }
}

/// A handshake in progress has had as many right echoes in a row as it has words behind
/// it.
proof fn lemma_seq_counts_echoes(echoes: Seq<bool>)
    ensures
        handshake_run(echoes) matches Launch::Continue(h) ==> h.wf() && h.seq <= echoes.len()
            && forall|i: int|
            echoes.len() - h.seq <= i < echoes.len() ==> #[trigger] echoes[i],
    decreases echoes.len(),
{
    if echoes.len() > 0 {
        let before = echoes.drop_last();
        lemma_seq_counts_echoes(before);
        match handshake_run(echoes) {
            Launch::Continue(h) => {
                assert forall|i: int| echoes.len() - h.seq <= i < echoes.len() implies
                    #[trigger] echoes[i] by {
                    if i < before.len() {
                        assert(before[i]);
                    }
                }
            },
            _ => {},
        }
    }
}

/// The core is taken to run only when it has echoed all six words in a row.
pub proof fn lemma_running_means_echoed(echoes: Seq<bool>)
    requires
        echoes.len() > 0,
        handshake_run(echoes) == Launch::Running,
        handshake_run(echoes.drop_last()) is Continue,
    ensures
        echoes.len() >= 6,
        forall|i: int| echoes.len() - 6 <= i < echoes.len() ==> #[trigger] echoes[i],
{
    let before = echoes.drop_last();
    lemma_seq_counts_echoes(before);
    assert forall|i: int| echoes.len() - 6 <= i < echoes.len() implies #[trigger] echoes[i] by {
        if i < before.len() {
            assert(before[i]);
        }
    }
}

/// How an echo moves the handshake: a right one on to the next word, and after the sixth the
/// core runs; a wrong one back to the first, and after the seventeenth the launch has
/// failed.
pub proof fn lemma_echo(h: Handshake, matched: bool)
    requires
        h.wf(),
    ensures
        ({
            let n = handshake_next(h, matched);
            &&& n == Launch::Running <==> matched && h.seq == 5
            &&& n is Failed <==> !matched && h.fails == 16
            &&& n matches Launch::Continue(g) ==> {
                &&& matched ==> g.seq == h.seq + 1 && g.fails == h.fails
                &&& !matched ==> g.seq == 0 && g.fails == h.fails + 1
            }
        }),
{
}

/// The words of the handshake: 0, 0, 1, then trap vector, stack pointer and entry point.
pub proof fn lemma_launch_words(mtvec: u32, sp: u32, entry: u32)
    ensures
        ({
            let w = launch_words(mtvec, sp, entry);
            &&& w.len() == 6
            &&& w[0] == 0 && w[1] == 0 && w[2] == 1
            &&& w[3] == mtvec && w[4] == sp && w[5] == entry
        }),
{
}

/// A core that echoes every word runs after six of them.
pub proof fn lemma_good_core_runs(echoes: Seq<bool>)
    requires
        echoes.len() <= 6,
        forall|i: int| 0 <= i < echoes.len() ==> #[trigger] echoes[i],
    ensures
        echoes.len() == 6 ==> handshake_run(echoes) == Launch::Running,
        echoes.len() < 6 ==> handshake_run(echoes) == Launch::Continue(
            Handshake { seq: echoes.len() as usize, fails: 0 },
        ),
    decreases echoes.len(),
{
    if echoes.len() > 0 {
        let before = echoes.drop_last();
        assert forall|i: int| 0 <= i < before.len() implies #[trigger] before[i] by {
            assert(echoes[i]);
        }
        lemma_good_core_runs(before);
        assert(echoes[echoes.len() - 1]);
    }
}

} // verus!
