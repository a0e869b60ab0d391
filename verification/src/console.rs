//! Writing a line to the serial console.
//!
//! The console takes a line in pieces, and may be busy. A write goes on until the line is
//! out, the console fails, or the tries are used up, so that a host that does not read
//! cannot hang the writer.

use vstd::prelude::*;

verus! {

/// Most tries of one write.
pub const WRITE_TRIES: u32 = 64;

/// What the console did with the rest of a line.
#[derive(Clone, Copy, Debug, PartialEq, Eq, Structural)]
pub enum WriteOutcome {
    /// It took so many bytes.
    Took(usize),
    /// It has no room now.
    Busy,
    /// It failed.
    Failed,
}

/// A write in progress.
#[derive(Clone, Copy, Debug, PartialEq, Eq, Structural)]
pub struct ConsoleWrite {
    /// Bytes of the line that are out.
    pub sent: usize,
    pub tries: u32,
}

/// There is more of a line of `len` bytes to offer.
pub open spec fn offers(w: ConsoleWrite, len: int) -> bool {
    w.sent < len && w.tries < WRITE_TRIES
}

/// The write after an outcome; none once the console has failed.
pub open spec fn after_outcome(w: ConsoleWrite, outcome: WriteOutcome) -> Option<ConsoleWrite> {
    match outcome {
        WriteOutcome::Took(n) => Some(
            ConsoleWrite { sent: (w.sent + n) as usize, tries: (w.tries + 1) as u32 },
        ),
        WriteOutcome::Busy => Some(ConsoleWrite { sent: w.sent, tries: (w.tries + 1) as u32 }),
        WriteOutcome::Failed => None,
    }
}

impl ConsoleWrite {
    /// Start of a line.
    pub fn new() -> (r: ConsoleWrite)
        ensures
            r == (ConsoleWrite { sent: 0, tries: 0 }),
    {
        ConsoleWrite { sent: 0, tries: 0 }
    }

    /// The part of `line` to offer next, if the write goes on.
    pub fn next<'a>(&self, line: &'a [u8]) -> (r: Option<&'a [u8]>)
        ensures
            r is Some == offers(*self, line@.len() as int),
            r matches Some(rest) ==> rest@ == line@.skip(self.sent as int),
    {
        if self.sent < line.len() && self.tries < WRITE_TRIES {
            Some(vstd::slice::slice_subrange(line, self.sent, line.len()))
        } else {
            None
        }
    }

    /// The console was offered the rest of a line of `len` bytes. None once it has failed.
    pub fn step(self, outcome: WriteOutcome, len: usize) -> (r: Option<ConsoleWrite>)
        requires
            offers(self, len as int),
            outcome matches WriteOutcome::Took(n) ==> n <= len - self.sent,
        ensures
            r == after_outcome(self, outcome),
            r matches Some(w) ==> w.sent <= len && w.tries <= WRITE_TRIES,
    {
        match outcome {
            WriteOutcome::Took(n) => Some(
                ConsoleWrite { sent: self.sent + n, tries: self.tries + 1 },
            ),
            WriteOutcome::Busy => Some(ConsoleWrite { sent: self.sent, tries: self.tries + 1 }),
            WriteOutcome::Failed => None,
        }
    }
}

/// The write after a list of outcomes, from the start of a line.
pub open spec fn after_outcomes(outcomes: Seq<WriteOutcome>) -> Option<ConsoleWrite>
    decreases outcomes.len(),
{
    if outcomes.len() == 0 {
        Some(ConsoleWrite { sent: 0, tries: 0 })
    } else {
        match after_outcomes(outcomes.drop_last()) {
            Some(w) => after_outcome(w, outcomes.last()),
            None => None,
        }
    }
}

/// A host that does not read cannot hang the writer: after as many outcomes as there are
/// tries, whatever they were, nothing more is offered.
pub proof fn lemma_write_ends(outcomes: Seq<WriteOutcome>, len: int)
    requires
        outcomes.len() <= WRITE_TRIES,
    ensures
        after_outcomes(outcomes) matches Some(w) ==> w.tries == outcomes.len() && (outcomes.len()
            == WRITE_TRIES ==> !offers(w, len)),
    decreases outcomes.len(),
{
    if outcomes.len() > 0 {
        lemma_write_ends(outcomes.drop_last(), len);
    }
}

/// What an outcome does: the bytes that were taken are out, each offer is a try, and a
/// failure ends the write.
pub proof fn lemma_outcome(w: ConsoleWrite, outcome: WriteOutcome)
    requires
        w.tries < 64,
        outcome matches WriteOutcome::Took(n) ==> w.sent + n <= usize::MAX,
    ensures
        after_outcome(w, outcome) is None <==> outcome == WriteOutcome::Failed,
        after_outcome(w, outcome) matches Some(v) ==> v.tries == w.tries + 1 && v.sent
            == match outcome {
            WriteOutcome::Took(n) => w.sent + n,
            _ => w.sent as int,
        },
{
}

/// A write goes on exactly while some of the line is left and fewer than 64 offers were
/// made.
pub proof fn lemma_offers(w: ConsoleWrite, len: int)
    ensures
        offers(w, len) <==> w.sent < len && w.tries < 64,
{
}

/// The bytes that a list of outcomes took.
pub open spec fn taken(outcomes: Seq<WriteOutcome>) -> int
    decreases outcomes.len(),
{
    if outcomes.len() == 0 {
        0
    } else {
        taken(outcomes.drop_last()) + match outcomes.last() {
            WriteOutcome::Took(n) => n as int,
            _ => 0,
        }
    }
}

/// No byte of a line is left out or sent twice: what is out is what the console took.
pub proof fn lemma_sent_is_taken(outcomes: Seq<WriteOutcome>)
    requires
        outcomes.len() <= 64,
        taken(outcomes) <= usize::MAX,
    ensures
        taken(outcomes) >= 0,
        after_outcomes(outcomes) matches Some(w) ==> w.sent == taken(outcomes) && w.tries
            == outcomes.len(),
        after_outcomes(outcomes) is None <==> exists|i: int|
            0 <= i < outcomes.len() && #[trigger] outcomes[i] == WriteOutcome::Failed,
    decreases outcomes.len(),
{
    if outcomes.len() > 0 {
        let before = outcomes.drop_last();
        lemma_sent_is_taken(before);
        let n = outcomes.len() - 1;
        assert(outcomes.last() == outcomes[n]);
        if after_outcomes(before) is None {
            let i = choose|i: int|
                0 <= i < before.len() && #[trigger] before[i] == WriteOutcome::Failed;
            assert(outcomes[i] == WriteOutcome::Failed);
        } else {
            assert forall|i: int| 0 <= i < n implies #[trigger] outcomes[i]
                != WriteOutcome::Failed by {
                assert(before[i] == outcomes[i]);
            }
        }
    }
}

} // verus!
