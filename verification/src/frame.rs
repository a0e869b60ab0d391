//! Frame storage: fixed-capacity byte vectors and the decoded-frame queue.
//!
//! Both are `heapless` collections. What they hold is named by [`frame_bytes`] and
//! [`inbox_frames`]; the functions below say what each operation does to it.

use vstd::prelude::*;

verus! {

/// Slack over the 1518-byte maximum Ethernet frame.
pub const MAX_FRAME_BYTES: usize = 1600;

/// Depth of the decoded-frame queue.
pub const INBOX_SLOTS: usize = 4;

/// `heapless::Vec`, opaque.
#[verifier::external_type_specification]
#[verifier::external_body]
#[verifier::reject_recursive_types(T)]
pub struct ExHeaplessVec<T, const N: usize>(heapless::Vec<T, N>);

/// `heapless::Deque`, opaque.
#[verifier::external_type_specification]
#[verifier::external_body]
#[verifier::reject_recursive_types(T)]
pub struct ExHeaplessDeque<T, const N: usize>(heapless::Deque<T, N>);

/// A captured L2 frame.
pub type Frame = heapless::Vec<u8, MAX_FRAME_BYTES>;

/// The queue of decoded frames.
pub type Inbox = heapless::Deque<Frame, INBOX_SLOTS>;

/// The bytes of a frame, in order.
pub uninterp spec fn frame_bytes(f: Frame) -> Seq<u8>;

/// The frames of a queue, front first, each by its bytes.
pub uninterp spec fn inbox_frames(q: Inbox) -> Seq<Seq<u8>>;

/// `heapless::Vec::new`: an empty frame.
#[verifier::external_body]
pub(crate) fn frame_new() -> (f: Frame)
    ensures
        frame_bytes(f) == Seq::<u8>::empty(),
{
    heapless::Vec::new()
}

/// `heapless::Vec::push`: appends the byte where the capacity allows it, and says
/// whether it did; a full frame is left as it is.
#[verifier::external_body]
pub(crate) fn frame_push(f: &mut Frame, b: u8) -> (pushed: bool)
    ensures
        pushed == (frame_bytes(*old(f)).len() < MAX_FRAME_BYTES),
        pushed ==> frame_bytes(*final(f)) == frame_bytes(*old(f)).push(b),
        !pushed ==> frame_bytes(*final(f)) == frame_bytes(*old(f)),
{
    f.push(b).is_ok()
}

/// `heapless::Vec::extend_from_slice`: appends all of `bytes` where they fit, and says
/// whether it did; otherwise the frame is left as it is.
#[verifier::external_body]
pub(crate) fn frame_extend(f: &mut Frame, bytes: &[u8]) -> (fits: bool)
    ensures
        fits == (frame_bytes(*old(f)).len() + bytes@.len() <= MAX_FRAME_BYTES),
        fits ==> frame_bytes(*final(f)) == frame_bytes(*old(f)) + bytes@,
        !fits ==> frame_bytes(*final(f)) == frame_bytes(*old(f)),
{
    f.extend_from_slice(bytes).is_ok()
}

/// `heapless::Vec::truncate`: keeps the first `len` bytes; a shorter frame is left as
/// it is.
#[verifier::external_body]
pub(crate) fn frame_truncate(f: &mut Frame, len: usize)
    ensures
        len <= frame_bytes(*old(f)).len() ==> frame_bytes(*final(f)) == frame_bytes(
            *old(f),
        ).take(len as int),
        len > frame_bytes(*old(f)).len() ==> frame_bytes(*final(f)) == frame_bytes(*old(f)),
{
    f.truncate(len)
}

/// `heapless::Vec::as_slice`: the frame's bytes, at most the capacity of them.
#[verifier::external_body]
pub(crate) fn frame_slice(f: &Frame) -> (r: &[u8])
    ensures
        r@ == frame_bytes(*f),
        r@.len() <= MAX_FRAME_BYTES,
{
    f.as_slice()
}

/// `heapless::Vec::as_mut_slice`: the frame's bytes, to be overwritten in place.
#[verifier::external_body]
pub(crate) fn frame_slice_mut(f: &mut Frame) -> (r: &mut [u8])
    ensures
        r@ == frame_bytes(*old(f)),
        r@.len() <= MAX_FRAME_BYTES,
        final(r)@ == frame_bytes(*final(f)),
        final(r)@.len() == r@.len(),
{
    f.as_mut_slice()
}

/// `heapless::Deque::new`: an empty queue.
#[verifier::external_body]
pub(crate) fn inbox_new() -> (q: Inbox)
    ensures
        inbox_frames(q) == Seq::<Seq<u8>>::empty(),
{
    heapless::Deque::new()
}

/// `heapless::Deque::is_full`.
#[verifier::external_body]
pub(crate) fn inbox_is_full(q: &Inbox) -> (full: bool)
    ensures
        full == (inbox_frames(*q).len() == INBOX_SLOTS),
{
    q.is_full()
}

/// `heapless::Deque::len`: the number of queued frames, never over the capacity.
#[verifier::external_body]
pub(crate) fn inbox_len(q: &Inbox) -> (n: usize)
    ensures
        n == inbox_frames(*q).len(),
        n <= INBOX_SLOTS,
{
    q.len()
}

/// `heapless::Deque::pop_front`: removes and returns the front frame, if there is one.
#[verifier::external_body]
pub(crate) fn inbox_pop_front(q: &mut Inbox) -> (r: Option<Frame>)
    ensures
        r is Some == (inbox_frames(*old(q)).len() > 0),
        match r {
            Some(f) => frame_bytes(f) == inbox_frames(*old(q))[0] && inbox_frames(*final(q))
                == inbox_frames(*old(q)).skip(1),
            None => inbox_frames(*final(q)) == inbox_frames(*old(q)),
        },
{
    q.pop_front()
}

/// `heapless::Deque::push_back`: appends the frame where the capacity allows it, and
/// says whether it did; a full queue is left as it is.
#[verifier::external_body]
pub(crate) fn inbox_push_back(q: &mut Inbox, f: Frame) -> (pushed: bool)
    ensures
        pushed == (inbox_frames(*old(q)).len() < INBOX_SLOTS),
        pushed ==> inbox_frames(*final(q)) == inbox_frames(*old(q)).push(frame_bytes(f)),
        !pushed ==> inbox_frames(*final(q)) == inbox_frames(*old(q)),
{
    q.push_back(f).is_ok()
}

} // verus!
