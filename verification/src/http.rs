//! Serving over TCP: the decisions of each server, one poll at a time.
//!
//! A server looks at its socket, is told here what to do with it, and reports back. A
//! download is sent in chunks over many polls; an upload is drained and counted.

use vstd::prelude::*;

verus! {

/// Size of the LAN download.
pub const LAN_BULK_BYTES: usize = 8_388_608;

/// Size of the download of the wired image.
pub const HTTP_BULK_BYTES: usize = 1_048_576;

/// Most bytes handed to the socket at once.
pub const BULK_CHUNK: usize = 1024;

/// The byte downloads are filled with.
pub const BULK_FILLER: u8 = 0x55;

/// Ports.
pub const HTTP_PORT: u16 = 80;

pub const SINK_PORT: u16 = 9999;

pub const ECHO_PORT: u16 = 1234;

/// Datagrams echoed per poll.
pub const ECHOES_PER_POLL: u32 = 4;

/// Longest datagram echoed.
pub const ECHO_MAX: usize = 1472;

/// State of the LAN server, so that a download can go on over many polls.
#[derive(Clone, Copy, Debug, PartialEq, Eq, Structural)]
pub enum LanHttp {
    /// No request routed yet.
    Idle,
    /// A download in flight. The header waits for a poll in which the socket can send.
    Bulk { remaining: usize, header_sent: bool },
}

/// What to do with the socket first.
#[derive(Clone, Copy, Debug, PartialEq, Eq, Structural)]
pub enum LanHttpAction {
    /// Listen again.
    Listen,
    /// Nothing until the next poll.
    Wait,
    /// Send the header of the download, then chunks.
    SendHeader,
    /// Send chunks.
    Stream,
    /// Read the request.
    ReadRequest,
}

/// What to do about a request.
#[derive(Clone, Copy, Debug, PartialEq, Eq, Structural)]
pub enum RequestAction {
    /// Nothing: none has arrived, or it cannot be answered now.
    Ignore,
    /// A download has been started; it is sent from the next poll on.
    StartBulk,
    /// Send the status page and close.
    SendPage,
}

/// How the request line of a download begins.
pub open spec fn bulk_path() -> Seq<u8> {
    seq![0x47, 0x45, 0x54, 0x20, 0x2f, 0x62, 0x75, 0x6c, 0x6b]
}

/// A request for the download.
pub open spec fn asks_bulk(req: Seq<u8>) -> bool {
    req.len() >= 9 && req.take(9) == bulk_path()
}

/// The first step of a poll.
pub open spec fn lan_next(s: LanHttp, is_open: bool, can_send: bool) -> (LanHttp, LanHttpAction) {
    if !is_open {
        (LanHttp::Idle, LanHttpAction::Listen)
    } else {
        match s {
            LanHttp::Idle => (s, LanHttpAction::ReadRequest),
            LanHttp::Bulk { remaining, header_sent } => if header_sent {
                (s, LanHttpAction::Stream)
            } else if can_send {
                (LanHttp::Bulk { remaining, header_sent: true }, LanHttpAction::SendHeader)
            } else {
                (s, LanHttpAction::Wait)
            },
        }
    }
}

/// The state after a request, and what to do about it.
pub open spec fn routed_request(s: LanHttp, req: Seq<u8>, can_send: bool) -> (
    LanHttp,
    RequestAction,
) {
    if req.len() == 0 {
        (s, RequestAction::Ignore)
    } else if asks_bulk(req) {
        (
            LanHttp::Bulk { remaining: LAN_BULK_BYTES, header_sent: false },
            RequestAction::StartBulk,
        )
    } else if can_send {
        (s, RequestAction::SendPage)
    } else {
        (s, RequestAction::Ignore)
    }
}

/// The next chunk of a download with `remaining` bytes to go.
pub open spec fn next_chunk(remaining: usize, can_send: bool) -> Option<usize> {
    if remaining == 0 || !can_send {
        None
    } else if remaining < BULK_CHUNK {
        Some(remaining)
    } else {
        Some(BULK_CHUNK)
    }
}

/// The state after the socket took `n` bytes of a chunk.
pub open spec fn lan_sent(s: LanHttp, n: usize) -> LanHttp {
    match s {
        LanHttp::Bulk { remaining, header_sent } => LanHttp::Bulk {
            remaining: (remaining - n) as usize,
            header_sent,
        },
        LanHttp::Idle => s,
    }
}

/// The download is complete.
pub open spec fn lan_done(s: LanHttp) -> bool {
    s matches LanHttp::Bulk { remaining, .. } && remaining == 0
}

/// True if `req` asks for the download.
fn is_bulk_request(req: &[u8]) -> (r: bool)
    ensures
        r == asks_bulk(req@),
{
    if req.len() < 9 {
        return false;
    }
    let r: bool = req[0] == 0x47 && req[1] == 0x45 && req[2] == 0x54 && req[3] == 0x20 && req[4]
        == 0x2f && req[5] == 0x62 && req[6] == 0x75 && req[7] == 0x6c && req[8] == 0x6b;
    proof {
        let p = bulk_path();
        let h = req@.take(9);
        if r {
            assert(h =~= p);
        } else if h == p {
            assert(h[0] == 0x47 && h[1] == 0x45 && h[2] == 0x54 && h[3] == 0x20 && h[4] == 0x2f
                && h[5] == 0x62 && h[6] == 0x75 && h[7] == 0x6c && h[8] == 0x6b);
        }
    }
    r
}

/// The next chunk of a download with `remaining` bytes to go.
pub fn chunk_len(remaining: usize, can_send: bool) -> (r: Option<usize>)
    ensures
        r == next_chunk(remaining, can_send),
{
    if remaining == 0 || !can_send {
        None
    } else if remaining < BULK_CHUNK {
        Some(remaining)
    } else {
        Some(BULK_CHUNK)
    }
}

impl LanHttp {
    /// First step of a poll.
    pub fn poll(&mut self, is_open: bool, can_send: bool) -> (r: LanHttpAction)
        ensures
            *final(self) == lan_next(*old(self), is_open, can_send).0,
            r == lan_next(*old(self), is_open, can_send).1,
    {
        if !is_open {
            *self = LanHttp::Idle;
            return LanHttpAction::Listen;
        }
        match *self {
            LanHttp::Idle => LanHttpAction::ReadRequest,
            LanHttp::Bulk { remaining, header_sent } => {
                if header_sent {
                    LanHttpAction::Stream
                } else if can_send {
                    *self = LanHttp::Bulk { remaining, header_sent: true };
                    LanHttpAction::SendHeader
                } else {
                    LanHttpAction::Wait
                }
            },
        }
    }

    /// The length of the next chunk, if one is to be sent.
    pub fn chunk(&self, can_send: bool) -> (r: Option<usize>)
        ensures
            r == match *self {
                LanHttp::Bulk { remaining, .. } => next_chunk(remaining, can_send),
                LanHttp::Idle => None,
            },
    {
        match *self {
            LanHttp::Bulk { remaining, .. } => chunk_len(remaining, can_send),
            LanHttp::Idle => None,
        }
    }

    /// The socket took `sent` bytes of a chunk, or failed. True if another chunk may
    /// follow. `total` counts the bytes.
    pub fn sent(&mut self, sent: Option<usize>, total: &mut u32) -> (more: bool)
        requires
            sent matches Some(n) ==> n <= BULK_CHUNK && (*old(self) matches LanHttp::Bulk {
                remaining,
                ..
            } ==> n <= remaining),
        ensures
            match (*old(self), sent) {
                (LanHttp::Bulk { .. }, Some(n)) => *final(self) == lan_sent(*old(self), n) && more
                    == (n > 0) && *final(total) == (*old(total) + n) % 0x1_0000_0000,
                _ => *final(self) == *old(self) && !more && *final(total) == *old(total),
            },
    {
        match *self {
            LanHttp::Bulk { remaining, header_sent } => match sent {
                Some(n) => {
                    *self = LanHttp::Bulk { remaining: remaining - n, header_sent };
                    *total = total.wrapping_add(n as u32);
                    n > 0
                },
                None => false,
            },
            LanHttp::Idle => false,
        }
    }

    /// After the chunks of a poll: true if the download is complete, and the connection
    /// is to be closed.
    pub fn finish(&mut self) -> (close: bool)
        ensures
            close == lan_done(*old(self)),
            *final(self) == if close {
                LanHttp::Idle
            } else {
                *old(self)
            },
    {
        let done: bool = match *self {
            LanHttp::Bulk { remaining, .. } => remaining == 0,
            LanHttp::Idle => false,
        };
        if done {
            *self = LanHttp::Idle;
        }
        done
    }

    /// Route what was read: nothing, a request for the download, or any other request.
    pub fn request(&mut self, req: &[u8], can_send: bool) -> (r: RequestAction)
        ensures
            *final(self) == routed_request(*old(self), req@, can_send).0,
            r == routed_request(*old(self), req@, can_send).1,
    {
        if req.len() == 0 {
            return RequestAction::Ignore;
        }
        if is_bulk_request(req) {
            *self = LanHttp::Bulk { remaining: LAN_BULK_BYTES, header_sent: false };
            return RequestAction::StartBulk;
        }
        if can_send {
            RequestAction::SendPage
        } else {
            RequestAction::Ignore
        }
    }
}

/// State of the download of the wired image.
#[derive(Clone, Copy, Debug, PartialEq, Eq, Structural)]
pub enum HttpBulkState {
    /// Waiting for a connection that can send.
    Idle,
    /// The header is queued; `remaining` bytes are to follow.
    Sending { remaining: usize },
}

/// What to do with the socket of the wired download.
#[derive(Clone, Copy, Debug, PartialEq, Eq, Structural)]
pub enum BulkAction {
    /// Listen again.
    Listen,
    /// Discard what was received, nothing more.
    Drain,
    /// Discard what was received, and send the header.
    SendHeader,
    /// Discard what was received, and send chunks.
    Stream,
}

impl HttpBulkState {
    /// First step of a poll.
    pub fn poll(&mut self, is_open: bool, can_send: bool) -> (r: BulkAction)
        ensures
            (*final(self), r) == bulk_next(*old(self), is_open, can_send),
    {
        if !is_open {
            *self = HttpBulkState::Idle;
            return BulkAction::Listen;
        }
        match *self {
            HttpBulkState::Idle => {
                if can_send {
                    *self = HttpBulkState::Sending { remaining: HTTP_BULK_BYTES };
                    BulkAction::SendHeader
                } else {
                    BulkAction::Drain
                }
            },
            HttpBulkState::Sending { .. } => BulkAction::Stream,
        }
    }

    /// The length of the next chunk, if one is to be sent.
    pub fn chunk(&self, can_send: bool) -> (r: Option<usize>)
        ensures
            r == match *self {
                HttpBulkState::Sending { remaining } => next_chunk(remaining, can_send),
                HttpBulkState::Idle => None,
            },
    {
        match *self {
            HttpBulkState::Sending { remaining } => chunk_len(remaining, can_send),
            HttpBulkState::Idle => None,
        }
    }

    /// The socket took `sent` bytes of a chunk. True if another chunk may follow.
    pub fn sent(&mut self, sent: usize) -> (more: bool)
        requires
            *old(self) matches HttpBulkState::Sending { remaining } ==> sent <= remaining,
        ensures
            (*final(self), more) == bulk_sent(*old(self), sent),
    {
        match *self {
            HttpBulkState::Sending { remaining } => {
                *self = HttpBulkState::Sending { remaining: remaining - sent };
                sent > 0
            },
            HttpBulkState::Idle => false,
        }
    }

    /// After the chunks of a poll: true if the download is complete, and the connection
    /// is to be closed.
    pub fn finish(&mut self) -> (close: bool)
        ensures
            close == (*old(self) == (HttpBulkState::Sending { remaining: 0 })),
            *final(self) == if close {
                HttpBulkState::Idle
            } else {
                *old(self)
            },
    {
        let done: bool = match *self {
            HttpBulkState::Sending { remaining } => remaining == 0,
            HttpBulkState::Idle => false,
        };
        if done {
            *self = HttpBulkState::Idle;
        }
        done
    }
}

/// Count `n` bytes drained by an upload sink.
pub fn sink_count(total: &mut u32, n: usize)
    requires
        n <= u32::MAX,
    ensures
        *final(total) == (*old(total) + n) % 0x1_0000_0000,
{
    *total = total.wrapping_add(n as u32);
}

/// True if an upload sink is to close: the peer has finished, and what it sent is
/// drained.
pub fn sink_close(may_recv: bool, may_send: bool) -> (r: bool)
    ensures
        r == sink_closes(may_recv, may_send),
{
    !may_recv && may_send
}

/// The bytes of a list of sends.
pub open spec fn total_sent(sends: Seq<usize>) -> int
    decreases sends.len(),
{
    if sends.len() == 0 {
        0
    } else {
        total_sent(sends.drop_last()) + sends.last()
    }
}

/// The state of a download after a list of sends, from its request on.
pub open spec fn lan_after(sends: Seq<usize>) -> LanHttp
    decreases sends.len(),
{
    if sends.len() == 0 {
        LanHttp::Bulk { remaining: LAN_BULK_BYTES, header_sent: true }
    } else {
        lan_sent(lan_after(sends.drop_last()), sends.last())
    }
}

/// A download is complete exactly when its whole length has been sent, however the socket
/// divides it up.
pub proof fn lemma_download_is_whole(sends: Seq<usize>)
    requires
        total_sent(sends) <= LAN_BULK_BYTES,
    ensures
        lan_after(sends) == (LanHttp::Bulk {
            remaining: (LAN_BULK_BYTES - total_sent(sends)) as usize,
            header_sent: true,
        }),
        lan_done(lan_after(sends)) <==> total_sent(sends) == LAN_BULK_BYTES,
        total_sent(sends) >= 0,
    decreases sends.len(),
{
    if sends.len() > 0 {
        lemma_download_is_whole(sends.drop_last());
    }
}

/// A request for the download begins with the nine characters `GET /bulk`, and no other
/// does.
pub proof fn lemma_bulk_request(req: Seq<u8>)
    ensures
        asks_bulk(req) <==> req.len() >= 9 && req[0] == 'G' as u8 && req[1] == 'E' as u8 && req[2]
            == 'T' as u8 && req[3] == ' ' as u8 && req[4] == '/' as u8 && req[5] == 'b' as u8
            && req[6] == 'u' as u8 && req[7] == 'l' as u8 && req[8] == 'k' as u8,
{
    if req.len() >= 9 {
        let h = req.take(9);
        assert(h[0] == req[0] && h[1] == req[1] && h[2] == req[2] && h[3] == req[3] && h[4]
            == req[4] && h[5] == req[5] && h[6] == req[6] && h[7] == req[7] && h[8] == req[8]);
        if req[0] == 0x47 && req[1] == 0x45 && req[2] == 0x54 && req[3] == 0x20 && req[4] == 0x2f
            && req[5] == 0x62 && req[6] == 0x75 && req[7] == 0x6c && req[8] == 0x6b {
            assert(h =~= bulk_path());
        }
    }
}

/// How a poll begins. A closed socket listens again, and a download in flight on it is
/// forgotten. On an open one a request is read where no download is in flight; else its
/// header goes out once, as soon as the socket can send, and then the chunks.
pub proof fn lemma_poll(s: LanHttp, is_open: bool, can_send: bool)
    ensures
        ({
            let (t, action) = lan_next(s, is_open, can_send);
            &&& action == LanHttpAction::Listen <==> !is_open
            &&& !is_open ==> t == LanHttp::Idle
            &&& action == LanHttpAction::ReadRequest <==> is_open && s == LanHttp::Idle
            &&& is_open && s == LanHttp::Idle ==> t == LanHttp::Idle
            &&& is_open ==> (s matches LanHttp::Bulk { remaining, header_sent } ==> {
                &&& t == (LanHttp::Bulk { remaining, header_sent: header_sent || can_send })
                &&& header_sent ==> action == LanHttpAction::Stream
                &&& !header_sent && can_send ==> action == LanHttpAction::SendHeader
                &&& !header_sent && !can_send ==> action == LanHttpAction::Wait
            })
        }),
{
}

/// How a request is answered: the download of 8388608 bytes where it is asked for, else the
/// status page if the socket can send; where nothing has arrived, not at all.
pub proof fn lemma_request(s: LanHttp, req: Seq<u8>, can_send: bool)
    ensures
        ({
            let (t, action) = routed_request(s, req, can_send);
            &&& action == RequestAction::StartBulk <==> asks_bulk(req)
            &&& asks_bulk(req) ==> t == (LanHttp::Bulk {
                remaining: 8_388_608,
                header_sent: false,
            })
            &&& !asks_bulk(req) ==> t == s
            &&& action == RequestAction::SendPage <==> req.len() > 0 && !asks_bulk(req) && can_send
        }),
{
}

/// A chunk is sent while anything is left and the socket can send: 1024 bytes, or what is
/// left.
pub proof fn lemma_chunk(remaining: usize, can_send: bool)
    ensures
        next_chunk(remaining, can_send) is Some <==> remaining > 0 && can_send,
        next_chunk(remaining, can_send) matches Some(n) ==> 0 < n <= 1024 && n <= remaining && (n
            == remaining || n == 1024),
{
}

/// What the socket took is no longer to be sent, and a download ends when nothing is left.
pub proof fn lemma_sent(remaining: usize, header_sent: bool, n: usize)
    requires
        n <= remaining,
    ensures
        lan_sent(LanHttp::Bulk { remaining, header_sent }, n) == (LanHttp::Bulk {
            remaining: (remaining - n) as usize,
            header_sent,
        }),
        lan_done(LanHttp::Bulk { remaining, header_sent }) <==> remaining == 0,
        !lan_done(LanHttp::Idle),
{
}

/// How a poll of the wired download begins.
pub open spec fn bulk_next(s: HttpBulkState, is_open: bool, can_send: bool) -> (
    HttpBulkState,
    BulkAction,
) {
    if !is_open {
        (HttpBulkState::Idle, BulkAction::Listen)
    } else {
        match s {
            HttpBulkState::Idle => if can_send {
                (HttpBulkState::Sending { remaining: HTTP_BULK_BYTES }, BulkAction::SendHeader)
            } else {
                (s, BulkAction::Drain)
            },
            HttpBulkState::Sending { .. } => (s, BulkAction::Stream),
        }
    }
}

/// The wired download: a closed socket listens again; the header of the download of 1048576
/// bytes goes out once the socket can send, and then the chunks. What is received is
/// discarded whenever the socket is open.
pub proof fn lemma_bulk_poll(s: HttpBulkState, is_open: bool, can_send: bool)
    ensures
        ({
            let (t, action) = bulk_next(s, is_open, can_send);
            &&& action == BulkAction::Listen <==> !is_open
            &&& !is_open ==> t == HttpBulkState::Idle
            &&& action == BulkAction::SendHeader <==> is_open && s == HttpBulkState::Idle
                && can_send
            &&& action == BulkAction::SendHeader ==> t == (HttpBulkState::Sending {
                remaining: 1_048_576,
            })
            &&& action == BulkAction::Stream <==> is_open && s != HttpBulkState::Idle
            &&& action == BulkAction::Stream || action == BulkAction::Drain ==> t == s
        }),
{
}

/// The wired download after the socket took some bytes, and whether another chunk may
/// follow.
pub open spec fn bulk_sent(s: HttpBulkState, sent: usize) -> (HttpBulkState, bool) {
    match s {
        HttpBulkState::Sending { remaining } => (
            HttpBulkState::Sending { remaining: (remaining - sent) as usize },
            sent > 0,
        ),
        HttpBulkState::Idle => (s, false),
    }
}

/// What the socket took of the wired download is no longer to be sent; one that takes
/// nothing has had enough for now.
pub proof fn lemma_bulk_sent(remaining: usize, sent: usize)
    requires
        sent <= remaining,
    ensures
        bulk_sent(HttpBulkState::Sending { remaining }, sent).0 == (HttpBulkState::Sending {
            remaining: (remaining - sent) as usize,
        }),
        bulk_sent(HttpBulkState::Sending { remaining }, sent).1 <==> sent > 0,
        bulk_sent(HttpBulkState::Idle, sent) == (HttpBulkState::Idle, false),
{
}

/// An upload sink closes its side.
pub open spec fn sink_closes(may_recv: bool, may_send: bool) -> bool {
    !may_recv && may_send
}

/// A sink closes exactly where nothing more can come and it has not closed yet.
pub proof fn lemma_sink_closes(may_recv: bool, may_send: bool)
    ensures
        may_recv ==> !sink_closes(may_recv, may_send),
        !may_recv ==> sink_closes(may_recv, may_send) == may_send,
{
}

} // verus!
