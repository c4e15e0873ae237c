//! Per-connection logic: head accumulation, the handshake response, and
//! the relay decision.
//!
//! The connection driver outside the library reads bytes from the client
//! socket and hands every chunk to a [`HeadReader`], which accumulates
//! them in a bounded buffer and classifies the result; once the head is
//! complete, the driver writes [`handshake_response`] back, dials the
//! backend, and then runs two copy loops whose per-chunk behaviour is
//! [`relay_step`].

use crate::http::{
    ascii_chars_of, head_complete, head_host, head_incomplete, head_malformed, head_port,
    parse_head, ParseError, ParseHeadResult,
};
use vstd::prelude::*;

verus! {

/// Maximum size of a request head; this bounds per-connection memory and
/// caps abuse from clients that never send a terminator.  CONNECT heads
/// are tiny, so the bound is deliberately low.
pub const MAX_HEAD_SIZE: usize = 1024;

/// A per-connection failure, handled at the connection boundary and never
/// propagated across connections.
#[derive(Clone, Copy, Debug, PartialEq, Eq)]
pub enum ProxyError {
    /// The head breaks the CONNECT grammar.
    MalformedHead(ParseError),
    /// The head grew to the maximum size without completing.
    OversizedHead,
    /// The client hung up before the head completed.
    ClientHangup,
    /// The policy refused the requested target.
    BackendRefused,
    /// The network-level dial of the backend failed.
    BackendDialFailed,
}

/// What a connection should do after feeding newly read bytes to its
/// [`HeadReader`].
#[derive(Debug)]
pub enum HeadProgress {
    /// The bytes so far are a proper prefix of a head: read more.
    NeedMore,
    /// The head is complete; tunnel to this target.
    Complete { host: String, port: u16 },
    /// The head can never complete; fail the connection.
    Failed(ProxyError),
}

/// The accumulation buffer of one connection's head-reading phase.
///
/// Bytes are appended as they arrive and the whole buffer is re-parsed
/// after each append; the parse is a pure function of the buffer, so
/// fragmentation of the input cannot change the outcome.
pub struct HeadReader {
    buf: Vec<u8>,
}

impl HeadReader {
    /// The bytes accumulated so far.
    pub closed spec fn bytes(&self) -> Seq<u8> {
        self.buf@
    }

    /// The buffer never exceeds the maximum head size.
    pub open spec fn wf(&self) -> bool {
        self.bytes().len() <= MAX_HEAD_SIZE
    }

    pub fn new() -> (r: Self)
        ensures
            r.bytes() == Seq::<u8>::empty(),
            r.wf(),
    {
        let buf = Vec::new();
        proof {
            assert(buf@ =~= Seq::<u8>::empty());
        }
        HeadReader { buf }
    }

    /// How many more bytes may be fed before the buffer is full.
    pub fn space_left(&self) -> (n: usize)
        requires
            self.wf(),
        ensures
            n == MAX_HEAD_SIZE - self.bytes().len(),
    {
        MAX_HEAD_SIZE - self.buf.len()
    }

    /// Append newly read bytes and classify the accumulated head.
    ///
    /// A buffer that fills up while still incomplete is reported as
    /// oversized rather than staying incomplete forever.
    pub fn feed(&mut self, chunk: &[u8]) -> (r: HeadProgress)
        requires
            old(self).wf(),
            chunk@.len() <= MAX_HEAD_SIZE - old(self).bytes().len(),
        ensures
            final(self).wf(),
            final(self).bytes() == old(self).bytes() + chunk@,
            match r {
                HeadProgress::NeedMore => head_incomplete(final(self).bytes())
                    && final(self).bytes().len() < MAX_HEAD_SIZE,
                HeadProgress::Complete { host, port } => head_complete(final(self).bytes())
                    && host@ == ascii_chars_of(head_host(final(self).bytes())) && port as nat
                    == head_port(final(self).bytes()),
                HeadProgress::Failed(e) => match e {
                    ProxyError::MalformedHead(_) => head_malformed(final(self).bytes()),
                    ProxyError::OversizedHead => head_incomplete(final(self).bytes())
                        && final(self).bytes().len() == MAX_HEAD_SIZE,
                    _ => false,
                },
            },
    {
        let mut i: usize = 0;
        while i < chunk.len()
            invariant
                i <= chunk@.len(),
                chunk@.len() <= MAX_HEAD_SIZE - old(self).bytes().len(),
                self.buf@ == old(self).bytes() + chunk@.take(i as int),
            decreases chunk@.len() - i,
        {
            self.buf.push(chunk[i]);
            proof {
                assert(old(self).bytes() + chunk@.take(i as int) + seq![chunk@[i as int]]
                    =~= old(self).bytes() + chunk@.take(i + 1));
            }
            i = i + 1;
        }
        proof {
            assert(old(self).bytes() + chunk@.take(chunk@.len() as int) =~= old(self).bytes()
                + chunk@);
        }
        match parse_head(self.buf.as_slice()) {
            ParseHeadResult::Connect { host, port } => HeadProgress::Complete { host, port },
            ParseHeadResult::Malformed(e) => HeadProgress::Failed(ProxyError::MalformedHead(e)),
            ParseHeadResult::Incomplete => {
                if self.buf.len() == MAX_HEAD_SIZE {
                    HeadProgress::Failed(ProxyError::OversizedHead)
                } else {
                    HeadProgress::NeedMore
                }
            },
        }
    }
}

/// The byte sequence `"HTTP/1.1 200 OK\r\n\r\n"`: the exact, header-free
/// success line a client is sent once its CONNECT head has been accepted.
pub open spec fn handshake_response_bytes() -> Seq<u8> {
    seq![
        72u8,
        84u8,
        84u8,
        80u8,
        47u8,
        49u8,
        46u8,
        49u8,
        32u8,
        50u8,
        48u8,
        48u8,
        32u8,
        79u8,
        75u8,
        13u8,
        10u8,
        13u8,
        10u8,
    ]
}

/// The success response written to the client after a complete head.
pub fn handshake_response() -> (v: Vec<u8>)
    ensures
        v@ == handshake_response_bytes(),
{
    let mut v: Vec<u8> = Vec::new();
    v.push(72);
    v.push(84);
    v.push(84);
    v.push(80);
    v.push(47);
    v.push(49);
    v.push(46);
    v.push(49);
    v.push(32);
    v.push(50);
    v.push(48);
    v.push(48);
    v.push(32);
    v.push(79);
    v.push(75);
    v.push(13);
    v.push(10);
    v.push(13);
    v.push(10);
    proof {
        assert(v@ =~= handshake_response_bytes());
    }
    v
}

/// What one relay direction does after a read.
#[derive(Debug)]
pub enum RelayAction {
    /// The source reached EOF: half-close the write side of the opposite
    /// socket, and end this direction only.
    HalfClose,
    /// Write exactly these bytes to the opposite socket, in order.
    Forward(Vec<u8>),
}

/// Decide one step of a relay copy loop: a read of `n` bytes into the
/// front of `buf`.  A zero-length read means EOF and becomes an explicit
/// half-close of the opposite write half; otherwise the bytes read are
/// forwarded unchanged and in order, so each direction preserves strict
/// FIFO byte-stream semantics.
pub fn relay_step(buf: &[u8], n: usize) -> (a: RelayAction)
    requires
        n <= buf@.len(),
    ensures
        match a {
            RelayAction::HalfClose => n == 0,
            RelayAction::Forward(data) => n > 0 && data@ == buf@.take(n as int),
        },
{
    if n == 0 {
        RelayAction::HalfClose
    } else {
        let data = vstd::slice::slice_to_vec(vstd::slice::slice_subrange(buf, 0, n));
        proof {
            assert(buf@.subrange(0, n as int) =~= buf@.take(n as int));
        }
        RelayAction::Forward(data)
    }
}

} // verus!
