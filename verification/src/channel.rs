//! Request channel: the decision logic of the single writer to the
//! child's input stream. The caller holds the lock and performs the
//! actual write; the channel decides what bytes go on the wire, tracks
//! whether the pipe is severed, and classifies write failures.

use vstd::prelude::*;

use crate::codec::{encode_request, lemma_encode_request_no_nl, spec_encode_request, AgentRequest,
    ReqV};
use crate::frame::{lemma_no_nl, lemma_split_first, raw_lines, tail_bytes};

verus! {

/// Why a send failed: the pipe to the child is severed, or some other
/// input/output fault occurred, with its rendered cause.
#[derive(Clone, Debug, PartialEq)]
pub enum SendError {
    ChannelClosed,
    WriteFailure { cause: String },
}

/// What the caller observed when it wrote and flushed a line.
#[derive(Clone, Debug, PartialEq)]
pub enum WriteOutcome {
    Wrote,
    BrokenPipe,
    Fault { cause: String },
}

/// The bytes one request puts on the wire: its encoding and the frame
/// terminator.
pub open spec fn wire_line(v: ReqV) -> Seq<u8> {
    spec_encode_request(v) + seq![10u8]
}

/// No cross-talk on write: when two whole wire lines stand on the
/// stream one after the other, the receiver frames them back as exactly
/// the two encoded requests, in that order, with nothing left over.
/// Writes are serialized whole, so any interleaving of two sends is one
/// of the two orders this describes.
pub proof fn lemma_no_interleaving(a: ReqV, b: ReqV)
    ensures
        raw_lines(wire_line(a) + wire_line(b)) == seq![
            spec_encode_request(a),
            spec_encode_request(b),
        ],
        tail_bytes(wire_line(a) + wire_line(b)) == Seq::<u8>::empty(),
{
    let ea = spec_encode_request(a);
    let eb = spec_encode_request(b);
    let s = wire_line(a) + wire_line(b);
    lemma_encode_request_no_nl(a);
    lemma_encode_request_no_nl(b);
    assert(s.len() == ea.len() + eb.len() + 2);
    assert(s[ea.len() as int] == 10);
    assert(forall|j: int| 0 <= j < ea.len() ==> s[j] == ea[j]);
    lemma_split_first(s, ea.len() as int);
    assert(s.subrange(0, ea.len() as int) =~= ea);
    let s2 = s.subrange(ea.len() as int + 1, s.len() as int);
    assert(s2 =~= eb + seq![10u8]);
    assert(s2[eb.len() as int] == 10);
    assert(forall|j: int| 0 <= j < eb.len() ==> s2[j] == eb[j]);
    lemma_split_first(s2, eb.len() as int);
    assert(s2.subrange(0, eb.len() as int) =~= eb);
    let s3 = s2.subrange(eb.len() as int + 1, s2.len() as int);
    assert(s3 =~= Seq::<u8>::empty());
    lemma_no_nl(s3);
    assert(raw_lines(s) =~= seq![ea, eb]);
    assert(tail_bytes(s) =~= Seq::<u8>::empty());
}

/// The channel's state: whether the pipe to the child is known to be
/// severed. Once severed it stays severed until a new child is spawned
/// (a new channel).
pub struct RequestChannel {
    severed: bool,
}

impl RequestChannel {
    /// Whether the pipe is known to be severed.
    pub closed spec fn is_severed(&self) -> bool {
        self.severed
    }

    pub fn new() -> (r: Self)
        ensures
            !r.is_severed(),
    {
        RequestChannel { severed: false }
    }

    /// The bytes to write for one request, as one whole line, or
    /// nothing when the pipe is already severed: then the send fails
    /// with [`SendError::ChannelClosed`] without touching the wire.
    pub fn prepare_send(&self, req: &AgentRequest) -> (r: Option<Vec<u8>>)
        ensures
            match r {
                Some(bytes) => !self.is_severed() && bytes@ == wire_line(req@),
                None => self.is_severed(),
            },
    {
        if self.severed {
            return None;
        }
        let mut line = encode_request(req);
        line.push(10);
        proof {
            assert(line@ =~= wire_line(req@));
        }
        Some(line)
    }

    /// Records what the write observed and classifies it: a severed
    /// pipe marks the channel closed and reports `ChannelClosed`; any
    /// other fault reports `WriteFailure` with its cause and leaves the
    /// channel open; a completed write is acknowledged.
    pub fn record_outcome(&mut self, outcome: WriteOutcome) -> (r: Result<(), SendError>)
        ensures
            match outcome {
                WriteOutcome::Wrote => r is Ok && final(self).is_severed() == old(
                    self,
                ).is_severed(),
                WriteOutcome::BrokenPipe => r == Result::<(), SendError>::Err(
                    SendError::ChannelClosed,
                ) && final(self).is_severed(),
                WriteOutcome::Fault { cause } => r == Result::<(), SendError>::Err(
                    (SendError::WriteFailure { cause }),
                ) && final(self).is_severed() == old(self).is_severed(),
            },
    {
        match outcome {
            WriteOutcome::Wrote => Ok(()),
            WriteOutcome::BrokenPipe => {
                self.severed = true;
                Err(SendError::ChannelClosed)
            },
            WriteOutcome::Fault { cause } => Err(SendError::WriteFailure { cause }),
        }
    }

    /// A send on a severed channel: the error every later send gets
    /// until a new child is spawned.
    pub fn severed_error(&self) -> (r: SendError)
        requires
            self.is_severed(),
        ensures
            r == SendError::ChannelClosed,
    {
        SendError::ChannelClosed
    }
}

} // verus!
