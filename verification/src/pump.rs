//! Stream pump: drives a frame assembler and the codec over one of the
//! child's output streams, turning every assembled line into exactly
//! one event. Lines from the primary output stream that decode as
//! responses are published as such; every other line becomes a
//! diagnostic log event. The read loop itself lives with the caller;
//! the pump owns the per-chunk logic and the loop's policy.

use vstd::prelude::*;
use vstd::string::StringSliceAdditionalSpecFns;
use vstd::utf8::encode_utf8;

use crate::codec::{decode_response, spec_decode_response, AgentResponse, RespV};
use crate::frame::{has_nl, processed, raw_lines, tail_bytes, FrameAssembler};

verus! {

/// Which of the child's output streams a line came from.
#[derive(Clone, Copy, Debug, PartialEq, Eq, Structural)]
pub enum StreamSource {
    Stdout,
    Stderr,
}

/// One published event: a decoded protocol response, or a diagnostic
/// line with its origin and the clock reading it was published with.
#[derive(Clone, Debug, PartialEq)]
pub enum Event {
    Response(AgentResponse),
    Log { source: StreamSource, message: String, timestamp: i64 },
}

/// The mathematical shape of an event.
pub enum EventV {
    Response(RespV),
    Log { source: StreamSource, message: Seq<char>, timestamp: int },
}

impl View for Event {
    type V = EventV;

    open spec fn view(&self) -> EventV {
        match self {
            Event::Response(r) => EventV::Response(r@),
            Event::Log { source, message, timestamp } => EventV::Log {
                source: *source,
                message: message@,
                timestamp: *timestamp as int,
            },
        }
    }
}

/// The one event a line maps to: on the primary stream a line that
/// decodes is the response itself and anything else is a log line; on
/// the error stream every line is a log line.
pub open spec fn event_for_line(src: StreamSource, l: Seq<char>, now: int) -> EventV {
    match src {
        StreamSource::Stdout => match spec_decode_response(encode_utf8(l)) {
            Some(v) => EventV::Response(v),
            None => EventV::Log { source: src, message: l, timestamp: now },
        },
        StreamSource::Stderr => EventV::Log { source: src, message: l, timestamp: now },
    }
}

/// The events for a sequence of lines, in order: exactly one per line.
pub open spec fn events_of(src: StreamSource, lines: Seq<Seq<char>>, now: int) -> Seq<EventV> {
    lines.map_values(|l: Seq<char>| event_for_line(src, l, now))
}

/// What the read loop does next, given what the last read returned.
#[derive(Clone, Copy, Debug, PartialEq, Eq, Structural)]
pub enum ReadOutcome {
    Data,
    EndOfStream,
    Fault,
}

#[derive(Clone, Copy, Debug, PartialEq, Eq, Structural)]
pub enum PumpAction {
    Process,
    Stop,
    Retry,
}

/// The pump loop's policy: data is processed, only end-of-stream stops
/// the loop, and a transient read fault is retried.
pub fn on_read_outcome(outcome: ReadOutcome) -> (r: PumpAction)
    ensures
        r == (match outcome {
            ReadOutcome::Data => PumpAction::Process,
            ReadOutcome::EndOfStream => PumpAction::Stop,
            ReadOutcome::Fault => PumpAction::Retry,
        }),
{
    match outcome {
        ReadOutcome::Data => PumpAction::Process,
        ReadOutcome::EndOfStream => PumpAction::Stop,
        ReadOutcome::Fault => PumpAction::Retry,
    }
}

/// One stream's pump: a frame assembler bound to a stream source.
pub struct StreamPump {
    assembler: FrameAssembler,
    source: StreamSource,
}

impl StreamPump {
    /// The bytes buffered while waiting for a terminator.
    pub closed spec fn buffered(&self) -> Seq<u8> {
        self.assembler.buffered()
    }

    /// The ceiling on the buffered bytes.
    pub closed spec fn ceiling(&self) -> usize {
        self.assembler.ceiling()
    }

    /// The stream this pump drains.
    pub closed spec fn src(&self) -> StreamSource {
        self.source
    }

    pub open spec fn wf(&self) -> bool {
        !has_nl(self.buffered())
    }

    pub fn new(source: StreamSource, limit: usize) -> (r: Self)
        ensures
            r.buffered() == Seq::<u8>::empty(),
            r.ceiling() == limit,
            r.src() == source,
            r.wf(),
    {
        StreamPump { assembler: FrameAssembler::new(limit), source }
    }

    /// Feeds one chunk read from the stream; returns one event per
    /// completed line, in order, stamped with the caller's clock
    /// reading, and whether the in-flight buffer overflowed and was
    /// discarded.
    pub fn feed(&mut self, chunk: &[u8], now_ms: i64) -> (r: (Vec<Event>, bool))
        requires
            old(self).wf(),
        ensures
            final(self).wf(),
            final(self).ceiling() == old(self).ceiling(),
            final(self).src() == old(self).src(),
            r.0@.map_values(|e: Event| e@) == events_of(
                old(self).src(),
                processed(raw_lines(old(self).buffered() + chunk@)),
                now_ms as int,
            ),
            r.1 == (tail_bytes(old(self).buffered() + chunk@).len() > old(self).ceiling()),
            final(self).buffered() == if r.1 {
                Seq::<u8>::empty()
            } else {
                tail_bytes(old(self).buffered() + chunk@)
            },
    {
        let (lines, overflow) = self.assembler.feed(chunk);
        let ghost lviews = lines@.map_values(|l: String| l@);
        let src = self.source;
        let mut out: Vec<Event> = Vec::new();
        let n = lines.len();
        let mut i: usize = 0;
        proof {
            assert(lviews.take(0) =~= Seq::<Seq<char>>::empty());
            assert(out@.map_values(|e: Event| e@) =~= events_of(src, lviews.take(0), now_ms as int));
        }
        loop
            invariant
                i <= n == lines@.len(),
                lviews == lines@.map_values(|l: String| l@),
                src == old(self).src(),
                out@.map_values(|e: Event| e@) == events_of(src, lviews.take(i as int), now_ms as int),
            ensures
                out@.map_values(|e: Event| e@) == events_of(src, lviews, now_ms as int),
            decreases n - i,
        {
            if i >= n {
                proof {
                    assert(lviews.take(i as int) =~= lviews);
                }
                break ;
            }
            let line = &lines[i];
            let ev = match src {
                StreamSource::Stdout => match decode_response(line.as_str()) {
                    Some(resp) => Event::Response(resp),
                    None => Event::Log {
                        source: src,
                        message: line.clone(),
                        timestamp: now_ms,
                    },
                },
                StreamSource::Stderr => Event::Log {
                    source: src,
                    message: line.clone(),
                    timestamp: now_ms,
                },
            };
            proof {
                assert(ev@ == event_for_line(src, lviews[i as int], now_ms as int));
            }
            let ghost outold = out@;
            out.push(ev);
            proof {
                assert(lviews.take(i + 1) =~= lviews.take(i as int).push(lviews[i as int]));
                assert(out@ == outold.push(ev));
                assert(outold.map_values(|e: Event| e@).len() == outold.len());
                assert(events_of(src, lviews.take(i as int), now_ms as int).len()
                    == lviews.take(i as int).len());
                let lhs = out@.map_values(|e: Event| e@);
                let rhs = events_of(src, lviews.take(i + 1), now_ms as int);
                assert(lhs.len() == out@.len());
                assert(rhs.len() == lviews.take(i + 1).len());
                assert(lhs.len() == rhs.len());
                assert forall|j: int| 0 <= j < lhs.len() implies lhs[j] == rhs[j] by {
                    assert(lhs[j] == out@[j]@);
                    assert(rhs[j] == event_for_line(
                        src,
                        lviews.take(i + 1)[j],
                        now_ms as int,
                    ));
                    if j < i {
                        assert(out@[j] == outold[j]);
                        assert(outold.map_values(|e: Event| e@)[j] == outold[j]@);
                        assert(lviews.take(i + 1)[j] == lviews.take(i as int)[j]);
                        assert(events_of(src, lviews.take(i as int), now_ms as int)[j]
                            == event_for_line(
                            src,
                            lviews.take(i as int)[j],
                            now_ms as int,
                        ));
                    } else {
                        assert(out@[j] == ev);
                        assert(lviews.take(i + 1)[j] == lviews[i as int]);
                    }
                }
                assert(out@.map_values(|e: Event| e@) =~= events_of(
                    src,
                    lviews.take(i + 1),
                    now_ms as int,
                ));
            }
            i += 1;
        }
        (out, overflow)
    }
}

} // verus!
