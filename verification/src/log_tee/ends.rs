//! The four endpoints of a tee, with one account in time of the calls made on all of them.

use vstd::prelude::*;

use crate::endpoint;
use crate::endpoint::{ByteSink, ByteSource, SinkCall, SinkEvent, SourceEvent};
use crate::log_tee::{ExportChunk, ExportEvent, Exporter, Redaction, Redactor};

verus! {

/// A call on one of the endpoints of a tee, with its answer.
pub enum TeeStep<X> {
    Source(SourceEvent<X>),
    Mirror(SinkEvent<X>),
    Redactor(Redaction),
    Exporter(ExportEvent),
}

/// The calls made through a set of endpoints, in the order in which they were made. It
/// exists in proofs only, and nothing but such a call adds to it.
pub struct TeeTrace<X> {
    steps: Ghost<Seq<TeeStep<X>>>,
}

impl<X> TeeTrace<X> {
    /// The calls so far.
    pub closed spec fn view(&self) -> Seq<TeeStep<X>> {
        self.steps@
    }

    /// Adds a call.
    fn note(&mut self, step: Ghost<TeeStep<X>>)
        ensures
            final(self)@ == old(self)@.push(step@),
    {
        self.steps = Ghost(self.steps@.push(step@));
    }
}

/// These calls on the mirror, as calls of a tee.
pub open spec fn mirror_steps<X>(events: Seq<SinkEvent<X>>) -> Seq<TeeStep<X>> {
    Seq::new(events.len(), |i: int| TeeStep::Mirror(events[i]))
}

/// The calls on the source among these, in order.
pub open spec fn source_events<X>(steps: Seq<TeeStep<X>>) -> Seq<SourceEvent<X>>
    decreases steps.len(),
{
    if steps.len() == 0 {
        Seq::empty()
    } else {
        let before = source_events(steps.drop_last());
        match steps.last() {
            TeeStep::Source(event) => before.push(event),
            _ => before,
        }
    }
}

/// The calls on the mirror among these, in order.
pub open spec fn mirror_events<X>(steps: Seq<TeeStep<X>>) -> Seq<SinkEvent<X>>
    decreases steps.len(),
{
    if steps.len() == 0 {
        Seq::empty()
    } else {
        let before = mirror_events(steps.drop_last());
        match steps.last() {
            TeeStep::Mirror(event) => before.push(event),
            _ => before,
        }
    }
}

/// The calls on an endpoint over two stretches of calls come in their order.
pub proof fn lemma_events_append<X>(first: Seq<TeeStep<X>>, second: Seq<TeeStep<X>>)
    ensures
        source_events(first + second) == source_events(first) + source_events(second),
        mirror_events(first + second) == mirror_events(first) + mirror_events(second),
    decreases second.len(),
{
    if second.len() == 0 {
        assert(first + second =~= first);
        assert(source_events(first) + source_events(second) =~= source_events(first));
        assert(mirror_events(first) + mirror_events(second) =~= mirror_events(first));
    } else {
        lemma_events_append(first, second.drop_last());
        assert((first + second).drop_last() =~= first + second.drop_last());
        assert(source_events(first + second) =~= source_events(first) + source_events(second));
        assert(mirror_events(first + second) =~= mirror_events(first) + mirror_events(second));
    }
}

/// The endpoints of a tee, borrowed for its run. Each method makes one call, or the two
/// calls of a delivery, on one endpoint, and leaves the others alone.
pub struct TeeEnds<'a, X, R: ByteSource<X>, W: ByteSink<X>, F: Redactor, E: Exporter> {
    pub reader: &'a mut R,
    pub mirror: &'a mut W,
    pub redact: &'a mut F,
    pub export: &'a mut E,
    pub trace: TeeTrace<X>,
}

impl<'a, X, R: ByteSource<X>, W: ByteSink<X>, F: Redactor, E: Exporter> TeeEnds<
    'a,
    X,
    R,
    W,
    F,
    E,
> {
    /// These endpoints, with no call made yet.
    pub fn new(
        reader: &'a mut R,
        mirror: &'a mut W,
        redact: &'a mut F,
        export: &'a mut E,
    ) -> (ends: TeeEnds<'a, X, R, W, F, E>)
        ensures
            ends.trace@ == Seq::<TeeStep<X>>::empty(),
            *ends.reader == *old(reader),
            *ends.mirror == *old(mirror),
            *ends.redact == *old(redact),
            *ends.export == *old(export),
            *final(ends.reader) == *final(reader),
            *final(ends.mirror) == *final(mirror),
            *final(ends.redact) == *final(redact),
            *final(ends.export) == *final(export),
    {
        TeeEnds { reader, mirror, redact, export, trace: TeeTrace { steps: Ghost(Seq::empty()) } }
    }

    /// Reads from the source.
    pub fn read(&mut self, buffer: &mut [u8]) -> (result: Result<usize, X>)
        ensures
            ({
                let event = SourceEvent::Read {
                    limit: old(buffer)@.len(),
                    outcome: endpoint::read_outcome(result, final(buffer)@),
                };
                &&& final(self).reader.history() == old(self).reader.history().push(event)
                &&& final(self).trace@ == old(self).trace@.push(TeeStep::Source(event))
            }),
            final(buffer)@.len() == old(buffer)@.len(),
            result matches Ok(count) ==> count <= old(buffer)@.len(),
            *final(self).mirror == *old(self).mirror,
            *final(self).redact == *old(self).redact,
            *final(self).export == *old(self).export,
            *final(final(self).reader) == *final(old(self).reader),
            *final(final(self).mirror) == *final(old(self).mirror),
            *final(final(self).redact) == *final(old(self).redact),
            *final(final(self).export) == *final(old(self).export),
    {
        let ghost limit = buffer@.len();
        let result = self.reader.read(buffer);
        let ghost event = SourceEvent::Read {
            limit,
            outcome: endpoint::read_outcome(result, buffer@),
        };
        self.trace.note(Ghost(TeeStep::Source(event)));
        result
    }

    /// Flushes the mirror.
    pub fn flush(&mut self) -> (result: Result<(), X>)
        ensures
            ({
                let event = SinkEvent { call: SinkCall::Flush, outcome: result };
                &&& final(self).mirror.history() == old(self).mirror.history().push(event)
                &&& final(self).trace@ == old(self).trace@.push(TeeStep::Mirror(event))
            }),
            *final(self).reader == *old(self).reader,
            *final(self).redact == *old(self).redact,
            *final(self).export == *old(self).export,
            *final(final(self).reader) == *final(old(self).reader),
            *final(final(self).mirror) == *final(old(self).mirror),
            *final(final(self).redact) == *final(old(self).redact),
            *final(final(self).export) == *final(old(self).export),
    {
        let result = self.mirror.flush();
        let ghost event = SinkEvent { call: SinkCall::Flush, outcome: result };
        self.trace.note(Ghost(TeeStep::Mirror(event)));
        result
    }

    /// Writes to the mirror.
    pub fn write_all(&mut self, bytes: &[u8]) -> (result: Result<(), X>)
        ensures
            ({
                let event = SinkEvent { call: SinkCall::Write(bytes@), outcome: result };
                &&& final(self).mirror.history() == old(self).mirror.history().push(event)
                &&& final(self).trace@ == old(self).trace@.push(TeeStep::Mirror(event))
            }),
            *final(self).reader == *old(self).reader,
            *final(self).redact == *old(self).redact,
            *final(self).export == *old(self).export,
            *final(final(self).reader) == *final(old(self).reader),
            *final(final(self).mirror) == *final(old(self).mirror),
            *final(final(self).redact) == *final(old(self).redact),
            *final(final(self).export) == *final(old(self).export),
    {
        let result = self.mirror.write_all(bytes);
        let ghost event = SinkEvent { call: SinkCall::Write(bytes@), outcome: result };
        self.trace.note(Ghost(TeeStep::Mirror(event)));
        result
    }

    /// Writes to the mirror and flushes it, in this order, and stops at a failure.
    pub fn deliver(&mut self, bytes: &[u8]) -> (result: Result<(), X>)
        ensures
            match result {
                Ok(_) => {
                    let events = endpoint::all_accepted(endpoint::delivery_calls(bytes@));
                    &&& final(self).mirror.history() == old(self).mirror.history() + events
                    &&& final(self).trace@ == old(self).trace@ + mirror_steps(events)
                },
                Err(error) => exists|step: int|
                    {
                        let events = #[trigger] endpoint::failed_at(
                            endpoint::delivery_calls(bytes@),
                            step,
                            error,
                        );
                        &&& 0 <= step < 2
                        &&& final(self).mirror.history() == old(self).mirror.history() + events
                        &&& final(self).trace@ == old(self).trace@ + mirror_steps(events)
                    },
            },
            *final(self).reader == *old(self).reader,
            *final(self).redact == *old(self).redact,
            *final(self).export == *old(self).export,
            *final(final(self).reader) == *final(old(self).reader),
            *final(final(self).mirror) == *final(old(self).mirror),
            *final(final(self).redact) == *final(old(self).redact),
            *final(final(self).export) == *final(old(self).export),
    {
        let ghost start = self.mirror.history();
        let ghost trace = self.trace@;
        let ghost calls = endpoint::delivery_calls(bytes@);
        match self.write_all(bytes) {
            Ok(unit) => {
                assert(unit == ());
            },
            Err(error) => {
                proof {
                    let events = endpoint::failed_at(calls, 0, error);
                    assert(self.mirror.history() =~= start + events);
                    assert(self.trace@ =~= trace + mirror_steps(events));
                }
                return Err(error);
            },
        }
        match self.flush() {
            Ok(unit) => {
                assert(unit == ());
            },
            Err(error) => {
                proof {
                    let events = endpoint::failed_at(calls, 1, error);
                    assert(self.mirror.history() =~= start + events);
                    assert(self.trace@ =~= trace + mirror_steps(events));
                }
                return Err(error);
            },
        }
        proof {
            let events = endpoint::all_accepted::<X>(calls);
            assert(self.mirror.history() =~= start + events);
            assert(self.trace@ =~= trace + mirror_steps(events));
        }
        Ok(())
    }

    /// Has a chunk redacted.
    pub fn redact(&mut self, input: &[u8], output: &mut Vec<u8>) -> (changed: bool)
        requires
            old(output)@.len() == 0,
        ensures
            ({
                let event = Redaction { input: input@, output: final(output)@, changed };
                &&& final(self).redact.history() == old(self).redact.history().push(event)
                &&& final(self).trace@ == old(self).trace@.push(TeeStep::<X>::Redactor(event))
            }),
            *final(self).reader == *old(self).reader,
            *final(self).mirror == *old(self).mirror,
            *final(self).export == *old(self).export,
            *final(final(self).reader) == *final(old(self).reader),
            *final(final(self).mirror) == *final(old(self).mirror),
            *final(final(self).redact) == *final(old(self).redact),
            *final(final(self).export) == *final(old(self).export),
    {
        let changed = self.redact.redact(input, output);
        let ghost event = Redaction { input: input@, output: output@, changed };
        self.trace.note(Ghost(TeeStep::Redactor(event)));
        changed
    }

    /// Has a chunk exported.
    pub fn export(&mut self, chunk: ExportChunk<'_>) -> (result: Result<(), ()>)
        ensures
            ({
                let event = ExportEvent { chunk: chunk@, delivered: result is Ok };
                &&& final(self).export.history() == old(self).export.history().push(event)
                &&& final(self).trace@ == old(self).trace@.push(TeeStep::<X>::Exporter(event))
            }),
            *final(self).reader == *old(self).reader,
            *final(self).mirror == *old(self).mirror,
            *final(self).redact == *old(self).redact,
            *final(final(self).reader) == *final(old(self).reader),
            *final(final(self).mirror) == *final(old(self).mirror),
            *final(final(self).redact) == *final(old(self).redact),
            *final(final(self).export) == *final(old(self).export),
    {
        let result = self.export.export(chunk);
        let ghost event = ExportEvent { chunk: chunk@, delivered: result is Ok };
        self.trace.note(Ghost(TeeStep::Exporter(event)));
        result
    }
}

} // verus!
