//! The sources that bytes come from and the sinks that they go to.
//!
//! Each endpoint has a history: the calls made on it so far, each with what it
//! answered. The history is an account that exists in proofs only. It takes no
//! outcome for granted, so it can be kept of any implementation, and contracts
//! over it say which calls were made, with which bytes, in which order. No program
//! evaluates it: an implementation outside proofs gives it a body that is never run.

use vstd::prelude::*;

verus! {

/// What happened to a source: a call, with its answer.
pub enum SourceEvent<X> {
    /// The source was made to hand out these bytes. The history of a source that knows its
    /// bytes beforehand starts so; no call adds this event.
    Opened { data: Seq<u8> },
    /// Some bytes were asked for, at most `limit`.
    Read { limit: nat, outcome: Result<Seq<u8>, X> },
    /// Exactly `len` bytes were asked for.
    ReadExact { len: nat, outcome: Result<Seq<u8>, X> },
}

/// What happened to a source of lines: a call, with its answer.
pub enum LineEvent<X> {
    /// The source was made to hand out these bytes. The history of a source that knows its
    /// bytes beforehand starts so; no call adds this event.
    Opened { data: Seq<u8> },
    /// The bytes up to and including a delimiter were asked for.
    ReadUntil { delimiter: u8, outcome: Result<Seq<u8>, X> },
}

/// What became of a buffer in a read: what it held before and what it held afterwards.
pub struct BufferUse {
    pub given: Seq<u8>,
    pub left: Seq<u8>,
}

/// A call that a sink can get.
pub enum SinkCall {
    /// Take all of these bytes.
    Write(Seq<u8>),
    /// Pass on what was taken.
    Flush,
}

/// A call on a sink, with its answer.
pub struct SinkEvent<X> {
    pub call: SinkCall,
    pub outcome: Result<(), X>,
}

/// The calls made on a source of bytes.
pub type SourceHistory<X> = Seq<SourceEvent<X>>;

/// The calls made on a source of lines.
pub type LineHistory<X> = Seq<LineEvent<X>>;

/// The calls made on a sink.
pub type SinkHistory<X> = Seq<SinkEvent<X>>;

/// A bound on a number of bytes.
pub type ByteBound = nat;

/// What a read into a buffer answered, given what the buffer holds afterwards.
pub open spec fn read_outcome<X>(result: Result<usize, X>, buffer: Seq<u8>) -> Result<Seq<u8>, X> {
    match result {
        Ok(count) => Ok(buffer.take(count as int)),
        Err(error) => Err(error),
    }
}

/// What a read that fills its buffer answered.
pub open spec fn read_exact_outcome<X>(result: Result<(), X>, buffer: Seq<u8>) -> Result<
    Seq<u8>,
    X,
> {
    match result {
        Ok(_) => Ok(buffer),
        Err(error) => Err(error),
    }
}

/// What a read that appends to a buffer answered.
pub open spec fn appended_outcome<X>(
    result: Result<usize, X>,
    before: Seq<u8>,
    after: Seq<u8>,
) -> Result<Seq<u8>, X> {
    match result {
        Ok(_) => Ok(after.skip(before.len() as int)),
        Err(error) => Err(error),
    }
}

/// The delimiter occurs nowhere but at the end.
pub open spec fn is_single_line(line: Seq<u8>, delimiter: u8) -> bool {
    forall|i: int| 0 <= i < line.len() - 1 ==> #[trigger] line[i] != delimiter
}

/// Something that bytes are read from.
pub trait ByteSource<X> {
    /// The calls made so far.
    spec fn history(&self) -> SourceHistory<X>;

    /// A bound on the bytes still to come, along which loops over the source
    /// descend. A loop over a source that never ends does not return.
    spec fn unread(&self) -> ByteBound;

    /// What became of the buffer in the last `read`. What a source puts behind the bytes
    /// that it hands out, and what it does to the buffer where it fails, is left to it.
    spec fn last_buffer(&self) -> BufferUse;

    /// Puts some bytes at the front of the buffer and says how many. None, for a
    /// buffer that has room, means that the source is at its end.
    fn read(&mut self, buffer: &mut [u8]) -> (result: Result<usize, X>)
        ensures
            final(buffer)@.len() == old(buffer)@.len(),
            result matches Ok(count) ==> {
                &&& count <= old(buffer)@.len()
                &&& final(self).unread() + count <= old(self).unread()
            },
            final(self).history() == old(self).history().push(
                SourceEvent::Read {
                    limit: old(buffer)@.len(),
                    outcome: read_outcome(result, final(buffer)@),
                },
            ),
            final(self).last_buffer() == (BufferUse {
                given: old(buffer)@,
                left: final(buffer)@,
            }),
    ;

    /// Fills the whole buffer, or fails.
    fn read_exact(&mut self, buffer: &mut [u8]) -> (result: Result<(), X>)
        ensures
            final(buffer)@.len() == old(buffer)@.len(),
            result is Ok ==> final(self).unread() + old(buffer)@.len() <= old(self).unread(),
            final(self).history() == old(self).history().push(
                SourceEvent::ReadExact {
                    len: old(buffer)@.len(),
                    outcome: read_exact_outcome(result, final(buffer)@),
                },
            ),
    ;
}

/// Something that lines are read from.
pub trait LineSource<X> {
    /// The calls made so far.
    spec fn history(&self) -> LineHistory<X>;

    /// A bound on the bytes still to come, along which loops over the source
    /// descend. A loop over a source that never ends does not return.
    spec fn unread(&self) -> ByteBound;

    /// Appends the bytes up to and including the next delimiter, or up to the end
    /// of the source, and says how many. None means that the source is at its end.
    fn read_until(&mut self, delimiter: u8, line: &mut Vec<u8>) -> (result: Result<usize, X>)
        ensures
            result matches Ok(count) ==> {
                &&& old(line)@.is_prefix_of(final(line)@)
                &&& final(line)@.len() == old(line)@.len() + count
                &&& is_single_line(final(line)@.skip(old(line)@.len() as int), delimiter)
                &&& final(self).unread() + count <= old(self).unread()
            },
            final(self).history() == old(self).history().push(
                LineEvent::ReadUntil {
                    delimiter,
                    outcome: appended_outcome(result, old(line)@, final(line)@),
                },
            ),
    ;
}

/// Something that bytes are written to.
pub trait ByteSink<X> {
    /// The calls made so far.
    spec fn history(&self) -> SinkHistory<X>;

    /// Takes all of the bytes, or fails.
    fn write_all(&mut self, bytes: &[u8]) -> (result: Result<(), X>)
        ensures
            final(self).history() == old(self).history().push(
                SinkEvent { call: SinkCall::Write(bytes@), outcome: result },
            ),
    ;

    /// Passes on what was taken, or fails.
    fn flush(&mut self) -> (result: Result<(), X>)
        ensures
            final(self).history() == old(self).history().push(
                SinkEvent { call: SinkCall::Flush, outcome: result },
            ),
    ;
}

/// The pieces, one after the other.
pub open spec fn joined(pieces: Seq<Seq<u8>>) -> Seq<u8>
    decreases pieces.len(),
{
    if pieces.len() == 0 {
        Seq::empty()
    } else {
        joined(pieces.drop_last()) + pieces.last()
    }
}

/// The bytes that a source handed out over these calls.
pub open spec fn handed_out<X>(events: Seq<SourceEvent<X>>) -> Seq<u8>
    decreases events.len(),
{
    if events.len() == 0 {
        Seq::empty()
    } else {
        let before = handed_out(events.drop_last());
        match events.last() {
            SourceEvent::Read { outcome: Ok(bytes), .. } => before + bytes,
            SourceEvent::ReadExact { outcome: Ok(bytes), .. } => before + bytes,
            _ => before,
        }
    }
}

/// The bytes that a source of lines handed out over these calls.
pub open spec fn lines_handed_out<X>(events: Seq<LineEvent<X>>) -> Seq<u8>
    decreases events.len(),
{
    if events.len() == 0 {
        Seq::empty()
    } else {
        let before = lines_handed_out(events.drop_last());
        match events.last() {
            LineEvent::ReadUntil { outcome: Ok(bytes), .. } => before + bytes,
            _ => before,
        }
    }
}

/// The bytes of the writes that a sink accepted over these calls.
pub open spec fn accepted<X>(events: Seq<SinkEvent<X>>) -> Seq<u8>
    decreases events.len(),
{
    if events.len() == 0 {
        Seq::empty()
    } else {
        let before = accepted(events.drop_last());
        match (events.last().call, events.last().outcome) {
            (SinkCall::Write(bytes), Ok(_)) => before + bytes,
            _ => before,
        }
    }
}

/// These calls, each of which succeeds.
pub open spec fn all_accepted<X>(calls: Seq<SinkCall>) -> Seq<SinkEvent<X>> {
    Seq::new(calls.len(), |i: int| SinkEvent { call: calls[i], outcome: Ok(()) })
}

/// These calls up to number `step`, which is the first to fail and the last to be made.
pub open spec fn failed_at<X>(calls: Seq<SinkCall>, step: int, error: X) -> Seq<SinkEvent<X>> {
    all_accepted(calls.take(step)).push(SinkEvent { call: calls[step], outcome: Err(error) })
}

/// The calls that bring bytes to a sink and on to its reader.
pub open spec fn delivery_calls(bytes: Seq<u8>) -> Seq<SinkCall> {
    seq![SinkCall::Write(bytes), SinkCall::Flush]
}

/// Writes the bytes and flushes the sink, in this order, and stops at a failure.
pub fn deliver<X, W: ByteSink<X>>(sink: &mut W, bytes: &[u8]) -> (result: Result<(), X>)
    ensures
        match result {
            Ok(_) => final(sink).history() == old(sink).history() + all_accepted(
                delivery_calls(bytes@),
            ),
            Err(error) => exists|step: int|
                0 <= step < 2 && final(sink).history() == old(sink).history() + #[trigger] failed_at(
                    delivery_calls(bytes@),
                    step,
                    error,
                ),
        },
{
    let ghost start = sink.history();
    let ghost calls = delivery_calls(bytes@);
    match sink.write_all(bytes) {
        Ok(unit) => {
            assert(unit == ());
        },
        Err(error) => {
            assert(sink.history() =~= start + failed_at(calls, 0, error));
            return Err(error);
        },
    }
    assert(sink.history() =~= start + all_accepted(calls.take(1)));
    match sink.flush() {
        Ok(unit) => {
            assert(unit == ());
        },
        Err(error) => {
            assert(sink.history() =~= start + failed_at(calls, 1, error));
            return Err(error);
        },
    }
    assert(sink.history() =~= start + all_accepted(calls));
    Ok(())
}

/// One more piece comes last.
pub proof fn lemma_joined_push(pieces: Seq<Seq<u8>>, piece: Seq<u8>)
    ensures
        joined(pieces.push(piece)) == joined(pieces) + piece,
{
    assert(pieces.push(piece).drop_last() =~= pieces);
}

/// Two stretches of pieces come one after the other.
pub proof fn lemma_joined_append(first: Seq<Seq<u8>>, second: Seq<Seq<u8>>)
    ensures
        joined(first + second) == joined(first) + joined(second),
    decreases second.len(),
{
    if second.len() == 0 {
        assert(first + second =~= first);
        assert(joined(first) + joined(second) =~= joined(first));
    } else {
        lemma_joined_append(first, second.drop_last());
        assert((first + second).drop_last() =~= first + second.drop_last());
        assert(joined(first + second) =~= joined(first) + joined(second));
    }
}

/// What was handed out over two stretches of calls comes in their order.
pub proof fn lemma_handed_out_append<X>(first: Seq<SourceEvent<X>>, second: Seq<SourceEvent<X>>)
    ensures
        handed_out(first + second) == handed_out(first) + handed_out(second),
    decreases second.len(),
{
    if second.len() == 0 {
        assert(first + second =~= first);
        assert(handed_out(first) + handed_out(second) =~= handed_out(first));
    } else {
        lemma_handed_out_append(first, second.drop_last());
        assert((first + second).drop_last() =~= first + second.drop_last());
        assert(handed_out(first + second) =~= handed_out(first) + handed_out(second));
    }
}

/// What was accepted over two stretches of calls comes in their order.
pub proof fn lemma_accepted_append<X>(first: Seq<SinkEvent<X>>, second: Seq<SinkEvent<X>>)
    ensures
        accepted(first + second) == accepted(first) + accepted(second),
    decreases second.len(),
{
    if second.len() == 0 {
        assert(first + second =~= first);
        assert(accepted(first) + accepted(second) =~= accepted(first));
    } else {
        lemma_accepted_append(first, second.drop_last());
        assert((first + second).drop_last() =~= first + second.drop_last());
        assert(accepted(first + second) =~= accepted(first) + accepted(second));
    }
}

/// A delivery that succeeds hands over its bytes; one that fails does so unless it was
/// the write that failed.
pub proof fn lemma_delivery_accepted<X>(bytes: Seq<u8>)
    ensures
        accepted(all_accepted::<X>(delivery_calls(bytes))) == bytes,
        forall|error: X|
            accepted(
                #[trigger] failed_at(delivery_calls(bytes), 0, error),
            ) == Seq::<u8>::empty(),
        forall|error: X|
            accepted(
                #[trigger] failed_at(delivery_calls(bytes), 1, error),
            ) == bytes,
{
    reveal_with_fuel(accepted, 3);
    let calls = delivery_calls(bytes);
    let all = all_accepted::<X>(calls);
    let write = all_accepted::<X>(calls.take(1));
    assert(all.drop_last() =~= write);
    assert(write.drop_last() =~= Seq::empty());
    assert(Seq::<u8>::empty() + bytes =~= bytes);
    assert(accepted(write) =~= bytes);
    assert(accepted(all) =~= bytes);
    assert forall|error: X|
        accepted(#[trigger] failed_at(calls, 0, error)) == Seq::<
            u8,
        >::empty() by {
        assert(failed_at(calls, 0, error).drop_last() =~= Seq::empty());
    }
    assert forall|error: X|
        accepted(#[trigger] failed_at(calls, 1, error)) == bytes by {
        assert(failed_at(calls, 1, error).drop_last() =~= write);
    }
}

} // verus!
