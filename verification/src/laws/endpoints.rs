//! Laws of single deliveries, and of the measures that other laws are stated in.

use vstd::prelude::*;
use vstd::string::*;

use crate::endpoint;
use crate::endpoint::{deliver, ByteSink, LineEvent, SinkCall, SinkEvent, SourceEvent};
use crate::laws;
use crate::log_tee::LogStream;
use crate::pipe;
use crate::pipe::metadata;
use crate::pipe::metadata::show_line;
use crate::pipe::{route, Delivery};

verus! {

/// A delivery is a write of the very bytes and then a flush. It fails with the first of the
/// two that fails, and makes no call after that.
pub proof fn law_delivery_is_write_and_flush<X, W: ByteSink<X>>(
    sink: &mut W,
    bytes: &[u8],
    result: Result<(), X>,
)
    requires
        call_ensures(deliver::<X, W>, (sink, bytes), result),
    ensures
        ({
            let calls = laws::added(old(sink).history(), final(sink).history());
            let written = SinkEvent::<X> { call: SinkCall::Write(bytes@), outcome: Ok(()) };
            let flushed = SinkEvent::<X> { call: SinkCall::Flush, outcome: Ok(()) };
            match result {
                Ok(_) => calls == seq![written, flushed],
                Err(error) => {
                    ||| calls == seq![SinkEvent { outcome: Err(error), ..written }]
                    ||| calls == seq![written, SinkEvent { outcome: Err(error), ..flushed }]
                },
            }
        }),
        old(sink).history().is_prefix_of(final(sink).history()),
{
    let before = old(sink).history();
    lemma_delivery_events::<X>(bytes@);
    match result {
        Ok(_) => {
            laws::lemma_added(
                before,
                endpoint::all_accepted::<X>(endpoint::delivery_calls(bytes@)),
            );
        },
        Err(error) => {
            let step = choose|step: int|
                0 <= step < 2 && final(sink).history() == before + #[trigger] endpoint::failed_at(
                    endpoint::delivery_calls(bytes@),
                    step,
                    error,
                );
            laws::lemma_added(
                before,
                endpoint::failed_at(endpoint::delivery_calls(bytes@), step, error),
            );
        },
    }
}

/// The events of a delivery, one by one.
pub proof fn lemma_delivery_events<X>(bytes: Seq<u8>)
    ensures
        ({
            let calls = endpoint::delivery_calls(bytes);
            let written = SinkEvent::<X> { call: SinkCall::Write(bytes), outcome: Ok(()) };
            let flushed = SinkEvent::<X> { call: SinkCall::Flush, outcome: Ok(()) };
            &&& endpoint::all_accepted::<X>(calls) == seq![written, flushed]
            &&& forall|error: X| #[trigger]
                endpoint::failed_at(calls, 0, error) == seq![
                    SinkEvent { outcome: Err(error), ..written },
                ]
            &&& forall|error: X| #[trigger]
                endpoint::failed_at(calls, 1, error) == seq![
                    written,
                    SinkEvent { outcome: Err(error), ..flushed },
                ]
        }),
{
    let calls = endpoint::delivery_calls(bytes);
    let written = SinkEvent::<X> { call: SinkCall::Write(bytes), outcome: Ok(()) };
    let flushed = SinkEvent::<X> { call: SinkCall::Flush, outcome: Ok(()) };
    assert(endpoint::all_accepted::<X>(calls) =~= seq![written, flushed]);
    assert forall|error: X| #[trigger]
        endpoint::failed_at(calls, 0, error) == seq![
            SinkEvent { outcome: Err(error), ..written },
        ] by {
        assert(endpoint::failed_at(calls, 0, error) =~= seq![
            SinkEvent { outcome: Err(error), ..written },
        ]);
    }
    assert forall|error: X| #[trigger]
        endpoint::failed_at(calls, 1, error) == seq![
            written,
            SinkEvent { outcome: Err(error), ..flushed },
        ] by {
        assert(endpoint::failed_at(calls, 1, error) =~= seq![
            written,
            SinkEvent { outcome: Err(error), ..flushed },
        ]);
    }
}

/// What is routed goes to the sink of its stream, as a write of the very bytes and a flush,
/// and the other sink is left alone.
pub proof fn law_routing_goes_to_one_stream<X, O: ByteSink<X>, E: ByteSink<X>>(
    stdout: &mut O,
    stderr: &mut E,
    stream: LogStream,
    payload: &[u8],
    result: Result<(), X>,
)
    requires
        call_ensures(route::<X, O, E>, (stdout, stderr, stream, payload), result),
    ensures
        ({
            let out = laws::added(old(stdout).history(), final(stdout).history());
            let err = laws::added(old(stderr).history(), final(stderr).history());
            let (calls, others) = match stream {
                LogStream::Stdout => (out, err),
                LogStream::Stderr => (err, out),
            };
            let written = SinkEvent::<X> { call: SinkCall::Write(payload@), outcome: Ok(()) };
            let flushed = SinkEvent::<X> { call: SinkCall::Flush, outcome: Ok(()) };
            &&& others.len() == 0
            &&& match result {
                Ok(_) => calls == seq![written, flushed],
                Err(error) => {
                    ||| calls == seq![SinkEvent { outcome: Err(error), ..written }]
                    ||| calls == seq![written, SinkEvent { outcome: Err(error), ..flushed }]
                },
            }
        }),
        old(stdout).history().is_prefix_of(final(stdout).history()),
        old(stderr).history().is_prefix_of(final(stderr).history()),
{
    let delivery = Delivery { stream, payload: payload@ };
    lemma_delivery_events::<X>(payload@);
    match result {
        Ok(_) => {
            laws::lemma_added(
                old(stdout).history(),
                pipe::routing_of::<X>(delivery, LogStream::Stdout),
            );
            laws::lemma_added(
                old(stderr).history(),
                pipe::routing_of::<X>(delivery, LogStream::Stderr),
            );
        },
        Err(error) => {
            let step = choose|step: int|
                {
                    &&& 0 <= step < 2
                    &&& final(stdout).history() == old(stdout).history()
                        + #[trigger] pipe::failed_routing_of(
                        delivery,
                        LogStream::Stdout,
                        step,
                        error,
                    )
                    &&& final(stderr).history() == old(stderr).history()
                        + pipe::failed_routing_of(delivery, LogStream::Stderr, step, error)
                };
            laws::lemma_added(
                old(stdout).history(),
                pipe::failed_routing_of(delivery, LogStream::Stdout, step, error),
            );
            laws::lemma_added(
                old(stderr).history(),
                pipe::failed_routing_of(delivery, LogStream::Stderr, step, error),
            );
        },
    }
}

/// A metadata line is shown by its mark, the very line, a newline where it lacks one, and a
/// flush. Showing it fails with the first call that fails, and makes no call after that.
pub proof fn law_line_is_shown_in_order<X, W: ByteSink<X>>(
    writer: &mut W,
    line: &[u8],
    result: Result<(), X>,
)
    requires
        call_ensures(show_line::<X, W>, (writer, line), result),
    ensures
        ({
            let calls = laws::added(old(writer).history(), final(writer).history());
            let due = if line@.len() > 0 && line@.last() == 10 {
                seq![
                    SinkCall::Write("[ghaiw-meta] ".spec_bytes()),
                    SinkCall::Write(line@),
                    SinkCall::Flush,
                ]
            } else {
                seq![
                    SinkCall::Write("[ghaiw-meta] ".spec_bytes()),
                    SinkCall::Write(line@),
                    SinkCall::Write(seq![10u8]),
                    SinkCall::Flush,
                ]
            };
            &&& 0 < calls.len() <= due.len()
            &&& forall|i: int|
                #![trigger calls[i]]
                0 <= i < calls.len() ==> {
                    &&& calls[i].call == due[i]
                    &&& i < calls.len() - 1 ==> calls[i].outcome is Ok
                }
            &&& calls.last().outcome == result
            &&& result is Ok ==> calls.len() == due.len()
        }),
        old(writer).history().is_prefix_of(final(writer).history()),
{
    let before = old(writer).history();
    let due = metadata::line_calls(line@);
    match result {
        Ok(unit) => {
            assert(unit == ());
            laws::lemma_added(before, endpoint::all_accepted::<X>(due));
        },
        Err(error) => {
            let step = choose|step: int|
                {
                    &&& 0 <= step < due.len()
                    &&& final(writer).history() == before + #[trigger] endpoint::failed_at(
                        due,
                        step,
                        error,
                    )
                };
            laws::lemma_added(before, endpoint::failed_at(due, step, error));
        },
    }
}

/// What a source handed out are the bytes of its answers, one after the other.
pub proof fn law_handed_out_is_all_answers<X>(events: Seq<SourceEvent<X>>)
    ensures
        endpoint::handed_out(events) == Seq::new(
            events.len(),
            |i: int|
                match events[i] {
                    SourceEvent::Read { outcome: Ok(bytes), .. } => bytes,
                    SourceEvent::ReadExact { outcome: Ok(bytes), .. } => bytes,
                    _ => Seq::<u8>::empty(),
                },
        ).flatten(),
    decreases events.len(),
{
    let answers = Seq::new(
        events.len(),
        |i: int|
            match events[i] {
                SourceEvent::Read { outcome: Ok(bytes), .. } => bytes,
                SourceEvent::ReadExact { outcome: Ok(bytes), .. } => bytes,
                _ => Seq::<u8>::empty(),
            },
    );
    if events.len() > 0 {
        let front = events.drop_last();
        law_handed_out_is_all_answers(front);
        assert(answers.drop_last() =~= Seq::new(
            front.len(),
            |i: int|
                match front[i] {
                    SourceEvent::Read { outcome: Ok(bytes), .. } => bytes,
                    SourceEvent::ReadExact { outcome: Ok(bytes), .. } => bytes,
                    _ => Seq::<u8>::empty(),
                },
        ));
        answers.lemma_flatten_and_flatten_alt_are_equivalent();
        answers.drop_last().lemma_flatten_and_flatten_alt_are_equivalent();
        assert(endpoint::handed_out(events) =~= answers.flatten());
    }
}

/// What a sink accepted are the bytes of its writes that did not fail, one after the other.
pub proof fn law_accepted_is_all_writes<X>(events: Seq<SinkEvent<X>>)
    ensures
        endpoint::accepted(events) == Seq::new(
            events.len(),
            |i: int|
                match events[i].call {
                    SinkCall::Write(bytes) => if events[i].outcome is Ok {
                        bytes
                    } else {
                        Seq::<u8>::empty()
                    },
                    SinkCall::Flush => Seq::<u8>::empty(),
                },
        ).flatten(),
    decreases events.len(),
{
    let writes = Seq::new(
        events.len(),
        |i: int|
            match events[i].call {
                SinkCall::Write(bytes) => if events[i].outcome is Ok {
                    bytes
                } else {
                    Seq::<u8>::empty()
                },
                SinkCall::Flush => Seq::<u8>::empty(),
            },
    );
    if events.len() > 0 {
        let front = events.drop_last();
        law_accepted_is_all_writes(front);
        assert(writes.drop_last() =~= Seq::new(
            front.len(),
            |i: int|
                match front[i].call {
                    SinkCall::Write(bytes) => if front[i].outcome is Ok {
                        bytes
                    } else {
                        Seq::<u8>::empty()
                    },
                    SinkCall::Flush => Seq::<u8>::empty(),
                },
        ));
        writes.lemma_flatten_and_flatten_alt_are_equivalent();
        writes.drop_last().lemma_flatten_and_flatten_alt_are_equivalent();
        assert(endpoint::accepted(events) =~= writes.flatten());
    }
}

/// Pieces are joined one after the other.
pub proof fn law_joined_is_all_pieces(pieces: Seq<Seq<u8>>)
    ensures
        endpoint::joined(pieces) == pieces.flatten(),
    decreases pieces.len(),
{
    if pieces.len() > 0 {
        law_joined_is_all_pieces(pieces.drop_last());
        pieces.lemma_flatten_and_flatten_alt_are_equivalent();
        pieces.drop_last().lemma_flatten_and_flatten_alt_are_equivalent();
    }
}

/// What a source of lines handed out are its lines, one after the other.
pub proof fn law_lines_handed_out_is_all_lines<X>(events: Seq<LineEvent<X>>)
    ensures
        endpoint::lines_handed_out(events) == Seq::new(
            events.len(),
            |i: int|
                match events[i] {
                    LineEvent::ReadUntil { outcome: Ok(bytes), .. } => bytes,
                    _ => Seq::<u8>::empty(),
                },
        ).flatten(),
    decreases events.len(),
{
    let lines = Seq::new(
        events.len(),
        |i: int|
            match events[i] {
                LineEvent::ReadUntil { outcome: Ok(bytes), .. } => bytes,
                _ => Seq::<u8>::empty(),
            },
    );
    if events.len() > 0 {
        let front = events.drop_last();
        law_lines_handed_out_is_all_lines(front);
        assert(lines.drop_last() =~= Seq::new(
            front.len(),
            |i: int|
                match front[i] {
                    LineEvent::ReadUntil { outcome: Ok(bytes), .. } => bytes,
                    _ => Seq::<u8>::empty(),
                },
        ));
        lines.lemma_flatten_and_flatten_alt_are_equivalent();
        lines.drop_last().lemma_flatten_and_flatten_alt_are_equivalent();
        assert(endpoint::lines_handed_out(events) =~= lines.flatten());
    }
}

/// What goes to a stream are the payloads of the deliveries for it, one after the other.
pub proof fn law_routed_is_all_of_the_stream(deliveries: Seq<Delivery>, stream: LogStream)
    ensures
        pipe::routed(deliveries, stream) == deliveries.filter(
            |delivery: Delivery| delivery.stream == stream,
        ).map_values(|delivery: Delivery| delivery.payload).flatten(),
    decreases deliveries.len(),
{
    reveal(Seq::filter);
    let of_stream = |delivery: Delivery| delivery.stream == stream;
    let payload = |delivery: Delivery| delivery.payload;
    let mine = deliveries.filter(of_stream);
    if deliveries.len() > 0 {
        let before = deliveries.drop_last().filter(of_stream);
        law_routed_is_all_of_the_stream(deliveries.drop_last(), stream);
        if deliveries.last().stream == stream {
            let all = mine.map_values(payload);
            assert(all.drop_last() =~= before.map_values(payload));
            all.lemma_flatten_and_flatten_alt_are_equivalent();
            all.drop_last().lemma_flatten_and_flatten_alt_are_equivalent();
        }
    } else {
        assert(mine.map_values(payload) =~= Seq::empty());
    }
}

/// The calls by which deliveries are made: for each that is for the stream, in order, a write
/// of its payload and a flush.
pub proof fn lemma_routing_by_stream<X>(deliveries: Seq<Delivery>, stream: LogStream)
    ensures
        ({
            let mine = deliveries.filter(|delivery: Delivery| delivery.stream == stream);
            let calls = pipe::routing::<X>(deliveries, stream);
            &&& calls.len() == 2 * mine.len()
            &&& forall|i: int|
                #![trigger mine[i]]
                0 <= i < mine.len() ==> {
                    &&& calls[2 * i] == (SinkEvent::<X> {
                        call: SinkCall::Write(mine[i].payload),
                        outcome: Ok(()),
                    })
                    &&& calls[2 * i + 1] == (SinkEvent::<X> {
                        call: SinkCall::Flush,
                        outcome: Ok(()),
                    })
                }
        }),
    decreases deliveries.len(),
{
    reveal(Seq::filter);
    let of_stream = |delivery: Delivery| delivery.stream == stream;
    if deliveries.len() > 0 {
        let last = deliveries.last();
        let mine = deliveries.filter(of_stream);
        let before = deliveries.drop_last().filter(of_stream);
        let calls = pipe::routing::<X>(deliveries, stream);
        let earlier = pipe::routing::<X>(deliveries.drop_last(), stream);
        lemma_routing_by_stream::<X>(deliveries.drop_last(), stream);
        lemma_delivery_events::<X>(last.payload);
        if last.stream == stream {
            assert forall|i: int|
                #![trigger mine[i]]
                0 <= i < mine.len() implies {
                &&& calls[2 * i] == (SinkEvent::<X> {
                    call: SinkCall::Write(mine[i].payload),
                    outcome: Ok(()),
                })
                &&& calls[2 * i + 1] == (SinkEvent::<X> { call: SinkCall::Flush, outcome: Ok(()) })
            } by {
                if i < before.len() {
                    assert(mine[i] == before[i]);
                    assert(calls[2 * i] == earlier[2 * i]);
                    assert(calls[2 * i + 1] == earlier[2 * i + 1]);
                }
            }
        } else {
            assert(calls =~= earlier);
        }
    }
}

} // verus!
