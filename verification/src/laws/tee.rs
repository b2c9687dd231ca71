//! Laws of the tee.

use vstd::prelude::*;

use crate::endpoint;
use crate::endpoint::{ByteSink, ByteSource, SinkCall, SinkEvent, SourceEvent};
use crate::fault::{CopyError, Fault};
use crate::laws;
use crate::log_tee;
use crate::log_tee::ends::{TeeEnds, TeeStep};
use crate::log_tee::{
    tee_ends, tee_stream, ExportEvent, Exporter, LogStream, Redaction, Redactor, TeeEnd,
    TeeProgress, TeeReport, TeeRound, MAX_EXPORT_CHUNK_BYTES, MAX_READ_CHUNK_BYTES,
};

verus! {

/// This run stands for these events and this result.
spec fn is_run_of<X>(
    rounds: Seq<TeeRound>,
    end: TeeEnd<X>,
    stream: LogStream,
    reads: Seq<SourceEvent<X>>,
    calls: Seq<SinkEvent<X>>,
    redactions: Seq<Redaction>,
    exports: Seq<ExportEvent>,
    result: Result<TeeReport, CopyError<X>>,
) -> bool {
    &&& log_tee::is_tee_run(rounds, end)
    &&& reads == log_tee::tee_reads(rounds, end)
    &&& calls == log_tee::tee_mirroring(rounds, end)
    &&& redactions == log_tee::tee_redactions(rounds)
    &&& exports == log_tee::tee_exports(stream, rounds)
    &&& log_tee::tee_returns(rounds, end, result)
}

/// A call of the tee adds the events of a run.
proof fn lemma_tee_run<X, R: ByteSource<X>, W: ByteSink<X>, F: Redactor, E: Exporter>(
    reader: &mut R,
    mirror: &mut W,
    stream: LogStream,
    redact: &mut F,
    export: &mut E,
    result: Result<TeeReport, CopyError<X>>,
)
    requires
        call_ensures(
            tee_stream::<X, R, W, F, E>,
            (reader, mirror, stream, redact, export),
            result,
        ),
    ensures
        exists|rounds: Seq<TeeRound>, end: TeeEnd<X>| #[trigger]
            is_run_of(
                rounds,
                end,
                stream,
                laws::added(old(reader).history(), final(reader).history()),
                laws::added(old(mirror).history(), final(mirror).history()),
                laws::added(old(redact).history(), final(redact).history()),
                laws::added(old(export).history(), final(export).history()),
                result,
            ),
        old(reader).history().is_prefix_of(final(reader).history()),
        old(mirror).history().is_prefix_of(final(mirror).history()),
        old(redact).history().is_prefix_of(final(redact).history()),
        old(export).history().is_prefix_of(final(export).history()),
{
    let (rounds, end) = choose|rounds: Seq<TeeRound>, end: TeeEnd<X>|
        {
            &&& #[trigger] log_tee::is_tee_run(rounds, end)
            &&& final(reader).history() == old(reader).history() + log_tee::tee_reads(rounds, end)
            &&& final(mirror).history() == old(mirror).history() + log_tee::tee_mirroring(
                rounds,
                end,
            )
            &&& final(redact).history() == old(redact).history() + log_tee::tee_redactions(rounds)
            &&& final(export).history() == old(export).history() + log_tee::tee_exports(
                stream,
                rounds,
            )
            &&& log_tee::tee_returns(rounds, end, result)
        };
    laws::lemma_added(old(reader).history(), log_tee::tee_reads(rounds, end));
    laws::lemma_added(old(mirror).history(), log_tee::tee_mirroring(rounds, end));
    laws::lemma_added(old(redact).history(), log_tee::tee_redactions(rounds));
    laws::lemma_added(old(export).history(), log_tee::tee_exports(stream, rounds));
    assert(is_run_of(
        rounds,
        end,
        stream,
        laws::added(old(reader).history(), final(reader).history()),
        laws::added(old(mirror).history(), final(mirror).history()),
        laws::added(old(redact).history(), final(redact).history()),
        laws::added(old(export).history(), final(export).history()),
        result,
    ));
}

/// Every chunk goes one way: what a read hands out is written to the mirror, the mirror is
/// flushed, the redactor gets it, and the exporter gets what the redactor made of it. There is
/// one export for each redaction, one accepted write and one flush, and one read.
pub proof fn law_every_chunk_is_mirrored_redacted_and_exported<
    X,
    R: ByteSource<X>,
    W: ByteSink<X>,
    F: Redactor,
    E: Exporter,
>(
    reader: &mut R,
    mirror: &mut W,
    stream: LogStream,
    redact: &mut F,
    export: &mut E,
    result: Result<TeeReport, CopyError<X>>,
    k: int,
)
    requires
        call_ensures(
            tee_stream::<X, R, W, F, E>,
            (reader, mirror, stream, redact, export),
            result,
        ),
        0 <= k < laws::added(old(export).history(), final(export).history()).len(),
    ensures
        ({
            let reads = laws::added(old(reader).history(), final(reader).history());
            let calls = laws::added(old(mirror).history(), final(mirror).history());
            let redaction = laws::added(old(redact).history(), final(redact).history())[k];
            let chunk = laws::added(old(export).history(), final(export).history())[k].chunk;
            &&& k < reads.len()
            &&& reads[k] == (SourceEvent::<X>::Read {
                limit: MAX_READ_CHUNK_BYTES as nat,
                outcome: Ok(redaction.input),
            })
            &&& 0 < redaction.input.len() <= MAX_READ_CHUNK_BYTES
            &&& 2 * k + 1 < calls.len()
            &&& calls[2 * k] == (SinkEvent::<X> {
                call: SinkCall::Write(redaction.input),
                outcome: Ok(()),
            })
            &&& calls[2 * k + 1] == (SinkEvent::<X> { call: SinkCall::Flush, outcome: Ok(()) })
            &&& chunk.stream == stream
            &&& chunk.sequence == k
            &&& chunk.redacted == redaction.changed
            &&& chunk.truncated <==> redaction.output.len() > MAX_EXPORT_CHUNK_BYTES
            &&& chunk.truncated ==> chunk.bytes == redaction.output.subrange(
                0,
                MAX_EXPORT_CHUNK_BYTES as int,
            )
            &&& !chunk.truncated ==> chunk.bytes == redaction.output
        }),
        laws::added(old(redact).history(), final(redact).history()).len() == laws::added(
            old(export).history(),
            final(export).history(),
        ).len(),
{
    lemma_tee_run(reader, mirror, stream, redact, export, result);
    let (rounds, end) = choose|rounds: Seq<TeeRound>, end: TeeEnd<X>| #[trigger]
        is_run_of(
            rounds,
            end,
            stream,
            laws::added(old(reader).history(), final(reader).history()),
            laws::added(old(mirror).history(), final(mirror).history()),
            laws::added(old(redact).history(), final(redact).history()),
            laws::added(old(export).history(), final(export).history()),
            result,
        );
    log_tee::law_mirrored_before_export(stream, rounds, end, k);
    assert(log_tee::is_chunk(rounds[k].input));
}

/// A tee succeeds exactly where its source came to its end and its mirror took and passed on
/// everything, the last flush included. It fails with the error of the one call on its source
/// or its mirror that failed, which is the last call of all on that endpoint; whether exports
/// fail does not matter. Beside that it fails only where its sequence numbers are used up.
pub proof fn law_tee_fails_with_its_source_or_its_mirror<
    X,
    R: ByteSource<X>,
    W: ByteSink<X>,
    F: Redactor,
    E: Exporter,
>(
    reader: &mut R,
    mirror: &mut W,
    stream: LogStream,
    redact: &mut F,
    export: &mut E,
    result: Result<TeeReport, CopyError<X>>,
)
    requires
        call_ensures(
            tee_stream::<X, R, W, F, E>,
            (reader, mirror, stream, redact, export),
            result,
        ),
    ensures
        ({
            let reads = laws::added(old(reader).history(), final(reader).history());
            let calls = laws::added(old(mirror).history(), final(mirror).history());
            let n = laws::added(old(export).history(), final(export).history()).len() as int;
            match result {
                Ok(_) => {
                    &&& n <= u32::MAX
                    &&& reads.len() == n + 1
                    &&& reads[n] == (SourceEvent::<X>::Read {
                        limit: MAX_READ_CHUNK_BYTES as nat,
                        outcome: Ok(Seq::empty()),
                    })
                    &&& calls.len() == 2 * n + 1
                    &&& calls[2 * n] == (SinkEvent::<X> { call: SinkCall::Flush, outcome: Ok(()) })
                },
                Err(CopyError::Endpoint(error)) => {
                    &&& n <= u32::MAX
                    &&& reads.len() == n + 1
                    &&& reads[n] matches SourceEvent::Read { limit, outcome } && {
                        &&& limit == MAX_READ_CHUNK_BYTES
                        &&& match outcome {
                            Err(failure) => failure == error && calls.len() == 2 * n,
                            Ok(bytes) => if bytes.len() == 0 {
                                &&& calls.len() == 2 * n + 1
                                &&& calls[2 * n] == (SinkEvent {
                                    call: SinkCall::Flush,
                                    outcome: Err(error),
                                })
                            } else if calls.len() == 2 * n + 1 {
                                calls[2 * n] == (SinkEvent {
                                    call: SinkCall::Write(bytes),
                                    outcome: Err(error),
                                })
                            } else {
                                &&& calls.len() == 2 * n + 2
                                &&& calls[2 * n] == (SinkEvent::<X> {
                                    call: SinkCall::Write(bytes),
                                    outcome: Ok(()),
                                })
                                &&& calls[2 * n + 1] == (SinkEvent {
                                    call: SinkCall::Flush,
                                    outcome: Err(error),
                                })
                            },
                        }
                    }
                },
                Err(CopyError::Fault(fault)) => {
                    &&& fault == Fault::SequenceOverflow
                    &&& n == u32::MAX + 1
                    &&& reads.len() == n
                    &&& calls.len() == 2 * n
                },
            }
        }),
        laws::added(old(redact).history(), final(redact).history()).len() == laws::added(
            old(export).history(),
            final(export).history(),
        ).len(),
        old(reader).history().is_prefix_of(final(reader).history()),
        old(mirror).history().is_prefix_of(final(mirror).history()),
        old(redact).history().is_prefix_of(final(redact).history()),
        old(export).history().is_prefix_of(final(export).history()),
{
    lemma_tee_run(reader, mirror, stream, redact, export, result);
    let (rounds, end) = choose|rounds: Seq<TeeRound>, end: TeeEnd<X>| #[trigger]
        is_run_of(
            rounds,
            end,
            stream,
            laws::added(old(reader).history(), final(reader).history()),
            laws::added(old(mirror).history(), final(mirror).history()),
            laws::added(old(redact).history(), final(redact).history()),
            laws::added(old(export).history(), final(export).history()),
            result,
        );
    if rounds.len() > 0 {
        log_tee::lemma_round_mirroring_at::<X>(rounds, 0);
    }
}

/// Counting by a property of the rounds is counting the exports that have it.
proof fn lemma_counts_are_filters(stream: LogStream, rounds: Seq<TeeRound>)
    ensures
        log_tee::export_failures(rounds) == log_tee::tee_exports(stream, rounds).filter(
            |event: ExportEvent| !event.delivered,
        ).len(),
        log_tee::truncated_exports(rounds) == log_tee::tee_exports(stream, rounds).filter(
            |event: ExportEvent| event.chunk.truncated,
        ).len(),
    decreases rounds.len(),
{
    reveal(Seq::filter);
    let exports = log_tee::tee_exports(stream, rounds);
    if rounds.len() > 0 {
        lemma_counts_are_filters(stream, rounds.drop_last());
        assert(exports.drop_last() =~= log_tee::tee_exports(stream, rounds.drop_last()));
    }
}

/// The report of a tee that succeeds: it counts the bytes that the mirror accepted, which are
/// those that the source handed out, one attempt for each chunk that the exporter got, one
/// failure for each that it did not take, whatever was in it, and one cut for each that was
/// marked as cut.
pub proof fn law_report_counts_what_happened<
    X,
    R: ByteSource<X>,
    W: ByteSink<X>,
    F: Redactor,
    E: Exporter,
>(
    reader: &mut R,
    mirror: &mut W,
    stream: LogStream,
    redact: &mut F,
    export: &mut E,
    report: TeeReport,
)
    requires
        call_ensures(
            tee_stream::<X, R, W, F, E>,
            (reader, mirror, stream, redact, export),
            Ok(report),
        ),
    ensures
        ({
            let reads = laws::added(old(reader).history(), final(reader).history());
            let calls = laws::added(old(mirror).history(), final(mirror).history());
            let exports = laws::added(old(export).history(), final(export).history());
            &&& endpoint::accepted(calls) == endpoint::handed_out(reads)
            &&& report.mirrored_bytes == endpoint::accepted(calls).len()
            &&& report.export_attempts == exports.len()
            &&& report.export_failures == exports.filter(
                |event: ExportEvent| !event.delivered,
            ).len()
            &&& report.truncated_exports == exports.filter(
                |event: ExportEvent| event.chunk.truncated,
            ).len()
            &&& (forall|k: int| 0 <= k < exports.len() ==> !(#[trigger] exports[k]).delivered)
                ==> report.export_failures == report.export_attempts
            &&& (forall|k: int| 0 <= k < exports.len() ==> (#[trigger] exports[k]).delivered)
                ==> report.export_failures == 0
        }),
{
    lemma_tee_run(reader, mirror, stream, redact, export, Ok(report));
    let (rounds, end) = choose|rounds: Seq<TeeRound>, end: TeeEnd<X>| #[trigger]
        is_run_of(
            rounds,
            end,
            stream,
            laws::added(old(reader).history(), final(reader).history()),
            laws::added(old(mirror).history(), final(mirror).history()),
            laws::added(old(redact).history(), final(redact).history()),
            laws::added(old(export).history(), final(export).history()),
            Ok(report),
        );
    let exports = log_tee::tee_exports(stream, rounds);
    log_tee::law_mirror_keeps_every_byte(rounds, end);
    log_tee::law_success_means_nothing_lost(rounds, end, report);
    lemma_counts_are_filters(stream, rounds);
    lemma_all_or_none(exports, |event: ExportEvent| !event.delivered);
}

/// A property that all have counts all, and one that none has counts none.
proof fn lemma_all_or_none<T>(items: Seq<T>, holds: spec_fn(T) -> bool)
    ensures
        (forall|k: int| 0 <= k < items.len() ==> holds(#[trigger] items[k])) ==> items.filter(
            holds,
        ).len() == items.len(),
        (forall|k: int| 0 <= k < items.len() ==> !holds(#[trigger] items[k])) ==> items.filter(
            holds,
        ).len() == 0,
    decreases items.len(),
{
    reveal(Seq::filter);
    if items.len() > 0 {
        let front = items.drop_last();
        lemma_all_or_none(front, holds);
        assert(forall|k: int| 0 <= k < front.len() ==> #[trigger] front[k] == items[k]);
        assert(items.last() == items[items.len() - 1]);
    }
}

/// How many calls a run makes.
proof fn lemma_lengths<X>(stream: LogStream, rounds: Seq<TeeRound>, end: TeeEnd<X>)
    ensures
        log_tee::round_mirroring::<X>(rounds).len() == 2 * rounds.len(),
        log_tee::round_steps::<X>(stream, rounds).len() == 5 * rounds.len(),
        rounds.len() <= log_tee::tee_reads(rounds, end).len() <= rounds.len() + 1,
        log_tee::tee_mirroring(rounds, end).len() >= 2 * rounds.len(),
        log_tee::tee_steps(stream, rounds, end).len() == 2 * rounds.len() + log_tee::tee_reads(
            rounds,
            end,
        ).len() + log_tee::tee_mirroring(rounds, end).len(),
{
    log_tee::lemma_round_steps_events::<X>(stream, rounds);
    if rounds.len() > 0 {
        log_tee::lemma_round_mirroring_at::<X>(rounds, 0);
    }
}

/// The calls of complete rounds come in the order of the rounds.
proof fn lemma_rounds_in_time<X>(stream: LogStream, rounds: Seq<TeeRound>, end: TeeEnd<X>)
    ensures
        forall|k: int|
            #![trigger log_tee::tee_exports(stream, rounds)[k]]
            0 <= k < rounds.len() ==> {
                let steps = log_tee::tee_steps(stream, rounds, end);
                let reads = log_tee::tee_reads(rounds, end);
                let calls = log_tee::tee_mirroring(rounds, end);
                &&& steps[5 * k] == TeeStep::Source(reads[k])
                &&& steps[5 * k + 1] == TeeStep::Mirror(calls[2 * k])
                &&& steps[5 * k + 2] == TeeStep::Mirror(calls[2 * k + 1])
                &&& steps[5 * k + 3] == TeeStep::<X>::Redactor(log_tee::tee_redactions(rounds)[k])
                &&& steps[5 * k + 4] == TeeStep::<X>::Exporter(
                    log_tee::tee_exports(stream, rounds)[k],
                )
            },
{
    let steps = log_tee::tee_steps(stream, rounds, end);
    let front = log_tee::round_steps::<X>(stream, rounds);
    let reads = log_tee::tee_reads(rounds, end);
    let calls = log_tee::tee_mirroring(rounds, end);
    lemma_lengths(stream, rounds, end);
    assert forall|k: int|
        #![trigger log_tee::tee_exports(stream, rounds)[k]]
        0 <= k < rounds.len() implies {
        &&& steps[5 * k] == TeeStep::Source(reads[k])
        &&& steps[5 * k + 1] == TeeStep::Mirror(calls[2 * k])
        &&& steps[5 * k + 2] == TeeStep::Mirror(calls[2 * k + 1])
        &&& steps[5 * k + 3] == TeeStep::<X>::Redactor(log_tee::tee_redactions(rounds)[k])
        &&& steps[5 * k + 4] == TeeStep::<X>::Exporter(log_tee::tee_exports(stream, rounds)[k])
    } by {
        let calls_of = log_tee::round_step::<X>(stream, k as nat, rounds[k]);
        log_tee::lemma_round_mirroring_at::<X>(rounds, k);
        log_tee::lemma_round_steps_at::<X>(stream, rounds, k);
        assert(steps[5 * k] == front[5 * k + 0] && front[5 * k + 0] == calls_of[0]);
        assert(steps[5 * k + 1] == front[5 * k + 1] && front[5 * k + 1] == calls_of[1]);
        assert(steps[5 * k + 2] == front[5 * k + 2] && front[5 * k + 2] == calls_of[2]);
        assert(steps[5 * k + 3] == front[5 * k + 3] && front[5 * k + 3] == calls_of[3]);
        assert(steps[5 * k + 4] == front[5 * k + 4] && front[5 * k + 4] == calls_of[4]);
    }
}

/// The calls behind the last complete round are the last read and then those on the mirror.
proof fn lemma_end_in_time<X>(stream: LogStream, rounds: Seq<TeeRound>, end: TeeEnd<X>)
    ensures
        ({
            let steps = log_tee::tee_steps(stream, rounds, end);
            let reads = log_tee::tee_reads(rounds, end);
            let calls = log_tee::tee_mirroring(rounds, end);
            let n = rounds.len() as int;
            &&& reads.len() == n + 1 ==> steps[5 * n] == TeeStep::Source(reads[n])
            &&& forall|i: int|
                #![trigger calls[i]]
                2 * n <= i < calls.len() ==> {
                    &&& reads.len() == n + 1
                    &&& steps[3 * n + 1 + i] == TeeStep::Mirror(calls[i])
                }
        }),
{
    let steps = log_tee::tee_steps(stream, rounds, end);
    let reads = log_tee::tee_reads(rounds, end);
    let calls = log_tee::tee_mirroring(rounds, end);
    let tail = log_tee::end_steps(end);
    let n = rounds.len() as int;
    lemma_lengths(stream, rounds, end);
    if reads.len() == n + 1 {
        assert(steps[5 * n] == tail[0]);
    }
    assert forall|i: int|
        #![trigger calls[i]]
        2 * n <= i < calls.len() implies {
        &&& reads.len() == n + 1
        &&& steps[3 * n + 1 + i] == TeeStep::Mirror(calls[i])
    } by {
        assert(steps[5 * n + (1 + i - 2 * n)] == tail[1 + i - 2 * n]);
    }
}

/// The order in time of all calls of a tee: each chunk is read, written, flushed, redacted and
/// exported before the next is read, and what is left of a run comes behind, the read first.
pub proof fn law_calls_follow_in_time<
    'a,
    X,
    R: ByteSource<X>,
    W: ByteSink<X>,
    F: Redactor,
    E: Exporter,
>(
    ends: &mut TeeEnds<'a, X, R, W, F, E>,
    stream: LogStream,
    result: Result<TeeReport, CopyError<X>>,
)
    requires
        call_ensures(tee_ends::<X, R, W, F, E>, (ends, stream), result),
    ensures
        ({
            let reads = laws::added(old(ends).reader.history(), final(ends).reader.history());
            let calls = laws::added(old(ends).mirror.history(), final(ends).mirror.history());
            let redactions = laws::added(
                old(ends).redact.history(),
                final(ends).redact.history(),
            );
            let exports = laws::added(old(ends).export.history(), final(ends).export.history());
            let steps = laws::added(old(ends).trace@, final(ends).trace@);
            let n = exports.len() as int;
            &&& redactions.len() == n
            &&& reads.len() >= n
            &&& calls.len() >= 2 * n
            &&& steps.len() == reads.len() + calls.len() + redactions.len() + exports.len()
            &&& forall|k: int|
                #![trigger exports[k]]
                0 <= k < n ==> {
                    &&& steps[5 * k] == TeeStep::Source(reads[k])
                    &&& steps[5 * k + 1] == TeeStep::Mirror(calls[2 * k])
                    &&& steps[5 * k + 2] == TeeStep::Mirror(calls[2 * k + 1])
                    &&& steps[5 * k + 3] == TeeStep::<X>::Redactor(redactions[k])
                    &&& steps[5 * k + 4] == TeeStep::<X>::Exporter(exports[k])
                }
            &&& reads.len() <= n + 1
            &&& reads.len() == n + 1 ==> steps[5 * n] == TeeStep::Source(reads[n])
            &&& forall|i: int|
                #![trigger calls[i]]
                2 * n <= i < calls.len() ==> {
                    &&& reads.len() == n + 1
                    &&& steps[3 * n + 1 + i] == TeeStep::Mirror(calls[i])
                }
        }),
{
    let (rounds, end) = choose|rounds: Seq<TeeRound>, end: TeeEnd<X>|
        {
            &&& #[trigger] log_tee::is_tee_run(rounds, end)
            &&& final(ends).trace@ == old(ends).trace@ + log_tee::tee_steps(stream, rounds, end)
            &&& final(ends).reader.history() == old(ends).reader.history() + log_tee::tee_reads(
                rounds,
                end,
            )
            &&& final(ends).mirror.history() == old(ends).mirror.history()
                + log_tee::tee_mirroring(rounds, end)
            &&& final(ends).redact.history() == old(ends).redact.history()
                + log_tee::tee_redactions(rounds)
            &&& final(ends).export.history() == old(ends).export.history() + log_tee::tee_exports(
                stream,
                rounds,
            )
            &&& log_tee::tee_returns(rounds, end, result)
        };
    laws::lemma_added(old(ends).trace@, log_tee::tee_steps(stream, rounds, end));
    laws::lemma_added(old(ends).reader.history(), log_tee::tee_reads(rounds, end));
    laws::lemma_added(old(ends).mirror.history(), log_tee::tee_mirroring(rounds, end));
    laws::lemma_added(old(ends).redact.history(), log_tee::tee_redactions(rounds));
    laws::lemma_added(old(ends).export.history(), log_tee::tee_exports(stream, rounds));
    lemma_lengths(stream, rounds, end);
    lemma_rounds_in_time(stream, rounds, end);
    lemma_end_in_time(stream, rounds, end);
}

/// A call of the tee is one run over its own endpoints, and keeps this order in time: chunk
/// after chunk is read, and the export of each comes before the read of the next.
pub proof fn law_export_comes_before_the_next_read<
    X,
    R: ByteSource<X>,
    W: ByteSink<X>,
    F: Redactor,
    E: Exporter,
>(
    reader: &mut R,
    mirror: &mut W,
    stream: LogStream,
    redact: &mut F,
    export: &mut E,
    result: Result<TeeReport, CopyError<X>>,
)
    requires
        call_ensures(
            tee_stream::<X, R, W, F, E>,
            (reader, mirror, stream, redact, export),
            result,
        ),
    ensures
        exists|ends: &mut TeeEnds<'_, X, R, W, F, E>|
            {
                let reads = laws::added(old(reader).history(), final(reader).history());
                let calls = laws::added(old(mirror).history(), final(mirror).history());
                let redactions = laws::added(old(redact).history(), final(redact).history());
                let exports = laws::added(old(export).history(), final(export).history());
                let steps = final(ends).trace@;
                let n = exports.len() as int;
                &&& #[trigger] call_ensures(tee_ends::<X, R, W, F, E>, (ends, stream), result)
                &&& ends.trace@ == Seq::<TeeStep<X>>::empty()
                &&& steps.len() == reads.len() + calls.len() + redactions.len() + exports.len()
                &&& forall|k: int|
                    #![trigger exports[k]]
                    0 <= k < n ==> {
                        &&& steps[5 * k] == TeeStep::Source(reads[k])
                        &&& steps[5 * k + 1] == TeeStep::Mirror(calls[2 * k])
                        &&& steps[5 * k + 2] == TeeStep::Mirror(calls[2 * k + 1])
                        &&& steps[5 * k + 3] == TeeStep::<X>::Redactor(redactions[k])
                        &&& steps[5 * k + 4] == TeeStep::<X>::Exporter(exports[k])
                    }
                &&& reads.len() == n + 1 ==> steps[5 * n] == TeeStep::Source(reads[n])
            },
{
    let ends = choose|ends: &mut TeeEnds<'_, X, R, W, F, E>|
        {
            &&& #[trigger] call_ensures(tee_ends::<X, R, W, F, E>, (ends, stream), result)
            &&& ends.trace@ == Seq::<TeeStep<X>>::empty()
            &&& ends.reader.history() == old(reader).history()
            &&& ends.mirror.history() == old(mirror).history()
            &&& ends.redact.history() == old(redact).history()
            &&& ends.export.history() == old(export).history()
            &&& final(ends).reader.history() == final(reader).history()
            &&& final(ends).mirror.history() == final(mirror).history()
            &&& final(ends).redact.history() == final(redact).history()
            &&& final(ends).export.history() == final(export).history()
        };
    law_calls_follow_in_time(ends, stream, result);
    assert(laws::added(Seq::<TeeStep<X>>::empty(), final(ends).trace@) =~= final(ends).trace@);
}

/// Counting the bytes of a chunk adds them to that count and to no other, and is refused
/// exactly where the sum does not fit.
pub proof fn law_mirrored_bytes_add_up(
    progress: &mut TeeProgress,
    bytes: usize,
    result: Result<(), Fault>,
)
    requires
        call_ensures(TeeProgress::count_mirrored, (progress, bytes), result),
    ensures
        result is Ok <==> old(progress).report.mirrored_bytes + bytes <= u64::MAX,
        result is Ok ==> final(progress).report.mirrored_bytes == old(
            progress,
        ).report.mirrored_bytes + bytes,
        result is Err ==> final(progress).report.mirrored_bytes == old(
            progress,
        ).report.mirrored_bytes && result->Err_0 == Fault::MirroredByteOverflow,
        final(progress).report.export_attempts == old(progress).report.export_attempts,
        final(progress).report.export_failures == old(progress).report.export_failures,
        final(progress).report.truncated_exports == old(progress).report.truncated_exports,
        final(progress).sequence == old(progress).sequence,
{
}

/// A copy that is too long for export is cut at the ceiling, and the cut is counted; any other
/// is left as it is, and nothing is counted.
pub proof fn law_only_long_copies_are_cut(
    progress: &mut TeeProgress,
    prepared: &mut Vec<u8>,
    result: Result<bool, Fault>,
)
    requires
        call_ensures(TeeProgress::clip, (progress, prepared), result),
    ensures
        final(prepared)@.is_prefix_of(old(prepared)@),
        old(prepared)@.len() <= MAX_EXPORT_CHUNK_BYTES ==> final(prepared)@ == old(prepared)@
            && result == Ok::<bool, Fault>(false),
        old(prepared)@.len() > MAX_EXPORT_CHUNK_BYTES ==> final(prepared)@.len()
            == MAX_EXPORT_CHUNK_BYTES && result == (if old(progress).report.truncated_exports
            < u64::MAX {
            Ok::<bool, Fault>(true)
        } else {
            Err(Fault::TruncatedExportOverflow)
        }),
        final(progress).report.truncated_exports == old(progress).report.truncated_exports + (
        if result == Ok::<bool, Fault>(true) {
            1int
        } else {
            0
        }),
        final(progress).report.mirrored_bytes == old(progress).report.mirrored_bytes,
        final(progress).report.export_attempts == old(progress).report.export_attempts,
        final(progress).report.export_failures == old(progress).report.export_failures,
        final(progress).sequence == old(progress).sequence,
{
}

/// Each attempt is counted once, until the count is full.
pub proof fn law_each_attempt_counts_once(progress: &mut TeeProgress, result: Result<(), Fault>)
    requires
        call_ensures(TeeProgress::count_attempt, (progress,), result),
    ensures
        result == (if old(progress).report.export_attempts < u64::MAX {
            Ok::<(), Fault>(())
        } else {
            Err(Fault::ExportAttemptOverflow)
        }),
        final(progress).report.export_attempts == old(progress).report.export_attempts + (
        if result is Ok {
            1int
        } else {
            0
        }),
        final(progress).report.mirrored_bytes == old(progress).report.mirrored_bytes,
        final(progress).report.export_failures == old(progress).report.export_failures,
        final(progress).report.truncated_exports == old(progress).report.truncated_exports,
        final(progress).sequence == old(progress).sequence,
{
    if let Ok(unit) = result {
        assert(unit == ());
    }
}

/// An export that failed is counted once, until the count is full; one that did not is not.
pub proof fn law_each_failed_export_counts_once(
    progress: &mut TeeProgress,
    delivered: bool,
    result: Result<(), Fault>,
)
    requires
        call_ensures(TeeProgress::settle, (progress, delivered), result),
    ensures
        result == (if delivered || old(progress).report.export_failures < u64::MAX {
            Ok::<(), Fault>(())
        } else {
            Err(Fault::ExportFailureOverflow)
        }),
        final(progress).report.export_failures == old(progress).report.export_failures + (
        if !delivered && result is Ok {
            1int
        } else {
            0
        }),
        final(progress).report.mirrored_bytes == old(progress).report.mirrored_bytes,
        final(progress).report.export_attempts == old(progress).report.export_attempts,
        final(progress).report.truncated_exports == old(progress).report.truncated_exports,
        final(progress).sequence == old(progress).sequence,
{
    if let Ok(unit) = result {
        assert(unit == ());
    }
}

/// Sequence numbers follow each other without a gap, until none is left.
pub proof fn law_sequence_numbers_follow(progress: &mut TeeProgress, result: Result<(), Fault>)
    requires
        call_ensures(TeeProgress::advance, (progress,), result),
    ensures
        result == (if old(progress).sequence < u32::MAX {
            Ok::<(), Fault>(())
        } else {
            Err(Fault::SequenceOverflow)
        }),
        final(progress).sequence == old(progress).sequence + (if result is Ok {
            1int
        } else {
            0
        }),
        final(progress).report == old(progress).report,
{
    if let Ok(unit) = result {
        assert(unit == ());
    }
}

/// A tee starts with nothing counted and with number zero.
pub proof fn law_tee_starts_at_zero(progress: TeeProgress)
    requires
        call_ensures(TeeProgress::new, (), progress),
    ensures
        progress.sequence == 0,
        progress.report.mirrored_bytes == 0,
        progress.report.export_attempts == 0,
        progress.report.export_failures == 0,
        progress.report.truncated_exports == 0,
{
}

/// The two streams go by the names that other runtimes know.
pub proof fn law_streams_have_their_names(stream: LogStream, name: &'static str)
    requires
        call_ensures(LogStream::as_str, (stream,), name),
    ensures
        name@ == "stdout"@ <==> stream == LogStream::Stdout,
        name@ == "stderr"@ <==> stream == LogStream::Stderr,
{
    reveal_strlit("stdout");
    reveal_strlit("stderr");
    assert("stdout"@[3] != "stderr"@[3]);
}

} // verus!
