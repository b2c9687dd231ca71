//! Laws of the accounts that endpoints keep, and of the endpoints in memory.

use vstd::prelude::*;

use crate::endpoint;
use crate::endpoint::{
    ByteSink, ByteSource, LineEvent, LineSource, SinkCall, SinkEvent, SourceEvent,
};
use crate::fault::FaultKind;
use crate::log_tee::{ExportChunk, Exporter, Redaction, Redactor, TeeReport};
use crate::memory::{
    MemoryExporter, MemoryLines, MemorySink, MemorySource, PlainCopy, StoredChunk,
};
use crate::pipe::CopyStats;

verus! {

/// A read is put on record with the room that it had, and with the very bytes that it put at
/// the front of the buffer or the very error that it gave.
pub proof fn law_reads_are_recorded<X, R: ByteSource<X>>(
    source: &mut R,
    buffer: &mut [u8],
    result: Result<usize, X>,
)
    requires
        call_ensures(R::read, (source, buffer), result),
    ensures
        final(source).history() == old(source).history().push(
            SourceEvent::Read {
                limit: old(buffer)@.len(),
                outcome: match result {
                    Ok(count) => Ok(final(buffer)@.subrange(0, count as int)),
                    Err(error) => Err(error),
                },
            },
        ),
        final(source).last_buffer().given == old(buffer)@,
        final(source).last_buffer().left == final(buffer)@,
{
    if let Ok(count) = result {
        assert(final(buffer)@.take(count as int) =~= final(buffer)@.subrange(0, count as int));
    }
}

/// A read that fills its buffer is put on record with the whole buffer or the very error.
pub proof fn law_exact_reads_are_recorded<X, R: ByteSource<X>>(
    source: &mut R,
    buffer: &mut [u8],
    result: Result<(), X>,
)
    requires
        call_ensures(R::read_exact, (source, buffer), result),
    ensures
        final(source).history() == old(source).history().push(
            SourceEvent::ReadExact {
                len: old(buffer)@.len(),
                outcome: match result {
                    Ok(_) => Ok(final(buffer)@),
                    Err(error) => Err(error),
                },
            },
        ),
{
}

/// A request for a line is put on record with the very bytes that it appended or the very
/// error, and what was there before stays in front.
pub proof fn law_line_reads_are_recorded<X, R: LineSource<X>>(
    source: &mut R,
    delimiter: u8,
    line: &mut Vec<u8>,
    result: Result<usize, X>,
)
    requires
        call_ensures(R::read_until, (source, delimiter, line), result),
    ensures
        match result {
            Ok(count) => {
                let more = final(line)@.skip(old(line)@.len() as int);
                &&& more.len() == count
                &&& final(line)@ == old(line)@ + more
                &&& final(source).history() == old(source).history().push(
                    LineEvent::<X>::ReadUntil { delimiter, outcome: Ok(more) },
                )
                &&& forall|i: int| 0 <= i < count - 1 ==> #[trigger] more[i] != delimiter
            },
            Err(error) => final(source).history() == old(source).history().push(
                LineEvent::ReadUntil { delimiter, outcome: Err(error) },
            ),
        },
{
    if result is Ok {
        let more = final(line)@.skip(old(line)@.len() as int);
        assert(final(line)@.take(old(line)@.len() as int) =~= old(line)@);
        assert(final(line)@ =~= old(line)@ + more);
    }
}

/// A write is put on record with the very bytes, and with how it went.
pub proof fn law_writes_are_recorded<X, W: ByteSink<X>>(
    sink: &mut W,
    bytes: &[u8],
    result: Result<(), X>,
)
    requires
        call_ensures(W::write_all, (sink, bytes), result),
    ensures
        final(sink).history() == old(sink).history().push(
            SinkEvent { call: SinkCall::Write(bytes@), outcome: result },
        ),
{
}

/// A flush is put on record, with how it went.
pub proof fn law_flushes_are_recorded<X, W: ByteSink<X>>(sink: &mut W, result: Result<(), X>)
    requires
        call_ensures(W::flush, (sink,), result),
    ensures
        final(sink).history() == old(sink).history().push(
            SinkEvent { call: SinkCall::Flush, outcome: result },
        ),
{
}

/// A redaction is put on record with what went in, what came out and what was said of it.
pub proof fn law_redactions_are_recorded<F: Redactor>(
    redactor: &mut F,
    input: &[u8],
    output: &mut Vec<u8>,
    changed: bool,
)
    requires
        call_ensures(F::redact, (redactor, input, output), changed),
    ensures
        final(redactor).history() == old(redactor).history().push(
            Redaction { input: input@, output: final(output)@, changed },
        ),
{
}

/// An export is put on record with all that the chunk holds, as it is, and with how it went.
pub proof fn law_exports_are_recorded<E: Exporter>(
    exporter: &mut E,
    chunk: ExportChunk<'_>,
    result: Result<(), ()>,
)
    requires
        call_ensures(E::export, (exporter, chunk), result),
    ensures
        ({
            let before = old(exporter).history();
            let after = final(exporter).history();
            &&& after.len() == before.len() + 1
            &&& before.is_prefix_of(after)
            &&& after.last().delivered <==> result is Ok
            &&& after.last().chunk.stream == chunk.stream
            &&& after.last().chunk.sequence == chunk.sequence
            &&& after.last().chunk.bytes == chunk.bytes@
            &&& after.last().chunk.redacted == chunk.redacted
            &&& after.last().chunk.truncated == chunk.truncated
        }),
{
    let before = old(exporter).history();
    assert(final(exporter).history().take(before.len() as int) =~= before);
}

/// Counts start at zero.
pub proof fn law_counts_start_at_zero(stats: CopyStats, report: TeeReport)
    requires
        call_ensures(CopyStats::default, (), stats),
        call_ensures(TeeReport::default, (), report),
    ensures
        stats.frames == 0,
        stats.bytes == 0,
        report.mirrored_bytes == 0,
        report.export_attempts == 0,
        report.export_failures == 0,
        report.truncated_exports == 0,
{
}

/// A source in memory starts with all of its bytes, and what it handed out and what is left
/// are these bytes at any time.
pub proof fn law_memory_source_keeps_account(data: Vec<u8>, source: MemorySource, rest: &[u8])
    requires
        call_ensures(MemorySource::rest, (&source,), rest),
        source.history().len() > 0,
    ensures
        call_ensures(MemorySource::new, (data,), source) ==> rest@ == data@,
        source.history()[0] matches SourceEvent::Opened { data: all } ==> all
            == endpoint::handed_out(source.history()) + rest@,
{
    reveal_with_fuel(endpoint::handed_out, 2);
    if call_ensures(MemorySource::new, (data,), source) {
        let opened = seq![SourceEvent::<FaultKind>::Opened { data: data@ }];
        assert(opened.drop_last() =~= Seq::empty());
        assert(endpoint::handed_out(opened) + rest@ =~= rest@);
    }
}

/// Lines in memory start with all of their bytes, and what was handed out and what is left are
/// these bytes at any time.
pub proof fn law_memory_lines_keep_account(data: Vec<u8>, source: MemoryLines, rest: &[u8])
    requires
        call_ensures(MemoryLines::rest, (&source,), rest),
        source.history().len() > 0,
    ensures
        call_ensures(MemoryLines::new, (data,), source) ==> rest@ == data@,
        source.history()[0] matches LineEvent::Opened { data: all } ==> all
            == endpoint::lines_handed_out(source.history()) + rest@,
{
    reveal_with_fuel(endpoint::lines_handed_out, 2);
    if call_ensures(MemoryLines::new, (data,), source) {
        let opened = seq![LineEvent::<FaultKind>::Opened { data: data@ }];
        assert(opened.drop_last() =~= Seq::empty());
        assert(endpoint::lines_handed_out(opened) + rest@ =~= rest@);
    }
}

/// A sink in memory holds what it accepted, takes every call, and starts empty.
pub proof fn law_memory_sink_holds_what_it_accepted(sink: MemorySink, contents: &[u8])
    requires
        call_ensures(MemorySink::contents, (&sink,), contents),
    ensures
        contents@ == endpoint::accepted(sink.history()),
        forall|i: int|
            0 <= i < sink.history().len() ==> (#[trigger] sink.history()[i]).outcome is Ok,
        call_ensures(MemorySink::new, (), sink) ==> contents@.len() == 0,
{
}

/// A plain copy is the input, and is said to be unchanged.
pub proof fn law_plain_copy_changes_nothing(
    redactor: &mut PlainCopy,
    input: &[u8],
    output: &mut Vec<u8>,
    changed: bool,
)
    requires
        call_ensures(PlainCopy::redact, (redactor, input, output), changed),
    ensures
        final(output)@ == input@,
        !changed,
{
}

/// An exporter in memory holds the chunks that it got, each as it was and in order.
pub proof fn law_memory_exporter_holds_every_chunk(
    exporter: MemoryExporter,
    chunks: &[StoredChunk],
    k: int,
)
    requires
        call_ensures(MemoryExporter::chunks, (&exporter,), chunks),
        0 <= k < exporter.history().len(),
    ensures
        chunks@.len() == exporter.history().len(),
        ({
            let event = exporter.history()[k];
            let stored = chunks@[k];
            &&& event.delivered
            &&& stored.stream == event.chunk.stream
            &&& stored.sequence == event.chunk.sequence
            &&& stored.bytes@ == event.chunk.bytes
            &&& stored.redacted == event.chunk.redacted
            &&& stored.truncated == event.chunk.truncated
        }),
{
}

} // verus!
