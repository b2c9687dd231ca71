//! Copies a log stream to its native output, and a redacted copy to an exporter.

use vstd::prelude::*;
use vstd::slice::slice_subrange;

use crate::endpoint;
use crate::endpoint::{ByteSink, ByteSource, SinkCall, SinkEvent, SourceEvent};
use crate::fault::{CopyError, Fault};
use crate::log_tee::ends::{TeeEnds, TeeStep};

pub mod ends;

verus! {

/// Keep source reads small enough that a redactor can expand a chunk without making
/// exporter memory unbounded.
pub const MAX_READ_CHUNK_BYTES: usize = 8 * 1024;

/// Hard ceiling for the redacted/export copy. The native log copy is never truncated
/// by this limit.
pub const MAX_EXPORT_CHUNK_BYTES: usize = 16 * 1024;

/// One of the two output streams of a build.
#[derive(Debug, Clone, Copy, PartialEq, Eq, Structural)]
pub enum LogStream {
    Stdout,
    Stderr,
}

impl LogStream {
    /// The name under which other runtimes know the stream.
    pub open spec fn name(self) -> Seq<char> {
        match self {
            LogStream::Stdout => "stdout"@,
            LogStream::Stderr => "stderr"@,
        }
    }

    /// The name under which other runtimes know the stream.
    pub fn as_str(self) -> (name: &'static str)
        ensures
            name@ == self.name(),
    {
        match self {
            LogStream::Stdout => "stdout",
            LogStream::Stderr => "stderr",
        }
    }
}

/// What an exporter gets of one chunk of a stream.
#[derive(Debug, Clone, Copy, PartialEq, Eq)]
pub struct ExportChunk<'a> {
    pub stream: LogStream,
    pub sequence: u32,
    pub bytes: &'a [u8],
    pub redacted: bool,
    pub truncated: bool,
}

/// The content of an export chunk.
pub struct ExportRecord {
    pub stream: LogStream,
    pub sequence: nat,
    pub bytes: Seq<u8>,
    pub redacted: bool,
    pub truncated: bool,
}

impl<'a> View for ExportChunk<'a> {
    type V = ExportRecord;

    open spec fn view(&self) -> ExportRecord {
        ExportRecord {
            stream: self.stream,
            sequence: self.sequence as nat,
            bytes: self.bytes@,
            redacted: self.redacted,
            truncated: self.truncated,
        }
    }
}

/// What a tee did.
#[derive(Debug, Clone, Copy, PartialEq, Eq, Structural)]
pub struct TeeReport {
    pub mirrored_bytes: u64,
    pub export_attempts: u64,
    pub export_failures: u64,
    pub truncated_exports: u64,
}

impl Default for TeeReport {
    fn default() -> (report: TeeReport)
        ensures
            report.mirrored_bytes == 0,
            report.export_attempts == 0,
            report.export_failures == 0,
            report.truncated_exports == 0,
    {
        TeeReport {
            mirrored_bytes: 0,
            export_attempts: 0,
            export_failures: 0,
            truncated_exports: 0,
        }
    }
}

/// A redaction, with its answer.
pub struct Redaction {
    pub input: Seq<u8>,
    pub output: Seq<u8>,
    pub changed: bool,
}

/// The redactions made.
pub type RedactionHistory = Seq<Redaction>;

/// Prepares the copy of a chunk that may leave the machine.
pub trait Redactor {
    /// The redactions made so far.
    spec fn history(&self) -> RedactionHistory;

    /// Puts the copy for export into an empty buffer, and says whether it differs
    /// from the input.
    fn redact(&mut self, input: &[u8], output: &mut Vec<u8>) -> (changed: bool)
        requires
            old(output)@.len() == 0,
        ensures
            final(self).history() == old(self).history().push(
                Redaction { input: input@, output: final(output)@, changed },
            ),
    ;
}

/// An export, with its answer.
pub struct ExportEvent {
    pub chunk: ExportRecord,
    pub delivered: bool,
}

/// The exports attempted.
pub type ExportHistory = Seq<ExportEvent>;

/// Sends chunks to a central log.
pub trait Exporter {
    /// The exports attempted so far.
    spec fn history(&self) -> ExportHistory;

    /// Sends one chunk, or fails.
    fn export(&mut self, chunk: ExportChunk<'_>) -> (result: Result<(), ()>)
        ensures
            final(self).history() == old(self).history().push(
                ExportEvent { chunk: chunk@, delivered: result is Ok },
            ),
    ;
}

/// The part of a prepared copy that is exported.
pub open spec fn clipped(bytes: Seq<u8>) -> Seq<u8> {
    if bytes.len() > MAX_EXPORT_CHUNK_BYTES {
        bytes.take(MAX_EXPORT_CHUNK_BYTES as int)
    } else {
        bytes
    }
}

/// Where a tee stands: what it did, and the number of its next chunk.
#[derive(Debug, Clone, Copy, PartialEq, Eq, Structural)]
pub struct TeeProgress {
    pub report: TeeReport,
    pub sequence: u32,
}

impl TeeProgress {
    /// A tee that has done nothing.
    pub fn new() -> (progress: TeeProgress)
        ensures
            progress.sequence == 0,
            progress.report.mirrored_bytes == 0,
            progress.report.export_attempts == 0,
            progress.report.export_failures == 0,
            progress.report.truncated_exports == 0,
    {
        TeeProgress { report: TeeReport::default(), sequence: 0 }
    }

    /// Counts bytes that reached the mirror.
    pub fn count_mirrored(&mut self, bytes: usize) -> (result: Result<(), Fault>)
        ensures
            match result {
                Ok(_) => {
                    &&& old(self).report.mirrored_bytes + bytes <= u64::MAX
                    &&& *final(self) == (TeeProgress {
                        report: TeeReport {
                            mirrored_bytes: (old(self).report.mirrored_bytes + bytes) as u64,
                            ..old(self).report
                        },
                        ..*old(self)
                    })
                },
                Err(fault) => {
                    &&& old(self).report.mirrored_bytes + bytes > u64::MAX
                    &&& fault == Fault::MirroredByteOverflow
                    &&& *final(self) == *old(self)
                },
            },
    {
        match self.report.mirrored_bytes.checked_add(bytes as u64) {
            Some(total) => {
                self.report.mirrored_bytes = total;
                Ok(())
            },
            None => Err(Fault::MirroredByteOverflow),
        }
    }

    /// Cuts a prepared copy down to what may be exported, counts the cut, and says
    /// whether there was one.
    pub fn clip(&mut self, prepared: &mut Vec<u8>) -> (result: Result<bool, Fault>)
        ensures
            final(prepared)@ == clipped(old(prepared)@),
            match result {
                Ok(truncated) => {
                    &&& truncated == (old(prepared)@.len() > MAX_EXPORT_CHUNK_BYTES)
                    &&& truncated ==> old(self).report.truncated_exports < u64::MAX
                    &&& *final(self) == (TeeProgress {
                        report: TeeReport {
                            truncated_exports: if truncated {
                                (old(self).report.truncated_exports + 1) as u64
                            } else {
                                old(self).report.truncated_exports
                            },
                            ..old(self).report
                        },
                        ..*old(self)
                    })
                },
                Err(fault) => {
                    &&& old(prepared)@.len() > MAX_EXPORT_CHUNK_BYTES
                    &&& old(self).report.truncated_exports == u64::MAX
                    &&& fault == Fault::TruncatedExportOverflow
                    &&& *final(self) == *old(self)
                },
            },
    {
        if prepared.len() <= MAX_EXPORT_CHUNK_BYTES {
            return Ok(false);
        }
        prepared.truncate(MAX_EXPORT_CHUNK_BYTES);
        match self.report.truncated_exports.checked_add(1) {
            Some(total) => {
                self.report.truncated_exports = total;
                Ok(true)
            },
            None => Err(Fault::TruncatedExportOverflow),
        }
    }

    /// Counts an export that is about to be attempted.
    pub fn count_attempt(&mut self) -> (result: Result<(), Fault>)
        ensures
            match result {
                Ok(_) => {
                    &&& old(self).report.export_attempts < u64::MAX
                    &&& *final(self) == (TeeProgress {
                        report: TeeReport {
                            export_attempts: (old(self).report.export_attempts + 1) as u64,
                            ..old(self).report
                        },
                        ..*old(self)
                    })
                },
                Err(fault) => {
                    &&& old(self).report.export_attempts == u64::MAX
                    &&& fault == Fault::ExportAttemptOverflow
                    &&& *final(self) == *old(self)
                },
            },
    {
        match self.report.export_attempts.checked_add(1) {
            Some(total) => {
                self.report.export_attempts = total;
                Ok(())
            },
            None => Err(Fault::ExportAttemptOverflow),
        }
    }

    /// Takes note of how an export went. A failed one is counted and is no failure
    /// of the tee.
    pub fn settle(&mut self, delivered: bool) -> (result: Result<(), Fault>)
        ensures
            match result {
                Ok(_) => {
                    &&& !delivered ==> old(self).report.export_failures < u64::MAX
                    &&& *final(self) == (TeeProgress {
                        report: TeeReport {
                            export_failures: if delivered {
                                old(self).report.export_failures
                            } else {
                                (old(self).report.export_failures + 1) as u64
                            },
                            ..old(self).report
                        },
                        ..*old(self)
                    })
                },
                Err(fault) => {
                    &&& !delivered
                    &&& old(self).report.export_failures == u64::MAX
                    &&& fault == Fault::ExportFailureOverflow
                    &&& *final(self) == *old(self)
                },
            },
    {
        if delivered {
            return Ok(());
        }
        match self.report.export_failures.checked_add(1) {
            Some(total) => {
                self.report.export_failures = total;
                Ok(())
            },
            None => Err(Fault::ExportFailureOverflow),
        }
    }

    /// Goes on to the next sequence number.
    pub fn advance(&mut self) -> (result: Result<(), Fault>)
        ensures
            match result {
                Ok(_) => {
                    &&& old(self).sequence < u32::MAX
                    &&& *final(self) == (TeeProgress {
                        sequence: (old(self).sequence + 1) as u32,
                        ..*old(self)
                    })
                },
                Err(fault) => {
                    &&& old(self).sequence == u32::MAX
                    &&& fault == Fault::SequenceOverflow
                    &&& *final(self) == *old(self)
                },
            },
    {
        match self.sequence.checked_add(1) {
            Some(next) => {
                self.sequence = next;
                Ok(())
            },
            None => Err(Fault::SequenceOverflow),
        }
    }
}

/// One chunk's way through a tee: what was read, what the redactor made of it, and
/// whether the exporter took that.
pub struct TeeRound {
    pub input: Seq<u8>,
    pub output: Seq<u8>,
    pub changed: bool,
    pub delivered: bool,
}

/// How a tee ends, after its last complete round.
pub enum TeeEnd<X> {
    /// The source is at its end and the mirror is flushed.
    Drained,
    /// The source is at its end and the mirror cannot be flushed.
    FinalFlushFailed { error: X },
    /// The source fails.
    ReadFailed { error: X },
    /// The mirror fails to take a chunk, or to pass it on.
    MirrorFailed { input: Seq<u8>, step: int, error: X },
    /// No sequence number is left.
    SequenceExhausted,
}

/// What a source may hand out as one chunk.
pub open spec fn is_chunk(input: Seq<u8>) -> bool {
    0 < input.len() <= MAX_READ_CHUNK_BYTES
}

/// These rounds, ended so, are a run of a tee.
pub open spec fn is_tee_run<X>(rounds: Seq<TeeRound>, end: TeeEnd<X>) -> bool {
    &&& forall|k: int| 0 <= k < rounds.len() ==> is_chunk(#[trigger] rounds[k].input)
    &&& match end {
        TeeEnd::SequenceExhausted => rounds.len() == u32::MAX + 1,
        TeeEnd::MirrorFailed { input, step, .. } => {
            &&& rounds.len() <= u32::MAX
            &&& is_chunk(input)
            &&& 0 <= step < 2
        },
        _ => rounds.len() <= u32::MAX,
    }
}

/// The read that hands out a chunk.
pub open spec fn chunk_read<X>(outcome: Result<Seq<u8>, X>) -> SourceEvent<X> {
    SourceEvent::Read { limit: MAX_READ_CHUNK_BYTES as nat, outcome }
}

/// The reads of complete rounds.
pub open spec fn round_reads<X>(rounds: Seq<TeeRound>) -> Seq<SourceEvent<X>> {
    Seq::new(rounds.len(), |k: int| chunk_read(Ok(rounds[k].input)))
}

/// The reads of a run.
pub open spec fn tee_reads<X>(rounds: Seq<TeeRound>, end: TeeEnd<X>) -> Seq<SourceEvent<X>> {
    match end {
        TeeEnd::Drained | TeeEnd::FinalFlushFailed { .. } => round_reads(rounds).push(
            chunk_read(Ok(Seq::empty())),
        ),
        TeeEnd::ReadFailed { error } => round_reads(rounds).push(chunk_read(Err(error))),
        TeeEnd::MirrorFailed { input, .. } => round_reads(rounds).push(chunk_read(Ok(input))),
        TeeEnd::SequenceExhausted => round_reads(rounds),
    }
}

/// The calls on the mirror in complete rounds: each chunk as it was read, flushed.
pub open spec fn round_mirroring<X>(rounds: Seq<TeeRound>) -> Seq<SinkEvent<X>>
    decreases rounds.len(),
{
    if rounds.len() == 0 {
        Seq::empty()
    } else {
        round_mirroring(rounds.drop_last()) + endpoint::all_accepted(
            endpoint::delivery_calls(rounds.last().input),
        )
    }
}

/// The calls on the mirror in a run.
pub open spec fn tee_mirroring<X>(rounds: Seq<TeeRound>, end: TeeEnd<X>) -> Seq<SinkEvent<X>> {
    match end {
        TeeEnd::Drained => round_mirroring(rounds).push(
            SinkEvent { call: SinkCall::Flush, outcome: Ok(()) },
        ),
        TeeEnd::FinalFlushFailed { error } => round_mirroring(rounds).push(
            SinkEvent { call: SinkCall::Flush, outcome: Err(error) },
        ),
        TeeEnd::MirrorFailed { input, step, error } => round_mirroring(rounds)
            + endpoint::failed_at(endpoint::delivery_calls(input), step, error),
        _ => round_mirroring(rounds),
    }
}

/// The redactions of a run: one in each complete round, of what was read.
pub open spec fn tee_redactions(rounds: Seq<TeeRound>) -> Seq<Redaction> {
    Seq::new(
        rounds.len(),
        |k: int|
            Redaction {
                input: rounds[k].input,
                output: rounds[k].output,
                changed: rounds[k].changed,
            },
    )
}

/// The chunk that is exported in round `sequence`.
pub open spec fn exported(stream: LogStream, sequence: nat, round: TeeRound) -> ExportRecord {
    ExportRecord {
        stream,
        sequence,
        bytes: clipped(round.output),
        redacted: round.changed,
        truncated: round.output.len() > MAX_EXPORT_CHUNK_BYTES,
    }
}

/// The exports of a run: one in each complete round, numbered from zero.
pub open spec fn tee_exports(stream: LogStream, rounds: Seq<TeeRound>) -> Seq<ExportEvent> {
    Seq::new(
        rounds.len(),
        |k: int|
            ExportEvent {
                chunk: exported(stream, k as nat, rounds[k]),
                delivered: rounds[k].delivered,
            },
    )
}

/// The bytes read in complete rounds.
pub open spec fn mirrored_bytes(rounds: Seq<TeeRound>) -> nat
    decreases rounds.len(),
{
    if rounds.len() == 0 {
        0
    } else {
        mirrored_bytes(rounds.drop_last()) + rounds.last().input.len()
    }
}

/// The rounds whose export failed.
pub open spec fn export_failures(rounds: Seq<TeeRound>) -> nat
    decreases rounds.len(),
{
    if rounds.len() == 0 {
        0
    } else {
        export_failures(rounds.drop_last()) + if rounds.last().delivered {
            0nat
        } else {
            1nat
        }
    }
}

/// The rounds whose export was cut.
pub open spec fn truncated_exports(rounds: Seq<TeeRound>) -> nat
    decreases rounds.len(),
{
    if rounds.len() == 0 {
        0
    } else {
        truncated_exports(rounds.drop_last()) + if rounds.last().output.len()
            > MAX_EXPORT_CHUNK_BYTES {
            1nat
        } else {
            0nat
        }
    }
}

/// The report counts what happened in these rounds.
pub open spec fn reports(report: TeeReport, rounds: Seq<TeeRound>) -> bool {
    &&& report.mirrored_bytes == mirrored_bytes(rounds)
    &&& report.export_attempts == rounds.len()
    &&& report.export_failures == export_failures(rounds)
    &&& report.truncated_exports == truncated_exports(rounds)
}

/// What a tee returns at the end of a run.
pub open spec fn tee_returns<X>(
    rounds: Seq<TeeRound>,
    end: TeeEnd<X>,
    result: Result<TeeReport, CopyError<X>>,
) -> bool {
    match end {
        TeeEnd::Drained => result matches Ok(report) && reports(report, rounds),
        TeeEnd::SequenceExhausted => result == Err::<TeeReport, CopyError<X>>(
            CopyError::Fault(Fault::SequenceOverflow),
        ),
        TeeEnd::FinalFlushFailed { error } => result == Err::<TeeReport, CopyError<X>>(
            CopyError::Endpoint(error),
        ),
        TeeEnd::ReadFailed { error } => result == Err::<TeeReport, CopyError<X>>(
            CopyError::Endpoint(error),
        ),
        TeeEnd::MirrorFailed { error, .. } => result == Err::<TeeReport, CopyError<X>>(
            CopyError::Endpoint(error),
        ),
    }
}

/// The counts of a run fit: no chunk is longer than a read, and there are no more
/// chunks than sequence numbers.
proof fn lemma_counts_bounded(rounds: Seq<TeeRound>)
    requires
        forall|k: int| 0 <= k < rounds.len() ==> is_chunk(#[trigger] rounds[k].input),
    ensures
        mirrored_bytes(rounds) <= MAX_READ_CHUNK_BYTES * rounds.len(),
        export_failures(rounds) <= rounds.len(),
        truncated_exports(rounds) <= rounds.len(),
    decreases rounds.len(),
{
    if rounds.len() > 0 {
        assert(is_chunk(rounds[rounds.len() - 1].input));
        assert forall|k: int| 0 <= k < rounds.drop_last().len() implies is_chunk(
            #[trigger] rounds.drop_last()[k].input,
        ) by {
            assert(is_chunk(rounds[k].input));
        }
        lemma_counts_bounded(rounds.drop_last());
    }
}

/// The calls of one complete round, in order: the chunk is read, mirrored, flushed, redacted
/// and exported.
pub open spec fn round_step<X>(stream: LogStream, sequence: nat, round: TeeRound) -> Seq<
    TeeStep<X>,
> {
    seq![
        TeeStep::Source(chunk_read(Ok(round.input))),
        TeeStep::Mirror(SinkEvent { call: SinkCall::Write(round.input), outcome: Ok(()) }),
        TeeStep::Mirror(SinkEvent { call: SinkCall::Flush, outcome: Ok(()) }),
        TeeStep::Redactor(
            Redaction { input: round.input, output: round.output, changed: round.changed },
        ),
        TeeStep::Exporter(
            ExportEvent {
                chunk: exported(stream, sequence, round),
                delivered: round.delivered,
            },
        ),
    ]
}

/// The calls of complete rounds, in order: no round starts before the one before is over.
pub open spec fn round_steps<X>(stream: LogStream, rounds: Seq<TeeRound>) -> Seq<TeeStep<X>>
    decreases rounds.len(),
{
    if rounds.len() == 0 {
        Seq::empty()
    } else {
        round_steps(stream, rounds.drop_last()) + round_step(
            stream,
            (rounds.len() - 1) as nat,
            rounds.last(),
        )
    }
}

/// The calls of a run after its last complete round, in order.
pub open spec fn end_steps<X>(end: TeeEnd<X>) -> Seq<TeeStep<X>> {
    match end {
        TeeEnd::Drained => seq![
            TeeStep::Source(chunk_read(Ok(Seq::empty()))),
            TeeStep::Mirror(SinkEvent { call: SinkCall::Flush, outcome: Ok(()) }),
        ],
        TeeEnd::FinalFlushFailed { error } => seq![
            TeeStep::Source(chunk_read(Ok(Seq::empty()))),
            TeeStep::Mirror(SinkEvent { call: SinkCall::Flush, outcome: Err(error) }),
        ],
        TeeEnd::ReadFailed { error } => seq![TeeStep::Source(chunk_read(Err(error)))],
        TeeEnd::MirrorFailed { input, step, error } => seq![
            TeeStep::Source(chunk_read(Ok(input))),
        ] + ends::mirror_steps(
            endpoint::failed_at(endpoint::delivery_calls(input), step, error),
        ),
        TeeEnd::SequenceExhausted => Seq::empty(),
    }
}

/// The calls of a run on all endpoints, in order.
pub open spec fn tee_steps<X>(stream: LogStream, rounds: Seq<TeeRound>, end: TeeEnd<X>) -> Seq<
    TeeStep<X>,
> {
    round_steps(stream, rounds) + end_steps(end)
}

/// Runs a tee over its endpoints, and fixes the order in time of all calls on them: a chunk
/// is read, mirrored, flushed, redacted and exported before the next one is read.
pub fn tee_ends<X, R: ByteSource<X>, W: ByteSink<X>, F: Redactor, E: Exporter>(
    ends: &mut TeeEnds<'_, X, R, W, F, E>,
    stream: LogStream,
) -> (result: Result<TeeReport, CopyError<X>>)
    ensures
        exists|rounds: Seq<TeeRound>, end: TeeEnd<X>|
            {
                &&& #[trigger] is_tee_run(rounds, end)
                &&& final(ends).trace@ == old(ends).trace@ + tee_steps(stream, rounds, end)
                &&& final(ends).reader.history() == old(ends).reader.history() + tee_reads(
                    rounds,
                    end,
                )
                &&& final(ends).mirror.history() == old(ends).mirror.history() + tee_mirroring(
                    rounds,
                    end,
                )
                &&& final(ends).redact.history() == old(ends).redact.history() + tee_redactions(
                    rounds,
                )
                &&& final(ends).export.history() == old(ends).export.history() + tee_exports(
                    stream,
                    rounds,
                )
                &&& tee_returns(rounds, end, result)
            },
        *final(final(ends).reader) == *final(old(ends).reader),
        *final(final(ends).mirror) == *final(old(ends).mirror),
        *final(final(ends).redact) == *final(old(ends).redact),
        *final(final(ends).export) == *final(old(ends).export),
{
    let mut progress = TeeProgress::new();
    let mut buffer: Vec<u8> = vec![0u8; MAX_READ_CHUNK_BYTES];
    let mut prepared: Vec<u8> = Vec::with_capacity(MAX_READ_CHUNK_BYTES);
    let ghost mut rounds: Seq<TeeRound> = Seq::empty();
    assert(ends.trace@ =~= old(ends).trace@ + round_steps(stream, rounds));
    assert(ends.reader.history() =~= old(ends).reader.history() + round_reads(rounds));
    assert(ends.mirror.history() =~= old(ends).mirror.history() + round_mirroring(rounds));
    assert(ends.redact.history() =~= old(ends).redact.history() + tee_redactions(rounds));
    assert(ends.export.history() =~= old(ends).export.history() + tee_exports(stream, rounds));

    loop
        invariant
            buffer@.len() == MAX_READ_CHUNK_BYTES,
            progress.sequence == rounds.len(),
            reports(progress.report, rounds),
            forall|k: int| 0 <= k < rounds.len() ==> is_chunk(#[trigger] rounds[k].input),
            ends.reader.history() == old(ends).reader.history() + round_reads(rounds),
            ends.mirror.history() == old(ends).mirror.history() + round_mirroring(rounds),
            ends.redact.history() == old(ends).redact.history() + tee_redactions(rounds),
            ends.export.history() == old(ends).export.history() + tee_exports(stream, rounds),
            ends.trace@ == old(ends).trace@ + round_steps(stream, rounds),
            *final(ends.reader) == *final(old(ends).reader),
            *final(ends.mirror) == *final(old(ends).mirror),
            *final(ends.redact) == *final(old(ends).redact),
            *final(ends.export) == *final(old(ends).export),
        decreases u32::MAX - progress.sequence,
    {
        let ghost sink_start = ends.mirror.history();
        let ghost trace_start = ends.trace@;
        let read: usize = match ends.read(buffer.as_mut_slice()) {
            Ok(read) => read,
            Err(error) => {
                proof {
                    let end = TeeEnd::ReadFailed { error };
                    assert(is_tee_run(rounds, end));
                    assert(ends.trace@ =~= old(ends).trace@ + tee_steps(stream, rounds, end));
                    assert(ends.reader.history() =~= old(ends).reader.history() + tee_reads(rounds, end));
                }
                return Err(CopyError::Endpoint(error));
            },
        };
        let ghost chunk = buffer@.take(read as int);
        if read == 0 {
            assert(chunk =~= Seq::empty());
            match ends.flush() {
                Ok(unit) => {
                    proof {
                        let end = TeeEnd::<X>::Drained;
                        assert(unit == ());
                        assert(is_tee_run(rounds, end));
                        assert(ends.trace@ =~= old(ends).trace@ + tee_steps(stream, rounds, end));
                        assert(ends.reader.history() =~= old(ends).reader.history() + tee_reads(rounds, end));
                        assert(ends.mirror.history() =~= old(ends).mirror.history() + tee_mirroring(
                            rounds,
                            end,
                        ));
                    }
                    return Ok(progress.report);
                },
                Err(error) => {
                    proof {
                        let end = TeeEnd::FinalFlushFailed { error };
                        assert(is_tee_run(rounds, end));
                        assert(ends.trace@ =~= old(ends).trace@ + tee_steps(stream, rounds, end));
                        assert(ends.reader.history() =~= old(ends).reader.history() + tee_reads(rounds, end));
                        assert(ends.mirror.history() =~= old(ends).mirror.history() + tee_mirroring(
                            rounds,
                            end,
                        ));
                    }
                    return Err(CopyError::Endpoint(error));
                },
            }
        }
        let input = slice_subrange(buffer.as_slice(), 0, read);
        assert(input@ =~= chunk);
        if let Err(error) = ends.deliver(input) {
            proof {
                let step = choose|step: int|
                    {
                        let events = #[trigger] endpoint::failed_at(
                            endpoint::delivery_calls(chunk),
                            step,
                            error,
                        );
                        &&& 0 <= step < 2
                        &&& ends.mirror.history() == sink_start + events
                        &&& ends.trace@ == trace_start.push(TeeStep::Source(chunk_read(Ok(chunk))))
                            + ends::mirror_steps(events)
                    };
                let end = TeeEnd::MirrorFailed { input: chunk, step, error };
                assert(is_tee_run(rounds, end));
                assert(ends.trace@ =~= old(ends).trace@ + tee_steps(stream, rounds, end));
                assert(ends.reader.history() =~= old(ends).reader.history() + tee_reads(rounds, end));
                assert(ends.mirror.history() =~= old(ends).mirror.history() + tee_mirroring(rounds, end));
            }
            return Err(CopyError::Endpoint(error));
        }
        proof {
            lemma_counts_bounded(rounds);
        }
        if let Err(fault) = progress.count_mirrored(read) {
            return Err(CopyError::Fault(fault));
        }
        prepared.clear();
        let redacted = ends.redact(input, &mut prepared);
        let ghost output = prepared@;
        let truncated = match progress.clip(&mut prepared) {
            Ok(truncated) => truncated,
            Err(fault) => {
                return Err(CopyError::Fault(fault));
            },
        };
        if let Err(fault) = progress.count_attempt() {
            return Err(CopyError::Fault(fault));
        }
        let attempt = ends.export(
            ExportChunk {
                stream,
                sequence: progress.sequence,
                bytes: prepared.as_slice(),
                redacted,
                truncated,
            },
        );
        let delivered = attempt.is_ok();
        if let Err(fault) = progress.settle(delivered) {
            return Err(CopyError::Fault(fault));
        }
        proof {
            let round = TeeRound { input: chunk, output, changed: redacted, delivered };
            let before = rounds;
            rounds = rounds.push(round);
            assert(rounds.drop_last() =~= before);
            assert(ends.trace@ =~= old(ends).trace@ + round_steps(stream, rounds));
            assert(ends.reader.history() =~= old(ends).reader.history() + round_reads(rounds));
            assert(ends.mirror.history() =~= old(ends).mirror.history() + round_mirroring(rounds));
            assert(ends.redact.history() =~= old(ends).redact.history() + tee_redactions(rounds));
            assert(ends.export.history() =~= old(ends).export.history() + tee_exports(stream, rounds));
        }
        if let Err(fault) = progress.advance() {
            proof {
                let end = TeeEnd::<X>::SequenceExhausted;
                assert(is_tee_run(rounds, end));
                assert(ends.trace@ =~= old(ends).trace@ + tee_steps(stream, rounds, end));
            }
            return Err(CopyError::Fault(fault));
        }
    }
}

/// Mirrors every source byte to the native output before attempting export.
///
/// The redactor prepares a separate copy for the central-log exporter and says whether it
/// changed the payload. The exporter never receives the original input.
/// Export failures are counted and fail open so observability cannot deadlock or fail a build.
/// Read/mirror failures remain fatal because losing the native log stream is unacceptable.
///
/// A chunk reaches the redactor and the exporter only once the mirror has taken it and has
/// been flushed: where the mirror fails, neither of them is called for that chunk.
pub fn tee_stream<X, R: ByteSource<X>, W: ByteSink<X>, F: Redactor, E: Exporter>(
    reader: &mut R,
    mirror: &mut W,
    stream: LogStream,
    redact: &mut F,
    export: &mut E,
) -> (result: Result<TeeReport, CopyError<X>>)
    ensures
        exists|rounds: Seq<TeeRound>, end: TeeEnd<X>|
            {
                &&& #[trigger] is_tee_run(rounds, end)
                &&& final(reader).history() == old(reader).history() + tee_reads(rounds, end)
                &&& final(mirror).history() == old(mirror).history() + tee_mirroring(rounds, end)
                &&& final(redact).history() == old(redact).history() + tee_redactions(rounds)
                &&& final(export).history() == old(export).history() + tee_exports(stream, rounds)
                &&& tee_returns(rounds, end, result)
            },
        exists|ends: &mut TeeEnds<'_, X, R, W, F, E>|
            {
                &&& #[trigger] call_ensures(tee_ends::<X, R, W, F, E>, (ends, stream), result)
                &&& ends.trace@ == Seq::<TeeStep<X>>::empty()
                &&& ends.reader.history() == old(reader).history()
                &&& ends.mirror.history() == old(mirror).history()
                &&& ends.redact.history() == old(redact).history()
                &&& ends.export.history() == old(export).history()
                &&& final(ends).reader.history() == final(reader).history()
                &&& final(ends).mirror.history() == final(mirror).history()
                &&& final(ends).redact.history() == final(redact).history()
                &&& final(ends).export.history() == final(export).history()
            },
{
    let mut ends = TeeEnds::new(reader, mirror, redact, export);
    tee_ends(&mut ends, stream)
}

/// What was read in complete rounds is what the mirror accepted in them.
proof fn lemma_rounds_mirror_reads<X>(rounds: Seq<TeeRound>)
    ensures
        endpoint::accepted(round_mirroring::<X>(rounds)) == endpoint::handed_out(
            round_reads::<X>(rounds),
        ),
        endpoint::accepted(round_mirroring::<X>(rounds)).len() == mirrored_bytes(rounds),
    decreases rounds.len(),
{
    if rounds.len() == 0 {
        assert(round_reads::<X>(rounds) =~= Seq::empty());
    } else {
        let input = rounds.last().input;
        let before = rounds.drop_last();
        lemma_rounds_mirror_reads::<X>(before);
        endpoint::lemma_delivery_accepted::<X>(input);
        endpoint::lemma_accepted_append(
            round_mirroring::<X>(before),
            endpoint::all_accepted(endpoint::delivery_calls(input)),
        );
        assert(round_reads::<X>(rounds).drop_last() =~= round_reads::<X>(before));
        assert(round_reads::<X>(rounds).last() == chunk_read::<X>(Ok(input)));
    }
}

/// Complete rounds read at least one byte each.
pub proof fn lemma_rounds_carry_bytes<X>(rounds: Seq<TeeRound>)
    requires
        forall|k: int| 0 <= k < rounds.len() ==> is_chunk(#[trigger] rounds[k].input),
    ensures
        endpoint::handed_out(round_reads::<X>(rounds)).len() >= rounds.len(),
    decreases rounds.len(),
{
    if rounds.len() > 0 {
        let before = rounds.drop_last();
        assert(is_chunk(rounds[rounds.len() - 1].input));
        assert forall|k: int| 0 <= k < before.len() implies is_chunk(
            #[trigger] before[k].input,
        ) by {
            assert(is_chunk(rounds[k].input));
        }
        lemma_rounds_carry_bytes::<X>(before);
        assert(round_reads::<X>(rounds).drop_last() =~= round_reads::<X>(before));
        assert(round_reads::<X>(rounds).last() == chunk_read::<X>(Ok(rounds.last().input)));
    }
}

/// The bytes that were read and that the mirror did not accept.
pub open spec fn refused<X>(end: TeeEnd<X>) -> Seq<u8> {
    match end {
        TeeEnd::MirrorFailed { input, step, .. } => if step == 0 {
            input
        } else {
            Seq::empty()
        },
        _ => Seq::empty(),
    }
}

/// Every byte that the source hands out is accepted by the mirror, unchanged and in order.
/// The one exception is the chunk whose write fails, which ends the run.
pub proof fn law_mirror_keeps_every_byte<X>(rounds: Seq<TeeRound>, end: TeeEnd<X>)
    requires
        is_tee_run(rounds, end),
    ensures
        endpoint::handed_out(tee_reads(rounds, end)) == endpoint::accepted(
            tee_mirroring(rounds, end),
        ) + refused(end),
        end is Drained ==> endpoint::handed_out(tee_reads(rounds, end)) == endpoint::accepted(
            tee_mirroring(rounds, end),
        ),
{
    lemma_rounds_mirror_reads::<X>(rounds);
    let reads = tee_reads(rounds, end);
    let calls = tee_mirroring(rounds, end);
    if !(end is SequenceExhausted) {
        assert(reads.drop_last() =~= round_reads(rounds));
    }
    match end {
        TeeEnd::Drained | TeeEnd::FinalFlushFailed { .. } => {
            assert(calls.drop_last() =~= round_mirroring(rounds));
        },
        TeeEnd::MirrorFailed { input, step, error } => {
            endpoint::lemma_delivery_accepted::<X>(input);
            endpoint::lemma_accepted_append(
                round_mirroring(rounds),
                endpoint::failed_at(endpoint::delivery_calls(input), step, error),
            );
        },
        _ => {},
    }
    assert(endpoint::handed_out(reads) =~= endpoint::accepted(calls) + refused(end));
    assert(end is Drained ==> endpoint::handed_out(reads) =~= endpoint::accepted(calls));
}

/// The calls on the mirror that belong to round `k`.
pub proof fn lemma_round_mirroring_at<X>(rounds: Seq<TeeRound>, k: int)
    requires
        0 <= k < rounds.len(),
    ensures
        round_mirroring::<X>(rounds).len() == 2 * rounds.len(),
        round_mirroring::<X>(rounds)[2 * k] == (SinkEvent::<X> {
            call: SinkCall::Write(rounds[k].input),
            outcome: Ok(()),
        }),
        round_mirroring::<X>(rounds)[2 * k + 1] == (SinkEvent::<X> {
            call: SinkCall::Flush,
            outcome: Ok(()),
        }),
    decreases rounds.len(),
{
    let before = rounds.drop_last();
    if before.len() > 0 {
        lemma_round_mirroring_at::<X>(before, if k < before.len() { k } else { 0 });
    } else {
        assert(round_mirroring::<X>(before).len() == 0);
    }
}

/// A chunk is redacted and exported only after the mirror took exactly that chunk and was
/// flushed: for each export there is a read, an accepted write of what was read, a flush
/// that succeeded, and a redaction of what was read.
pub proof fn law_mirrored_before_export<X>(
    stream: LogStream,
    rounds: Seq<TeeRound>,
    end: TeeEnd<X>,
    k: int,
)
    requires
        is_tee_run(rounds, end),
        0 <= k < tee_exports(stream, rounds).len(),
    ensures
        2 * k + 1 < tee_mirroring(rounds, end).len(),
        tee_reads(rounds, end)[k] == chunk_read::<X>(Ok(tee_redactions(rounds)[k].input)),
        tee_mirroring(rounds, end)[2 * k] == (SinkEvent::<X> {
            call: SinkCall::Write(tee_redactions(rounds)[k].input),
            outcome: Ok(()),
        }),
        tee_mirroring(rounds, end)[2 * k + 1] == (SinkEvent::<X> {
            call: SinkCall::Flush,
            outcome: Ok(()),
        }),
{
    lemma_round_mirroring_at::<X>(rounds, k);
}

/// An exported chunk is the redactor's copy, cut at the ceiling and marked as cut if it
/// was. The chunks of a stream are numbered in order from zero.
pub proof fn law_exports_are_bounded_and_numbered(
    stream: LogStream,
    rounds: Seq<TeeRound>,
    k: int,
)
    requires
        0 <= k < rounds.len(),
    ensures
        tee_exports(stream, rounds).len() == tee_redactions(rounds).len(),
        ({
            let chunk = tee_exports(stream, rounds)[k].chunk;
            let redaction = tee_redactions(rounds)[k];
            &&& chunk.stream == stream
            &&& chunk.sequence == k
            &&& chunk.bytes.len() <= MAX_EXPORT_CHUNK_BYTES
            &&& chunk.bytes.is_prefix_of(redaction.output)
            &&& chunk.truncated <==> chunk.bytes.len() < redaction.output.len()
            &&& chunk.redacted == redaction.changed
        }),
{
}

/// Whether exports succeed changes nothing but the count of failed exports: the reads, the
/// calls on the mirror, the redactions and the chunks offered stay the same, and so does
/// every other count.
pub proof fn law_export_failures_are_harmless<X>(
    stream: LogStream,
    rounds: Seq<TeeRound>,
    others: Seq<TeeRound>,
    end: TeeEnd<X>,
    report: TeeReport,
    other: TeeReport,
)
    requires
        is_tee_run(rounds, end),
        rounds.len() == others.len(),
        forall|k: int|
            0 <= k < rounds.len() ==> (TeeRound {
                delivered: rounds[k].delivered,
                ..#[trigger] others[k]
            }) == #[trigger] rounds[k],
    ensures
        is_tee_run(others, end),
        tee_reads(others, end) == tee_reads(rounds, end),
        tee_mirroring(others, end) == tee_mirroring(rounds, end),
        tee_redactions(others) == tee_redactions(rounds),
        forall|k: int|
            0 <= k < rounds.len() ==> (#[trigger] tee_exports(stream, others)[k]).chunk
                == tee_exports(stream, rounds)[k].chunk,
        tee_returns(rounds, end, Ok(report)) ==> {
            &&& tee_returns(
                others,
                end,
                Ok(TeeReport { export_failures: export_failures(others) as u64, ..report }),
            )
        },
        tee_returns(rounds, end, Ok(report)) && tee_returns(others, end, Ok(other)) ==> other == (
        TeeReport { export_failures: other.export_failures, ..report }),
{
    assert forall|k: int| 0 <= k < others.len() implies is_chunk(#[trigger] others[k].input) by {
        assert(is_chunk(rounds[k].input));
    }
    lemma_same_counts::<X>(rounds, others);
    lemma_counts_bounded(others);
    assert(round_reads::<X>(others) =~= round_reads::<X>(rounds));
    assert(tee_redactions(others) =~= tee_redactions(rounds));
}

/// Rounds that differ in their deliveries only have the same mirroring and the same counts.
proof fn lemma_same_counts<X>(rounds: Seq<TeeRound>, others: Seq<TeeRound>)
    requires
        rounds.len() == others.len(),
        forall|k: int|
            0 <= k < rounds.len() ==> (TeeRound {
                delivered: rounds[k].delivered,
                ..#[trigger] others[k]
            }) == #[trigger] rounds[k],
    ensures
        round_mirroring::<X>(others) == round_mirroring::<X>(rounds),
        mirrored_bytes(others) == mirrored_bytes(rounds),
        truncated_exports(others) == truncated_exports(rounds),
    decreases rounds.len(),
{
    if rounds.len() > 0 {
        assert forall|k: int| 0 <= k < rounds.drop_last().len() implies (TeeRound {
            delivered: rounds.drop_last()[k].delivered,
            ..#[trigger] others.drop_last()[k]
        }) == #[trigger] rounds.drop_last()[k] by {
            assert(rounds.drop_last()[k] == rounds[k]);
            assert(others.drop_last()[k] == others[k]);
        }
        lemma_same_counts::<X>(rounds.drop_last(), others.drop_last());
        assert(rounds.last() == rounds[rounds.len() - 1]);
        assert(others.last() == others[rounds.len() - 1]);
    }
}

/// A tee that succeeds met no failure of its source or its mirror, and counted every byte
/// that the mirror accepted, one attempt for each chunk, and at most one failure and one
/// cut for each attempt.
pub proof fn law_success_means_nothing_lost<X>(
    rounds: Seq<TeeRound>,
    end: TeeEnd<X>,
    report: TeeReport,
)
    requires
        is_tee_run(rounds, end),
        tee_returns(rounds, end, Ok(report)),
    ensures
        forall|i: int|
            0 <= i < tee_reads(rounds, end).len() ==> (#[trigger] tee_reads(rounds, end)[i])
                == chunk_read::<X>(
                Ok(
                    if i < rounds.len() {
                        rounds[i].input
                    } else {
                        Seq::empty()
                    },
                ),
            ),
        forall|i: int|
            0 <= i < tee_mirroring(rounds, end).len() ==> (#[trigger] tee_mirroring(
                rounds,
                end,
            )[i]).outcome == Ok::<(), X>(()),
        report.mirrored_bytes == endpoint::accepted(tee_mirroring(rounds, end)).len(),
        report.export_attempts == rounds.len(),
        report.export_failures <= report.export_attempts,
        report.truncated_exports <= report.export_attempts,
{
    lemma_counts_bounded(rounds);
    lemma_rounds_mirror_reads::<X>(rounds);
    let calls = tee_mirroring(rounds, end);
    assert(calls.drop_last() =~= round_mirroring(rounds));
    if rounds.len() > 0 {
        lemma_round_mirroring_at::<X>(rounds, 0);
    }
    assert forall|i: int| 0 <= i < calls.len() implies (#[trigger] calls[i]).outcome == Ok::<
        (),
        X,
    >(()) by {
        if i < 2 * rounds.len() {
            lemma_round_mirroring_at::<X>(rounds, i / 2);
            assert(i == 2 * (i / 2) || i == 2 * (i / 2) + 1);
        }
    }
}

/// The calls of a round up to its flush, and up to its end, by endpoint.
proof fn lemma_round_step_events<X>(stream: LogStream, sequence: nat, round: TeeRound)
    ensures
        ({
            let steps = round_step::<X>(stream, sequence, round);
            &&& ends::source_events(steps.take(3)) == seq![chunk_read::<X>(Ok(round.input))]
            &&& ends::source_events(steps) == seq![chunk_read::<X>(Ok(round.input))]
            &&& ends::mirror_events(steps.take(3)) == endpoint::all_accepted::<X>(
                endpoint::delivery_calls(round.input),
            )
            &&& ends::mirror_events(steps) == endpoint::all_accepted::<X>(
                endpoint::delivery_calls(round.input),
            )
        }),
{
    reveal_with_fuel(ends::source_events, 6);
    reveal_with_fuel(ends::mirror_events, 6);
    let steps = round_step::<X>(stream, sequence, round);
    assert(steps.drop_last() =~= steps.take(4));
    assert(steps.take(4).drop_last() =~= steps.take(3));
    assert(steps.take(3).drop_last() =~= steps.take(2));
    assert(steps.take(2).drop_last() =~= steps.take(1));
    assert(steps.take(1).drop_last() =~= Seq::empty());
    let delivery = endpoint::all_accepted::<X>(endpoint::delivery_calls(round.input));
    assert(ends::mirror_events(steps.take(3)) =~= delivery);
    assert(ends::source_events(steps.take(3)) =~= seq![chunk_read::<X>(Ok(round.input))]);
}

/// The calls of complete rounds, by endpoint, and how many there are.
pub proof fn lemma_round_steps_events<X>(stream: LogStream, rounds: Seq<TeeRound>)
    ensures
        round_steps::<X>(stream, rounds).len() == 5 * rounds.len(),
        ends::source_events(round_steps::<X>(stream, rounds)) == round_reads::<X>(rounds),
        ends::mirror_events(round_steps::<X>(stream, rounds)) == round_mirroring::<X>(rounds),
    decreases rounds.len(),
{
    if rounds.len() == 0 {
        assert(round_reads::<X>(rounds) =~= Seq::empty());
    } else {
        let before = rounds.drop_last();
        let last = (rounds.len() - 1) as nat;
        lemma_round_steps_events::<X>(stream, before);
        lemma_round_step_events::<X>(stream, last, rounds.last());
        ends::lemma_events_append(
            round_steps::<X>(stream, before),
            round_step::<X>(stream, last, rounds.last()),
        );
        assert(round_reads::<X>(rounds) =~= round_reads::<X>(before) + seq![
            chunk_read::<X>(Ok(rounds.last().input)),
        ]);
    }
}

/// The calls of the first rounds come first.
proof fn lemma_round_steps_prefix<X>(stream: LogStream, rounds: Seq<TeeRound>, count: int)
    requires
        0 <= count <= rounds.len(),
    ensures
        round_steps::<X>(stream, rounds).take(5 * count) == round_steps::<X>(
            stream,
            rounds.take(count),
        ),
    decreases rounds.len() - count,
{
    lemma_round_steps_events::<X>(stream, rounds);
    if count == rounds.len() {
        assert(rounds.take(count) =~= rounds);
        assert(round_steps::<X>(stream, rounds).take(5 * count) =~= round_steps::<X>(
            stream,
            rounds,
        ));
    } else {
        lemma_round_steps_prefix::<X>(stream, rounds, count + 1);
        let more = rounds.take(count + 1);
        assert(more.drop_last() =~= rounds.take(count));
        lemma_round_steps_events::<X>(stream, rounds.take(count));
        assert(round_steps::<X>(stream, rounds).take(5 * count) =~= round_steps::<X>(
            stream,
            rounds,
        ).take(5 * (count + 1)).take(5 * count));
        assert(round_steps::<X>(stream, more).take(5 * count) =~= round_steps::<X>(
            stream,
            rounds.take(count),
        ));
    }
}

/// The calls of round `k` among those of complete rounds.
pub proof fn lemma_round_steps_at<X>(stream: LogStream, rounds: Seq<TeeRound>, k: int)
    requires
        0 <= k < rounds.len(),
    ensures
        round_steps::<X>(stream, rounds).len() == 5 * rounds.len(),
        round_steps::<X>(stream, rounds).subrange(5 * k, 5 * k + 5) == round_step::<X>(
            stream,
            k as nat,
            rounds[k],
        ),
        forall|i: int|
            0 <= i < 5 ==> round_steps::<X>(stream, rounds)[5 * k + i] == #[trigger] round_step::<X>(
                stream,
                k as nat,
                rounds[k],
            )[i],
    decreases rounds.len(),
{
    let before = rounds.drop_last();
    let all = round_steps::<X>(stream, rounds);
    let calls = round_step::<X>(stream, k as nat, rounds[k]);
    lemma_round_steps_events::<X>(stream, rounds);
    lemma_round_steps_events::<X>(stream, before);
    if k < before.len() {
        lemma_round_steps_at::<X>(stream, before, k);
        assert(before[k] == rounds[k]);
        assert forall|i: int| 0 <= i < 5 implies all[5 * k + i] == #[trigger] calls[i] by {
            assert(all[5 * k + i] == round_steps::<X>(stream, before)[5 * k + i]);
        }
    }
    assert(all.subrange(5 * k, 5 * k + 5) =~= calls);
}

/// When chunk `k` is redacted and exported, the mirror has accepted exactly the chunks up to
/// and including it, and its last call was a flush that succeeded. No other chunk has been
/// read by then: the next call after the export, if there is one, is the next read.
pub proof fn law_rounds_follow_each_other_in_time<X>(
    stream: LogStream,
    rounds: Seq<TeeRound>,
    end: TeeEnd<X>,
    k: int,
)
    requires
        is_tee_run(rounds, end),
        0 <= k < rounds.len(),
    ensures
        ({
            let steps = tee_steps(stream, rounds, end);
            let so_far = steps.take(5 * k + 3);
            let chunks = round_reads::<X>(rounds.take(k + 1));
            &&& 5 * k + 5 <= steps.len()
            &&& endpoint::accepted(ends::mirror_events(so_far)) == endpoint::handed_out(chunks)
            &&& ends::source_events(so_far) == chunks
            &&& so_far.last() == TeeStep::Mirror(
                SinkEvent::<X> { call: SinkCall::Flush, outcome: Ok(()) },
            )
            &&& steps[5 * k + 3] == TeeStep::<X>::Redactor(tee_redactions(rounds)[k])
            &&& steps[5 * k + 4] == TeeStep::<X>::Exporter(tee_exports(stream, rounds)[k])
            &&& steps.len() > 5 * k + 5 ==> steps[5 * k + 5] is Source
            &&& steps.len() == 5 * k + 5 ==> end is SequenceExhausted
        }),
{
    let steps = tee_steps(stream, rounds, end);
    let all = round_steps::<X>(stream, rounds);
    let before = rounds.take(k);
    let upto = rounds.take(k + 1);
    let round = rounds[k];
    let calls = round_step::<X>(stream, k as nat, round);
    lemma_round_steps_events::<X>(stream, rounds);
    lemma_round_steps_events::<X>(stream, before);
    lemma_round_steps_prefix::<X>(stream, rounds, k + 1);
    assert(upto.drop_last() =~= before);
    assert(upto.last() == round);
    let done = round_steps::<X>(stream, upto);
    assert(done == round_steps::<X>(stream, before) + calls);
    assert(all.take(5 * k + 5) =~= done);
    assert forall|i: int| 0 <= i < 5 * k + 5 implies steps[i] == done[i] by {
        assert(all.take(5 * k + 5)[i] == all[i]);
    }
    assert(steps[5 * k + 3] == calls[3]);
    assert(steps[5 * k + 4] == calls[4]);
    let so_far = steps.take(5 * k + 3);
    assert(so_far =~= round_steps::<X>(stream, before) + calls.take(3));
    assert(so_far.last() == calls[2]);
    lemma_round_step_events::<X>(stream, k as nat, round);
    ends::lemma_events_append(round_steps::<X>(stream, before), calls.take(3));
    assert(ends::mirror_events(so_far) == round_mirroring::<X>(upto));
    assert(ends::source_events(so_far) =~= round_reads::<X>(upto));
    lemma_rounds_mirror_reads::<X>(upto);
    if k + 1 < rounds.len() {
        let next = rounds.take(k + 2);
        lemma_round_steps_prefix::<X>(stream, rounds, k + 2);
        assert(next.drop_last() =~= upto);
        let following = round_step::<X>(stream, (k + 1) as nat, rounds[k + 1]);
        assert(round_steps::<X>(stream, next) == done + following);
        assert(all[5 * k + 5] == all.take(5 * (k + 2))[5 * k + 5]);
        assert(steps[5 * k + 5] == following[0]);
    } else if end_steps(end).len() > 0 {
        assert(steps[5 * k + 5] == end_steps(end)[0]);
    }
}

/// A run that finds the end of its source flushes the mirror once more, as its last call,
/// also where nothing was read before.
pub proof fn law_end_of_source_is_flushed<X>(
    stream: LogStream,
    rounds: Seq<TeeRound>,
    end: TeeEnd<X>,
)
    requires
        is_tee_run(rounds, end),
        end is Drained || end is FinalFlushFailed,
    ensures
        ({
            let steps = tee_steps(stream, rounds, end);
            &&& steps.len() == 5 * rounds.len() + 2
            &&& steps[5 * rounds.len() as int] == TeeStep::Source(
                chunk_read::<X>(Ok(Seq::empty())),
            )
            &&& steps.last() matches TeeStep::Mirror(event) && {
                &&& event.call == SinkCall::Flush
                &&& event.outcome is Ok <==> end is Drained
            }
        }),
{
    lemma_round_steps_events::<X>(stream, rounds);
}

} // verus!
