//! The metadata lines that go with the frame protocol.

use vstd::prelude::*;
use vstd::string::*;

use crate::endpoint;
use crate::endpoint::{ByteSink, LineEvent, LineSource, SinkCall, SinkEvent};
use crate::fault::CopyError;

verus! {

/// What marks a line of the output as metadata.
pub const METADATA_PREFIX: &'static str = "[ghaiw-meta] ";

/// The byte that ends a line.
pub const NEWLINE: u8 = 10;

/// What a source of lines may hand out as one line: the last may lack its newline.
pub open spec fn is_line(line: Seq<u8>) -> bool {
    &&& line.len() > 0
    &&& endpoint::is_single_line(line, NEWLINE)
}

/// What a line lacks to be complete.
pub open spec fn missing_newline(line: Seq<u8>) -> Seq<u8> {
    if line.len() > 0 && line.last() == NEWLINE {
        Seq::empty()
    } else {
        seq![NEWLINE]
    }
}

/// A line as it is shown: marked, unchanged, and complete.
pub open spec fn shown_line(line: Seq<u8>) -> Seq<u8> {
    METADATA_PREFIX.spec_bytes() + line + missing_newline(line)
}

/// These lines as they are shown.
pub open spec fn shown_lines(lines: Seq<Seq<u8>>) -> Seq<u8>
    decreases lines.len(),
{
    if lines.len() == 0 {
        Seq::empty()
    } else {
        shown_lines(lines.drop_last()) + shown_line(lines.last())
    }
}

/// The calls by which a line is shown.
pub open spec fn line_calls(line: Seq<u8>) -> Seq<SinkCall> {
    let marked = seq![SinkCall::Write(METADATA_PREFIX.spec_bytes()), SinkCall::Write(line)];
    if missing_newline(line).len() == 0 {
        marked.push(SinkCall::Flush)
    } else {
        marked.push(SinkCall::Write(missing_newline(line))).push(SinkCall::Flush)
    }
}

/// Whether a line has its newline.
pub fn ends_line(line: &[u8]) -> (complete: bool)
    ensures
        complete == (line@.len() > 0 && line@.last() == NEWLINE),
{
    line.len() > 0 && line[line.len() - 1] == NEWLINE
}

/// Shows one line, and stops at a failure.
pub fn show_line<X, W: ByteSink<X>>(writer: &mut W, line: &[u8]) -> (result: Result<(), X>)
    ensures
        match result {
            Ok(_) => final(writer).history() == old(writer).history() + endpoint::all_accepted(
                line_calls(line@),
            ),
            Err(error) => exists|step: int|
                {
                    &&& 0 <= step < line_calls(line@).len()
                    &&& final(writer).history() == old(writer).history()
                        + #[trigger] endpoint::failed_at(line_calls(line@), step, error)
                },
        },
{
    let ghost start = writer.history();
    let ghost calls = line_calls(line@);
    match writer.write_all(METADATA_PREFIX.as_bytes()) {
        Ok(unit) => {
            assert(unit == ());
        },
        Err(error) => {
            assert(writer.history() =~= start + endpoint::failed_at(calls, 0, error));
            return Err(error);
        },
    }
    assert(writer.history() =~= start + endpoint::all_accepted(calls.take(1)));
    match writer.write_all(line) {
        Ok(unit) => {
            assert(unit == ());
        },
        Err(error) => {
            assert(writer.history() =~= start + endpoint::failed_at(calls, 1, error));
            return Err(error);
        },
    }
    assert(writer.history() =~= start + endpoint::all_accepted(calls.take(2)));
    if !ends_line(line) {
        let newline: Vec<u8> = vec![NEWLINE];
        assert(newline@ =~= missing_newline(line@));
        match writer.write_all(newline.as_slice()) {
            Ok(unit) => {
                assert(unit == ());
            },
            Err(error) => {
                assert(writer.history() =~= start + endpoint::failed_at(calls, 2, error));
                return Err(error);
            },
        }
    }
    let ghost last = calls.len() - 1;
    assert(writer.history() =~= start + endpoint::all_accepted(calls.take(last)));
    match writer.flush() {
        Ok(unit) => {
            assert(unit == ());
        },
        Err(error) => {
            assert(writer.history() =~= start + endpoint::failed_at(calls, last, error));
            return Err(error);
        },
    }
    assert(writer.history() =~= start + endpoint::all_accepted(calls));
    Ok(())
}

/// How a copy of metadata ends, after its last complete line.
pub enum MetadataEnd<X> {
    /// The source is at its end.
    Drained,
    /// The source fails.
    ReadFailed { error: X },
    /// A line cannot be shown.
    ShowFailed { line: Seq<u8>, step: int, error: X },
}

/// These lines, ended so, are a run of a copy.
pub open spec fn is_metadata_run<X>(lines: Seq<Seq<u8>>, end: MetadataEnd<X>) -> bool {
    &&& forall|k: int| 0 <= k < lines.len() ==> is_line(#[trigger] lines[k])
    &&& end matches MetadataEnd::ShowFailed { line, step, .. } ==> {
        &&& is_line(line)
        &&& 0 <= step < line_calls(line).len()
    }
}

/// A request for a line, with its answer.
pub open spec fn line_read<X>(outcome: Result<Seq<u8>, X>) -> LineEvent<X> {
    LineEvent::ReadUntil { delimiter: NEWLINE, outcome }
}

/// The requests for these lines.
pub open spec fn line_reads<X>(lines: Seq<Seq<u8>>) -> Seq<LineEvent<X>> {
    Seq::new(lines.len(), |k: int| line_read(Ok(lines[k])))
}

/// The requests for lines in a run.
pub open spec fn metadata_reads<X>(lines: Seq<Seq<u8>>, end: MetadataEnd<X>) -> Seq<LineEvent<X>> {
    line_reads(lines).push(
        line_read(
            match end {
                MetadataEnd::Drained => Ok(Seq::empty()),
                MetadataEnd::ReadFailed { error } => Err(error),
                MetadataEnd::ShowFailed { line, .. } => Ok(line),
            },
        ),
    )
}

/// The calls by which these lines are shown.
pub open spec fn showing<X>(lines: Seq<Seq<u8>>) -> Seq<SinkEvent<X>>
    decreases lines.len(),
{
    if lines.len() == 0 {
        Seq::empty()
    } else {
        showing(lines.drop_last()) + endpoint::all_accepted(line_calls(lines.last()))
    }
}

/// The calls on the writer in a run.
pub open spec fn metadata_writes<X>(lines: Seq<Seq<u8>>, end: MetadataEnd<X>) -> Seq<
    SinkEvent<X>,
> {
    match end {
        MetadataEnd::ShowFailed { line, step, error } => showing(lines) + endpoint::failed_at(
            line_calls(line),
            step,
            error,
        ),
        _ => showing(lines),
    }
}

/// What a copy returns at the end of a run.
pub open spec fn metadata_result<X>(end: MetadataEnd<X>) -> Result<(), CopyError<X>> {
    match end {
        MetadataEnd::Drained => Ok(()),
        MetadataEnd::ReadFailed { error } => Err(CopyError::Endpoint(error)),
        MetadataEnd::ShowFailed { error, .. } => Err(CopyError::Endpoint(error)),
    }
}

/// Shows every metadata line, marked as such and otherwise unchanged.
pub fn copy_metadata<X, R: LineSource<X>, W: ByteSink<X>>(reader: &mut R, writer: &mut W) -> (result:
    Result<(), CopyError<X>>)
    ensures
        exists|lines: Seq<Seq<u8>>, end: MetadataEnd<X>|
            {
                &&& #[trigger] is_metadata_run(lines, end)
                &&& final(reader).history() == old(reader).history() + metadata_reads(lines, end)
                &&& final(writer).history() == old(writer).history() + metadata_writes(lines, end)
                &&& result == metadata_result(end)
            },
{
    let mut line: Vec<u8> = Vec::new();
    let ghost mut lines: Seq<Seq<u8>> = Seq::empty();
    assert(reader.history() =~= old(reader).history() + line_reads(lines));
    assert(writer.history() =~= old(writer).history() + showing(lines));
    loop
        invariant
            forall|k: int| 0 <= k < lines.len() ==> is_line(#[trigger] lines[k]),
            reader.history() == old(reader).history() + line_reads(lines),
            writer.history() == old(writer).history() + showing(lines),
        decreases reader.unread(),
    {
        let ghost start = writer.history();
        line.clear();
        let read: usize = match reader.read_until(NEWLINE, &mut line) {
            Ok(read) => read,
            Err(error) => {
                proof {
                    let end = MetadataEnd::ReadFailed { error };
                    assert(is_metadata_run(lines, end));
                    assert(reader.history() =~= old(reader).history() + metadata_reads(lines, end));
                }
                return Err(CopyError::Endpoint(error));
            },
        };
        assert(line@.skip(0) =~= line@);
        if read == 0 {
            proof {
                let end = MetadataEnd::<X>::Drained;
                assert(line@ =~= Seq::empty());
                assert(is_metadata_run(lines, end));
                assert(reader.history() =~= old(reader).history() + metadata_reads(lines, end));
            }
            return Ok(());
        }
        if let Err(error) = show_line(writer, line.as_slice()) {
            proof {
                let step = choose|step: int|
                    {
                        &&& 0 <= step < line_calls(line@).len()
                        &&& writer.history() == start + #[trigger] endpoint::failed_at(
                            line_calls(line@),
                            step,
                            error,
                        )
                    };
                let end = MetadataEnd::ShowFailed { line: line@, step, error };
                assert(is_metadata_run(lines, end));
                assert(reader.history() =~= old(reader).history() + metadata_reads(lines, end));
                assert(writer.history() =~= old(writer).history() + metadata_writes(lines, end));
            }
            return Err(CopyError::Endpoint(error));
        }
        proof {
            let before = lines;
            lines = lines.push(line@);
            assert(lines.drop_last() =~= before);
            assert(reader.history() =~= old(reader).history() + line_reads(lines));
            assert(writer.history() =~= old(writer).history() + showing(lines));
        }
    }
}

/// Showing a line hands over the marked line.
proof fn lemma_line_accepted<X>(line: Seq<u8>)
    ensures
        endpoint::accepted(endpoint::all_accepted::<X>(line_calls(line))) == shown_line(line),
{
    reveal_with_fuel(endpoint::accepted, 5);
    let calls = line_calls(line);
    let all = endpoint::all_accepted::<X>(calls);
    let prefix = METADATA_PREFIX.spec_bytes();
    assert(all.drop_last() =~= endpoint::all_accepted::<X>(calls.take(calls.len() - 1)));
    assert(all.drop_last().drop_last() =~= endpoint::all_accepted::<X>(
        calls.take(calls.len() - 2),
    ));
    assert(all.drop_last().drop_last().drop_last() =~= endpoint::all_accepted::<X>(
        calls.take(calls.len() - 3),
    ));
    if calls.len() == 4 {
        let first = endpoint::all_accepted::<X>(calls.take(1));
        assert(first.drop_last() =~= Seq::empty());
        assert(endpoint::accepted(first) =~= prefix);
    } else {
        assert(calls.take(0) =~= Seq::empty());
        assert(endpoint::accepted(endpoint::all_accepted::<X>(calls.take(1))) =~= prefix);
    }
    assert(endpoint::accepted(all) =~= shown_line(line));
}

/// A writer that gets all lines of a run accepts each line in order, unchanged after its
/// mark, and ended by a newline; it accepts nothing else.
pub proof fn law_metadata_is_shown_unchanged<X>(lines: Seq<Seq<u8>>)
    ensures
        endpoint::accepted(metadata_writes(lines, MetadataEnd::<X>::Drained)) == shown_lines(lines),
    decreases lines.len(),
{
    if lines.len() > 0 {
        law_metadata_is_shown_unchanged::<X>(lines.drop_last());
        lemma_line_accepted::<X>(lines.last());
        endpoint::lemma_accepted_append(
            showing::<X>(lines.drop_last()),
            endpoint::all_accepted(line_calls(lines.last())),
        );
    }
}

} // verus!
