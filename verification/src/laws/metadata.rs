//! Laws of the metadata lines that go with the frame protocol.

use vstd::prelude::*;
use vstd::string::*;

use crate::endpoint;
use crate::endpoint::{ByteSink, LineEvent, LineSource, SinkCall};
use crate::fault::{CopyError, FaultKind};
use crate::laws;
use crate::memory;
use crate::memory::build_log;
use crate::pipe::metadata;
use crate::pipe::metadata::{copy_metadata, ends_line, MetadataEnd};

verus! {

/// The calls that show these lines.
spec fn calls_due(lines: Seq<Seq<u8>>) -> Seq<SinkCall> {
    Seq::new(lines.len(), |k: int| metadata::line_calls(lines[k])).flatten()
}

/// One more line is shown last.
proof fn lemma_one_more_due(lines: Seq<Seq<u8>>, line: Seq<u8>)
    ensures
        calls_due(lines.push(line)) == calls_due(lines) + metadata::line_calls(line),
{
    let more = Seq::new(lines.len() + 1, |k: int| metadata::line_calls(lines.push(line)[k]));
    let parts = Seq::new(lines.len(), |k: int| metadata::line_calls(lines[k]));
    assert(more.drop_last() =~= parts);
    assert(more.last() == metadata::line_calls(line));
    more.lemma_flatten_and_flatten_alt_are_equivalent();
    parts.lemma_flatten_and_flatten_alt_are_equivalent();
    assert(lines.push(line).len() == lines.len() + 1);
    assert(calls_due(lines.push(line)) == more.flatten());
}

/// Showing lines makes the calls that are due, and all succeed.
proof fn lemma_showing_makes_calls_due<X>(lines: Seq<Seq<u8>>)
    ensures
        metadata::showing::<X>(lines) == endpoint::all_accepted::<X>(calls_due(lines)),
    decreases lines.len(),
{
    if lines.len() > 0 {
        let before = lines.drop_last();
        lemma_showing_makes_calls_due::<X>(before);
        lemma_one_more_due(before, lines.last());
        assert(before.push(lines.last()) =~= lines);
    } else {
        assert(calls_due(lines) =~= Seq::empty());
    }
    assert(metadata::showing::<X>(lines) =~= endpoint::all_accepted::<X>(calls_due(lines)));
}

/// A copy of metadata asks for one line after the other until a request gets none, and shows
/// each line that it got: its mark, the very line, a newline where it lacks one, and a flush. It
/// asks for no line behind one that cannot be shown. It succeeds exactly where the last request got no byte and no call on
/// the writer failed; it fails with the error of the request or of the call that failed, which
/// is the last one.
pub proof fn law_metadata_is_copied_to_its_end<X, R: LineSource<X>, W: ByteSink<X>>(
    reader: &mut R,
    writer: &mut W,
    result: Result<(), CopyError<X>>,
)
    requires
        call_ensures(copy_metadata::<X, R, W>, (reader, writer), result),
    ensures
        ({
            let reads = laws::added(old(reader).history(), final(reader).history());
            let calls = laws::added(old(writer).history(), final(writer).history());
            let n = reads.len() - 1;
            let due = |count: int|
                Seq::new(
                    count as nat,
                    |k: int|
                        {
                            let line = reads[k]->outcome->Ok_0;
                            if line.last() == 10 {
                                seq![
                                    SinkCall::Write("[ghaiw-meta] ".spec_bytes()),
                                    SinkCall::Write(line),
                                    SinkCall::Flush,
                                ]
                            } else {
                                seq![
                                    SinkCall::Write("[ghaiw-meta] ".spec_bytes()),
                                    SinkCall::Write(line),
                                    SinkCall::Write(seq![10u8]),
                                    SinkCall::Flush,
                                ]
                            }
                        },
                ).flatten();
            &&& n >= 0
            &&& forall|k: int|
                0 <= k <= n ==> (#[trigger] reads[k]) is ReadUntil && reads[k]->delimiter == 10
            &&& forall|k: int|
                0 <= k < n ==> (#[trigger] reads[k])->outcome is Ok
                    && reads[k]->outcome->Ok_0.len() > 0
            &&& match result {
                Ok(_) => {
                    &&& reads[n]->outcome == Ok::<Seq<u8>, X>(Seq::empty())
                    &&& calls.len() == due(n).len()
                    &&& forall|i: int|
                        0 <= i < calls.len() ==> (#[trigger] calls[i]).call == due(n)[i]
                            && calls[i].outcome is Ok
                },
                Err(CopyError::Endpoint(error)) => {
                    ||| {
                        &&& reads[n]->outcome == Err::<Seq<u8>, X>(error)
                        &&& calls.len() == due(n).len()
                        &&& forall|i: int|
                            0 <= i < calls.len() ==> (#[trigger] calls[i]).call == due(n)[i]
                                && calls[i].outcome is Ok
                    }
                    ||| {
                        &&& reads[n]->outcome is Ok
                        &&& reads[n]->outcome->Ok_0.len() > 0
                        &&& due(n).len() < calls.len() <= due(n + 1).len()
                        &&& forall|i: int|
                            0 <= i < calls.len() ==> (#[trigger] calls[i]).call == due(n + 1)[i]
                        &&& forall|i: int|
                            0 <= i < calls.len() - 1 ==> (#[trigger] calls[i]).outcome is Ok
                        &&& calls.last().outcome == Err::<(), X>(error)
                    }
                },
                Err(CopyError::Fault(_)) => false,
            }
        }),
        old(reader).history().is_prefix_of(final(reader).history()),
        old(writer).history().is_prefix_of(final(writer).history()),
{
    let (lines, end) = choose|lines: Seq<Seq<u8>>, end: MetadataEnd<X>|
        {
            &&& #[trigger] metadata::is_metadata_run(lines, end)
            &&& final(reader).history() == old(reader).history() + metadata::metadata_reads(
                lines,
                end,
            )
            &&& final(writer).history() == old(writer).history() + metadata::metadata_writes(
                lines,
                end,
            )
            &&& result == metadata::metadata_result(end)
        };
    let reads = metadata::metadata_reads(lines, end);
    let calls = metadata::metadata_writes(lines, end);
    laws::lemma_added(old(reader).history(), reads);
    laws::lemma_added(old(writer).history(), calls);
    let n = reads.len() - 1;
    lemma_showing_makes_calls_due::<X>(lines);
    assert(n == lines.len());
    let parts = |count: int|
        Seq::new(
            count as nat,
            |k: int|
                {
                    let line = reads[k]->outcome->Ok_0;
                    if line.last() == 10 {
                        seq![
                            SinkCall::Write("[ghaiw-meta] ".spec_bytes()),
                            SinkCall::Write(line),
                            SinkCall::Flush,
                        ]
                    } else {
                        seq![
                            SinkCall::Write("[ghaiw-meta] ".spec_bytes()),
                            SinkCall::Write(line),
                            SinkCall::Write(seq![10u8]),
                            SinkCall::Flush,
                        ]
                    }
                },
        );
    assert forall|k: int| 0 <= k < n implies (#[trigger] reads[k]) is ReadUntil
        && reads[k]->delimiter == 10 && reads[k]->outcome == Ok::<Seq<u8>, X>(lines[k])
        && lines[k].len() > 0 by {
        assert(metadata::is_line(lines[k]));
    }
    let shown = Seq::new(lines.len(), |k: int| metadata::line_calls(lines[k]));
    assert forall|k: int| 0 <= k < n implies #[trigger] parts(n)[k] == shown[k] by {
        assert(reads[k]->outcome == Ok::<Seq<u8>, X>(lines[k]));
        assert(parts(n)[k] =~= shown[k]);
    }
    assert(parts(n) =~= shown);
    assert(parts(n).flatten() == calls_due(lines));
    if let MetadataEnd::ShowFailed { line, step, error } = end {
        let all = lines.push(line);
        let more = Seq::new(all.len(), |k: int| metadata::line_calls(all[k]));
        lemma_one_more_due(lines, line);
        assert(reads[n]->outcome == Ok::<Seq<u8>, X>(line));
        assert forall|k: int| 0 <= k < n + 1 implies #[trigger] parts(n + 1)[k] == more[k] by {
            assert(reads[k]->outcome == Ok::<Seq<u8>, X>(all[k]));
            assert(parts(n + 1)[k] =~= more[k]);
        }
        assert(parts(n + 1) =~= more);
        assert(parts(n + 1).flatten() == calls_due(all));
        assert(metadata::is_line(line));
    }
}

/// A copy of metadata lines from memory to a sink that fails no call succeeds, reads every
/// line, and the sink gets all of them: each marked, unchanged, and ended by a newline.
pub proof fn law_metadata_in_memory<R: LineSource<FaultKind>, W: ByteSink<FaultKind>>(
    lines: Seq<Seq<u8>>,
    reader: &mut R,
    writer: &mut W,
    result: Result<(), CopyError<FaultKind>>,
)
    requires
        build_log::are_lines(lines),
        call_ensures(copy_metadata::<FaultKind, R, W>, (reader, writer), result),
        old(reader).history() == seq![
            LineEvent::<FaultKind>::Opened { data: endpoint::joined(lines) },
        ],
        memory::is_line_history(endpoint::joined(lines), final(reader).history()),
        memory::all_succeed(laws::added(old(writer).history(), final(writer).history())),
    ensures
        result == Ok::<(), CopyError<FaultKind>>(()),
        endpoint::lines_handed_out(final(reader).history()) == endpoint::joined(lines),
        endpoint::accepted(laws::added(old(writer).history(), final(writer).history()))
            == endpoint::joined(
            Seq::new(
                lines.len(),
                |k: int|
                    "[ghaiw-meta] ".spec_bytes() + if lines[k].last() == 10 {
                        lines[k]
                    } else {
                        lines[k].push(10)
                    },
            ),
        ),
{
    let data = endpoint::joined(lines);
    let opened = seq![LineEvent::<FaultKind>::Opened { data }];
    let (read, end) = choose|read: Seq<Seq<u8>>, end: MetadataEnd<FaultKind>|
        {
            &&& #[trigger] metadata::is_metadata_run(read, end)
            &&& final(reader).history() == old(reader).history() + metadata::metadata_reads(
                read,
                end,
            )
            &&& final(writer).history() == old(writer).history() + metadata::metadata_writes(
                read,
                end,
            )
            &&& result == metadata::metadata_result(end)
        };
    let reads = metadata::metadata_reads(read, end);
    let calls = metadata::metadata_writes(read, end);
    laws::lemma_added(old(writer).history(), calls);
    let last = reads.last()->outcome;
    assert forall|k: int| 0 <= k < read.len() implies (#[trigger] read[k]).len() > 0 by {
        assert(metadata::is_line(read[k]));
    }
    assert(reads =~= metadata::line_reads::<FaultKind>(read).push(metadata::line_read(last)));
    build_log::lemma_lines_are_read_in_order(lines, read, last);
    if let MetadataEnd::ShowFailed { .. } = end {
        assert(calls[calls.len() - 1].outcome is Err);
    }
    if read.len() < lines.len() {
        assert(metadata::is_line(lines[read.len() as int]));
    }
    assert(end is Drained);
    assert(read =~= lines);
    assert(metadata::metadata_result(end) == Ok::<(), CopyError<FaultKind>>(()));
    metadata::law_metadata_is_shown_unchanged::<FaultKind>(lines);
    lemma_shown_lines(lines);
    let history = opened + reads;
    assert(history.drop_last() =~= opened + metadata::line_reads::<FaultKind>(lines));
    build_log::lemma_lines_handed_out(data, lines);
    assert(endpoint::lines_handed_out(history) =~= data);
}

/// Lines as they are shown, one after the other.
proof fn lemma_shown_lines(lines: Seq<Seq<u8>>)
    requires
        build_log::are_lines(lines),
    ensures
        metadata::shown_lines(lines) == endpoint::joined(
            Seq::new(
                lines.len(),
                |k: int|
                    "[ghaiw-meta] ".spec_bytes() + if lines[k].last() == 10 {
                        lines[k]
                    } else {
                        lines[k].push(10)
                    },
            ),
        ),
    decreases lines.len(),
{
    let shown = Seq::new(
        lines.len(),
        |k: int|
            "[ghaiw-meta] ".spec_bytes() + if lines[k].last() == 10 {
                lines[k]
            } else {
                lines[k].push(10)
            },
    );
    if lines.len() > 0 {
        let before = lines.drop_last();
        let line = lines.last();
        assert(metadata::is_line(lines[lines.len() - 1]));
        assert forall|k: int| 0 <= k < before.len() implies {
            &&& metadata::is_line(#[trigger] before[k])
            &&& k < before.len() - 1 ==> before[k].last() == metadata::NEWLINE
        } by {
            assert(before[k] == lines[k]);
        }
        lemma_shown_lines(before);
        assert(shown.drop_last() =~= Seq::new(
            before.len(),
            |k: int|
                "[ghaiw-meta] ".spec_bytes() + if before[k].last() == 10 {
                    before[k]
                } else {
                    before[k].push(10)
                },
        ));
        assert(metadata::shown_line(line) =~= shown.last());
    }
}

/// A line is complete exactly where its last byte is a newline.
pub proof fn law_line_ends_with_newline(line: &[u8], complete: bool)
    requires
        call_ensures(ends_line, (line,), complete),
    ensures
        complete <==> line@.len() > 0 && line@[line@.len() - 1] == 10,
{
}

} // verus!
