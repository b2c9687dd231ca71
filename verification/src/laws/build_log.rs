//! Laws of the build-log protocol.

use vstd::prelude::*;
use vstd::string::*;
use vstd::utf8::*;

use crate::endpoint;
use crate::endpoint::{
    ByteSink, ByteSource, LineEvent, LineSource, SinkCall, SinkEvent, SourceEvent,
};
use crate::fault::{CopyError, Fault};
use crate::laws;
use crate::laws::endpoints;
use crate::laws::frames;
use crate::log_tee::LogStream;
use crate::pipe;
use crate::pipe::contract;
use crate::pipe::contract::{
    chunk_order, copy_contract_streams, line_text, BuildLogEvent, BuildLogMetadata,
    BuildLogStream, ChunkOrder, ContractEnd, ContractRound,
};
use crate::pipe::metadata;
use crate::pipe::{CopyStats, Delivery};

verus! {

/// Every chunk of an output stream whose length is within the bound, from the first byte to
/// the last, is ordered with exactly that length and for the output of that name; every other
/// chunk is refused. A drop receipt is taken exactly from the worker and with no bytes, any
/// other event exactly with no bytes, and neither orders anything.
pub proof fn law_chunks_within_bounds_are_ordered(
    metadata: BuildLogMetadata,
    result: Result<Option<ChunkOrder>, Fault>,
)
    requires
        call_ensures(chunk_order, (&metadata,), result),
    ensures
        ({
            let len = metadata.byte_length;
            match metadata.event {
                BuildLogEvent::Chunk => {
                    &&& (metadata.stream != BuildLogStream::Worker && 1 <= len <= 65536) <==> (
                    result matches Ok(Some(_)))
                    &&& result matches Ok(Some(order)) ==> {
                        &&& order.len == len
                        &&& order.stream == LogStream::Stdout <==> metadata.stream
                            == BuildLogStream::Stdout
                        &&& order.stream == LogStream::Stderr <==> metadata.stream
                            == BuildLogStream::Stderr
                    }
                    &&& !(result matches Ok(Some(_))) ==> result is Err
                    &&& metadata.stream == BuildLogStream::Worker <==> result == Err::<
                        Option<ChunkOrder>,
                        Fault,
                    >(Fault::WorkerChunk)
                    &&& metadata.stream != BuildLogStream::Worker && (len < 0 || len > usize::MAX)
                        <==> result == Err::<Option<ChunkOrder>, Fault>(Fault::ByteLengthInvalid)
                    &&& metadata.stream != BuildLogStream::Worker && (len == 0 || 65536 < len
                        <= usize::MAX) <==> result == Err::<Option<ChunkOrder>, Fault>(
                        Fault::ChunkOutOfBounds,
                    )
                },
                BuildLogEvent::Dropped => result == if metadata.stream == BuildLogStream::Worker
                    && len == 0 {
                    Ok::<Option<ChunkOrder>, Fault>(None)
                } else {
                    Err(Fault::DropReceipt)
                },
                BuildLogEvent::ReceiverClosed | BuildLogEvent::StreamClosed => result == if len
                    == 0 {
                    Ok::<Option<ChunkOrder>, Fault>(None)
                } else {
                    Err(Fault::LifecycleBytes)
                },
            }
        }),
{
}

/// The text of a line is taken exactly where the line is not too long, has its newline and is
/// valid UTF-8, and it is then the very line; otherwise the first of these rules that the line
/// breaks is named.
pub proof fn law_whole_lines_are_taken(line: &[u8], result: Result<&str, Fault>)
    requires
        call_ensures(line_text, (line,), result),
    ensures
        if line@.len() > 16384 {
            result == Err::<&str, Fault>(Fault::MetadataLineTooLong)
        } else if line@.len() == 0 || line@[line@.len() - 1] != 10 {
            result == Err::<&str, Fault>(Fault::MetadataLineTruncated)
        } else if !valid_utf8(line@) {
            result == Err::<&str, Fault>(Fault::MetadataNotUtf8)
        } else {
            result is Ok && result->Ok_0.spec_bytes() == line@
        },
{
}

/// What complete rounds were told.
spec fn told(rounds: Seq<ContractRound>) -> Seq<BuildLogMetadata> {
    Seq::new(rounds.len(), |k: int| rounds[k].metadata)
}

/// The chunks among what was told, with their reads and their deliveries.
proof fn lemma_chunks_of_rounds<X, D: Fn(&str) -> Option<BuildLogMetadata>>(
    decode: D,
    rounds: Seq<ContractRound>,
)
    requires
        forall|k: int| 0 <= k < rounds.len() ==> contract::is_round(decode, #[trigger] rounds[k]),
    ensures
        ({
            let chunks = told(rounds).filter(
                |m: BuildLogMetadata| m.event == BuildLogEvent::Chunk,
            );
            let reads = contract::round_data_reads::<X>(rounds);
            let deliveries = contract::contract_deliveries(rounds);
            &&& reads.len() == chunks.len()
            &&& deliveries.len() == chunks.len()
            &&& forall|j: int|
                #![trigger reads[j]]
                0 <= j < chunks.len() ==> {
                    &&& reads[j] is ReadExact
                    &&& reads[j]->len == chunks[j].byte_length
                    &&& reads[j]->ReadExact_outcome == Ok::<Seq<u8>, X>(deliveries[j].payload)
                    &&& deliveries[j].payload.len() == chunks[j].byte_length
                    &&& deliveries[j].stream == (if chunks[j].stream == BuildLogStream::Stdout {
                        LogStream::Stdout
                    } else {
                        LogStream::Stderr
                    })
                }
        }),
    decreases rounds.len(),
{
    reveal(Seq::filter);
    if rounds.len() > 0 {
        let is_chunk = |m: BuildLogMetadata| m.event == BuildLogEvent::Chunk;
        let before = rounds.drop_last();
        let round = rounds.last();
        assert(contract::is_round(decode, rounds[rounds.len() - 1]));
        assert forall|k: int| 0 <= k < before.len() implies contract::is_round(
            decode,
            #[trigger] before[k],
        ) by {
            assert(before[k] == rounds[k]);
        }
        lemma_chunks_of_rounds::<X, D>(decode, before);
        assert(told(rounds).drop_last() =~= told(before));
        assert(told(rounds).last() == round.metadata);
        let chunks = told(rounds).filter(is_chunk);
        let earlier = told(before).filter(is_chunk);
        let reads = contract::round_data_reads::<X>(rounds);
        let deliveries = contract::contract_deliveries(rounds);
        let front = contract::round_data_reads::<X>(before);
        let first = contract::contract_deliveries(before);
        assert forall|j: int|
            #![trigger reads[j]]
            0 <= j < chunks.len() implies {
            &&& reads[j] is ReadExact
            &&& reads[j]->len == chunks[j].byte_length
            &&& reads[j]->ReadExact_outcome == Ok::<Seq<u8>, X>(deliveries[j].payload)
            &&& deliveries[j].payload.len() == chunks[j].byte_length
            &&& deliveries[j].stream == (if chunks[j].stream == BuildLogStream::Stdout {
                LogStream::Stdout
            } else {
                LogStream::Stderr
            })
        } by {
            if j < earlier.len() {
                assert(reads[j] == front[j]);
                assert(deliveries[j] == first[j]);
                assert(chunks[j] == earlier[j]);
            }
        }
    }
}

/// What a run routes to one stream.
proof fn lemma_run_routing<X>(rounds: Seq<ContractRound>, end: ContractEnd<X>, stream: LogStream)
    requires
        end matches ContractEnd::DeliveryFailed { round, step, .. } ==> 0 <= step < 2
            && contract::round_delivery(round).len() == 1,
    ensures
        ({
            let calls = contract::contract_routing(rounds, end, stream);
            let mine = contract::contract_deliveries(rounds).filter(
                |d: Delivery| d.stream == stream,
            );
            &&& laws::delivers(calls, mine)
            &&& !(end is DeliveryFailed) ==> calls.len() == 2 * mine.len()
            &&& end matches ContractEnd::DeliveryFailed { round, error, .. } ==> {
                let failed = contract::round_delivery(round)[0];
                &&& failed.stream != stream ==> calls.len() == 2 * mine.len()
                &&& failed.stream == stream ==> laws::delivery_fails(calls, mine, failed, error)
            }
        }),
{
    let deliveries = contract::contract_deliveries(rounds);
    let calls = contract::contract_routing(rounds, end, stream);
    let front = pipe::routing::<X>(deliveries, stream);
    let mine = deliveries.filter(|d: Delivery| d.stream == stream);
    endpoints::lemma_routing_by_stream::<X>(deliveries, stream);
    if let ContractEnd::DeliveryFailed { round, .. } = end {
        endpoints::lemma_delivery_events::<X>(contract::round_delivery(round)[0].payload);
    }
    assert forall|i: int|
        #![trigger mine[i]]
        0 <= i < mine.len() implies {
        &&& calls[2 * i] == (SinkEvent::<X> {
            call: SinkCall::Write(mine[i].payload),
            outcome: Ok(()),
        })
        &&& calls[2 * i + 1] == (SinkEvent::<X> { call: SinkCall::Flush, outcome: Ok(()) })
    } by {
        assert(calls[2 * i] == front[2 * i]);
        assert(calls[2 * i + 1] == front[2 * i + 1]);
    }
}

/// The lines of a run: each that it goes on from is whole, valid and acceptable.
proof fn lemma_run_lines<X, D: Fn(&str) -> Option<BuildLogMetadata>>(
    decode: D,
    rounds: Seq<ContractRound>,
    end: ContractEnd<X>,
)
    requires
        contract::is_contract_run(decode, rounds, end),
    ensures
        ({
            let lines = contract::contract_line_reads(rounds, end);
            let all = told(rounds);
            let n = rounds.len() as int;
            &&& all.len() == n
            &&& lines.len() == n + 1
            &&& lines[n] is ReadUntil && lines[n]->delimiter == 10
            &&& forall|k: int|
                #![trigger lines[k]]
                0 <= k < n ==> {
                    &&& lines[k] is ReadUntil && lines[k]->delimiter == 10
                    &&& lines[k]->outcome is Ok
                    &&& 0 < lines[k]->outcome->Ok_0.len() <= 16384
                    &&& lines[k]->outcome->Ok_0.last() == 10
                    &&& valid_utf8(lines[k]->outcome->Ok_0)
                    &&& exists|text: &str|
                        text.spec_bytes() == lines[k]->outcome->Ok_0 && #[trigger] call_ensures(
                            decode,
                            (text,),
                            Some(all[k]),
                        )
                    &&& match all[k].event {
                        BuildLogEvent::Chunk => all[k].stream != BuildLogStream::Worker && 1
                            <= all[k].byte_length <= 65536,
                        BuildLogEvent::Dropped => all[k].stream == BuildLogStream::Worker
                            && all[k].byte_length == 0,
                        BuildLogEvent::ReceiverClosed | BuildLogEvent::StreamClosed =>
                            all[k].byte_length == 0,
                    }
                }
        }),
{
    let lines = contract::contract_line_reads(rounds, end);
    let all = told(rounds);
    let n = rounds.len() as int;
    assert forall|k: int|
        #![trigger lines[k]]
        0 <= k < n implies {
        &&& lines[k] is ReadUntil && lines[k]->delimiter == 10
        &&& lines[k]->outcome is Ok
        &&& 0 < lines[k]->outcome->Ok_0.len() <= 16384
        &&& lines[k]->outcome->Ok_0.last() == 10
        &&& valid_utf8(lines[k]->outcome->Ok_0)
        &&& exists|text: &str|
            text.spec_bytes() == lines[k]->outcome->Ok_0 && #[trigger] call_ensures(
                decode,
                (text,),
                Some(all[k]),
            )
        &&& match all[k].event {
            BuildLogEvent::Chunk => all[k].stream != BuildLogStream::Worker && 1
                <= all[k].byte_length <= 65536,
            BuildLogEvent::Dropped => all[k].stream == BuildLogStream::Worker
                && all[k].byte_length == 0,
            BuildLogEvent::ReceiverClosed | BuildLogEvent::StreamClosed => all[k].byte_length == 0,
        }
    } by {
        assert(contract::is_round(decode, rounds[k]));
        assert(lines[k]->outcome == Ok::<Seq<u8>, X>(rounds[k].line));
    }
}

/// The data reads of a run: one for each chunk, with what is delivered of it.
proof fn lemma_run_chunks<X, D: Fn(&str) -> Option<BuildLogMetadata>>(
    decode: D,
    rounds: Seq<ContractRound>,
    end: ContractEnd<X>,
)
    requires
        contract::is_contract_run(decode, rounds, end),
    ensures
        ({
            let reads = contract::contract_data_reads(rounds, end);
            let chunks = told(rounds).filter(
                |m: BuildLogMetadata| m.event == BuildLogEvent::Chunk,
            );
            &&& reads.len() >= chunks.len()
            &&& reads.len() == chunks.len() + if end is DataReadFailed || end is DeliveryFailed {
                1int
            } else {
                0
            }
            &&& forall|j: int|
                #![trigger reads[j]]
                0 <= j < chunks.len() ==> {
                    &&& reads[j] is ReadExact
                    &&& reads[j]->len == chunks[j].byte_length
                    &&& reads[j]->ReadExact_outcome is Ok
                    &&& reads[j]->ReadExact_outcome->Ok_0.len() == chunks[j].byte_length
                }
            &&& contract::contract_deliveries(rounds) == Seq::new(
                chunks.len(),
                |j: int|
                    Delivery {
                        stream: if chunks[j].stream == BuildLogStream::Stdout {
                            LogStream::Stdout
                        } else {
                            LogStream::Stderr
                        },
                        payload: reads[j]->ReadExact_outcome->Ok_0,
                    },
            )
        }),
{
    let reads = contract::contract_data_reads(rounds, end);
    let front = contract::round_data_reads::<X>(rounds);
    let deliveries = contract::contract_deliveries(rounds);
    let chunks = told(rounds).filter(|m: BuildLogMetadata| m.event == BuildLogEvent::Chunk);
    lemma_chunks_of_rounds::<X, D>(decode, rounds);
    assert forall|j: int|
        #![trigger reads[j]]
        0 <= j < chunks.len() implies {
        &&& reads[j] is ReadExact
        &&& reads[j]->len == chunks[j].byte_length
        &&& reads[j]->ReadExact_outcome == Ok::<Seq<u8>, X>(deliveries[j].payload)
        &&& reads[j]->ReadExact_outcome->Ok_0.len() == chunks[j].byte_length
    } by {
        assert(reads[j] == front[j]);
    }
    let listed = Seq::new(
        chunks.len(),
        |j: int|
            Delivery {
                stream: if chunks[j].stream == BuildLogStream::Stdout {
                    LogStream::Stdout
                } else {
                    LogStream::Stderr
                },
                payload: reads[j]->ReadExact_outcome->Ok_0,
            },
    );
    assert forall|j: int| 0 <= j < chunks.len() implies #[trigger] listed[j] == deliveries[j] by {
        assert(front[j] is ReadExact);
        assert(reads[j]->ReadExact_outcome == Ok::<Seq<u8>, X>(deliveries[j].payload));
    }
    assert(listed =~= deliveries);
}

/// This run stands for these events and this result.
spec fn is_run_of<X, D: Fn(&str) -> Option<BuildLogMetadata>>(
    decode: D,
    rounds: Seq<ContractRound>,
    end: ContractEnd<X>,
    lines: Seq<LineEvent<X>>,
    reads: Seq<SourceEvent<X>>,
    out: Seq<SinkEvent<X>>,
    err: Seq<SinkEvent<X>>,
    result: Result<CopyStats, CopyError<X>>,
) -> bool {
    &&& contract::is_contract_run(decode, rounds, end)
    &&& lines == contract::contract_line_reads(rounds, end)
    &&& reads == contract::contract_data_reads(rounds, end)
    &&& out == contract::contract_routing(rounds, end, LogStream::Stdout)
    &&& err == contract::contract_routing(rounds, end, LogStream::Stderr)
    &&& result == contract::contract_result(rounds, end)
}

/// A call of the copy adds the events of a run.
proof fn lemma_build_log_run<
    X,
    M: LineSource<X>,
    R: ByteSource<X>,
    O: ByteSink<X>,
    E: ByteSink<X>,
    D: Fn(&str) -> Option<BuildLogMetadata>,
>(
    metadata_reader: &mut M,
    data_reader: &mut R,
    stdout: &mut O,
    stderr: &mut E,
    decode: D,
    result: Result<CopyStats, CopyError<X>>,
)
    requires
        call_ensures(
            copy_contract_streams::<X, M, R, O, E, D>,
            (metadata_reader, data_reader, stdout, stderr, decode),
            result,
        ),
    ensures
        old(metadata_reader).history().is_prefix_of(final(metadata_reader).history()),
        old(data_reader).history().is_prefix_of(final(data_reader).history()),
        old(stdout).history().is_prefix_of(final(stdout).history()),
        old(stderr).history().is_prefix_of(final(stderr).history()),
        exists|rounds: Seq<ContractRound>, end: ContractEnd<X>| #[trigger]
            is_run_of(
                decode,
                rounds,
                end,
                laws::added(old(metadata_reader).history(), final(metadata_reader).history()),
                laws::added(old(data_reader).history(), final(data_reader).history()),
                laws::added(old(stdout).history(), final(stdout).history()),
                laws::added(old(stderr).history(), final(stderr).history()),
                result,
            ),
{
    let (rounds, end) = choose|rounds: Seq<ContractRound>, end: ContractEnd<X>|
        {
            &&& #[trigger] contract::is_contract_run(decode, rounds, end)
            &&& final(metadata_reader).history() == old(metadata_reader).history()
                + contract::contract_line_reads(rounds, end)
            &&& final(data_reader).history() == old(data_reader).history()
                + contract::contract_data_reads(rounds, end)
            &&& final(stdout).history() == old(stdout).history() + contract::contract_routing(
                rounds,
                end,
                LogStream::Stdout,
            )
            &&& final(stderr).history() == old(stderr).history() + contract::contract_routing(
                rounds,
                end,
                LogStream::Stderr,
            )
            &&& result == contract::contract_result(rounds, end)
        };
    let lines = contract::contract_line_reads(rounds, end);
    let reads = contract::contract_data_reads(rounds, end);
    let out = contract::contract_routing(rounds, end, LogStream::Stdout);
    let err = contract::contract_routing(rounds, end, LogStream::Stderr);
    laws::lemma_added(old(metadata_reader).history(), lines);
    laws::lemma_added(old(data_reader).history(), reads);
    laws::lemma_added(old(stdout).history(), out);
    laws::lemma_added(old(stderr).history(), err);
    assert(is_run_of(decode, rounds, end, lines, reads, out, err, result));
}

/// What a run says of the events that it stands for.
proof fn lemma_account_of_run<X, D: Fn(&str) -> Option<BuildLogMetadata>>(
    decode: D,
    rounds: Seq<ContractRound>,
    end: ContractEnd<X>,
    lines: Seq<LineEvent<X>>,
    reads: Seq<SourceEvent<X>>,
    out: Seq<SinkEvent<X>>,
    err: Seq<SinkEvent<X>>,
    result: Result<CopyStats, CopyError<X>>,
)
    requires
        is_run_of(decode, rounds, end, lines, reads, out, err, result),
    ensures
        exists|told: Seq<BuildLogMetadata>|
            {
                let n = told.len() as int;
                let chunks = told.filter(|m: BuildLogMetadata| m.event == BuildLogEvent::Chunk);
                let deliveries = Seq::new(
                    chunks.len(),
                    |j: int|
                        Delivery {
                            stream: if chunks[j].stream == BuildLogStream::Stdout {
                                LogStream::Stdout
                            } else {
                                LogStream::Stderr
                            },
                            payload: reads[j]->ReadExact_outcome->Ok_0,
                        },
                );
                let for_out = deliveries.filter(|d: Delivery| d.stream == LogStream::Stdout);
                let for_err = deliveries.filter(|d: Delivery| d.stream == LogStream::Stderr);
                let all_out = out.len() == 2 * for_out.len();
                let all_err = err.len() == 2 * for_err.len();
                &&& lines.len() == #[trigger] told.len() + 1
                &&& forall|k: int|
                    0 <= k <= n ==> (#[trigger] lines[k]) is ReadUntil && lines[k]->delimiter == 10
                &&& forall|k: int|
                    #![trigger lines[k]]
                    0 <= k < n ==> {
                        &&& lines[k]->outcome is Ok
                        &&& 0 < lines[k]->outcome->Ok_0.len() <= 16384
                        &&& lines[k]->outcome->Ok_0.last() == 10
                        &&& valid_utf8(lines[k]->outcome->Ok_0)
                        &&& exists|text: &str|
                            text.spec_bytes() == lines[k]->outcome->Ok_0
                                && #[trigger] call_ensures(decode, (text,), Some(told[k]))
                        &&& match told[k].event {
                            BuildLogEvent::Chunk => told[k].stream != BuildLogStream::Worker && 1
                                <= told[k].byte_length <= 65536,
                            BuildLogEvent::Dropped => told[k].stream == BuildLogStream::Worker
                                && told[k].byte_length == 0,
                            BuildLogEvent::ReceiverClosed | BuildLogEvent::StreamClosed =>
                                told[k].byte_length == 0,
                        }
                    }
                &&& chunks.len() <= reads.len() <= chunks.len() + 1
                &&& forall|j: int|
                    #![trigger reads[j]]
                    0 <= j < chunks.len() ==> {
                        &&& reads[j] is ReadExact
                        &&& reads[j]->len == chunks[j].byte_length
                        &&& reads[j]->ReadExact_outcome is Ok
                        &&& reads[j]->ReadExact_outcome->Ok_0.len() == chunks[j].byte_length
                    }
                &&& laws::delivers(out, for_out)
                &&& laws::delivers(err, for_err)
                &&& !(result matches Err(CopyError::Endpoint(_))) ==> reads.len() == chunks.len()
                &&& reads.len() == chunks.len() ==> all_out && all_err
                &&& all_out || all_err
                &&& out.len() <= 2 * for_out.len() + 2
                &&& err.len() <= 2 * for_err.len() + 2
            },
{
    lemma_run_lines(decode, rounds, end);
    lemma_run_chunks(decode, rounds, end);
    lemma_run_routing(rounds, end, LogStream::Stdout);
    lemma_run_routing(rounds, end, LogStream::Stderr);
    let all = told(rounds);
    let chunks = all.filter(|m: BuildLogMetadata| m.event == BuildLogEvent::Chunk);
    let deliveries = Seq::new(
        chunks.len(),
        |j: int|
            Delivery {
                stream: if chunks[j].stream == BuildLogStream::Stdout {
                    LogStream::Stdout
                } else {
                    LogStream::Stderr
                },
                payload: reads[j]->ReadExact_outcome->Ok_0,
            },
    );
    assert(deliveries =~= contract::contract_deliveries(rounds));
    assert(lines.len() == all.len() + 1);
}

/// A copy of a build log reads line after line. Each line that it goes on from is whole, valid
/// and acceptable. For each chunk among them, and for nothing else, it reads exactly as many
/// bytes as the chunk announces, and these bytes go as they are to the output that the chunk
/// names, in order. Behind them there is at most one more chunk, whose read or whose delivery
/// fails, and none where the copy succeeds or finds fault with a line.
pub proof fn law_each_chunk_is_read_and_routed<
    X,
    M: LineSource<X>,
    R: ByteSource<X>,
    O: ByteSink<X>,
    E: ByteSink<X>,
    D: Fn(&str) -> Option<BuildLogMetadata>,
>(
    metadata_reader: &mut M,
    data_reader: &mut R,
    stdout: &mut O,
    stderr: &mut E,
    decode: D,
    result: Result<CopyStats, CopyError<X>>,
)
    requires
        call_ensures(
            copy_contract_streams::<X, M, R, O, E, D>,
            (metadata_reader, data_reader, stdout, stderr, decode),
            result,
        ),
    ensures
        old(metadata_reader).history().is_prefix_of(final(metadata_reader).history()),
        old(data_reader).history().is_prefix_of(final(data_reader).history()),
        old(stdout).history().is_prefix_of(final(stdout).history()),
        old(stderr).history().is_prefix_of(final(stderr).history()),
        exists|told: Seq<BuildLogMetadata>|
            {
                let lines = laws::added(
                    old(metadata_reader).history(),
                    final(metadata_reader).history(),
                );
                let reads = laws::added(old(data_reader).history(), final(data_reader).history());
                let out = laws::added(old(stdout).history(), final(stdout).history());
                let err = laws::added(old(stderr).history(), final(stderr).history());
                let n = told.len() as int;
                let chunks = told.filter(|m: BuildLogMetadata| m.event == BuildLogEvent::Chunk);
                let deliveries = Seq::new(
                    chunks.len(),
                    |j: int|
                        Delivery {
                            stream: if chunks[j].stream == BuildLogStream::Stdout {
                                LogStream::Stdout
                            } else {
                                LogStream::Stderr
                            },
                            payload: reads[j]->ReadExact_outcome->Ok_0,
                        },
                );
                let for_out = deliveries.filter(|d: Delivery| d.stream == LogStream::Stdout);
                let for_err = deliveries.filter(|d: Delivery| d.stream == LogStream::Stderr);
                let all_out = out.len() == 2 * for_out.len();
                let all_err = err.len() == 2 * for_err.len();
                &&& lines.len() == #[trigger] told.len() + 1
                &&& forall|k: int|
                    0 <= k <= n ==> (#[trigger] lines[k]) is ReadUntil && lines[k]->delimiter == 10
                &&& forall|k: int|
                    #![trigger lines[k]]
                    0 <= k < n ==> {
                        &&& lines[k]->outcome is Ok
                        &&& 0 < lines[k]->outcome->Ok_0.len() <= 16384
                        &&& lines[k]->outcome->Ok_0.last() == 10
                        &&& valid_utf8(lines[k]->outcome->Ok_0)
                        &&& exists|text: &str|
                            text.spec_bytes() == lines[k]->outcome->Ok_0
                                && #[trigger] call_ensures(decode, (text,), Some(told[k]))
                        &&& match told[k].event {
                            BuildLogEvent::Chunk => told[k].stream != BuildLogStream::Worker && 1
                                <= told[k].byte_length <= 65536,
                            BuildLogEvent::Dropped => told[k].stream == BuildLogStream::Worker
                                && told[k].byte_length == 0,
                            BuildLogEvent::ReceiverClosed | BuildLogEvent::StreamClosed =>
                                told[k].byte_length == 0,
                        }
                    }
                &&& chunks.len() <= reads.len() <= chunks.len() + 1
                &&& forall|j: int|
                    #![trigger reads[j]]
                    0 <= j < chunks.len() ==> {
                        &&& reads[j] is ReadExact
                        &&& reads[j]->len == chunks[j].byte_length
                        &&& reads[j]->ReadExact_outcome is Ok
                        &&& reads[j]->ReadExact_outcome->Ok_0.len() == chunks[j].byte_length
                    }
                &&& laws::delivers(out, for_out)
                &&& laws::delivers(err, for_err)
                &&& !(result matches Err(CopyError::Endpoint(_))) ==> reads.len() == chunks.len()
                &&& reads.len() == chunks.len() ==> all_out && all_err
                &&& all_out || all_err
                &&& out.len() <= 2 * for_out.len() + 2
                &&& err.len() <= 2 * for_err.len() + 2
            },
{
    lemma_build_log_run(metadata_reader, data_reader, stdout, stderr, decode, result);
    let (rounds, end) = choose|rounds: Seq<ContractRound>, end: ContractEnd<X>| #[trigger]
        is_run_of(
            decode,
            rounds,
            end,
            laws::added(old(metadata_reader).history(), final(metadata_reader).history()),
            laws::added(old(data_reader).history(), final(data_reader).history()),
            laws::added(old(stdout).history(), final(stdout).history()),
            laws::added(old(stderr).history(), final(stderr).history()),
            result,
        );
    lemma_account_of_run(
        decode,
        rounds,
        end,
        laws::added(old(metadata_reader).history(), final(metadata_reader).history()),
        laws::added(old(data_reader).history(), final(data_reader).history()),
        laws::added(old(stdout).history(), final(stdout).history()),
        laws::added(old(stderr).history(), final(stderr).history()),
        result,
    );
}

/// A copy of a build log succeeds exactly where its last request for a line got nothing. Then
/// no call on any endpoint failed, the count of chunks is that of the data reads, and the count
/// of bytes is that of what the data source handed out, which is what the two outputs accepted.
pub proof fn law_build_log_succeeds_at_the_end<
    X,
    M: LineSource<X>,
    R: ByteSource<X>,
    O: ByteSink<X>,
    E: ByteSink<X>,
    D: Fn(&str) -> Option<BuildLogMetadata>,
>(
    metadata_reader: &mut M,
    data_reader: &mut R,
    stdout: &mut O,
    stderr: &mut E,
    decode: D,
    result: Result<CopyStats, CopyError<X>>,
)
    requires
        call_ensures(
            copy_contract_streams::<X, M, R, O, E, D>,
            (metadata_reader, data_reader, stdout, stderr, decode),
            result,
        ),
    ensures
        ({
            let lines = laws::added(
                old(metadata_reader).history(),
                final(metadata_reader).history(),
            );
            let reads = laws::added(old(data_reader).history(), final(data_reader).history());
            let out = laws::added(old(stdout).history(), final(stdout).history());
            let err = laws::added(old(stderr).history(), final(stderr).history());
            let bytes = endpoint::handed_out(reads).len();
            &&& lines.len() > 0
            &&& result is Ok <==> lines.last()->outcome == Ok::<Seq<u8>, X>(Seq::empty())
            &&& result matches Ok(stats) ==> {
                &&& forall|i: int| 0 <= i < reads.len() ==> laws::succeeded(#[trigger] reads[i])
                &&& forall|i: int| 0 <= i < out.len() ==> (#[trigger] out[i]).outcome is Ok
                &&& forall|i: int| 0 <= i < err.len() ==> (#[trigger] err[i]).outcome is Ok
                &&& bytes == endpoint::accepted(out).len() + endpoint::accepted(err).len()
                &&& out.len() + err.len() == 2 * reads.len()
                &&& stats.frames == (if reads.len() <= u64::MAX {
                    reads.len() as int
                } else {
                    u64::MAX as int
                })
                &&& stats.bytes == (if bytes <= u64::MAX {
                    bytes as int
                } else {
                    u64::MAX as int
                })
            }
        }),
{
    lemma_build_log_run(metadata_reader, data_reader, stdout, stderr, decode, result);
    let (rounds, end) = choose|rounds: Seq<ContractRound>, end: ContractEnd<X>| #[trigger]
        is_run_of(
            decode,
            rounds,
            end,
            laws::added(old(metadata_reader).history(), final(metadata_reader).history()),
            laws::added(old(data_reader).history(), final(data_reader).history()),
            laws::added(old(stdout).history(), final(stdout).history()),
            laws::added(old(stderr).history(), final(stderr).history()),
            result,
        );
    let reads = contract::contract_data_reads(rounds, end);
    let lines = contract::contract_line_reads(rounds, end);
    let deliveries = contract::contract_deliveries(rounds);
    lemma_run_lines(decode, rounds, end);
    assert(lines.last() == lines[rounds.len() as int]);
    if end is Drained {
        let out = pipe::routing::<X>(deliveries, LogStream::Stdout);
        let err = pipe::routing::<X>(deliveries, LogStream::Stderr);
        assert(contract::contract_routing(rounds, end, LogStream::Stdout) =~= out);
        assert(contract::contract_routing(rounds, end, LogStream::Stderr) =~= err);
        assert(reads =~= contract::round_data_reads::<X>(rounds));
        lemma_chunks_of_rounds::<X, D>(decode, rounds);
        lemma_handed_out_counts::<X, D>(decode, rounds);
        frames::lemma_bytes_routed::<X>(deliveries);
        lemma_routing_succeeds::<X>(deliveries);
    }
}

/// The calls by which deliveries are made are two for each, and succeed.
proof fn lemma_routing_succeeds<X>(deliveries: Seq<Delivery>)
    ensures
        ({
            let out = pipe::routing::<X>(deliveries, LogStream::Stdout);
            let err = pipe::routing::<X>(deliveries, LogStream::Stderr);
            &&& out.len() + err.len() == 2 * deliveries.len()
            &&& forall|i: int| 0 <= i < out.len() ==> (#[trigger] out[i]).outcome is Ok
            &&& forall|i: int| 0 <= i < err.len() ==> (#[trigger] err[i]).outcome is Ok
        }),
    decreases deliveries.len(),
{
    if deliveries.len() > 0 {
        lemma_routing_succeeds::<X>(deliveries.drop_last());
    }
}

/// A fault is the first rule that the last line breaks, in the order in which lines are
/// checked, and a line that breaks no rule meets no fault. Nothing is read, written or flushed
/// for that line, and no call on any endpoint failed.
pub proof fn law_fault_is_the_rule_that_the_line_breaks<
    X,
    M: LineSource<X>,
    R: ByteSource<X>,
    O: ByteSink<X>,
    E: ByteSink<X>,
    D: Fn(&str) -> Option<BuildLogMetadata>,
>(
    metadata_reader: &mut M,
    data_reader: &mut R,
    stdout: &mut O,
    stderr: &mut E,
    decode: D,
    fault: Fault,
)
    requires
        call_ensures(
            copy_contract_streams::<X, M, R, O, E, D>,
            (metadata_reader, data_reader, stdout, stderr, decode),
            Err(CopyError::Fault(fault)),
        ),
    ensures
        ({
            let lines = laws::added(
                old(metadata_reader).history(),
                final(metadata_reader).history(),
            );
            let reads = laws::added(old(data_reader).history(), final(data_reader).history());
            let out = laws::added(old(stdout).history(), final(stdout).history());
            let err = laws::added(old(stderr).history(), final(stderr).history());
            let line = lines.last()->outcome->Ok_0;
            &&& lines.len() > 0
            &&& lines.last()->outcome is Ok
            &&& line.len() > 0
            &&& forall|i: int| 0 <= i < reads.len() ==> laws::succeeded(#[trigger] reads[i])
            &&& forall|i: int| 0 <= i < out.len() ==> (#[trigger] out[i]).outcome is Ok
            &&& forall|i: int| 0 <= i < err.len() ==> (#[trigger] err[i]).outcome is Ok
            &&& out.len() + err.len() == 2 * reads.len()
            &&& if line.len() > 16384 {
                fault == Fault::MetadataLineTooLong
            } else if line.last() != 10 {
                fault == Fault::MetadataLineTruncated
            } else if !valid_utf8(line) {
                fault == Fault::MetadataNotUtf8
            } else {
                exists|text: &str, answer: Option<BuildLogMetadata>|
                    {
                        &&& text.spec_bytes() == line
                        &&& #[trigger] call_ensures(decode, (text,), answer)
                        &&& match answer {
                            None => fault == Fault::MetadataRejected,
                            Some(m) => match m.event {
                                BuildLogEvent::Chunk => if m.stream == BuildLogStream::Worker {
                                    fault == Fault::WorkerChunk
                                } else if m.byte_length < 0 || m.byte_length > usize::MAX {
                                    fault == Fault::ByteLengthInvalid
                                } else {
                                    &&& m.byte_length == 0 || m.byte_length > 65536
                                    &&& fault == Fault::ChunkOutOfBounds
                                },
                                BuildLogEvent::Dropped => {
                                    &&& m.stream != BuildLogStream::Worker || m.byte_length != 0
                                    &&& fault == Fault::DropReceipt
                                },
                                BuildLogEvent::ReceiverClosed | BuildLogEvent::StreamClosed => {
                                    &&& m.byte_length != 0
                                    &&& fault == Fault::LifecycleBytes
                                },
                            },
                        }
                    }
            }
        }),
{
    lemma_build_log_run(metadata_reader, data_reader, stdout, stderr, decode, Err(CopyError::Fault(fault)));
    let (rounds, end) = choose|rounds: Seq<ContractRound>, end: ContractEnd<X>| #[trigger]
        is_run_of(
            decode,
            rounds,
            end,
            laws::added(old(metadata_reader).history(), final(metadata_reader).history()),
            laws::added(old(data_reader).history(), final(data_reader).history()),
            laws::added(old(stdout).history(), final(stdout).history()),
            laws::added(old(stderr).history(), final(stderr).history()),
            Err(CopyError::Fault(fault)),
        );
    let reads = contract::contract_data_reads(rounds, end);
    let lines = contract::contract_line_reads(rounds, end);
    let deliveries = contract::contract_deliveries(rounds);
    lemma_run_lines(decode, rounds, end);
    assert(lines.last() == lines[rounds.len() as int]);
    assert(contract::contract_routing(rounds, end, LogStream::Stdout) =~= pipe::routing::<X>(
        deliveries,
        LogStream::Stdout,
    ));
    assert(contract::contract_routing(rounds, end, LogStream::Stderr) =~= pipe::routing::<X>(
        deliveries,
        LogStream::Stderr,
    ));
    assert(reads =~= contract::round_data_reads::<X>(rounds));
    lemma_chunks_of_rounds::<X, D>(decode, rounds);
    lemma_routing_succeeds::<X>(deliveries);
    match end {
        ContractEnd::LineRejected { line } => {
            let text = choose|text: &str|
                text.spec_bytes() == line && #[trigger] call_ensures(
                    decode,
                    (text,),
                    None::<BuildLogMetadata>,
                );
            assert(call_ensures(decode, (text,), None::<BuildLogMetadata>));
        },
        ContractEnd::EventRefused { line, metadata, .. } => {
            let text = choose|text: &str|
                text.spec_bytes() == line && #[trigger] call_ensures(
                    decode,
                    (text,),
                    Some(metadata),
                );
            assert(call_ensures(decode, (text,), Some(metadata)));
        },
        _ => {},
    }
}

/// Where an endpoint fails, the copy fails with that very error, however much came before: it
/// is that of the last request for a line, or of the read or the delivery of the chunk that
/// the last line announces. No other call failed.
pub proof fn law_endpoint_errors_are_handed_on<
    X,
    M: LineSource<X>,
    R: ByteSource<X>,
    O: ByteSink<X>,
    E: ByteSink<X>,
    D: Fn(&str) -> Option<BuildLogMetadata>,
>(
    metadata_reader: &mut M,
    data_reader: &mut R,
    stdout: &mut O,
    stderr: &mut E,
    decode: D,
    error: X,
)
    requires
        call_ensures(
            copy_contract_streams::<X, M, R, O, E, D>,
            (metadata_reader, data_reader, stdout, stderr, decode),
            Err(CopyError::Endpoint(error)),
        ),
    ensures
        ({
            let lines = laws::added(
                old(metadata_reader).history(),
                final(metadata_reader).history(),
            );
            let reads = laws::added(old(data_reader).history(), final(data_reader).history());
            let out = laws::added(old(stdout).history(), final(stdout).history());
            let err = laws::added(old(stderr).history(), final(stderr).history());
            &&& lines.len() > 0
            &&& match lines.last()->outcome {
                Err(failure) => {
                    &&& failure == error
                    &&& forall|i: int|
                        0 <= i < reads.len() ==> laws::succeeded(#[trigger] reads[i])
                    &&& laws::all_taken(out)
                    &&& laws::all_taken(err)
                },
                Ok(line) => {
                    &&& 0 < line.len() <= 16384
                    &&& line.last() == 10
                    &&& valid_utf8(line)
                    &&& reads.len() > 0
                    &&& forall|i: int|
                        0 <= i < reads.len() - 1 ==> laws::succeeded(#[trigger] reads[i])
                    &&& reads.last() is ReadExact
                    &&& exists|text: &str, m: BuildLogMetadata|
                        {
                            &&& text.spec_bytes() == line
                            &&& #[trigger] call_ensures(decode, (text,), Some(m))
                            &&& m.event == BuildLogEvent::Chunk
                            &&& m.stream != BuildLogStream::Worker
                            &&& 1 <= m.byte_length <= 65536
                            &&& reads.last()->len == m.byte_length
                            &&& match reads.last()->ReadExact_outcome {
                                Err(failure) => failure == error && laws::all_taken(out)
                                    && laws::all_taken(err),
                                Ok(payload) => if m.stream == BuildLogStream::Stdout {
                                    laws::last_fails(out, payload, error) && laws::all_taken(err)
                                } else {
                                    laws::last_fails(err, payload, error) && laws::all_taken(out)
                                },
                            }
                        }
                },
            }
        }),
{
    lemma_build_log_run(metadata_reader, data_reader, stdout, stderr, decode, Err(CopyError::Endpoint(error)));
    let (rounds, end) = choose|rounds: Seq<ContractRound>, end: ContractEnd<X>| #[trigger]
        is_run_of(
            decode,
            rounds,
            end,
            laws::added(old(metadata_reader).history(), final(metadata_reader).history()),
            laws::added(old(data_reader).history(), final(data_reader).history()),
            laws::added(old(stdout).history(), final(stdout).history()),
            laws::added(old(stderr).history(), final(stderr).history()),
            Err(CopyError::Endpoint(error)),
        );
    let lines = contract::contract_line_reads(rounds, end);
    lemma_run_lines(decode, rounds, end);
    assert(lines.last() == lines[rounds.len() as int]);
    lemma_end_reads(decode, rounds, end);
    lemma_end_calls(decode, rounds, end);
    match end {
        ContractEnd::DataReadFailed { line, metadata, .. } => {
            let text = choose|text: &str|
                text.spec_bytes() == line && #[trigger] call_ensures(
                    decode,
                    (text,),
                    Some(metadata),
                );
            assert(call_ensures(decode, (text,), Some(metadata)));
        },
        ContractEnd::DeliveryFailed { round, .. } => {
            let text = choose|text: &str|
                text.spec_bytes() == round.line && #[trigger] call_ensures(
                    decode,
                    (text,),
                    Some(round.metadata),
                );
            assert(call_ensures(decode, (text,), Some(round.metadata)));
        },
        _ => {},
    }
}

/// How the data reads of a run end that an endpoint ends.
proof fn lemma_end_reads<X, D: Fn(&str) -> Option<BuildLogMetadata>>(
    decode: D,
    rounds: Seq<ContractRound>,
    end: ContractEnd<X>,
)
    requires
        contract::is_contract_run(decode, rounds, end),
    ensures
        ({
            let reads = contract::contract_data_reads(rounds, end);
            &&& forall|i: int|
                0 <= i < reads.len() - 1 ==> laws::succeeded(#[trigger] reads[i])
            &&& match end {
                ContractEnd::DataReadFailed { metadata, error, .. } => {
                    &&& reads.len() > 0
                    &&& reads.last() == (SourceEvent::ReadExact {
                        len: metadata.byte_length as nat,
                        outcome: Err(error),
                    })
                },
                ContractEnd::DeliveryFailed { round, .. } => {
                    &&& reads.len() > 0
                    &&& reads.last() == (SourceEvent::<X>::ReadExact {
                        len: round.metadata.byte_length as nat,
                        outcome: Ok(round.payload),
                    })
                },
                _ => forall|i: int|
                    0 <= i < reads.len() ==> laws::succeeded(#[trigger] reads[i]),
            }
        }),
{
    let reads = contract::contract_data_reads(rounds, end);
    let front = contract::round_data_reads::<X>(rounds);
    lemma_chunks_of_rounds::<X, D>(decode, rounds);
    assert forall|i: int| 0 <= i < front.len() implies laws::succeeded(#[trigger] reads[i]) by {
        assert(reads[i] == front[i]);
    }
}

/// How the calls on the two sinks end in a run that an endpoint ends.
proof fn lemma_end_calls<X, D: Fn(&str) -> Option<BuildLogMetadata>>(
    decode: D,
    rounds: Seq<ContractRound>,
    end: ContractEnd<X>,
)
    requires
        contract::is_contract_run(decode, rounds, end),
    ensures
        ({
            let out = contract::contract_routing(rounds, end, LogStream::Stdout);
            let err = contract::contract_routing(rounds, end, LogStream::Stderr);
            match end {
                ContractEnd::DeliveryFailed { round, error, .. } => if round.metadata.stream
                    == BuildLogStream::Stdout {
                    laws::last_fails(out, round.payload, error) && laws::all_taken(err)
                } else {
                    laws::last_fails(err, round.payload, error) && laws::all_taken(out)
                },
                _ => laws::all_taken(out) && laws::all_taken(err),
            }
        }),
{
    let deliveries = contract::contract_deliveries(rounds);
    let out = contract::contract_routing(rounds, end, LogStream::Stdout);
    let err = contract::contract_routing(rounds, end, LogStream::Stderr);
    let to_out = pipe::routing::<X>(deliveries, LogStream::Stdout);
    let to_err = pipe::routing::<X>(deliveries, LogStream::Stderr);
    lemma_routing_succeeds::<X>(deliveries);
    if let ContractEnd::DeliveryFailed { round, step, error } = end {
        let failed = contract::round_delivery(round)[0];
        let tail = endpoint::failed_at(endpoint::delivery_calls(failed.payload), step, error);
        endpoints::lemma_delivery_events::<X>(failed.payload);
        assert(step == 0 || step == 1);
        match failed.stream {
            LogStream::Stdout => {
                assert(out =~= to_out + tail);
                assert(out.drop_last() =~= to_out + tail.drop_last());
                assert(err =~= to_err);
            },
            LogStream::Stderr => {
                assert(err =~= to_err + tail);
                assert(err.drop_last() =~= to_err + tail.drop_last());
                assert(out =~= to_out);
            },
        }
    } else {
        assert(out =~= to_out);
        assert(err =~= to_err);
    }
}

/// The bytes of complete rounds are as many as their deliveries have.
proof fn lemma_handed_out_counts<X, D: Fn(&str) -> Option<BuildLogMetadata>>(
    decode: D,
    rounds: Seq<ContractRound>,
)
    requires
        forall|k: int| 0 <= k < rounds.len() ==> contract::is_round(decode, #[trigger] rounds[k]),
    ensures
        endpoint::handed_out(contract::round_data_reads::<X>(rounds)).len() == pipe::total_bytes(
            contract::contract_deliveries(rounds),
        ),
{
    contract::lemma_rounds_deliver_data::<X, D>(decode, rounds);
    lemma_payload_lengths(contract::contract_deliveries(rounds));
}

/// All payloads together are as long as the deliveries.
proof fn lemma_payload_lengths(deliveries: Seq<Delivery>)
    ensures
        pipe::payloads(deliveries).len() == pipe::total_bytes(deliveries),
    decreases deliveries.len(),
{
    if deliveries.len() > 0 {
        lemma_payload_lengths(deliveries.drop_last());
    }
}

} // verus!
