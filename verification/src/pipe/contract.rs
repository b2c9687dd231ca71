//! The build-log protocol: metadata lines on one descriptor say what the raw bytes on the
//! other are.

use vstd::prelude::*;
use vstd::string::*;
use vstd::utf8::*;

use crate::endpoint;
use crate::endpoint::{ByteSink, ByteSource, LineEvent, LineSource, SinkEvent, SourceEvent};
use crate::fault::{CopyError, Fault, FaultKind};
use crate::log_tee::LogStream;
use crate::pipe;
use crate::pipe::metadata;
use crate::pipe::metadata::{ends_line, NEWLINE};
use crate::pipe::{route, CopyStats, Delivery, MAX_FRAME_BYTES};

verus! {

/// The longest metadata line that the receiver accepts, its newline included in the count.
pub const MAX_METADATA_LINE_BYTES: usize = 16 * 1024;

/// What a metadata line reports.
#[derive(Debug, Clone, Copy, PartialEq, Eq, Structural)]
pub enum BuildLogEvent {
    /// Raw bytes are on the data descriptor.
    Chunk,
    /// The worker could not keep up and left bytes out.
    Dropped,
    /// The worker is done with the receiver.
    ReceiverClosed,
    /// A stream is at its end.
    StreamClosed,
}

/// What a metadata line is about.
#[derive(Debug, Clone, Copy, PartialEq, Eq, Structural)]
pub enum BuildLogStream {
    Stdout,
    Stderr,
    /// The worker itself.
    Worker,
}

/// What the receiver acts on in a metadata line.
#[derive(Debug, Clone, Copy, PartialEq, Eq, Structural)]
pub struct BuildLogMetadata {
    pub event: BuildLogEvent,
    pub stream: BuildLogStream,
    pub byte_length: i128,
}

/// A chunk that is to be read and routed.
#[derive(Debug, Clone, Copy, PartialEq, Eq, Structural)]
pub struct ChunkOrder {
    pub stream: LogStream,
    pub len: usize,
}

/// The output that a stream is routed to.
pub open spec fn output_of(stream: BuildLogStream) -> Option<LogStream> {
    match stream {
        BuildLogStream::Stdout => Some(LogStream::Stdout),
        BuildLogStream::Stderr => Some(LogStream::Stderr),
        BuildLogStream::Worker => None,
    }
}

/// What metadata asks of the receiver: a chunk, nothing, or more than it may.
pub open spec fn admission(metadata: BuildLogMetadata) -> Result<Option<ChunkOrder>, Fault> {
    match metadata.event {
        BuildLogEvent::Chunk => match output_of(metadata.stream) {
            None => Err(Fault::WorkerChunk),
            Some(stream) => if metadata.byte_length < 0 || metadata.byte_length > usize::MAX {
                Err(Fault::ByteLengthInvalid)
            } else if metadata.byte_length == 0 || metadata.byte_length > MAX_FRAME_BYTES {
                Err(Fault::ChunkOutOfBounds)
            } else {
                Ok(Some(ChunkOrder { stream, len: metadata.byte_length as usize }))
            },
        },
        BuildLogEvent::Dropped => if metadata.stream != BuildLogStream::Worker
            || metadata.byte_length != 0 {
            Err(Fault::DropReceipt)
        } else {
            Ok(None)
        },
        BuildLogEvent::ReceiverClosed | BuildLogEvent::StreamClosed => if metadata.byte_length
            != 0 {
            Err(Fault::LifecycleBytes)
        } else {
            Ok(None)
        },
    }
}

/// Decides what metadata asks of the receiver.
pub fn chunk_order(metadata: &BuildLogMetadata) -> (result: Result<Option<ChunkOrder>, Fault>)
    ensures
        result == admission(*metadata),
{
    match metadata.event {
        BuildLogEvent::Chunk => {
            let stream = match metadata.stream {
                BuildLogStream::Stdout => LogStream::Stdout,
                BuildLogStream::Stderr => LogStream::Stderr,
                BuildLogStream::Worker => {
                    return Err(Fault::WorkerChunk);
                },
            };
            if metadata.byte_length < 0 || metadata.byte_length > usize::MAX as i128 {
                return Err(Fault::ByteLengthInvalid);
            }
            let len: usize = metadata.byte_length as usize;
            if len == 0 || len > MAX_FRAME_BYTES {
                return Err(Fault::ChunkOutOfBounds);
            }
            Ok(Some(ChunkOrder { stream, len }))
        },
        BuildLogEvent::Dropped => {
            if metadata.stream != BuildLogStream::Worker || metadata.byte_length != 0 {
                return Err(Fault::DropReceipt);
            }
            Ok(None)
        },
        BuildLogEvent::ReceiverClosed | BuildLogEvent::StreamClosed => {
            if metadata.byte_length != 0 {
                return Err(Fault::LifecycleBytes);
            }
            Ok(None)
        },
    }
}

/// The text that bytes encode, by `std::str::from_utf8`: there is one exactly where the
/// bytes are valid UTF-8, and it is encoded by these bytes.
#[verifier::external_body]
fn decode_text(bytes: &[u8]) -> (text: Option<&str>)
    ensures
        text is Some <==> valid_utf8(bytes@),
        text matches Some(text) ==> text.spec_bytes() == bytes@,
{
    std::str::from_utf8(bytes).ok()
}

/// The first rule that a metadata line breaks before it is decoded, if it breaks one.
pub open spec fn line_fault(line: Seq<u8>) -> Option<Fault> {
    if line.len() > MAX_METADATA_LINE_BYTES {
        Some(Fault::MetadataLineTooLong)
    } else if metadata::missing_newline(line).len() > 0 {
        Some(Fault::MetadataLineTruncated)
    } else if !valid_utf8(line) {
        Some(Fault::MetadataNotUtf8)
    } else {
        None
    }
}

/// The text of a metadata line, or the rule that the line breaks.
pub fn line_text(line: &[u8]) -> (result: Result<&str, Fault>)
    ensures
        match result {
            Ok(text) => line_fault(line@) is None && text.spec_bytes() == line@,
            Err(fault) => line_fault(line@) == Some(fault),
        },
{
    if line.len() > MAX_METADATA_LINE_BYTES {
        return Err(Fault::MetadataLineTooLong);
    }
    if !ends_line(line) {
        return Err(Fault::MetadataLineTruncated);
    }
    match decode_text(line) {
        Some(text) => Ok(text),
        None => Err(Fault::MetadataNotUtf8),
    }
}

/// The decoder may answer so for the text of this line.
pub open spec fn decodes_to<D: Fn(&str) -> Option<BuildLogMetadata>>(
    decode: D,
    line: Seq<u8>,
    outcome: Option<BuildLogMetadata>,
) -> bool {
    exists|text: &str| text.spec_bytes() == line && #[trigger] call_ensures(decode, (text,), outcome)
}

/// A metadata line that was acted on, with the payload that was read for it. Where the
/// line asks for no chunk the payload is empty.
pub struct ContractRound {
    pub line: Seq<u8>,
    pub metadata: BuildLogMetadata,
    pub payload: Seq<u8>,
}

/// How a copy ends, after its last complete round.
pub enum ContractEnd<X> {
    /// The metadata is at its end.
    Drained,
    /// The metadata source fails.
    MetadataReadFailed { error: X },
    /// A line breaks a rule before it is decoded.
    LineRefused { line: Seq<u8>, fault: Fault },
    /// The decoder rejects a line.
    LineRejected { line: Seq<u8> },
    /// A line asks for more than it may.
    EventRefused { line: Seq<u8>, metadata: BuildLogMetadata, fault: Fault },
    /// The data source does not deliver a chunk.
    DataReadFailed { line: Seq<u8>, metadata: BuildLogMetadata, error: X },
    /// The sink does not take a chunk, or does not pass it on.
    DeliveryFailed { round: ContractRound, step: int, error: X },
}

/// The payload that metadata announces has this length.
pub open spec fn announces(metadata: BuildLogMetadata, len: nat) -> bool {
    match admission(metadata) {
        Ok(Some(order)) => len == order.len,
        Ok(None) => len == 0,
        Err(_) => false,
    }
}

/// A line that breaks no rule, decoded to this metadata.
pub open spec fn is_decoded<D: Fn(&str) -> Option<BuildLogMetadata>>(
    decode: D,
    line: Seq<u8>,
    metadata: BuildLogMetadata,
) -> bool {
    &&& metadata::is_line(line)
    &&& line_fault(line) is None
    &&& decodes_to(decode, line, Some(metadata))
}

/// A line that was decoded and admitted, and the payload that it announces.
pub open spec fn is_round<D: Fn(&str) -> Option<BuildLogMetadata>>(
    decode: D,
    round: ContractRound,
) -> bool {
    &&& is_decoded(decode, round.line, round.metadata)
    &&& announces(round.metadata, round.payload.len())
}

/// These rounds, ended so, are a run of a copy with this decoder.
pub open spec fn is_contract_run<X, D: Fn(&str) -> Option<BuildLogMetadata>>(
    decode: D,
    rounds: Seq<ContractRound>,
    end: ContractEnd<X>,
) -> bool {
    &&& forall|k: int| 0 <= k < rounds.len() ==> is_round(decode, #[trigger] rounds[k])
    &&& match end {
        ContractEnd::Drained => true,
        ContractEnd::MetadataReadFailed { .. } => true,
        ContractEnd::LineRefused { line, fault } => {
            &&& metadata::is_line(line)
            &&& line_fault(line) == Some(fault)
        },
        ContractEnd::LineRejected { line } => {
            &&& metadata::is_line(line)
            &&& line_fault(line) is None
            &&& decodes_to(decode, line, None)
        },
        ContractEnd::EventRefused { line, metadata, fault } => {
            &&& is_decoded(decode, line, metadata)
            &&& admission(metadata) == Err::<Option<ChunkOrder>, Fault>(fault)
        },
        ContractEnd::DataReadFailed { line, metadata, .. } => {
            &&& is_decoded(decode, line, metadata)
            &&& admission(metadata) matches Ok(Some(_))
        },
        ContractEnd::DeliveryFailed { round, step, .. } => {
            &&& is_round(decode, round)
            &&& admission(round.metadata) matches Ok(Some(_))
            &&& 0 <= step < 2
        },
    }
}

/// The metadata lines of complete rounds.
pub open spec fn round_lines(rounds: Seq<ContractRound>) -> Seq<Seq<u8>> {
    Seq::new(rounds.len(), |k: int| rounds[k].line)
}

/// The requests for metadata lines in a run.
pub open spec fn contract_line_reads<X>(rounds: Seq<ContractRound>, end: ContractEnd<X>) -> Seq<
    LineEvent<X>,
> {
    metadata::line_reads(round_lines(rounds)).push(
        metadata::line_read(
            match end {
                ContractEnd::Drained => Ok(Seq::empty()),
                ContractEnd::MetadataReadFailed { error } => Err(error),
                ContractEnd::LineRefused { line, .. } => Ok(line),
                ContractEnd::LineRejected { line } => Ok(line),
                ContractEnd::EventRefused { line, .. } => Ok(line),
                ContractEnd::DataReadFailed { line, .. } => Ok(line),
                ContractEnd::DeliveryFailed { round, .. } => Ok(round.line),
            },
        ),
    )
}

/// The reads on the data source that metadata causes.
pub open spec fn data_reads_of<X>(
    metadata: BuildLogMetadata,
    outcome: Result<Seq<u8>, X>,
) -> Seq<SourceEvent<X>> {
    match admission(metadata) {
        Ok(Some(order)) => seq![SourceEvent::ReadExact { len: order.len as nat, outcome }],
        _ => Seq::empty(),
    }
}

/// The reads on the data source in complete rounds.
pub open spec fn round_data_reads<X>(rounds: Seq<ContractRound>) -> Seq<SourceEvent<X>>
    decreases rounds.len(),
{
    if rounds.len() == 0 {
        Seq::empty()
    } else {
        round_data_reads(rounds.drop_last()) + data_reads_of(
            rounds.last().metadata,
            Ok(rounds.last().payload),
        )
    }
}

/// The reads on the data source in a run.
pub open spec fn contract_data_reads<X>(rounds: Seq<ContractRound>, end: ContractEnd<X>) -> Seq<
    SourceEvent<X>,
> {
    round_data_reads(rounds) + match end {
        ContractEnd::DataReadFailed { metadata, error, .. } => data_reads_of(metadata, Err(error)),
        ContractEnd::DeliveryFailed { round, .. } => data_reads_of(
            round.metadata,
            Ok(round.payload),
        ),
        _ => Seq::empty(),
    }
}

/// What a round delivers: a chunk or nothing.
pub open spec fn round_delivery(round: ContractRound) -> Seq<Delivery> {
    match admission(round.metadata) {
        Ok(Some(order)) => seq![Delivery { stream: order.stream, payload: round.payload }],
        _ => Seq::empty(),
    }
}

/// What these rounds deliver.
pub open spec fn contract_deliveries(rounds: Seq<ContractRound>) -> Seq<Delivery>
    decreases rounds.len(),
{
    if rounds.len() == 0 {
        Seq::empty()
    } else {
        contract_deliveries(rounds.drop_last()) + round_delivery(rounds.last())
    }
}

/// The calls on the sink of one stream in a run.
pub open spec fn contract_routing<X>(
    rounds: Seq<ContractRound>,
    end: ContractEnd<X>,
    stream: LogStream,
) -> Seq<SinkEvent<X>> {
    pipe::routing(contract_deliveries(rounds), stream) + match end {
        ContractEnd::DeliveryFailed { round, step, error } => pipe::failed_routing_of(
            round_delivery(round)[0],
            stream,
            step,
            error,
        ),
        _ => Seq::empty(),
    }
}

/// What a copy returns at the end of a run.
pub open spec fn contract_result<X>(rounds: Seq<ContractRound>, end: ContractEnd<X>) -> Result<
    CopyStats,
    CopyError<X>,
> {
    match end {
        ContractEnd::Drained => Ok(pipe::stats_of(contract_deliveries(rounds))),
        ContractEnd::MetadataReadFailed { error } => Err(CopyError::Endpoint(error)),
        ContractEnd::LineRefused { fault, .. } => Err(CopyError::Fault(fault)),
        ContractEnd::LineRejected { .. } => Err(CopyError::Fault(Fault::MetadataRejected)),
        ContractEnd::EventRefused { fault, .. } => Err(CopyError::Fault(fault)),
        ContractEnd::DataReadFailed { error, .. } => Err(CopyError::Endpoint(error)),
        ContractEnd::DeliveryFailed { error, .. } => Err(CopyError::Endpoint(error)),
    }
}

/// Reads metadata lines, and for each chunk that they announce routes exactly that many
/// bytes from the data source to an output, until the metadata ends.
///
/// The metadata is a control-plane lane: no byte of it reaches an output. The outputs get
/// the exact bytes of the data source, which are not taken for text.
pub fn copy_contract_streams<
    X,
    M: LineSource<X>,
    R: ByteSource<X>,
    O: ByteSink<X>,
    E: ByteSink<X>,
    D: Fn(&str) -> Option<BuildLogMetadata>,
>(
    metadata_reader: &mut M,
    data_reader: &mut R,
    stdout: &mut O,
    stderr: &mut E,
    decode: D,
) -> (result: Result<CopyStats, CopyError<X>>)
    requires
        forall|text: &str| call_requires(decode, (text,)),
    ensures
        exists|rounds: Seq<ContractRound>, end: ContractEnd<X>|
            {
                &&& #[trigger] is_contract_run(decode, rounds, end)
                &&& final(metadata_reader).history() == old(metadata_reader).history()
                    + contract_line_reads(rounds, end)
                &&& final(data_reader).history() == old(data_reader).history()
                    + contract_data_reads(rounds, end)
                &&& final(stdout).history() == old(stdout).history() + contract_routing(
                    rounds,
                    end,
                    LogStream::Stdout,
                )
                &&& final(stderr).history() == old(stderr).history() + contract_routing(
                    rounds,
                    end,
                    LogStream::Stderr,
                )
                &&& result == contract_result(rounds, end)
            },
{
    let mut line: Vec<u8> = Vec::new();
    let mut stats = CopyStats::default();
    let ghost mut rounds: Seq<ContractRound> = Seq::empty();
    assert(metadata_reader.history() =~= old(metadata_reader).history() + metadata::line_reads(
        round_lines(rounds),
    ));
    assert(data_reader.history() =~= old(data_reader).history() + round_data_reads(rounds));
    assert(stdout.history() =~= old(stdout).history() + pipe::routing(
        contract_deliveries(rounds),
        LogStream::Stdout,
    ));
    assert(stderr.history() =~= old(stderr).history() + pipe::routing(
        contract_deliveries(rounds),
        LogStream::Stderr,
    ));
    loop
        invariant
            forall|text: &str| call_requires(decode, (text,)),
            forall|k: int| 0 <= k < rounds.len() ==> is_round(decode, #[trigger] rounds[k]),
            stats == pipe::stats_of(contract_deliveries(rounds)),
            metadata_reader.history() == old(metadata_reader).history() + metadata::line_reads(
                round_lines(rounds),
            ),
            data_reader.history() == old(data_reader).history() + round_data_reads(rounds),
            stdout.history() == old(stdout).history() + pipe::routing(
                contract_deliveries(rounds),
                LogStream::Stdout,
            ),
            stderr.history() == old(stderr).history() + pipe::routing(
                contract_deliveries(rounds),
                LogStream::Stderr,
            ),
        decreases metadata_reader.unread(),
    {
        let ghost lines_start = metadata_reader.history();
        let ghost data_start = data_reader.history();
        let ghost out = stdout.history();
        let ghost err = stderr.history();
        proof {
            let deliveries = contract_deliveries(rounds);
            let nothing = Seq::<SinkEvent<X>>::empty();
            let to_stdout = pipe::routing::<X>(deliveries, LogStream::Stdout);
            let to_stderr = pipe::routing::<X>(deliveries, LogStream::Stderr);
            let reads = round_data_reads::<X>(rounds);
            assert(to_stdout + nothing =~= to_stdout);
            assert(to_stderr + nothing =~= to_stderr);
            assert(reads + Seq::<SourceEvent<X>>::empty() =~= reads);
        }
        line.clear();
        let read: usize = match metadata_reader.read_until(NEWLINE, &mut line) {
            Ok(read) => read,
            Err(error) => {
                proof {
                    let end = ContractEnd::MetadataReadFailed { error };
                    assert(is_contract_run(decode, rounds, end));
                    assert(metadata_reader.history() =~= old(metadata_reader).history()
                        + contract_line_reads(rounds, end));
                }
                return Err(CopyError::Endpoint(error));
            },
        };
        assert(line@.skip(0) =~= line@);
        if read == 0 {
            proof {
                let end = ContractEnd::<X>::Drained;
                assert(line@ =~= Seq::empty());
                assert(is_contract_run(decode, rounds, end));
                assert(metadata_reader.history() =~= old(metadata_reader).history()
                    + contract_line_reads(rounds, end));
            }
            return Ok(stats);
        }
        assert(metadata::is_line(line@));
        let text = match line_text(line.as_slice()) {
            Ok(text) => text,
            Err(fault) => {
                proof {
                    let end = ContractEnd::<X>::LineRefused { line: line@, fault };
                    assert(is_contract_run(decode, rounds, end));
                    assert(metadata_reader.history() =~= old(metadata_reader).history()
                        + contract_line_reads(rounds, end));
                }
                return Err(CopyError::Fault(fault));
            },
        };
        let decoded = decode(text);
        assert(decodes_to(decode, line@, decoded));
        let metadata = match decoded {
            Some(metadata) => metadata,
            None => {
                proof {
                    let end = ContractEnd::<X>::LineRejected { line: line@ };
                    assert(is_contract_run(decode, rounds, end));
                    assert(metadata_reader.history() =~= old(metadata_reader).history()
                        + contract_line_reads(rounds, end));
                }
                return Err(CopyError::Fault(Fault::MetadataRejected));
            },
        };
        let ghost mut payload_bytes: Seq<u8> = Seq::empty();
        match chunk_order(&metadata) {
            Err(fault) => {
                proof {
                    let end = ContractEnd::<X>::EventRefused { line: line@, metadata, fault };
                    assert(is_contract_run(decode, rounds, end));
                    assert(metadata_reader.history() =~= old(metadata_reader).history()
                        + contract_line_reads(rounds, end));
                }
                return Err(CopyError::Fault(fault));
            },
            Ok(None) => {},
            Ok(Some(order)) => {
                let mut payload: Vec<u8> = vec![0u8; order.len];
                if let Err(error) = data_reader.read_exact(payload.as_mut_slice()) {
                    proof {
                        let end = ContractEnd::DataReadFailed { line: line@, metadata, error };
                        assert(is_contract_run(decode, rounds, end));
                        assert(metadata_reader.history() =~= old(metadata_reader).history()
                            + contract_line_reads(rounds, end));
                        assert(data_reader.history() =~= old(data_reader).history()
                            + contract_data_reads(rounds, end));
                    }
                    return Err(CopyError::Endpoint(error));
                }
                let ghost round = ContractRound { line: line@, metadata, payload: payload@ };
                let ghost delivery = Delivery { stream: order.stream, payload: payload@ };
                assert(round_delivery(round)[0] == delivery);
                if let Err(error) = route(stdout, stderr, order.stream, payload.as_slice()) {
                    proof {
                        let step = choose|step: int|
                            {
                                &&& 0 <= step < 2
                                &&& stdout.history() == out + #[trigger] pipe::failed_routing_of(
                                    delivery,
                                    LogStream::Stdout,
                                    step,
                                    error,
                                )
                                &&& stderr.history() == err + pipe::failed_routing_of(
                                    delivery,
                                    LogStream::Stderr,
                                    step,
                                    error,
                                )
                            };
                        let end = ContractEnd::DeliveryFailed { round, step, error };
                        assert(is_contract_run(decode, rounds, end));
                        assert(metadata_reader.history() =~= old(metadata_reader).history()
                            + contract_line_reads(rounds, end));
                        assert(data_reader.history() =~= old(data_reader).history()
                            + contract_data_reads(rounds, end));
                        assert(stdout.history() =~= old(stdout).history() + contract_routing(
                            rounds,
                            end,
                            LogStream::Stdout,
                        ));
                        assert(stderr.history() =~= old(stderr).history() + contract_routing(
                            rounds,
                            end,
                            LogStream::Stderr,
                        ));
                    }
                    return Err(CopyError::Endpoint(error));
                }
                stats.count(order.len);
                proof {
                    payload_bytes = payload@;
                }
            },
        }
        proof {
            let round = ContractRound { line: line@, metadata, payload: payload_bytes };
            let before = rounds;
            rounds = rounds.push(round);
            assert(rounds.drop_last() =~= before);
            assert(is_round(decode, round));
            assert(round_lines(rounds) =~= round_lines(before).push(line@));
            assert(metadata_reader.history() =~= old(metadata_reader).history()
                + metadata::line_reads(round_lines(rounds)));
            assert(data_reader.history() =~= old(data_reader).history() + round_data_reads(rounds));
            let old_deliveries = contract_deliveries(before);
            let deliveries = contract_deliveries(rounds);
            if round_delivery(round).len() == 0 {
                assert(deliveries =~= old_deliveries);
            } else {
                assert(deliveries =~= old_deliveries.push(round_delivery(round)[0]));
                assert(deliveries.drop_last() =~= old_deliveries);
            }
            assert(stdout.history() =~= old(stdout).history() + pipe::routing(
                deliveries,
                LogStream::Stdout,
            ));
            assert(stderr.history() =~= old(stderr).history() + pipe::routing(
                deliveries,
                LogStream::Stderr,
            ));
        }
    }
}

/// The payload of a chunk that was read and whose delivery failed.
pub open spec fn undelivered<X>(end: ContractEnd<X>) -> Seq<Delivery> {
    match end {
        ContractEnd::DeliveryFailed { round, .. } => round_delivery(round),
        _ => Seq::empty(),
    }
}

/// A chunk's read hands out the chunk, or nothing where it fails.
proof fn lemma_data_handed_out<X>(metadata: BuildLogMetadata, outcome: Result<Seq<u8>, X>)
    requires
        admission(metadata) matches Ok(Some(_)),
    ensures
        endpoint::handed_out(data_reads_of(metadata, outcome)) == match outcome {
            Ok(payload) => payload,
            Err(_) => Seq::empty(),
        },
{
    reveal_with_fuel(endpoint::handed_out, 2);
    let reads = data_reads_of(metadata, outcome);
    assert(reads.drop_last() =~= Seq::empty());
    assert(endpoint::handed_out(reads) =~= match outcome {
        Ok(payload) => payload,
        Err(_) => Seq::empty(),
    });
}

/// The data of complete rounds is what they deliver.
pub proof fn lemma_rounds_deliver_data<X, D: Fn(&str) -> Option<BuildLogMetadata>>(
    decode: D,
    rounds: Seq<ContractRound>,
)
    requires
        forall|k: int| 0 <= k < rounds.len() ==> is_round(decode, #[trigger] rounds[k]),
    ensures
        endpoint::handed_out(round_data_reads::<X>(rounds)) == pipe::payloads(
            contract_deliveries(rounds),
        ),
        round_data_reads::<X>(rounds).len() == contract_deliveries(rounds).len(),
        forall|k: int|
            0 <= k < contract_deliveries(rounds).len() ==> 0 < (#[trigger] contract_deliveries(
                rounds,
            )[k]).payload.len() <= MAX_FRAME_BYTES,
    decreases rounds.len(),
{
    if rounds.len() > 0 {
        let before = rounds.drop_last();
        let round = rounds.last();
        assert(is_round(decode, rounds[rounds.len() - 1]));
        assert forall|k: int| 0 <= k < before.len() implies is_round(
            decode,
            #[trigger] before[k],
        ) by {
            assert(is_round(decode, rounds[k]));
        }
        lemma_rounds_deliver_data::<X, D>(decode, before);
        let deliveries = contract_deliveries(before);
        let reads = data_reads_of::<X>(round.metadata, Ok(round.payload));
        endpoint::lemma_handed_out_append(round_data_reads::<X>(before), reads);
        if round_delivery(round).len() == 0 {
            assert(contract_deliveries(rounds) =~= deliveries);
            assert(endpoint::handed_out(round_data_reads::<X>(before)) + endpoint::handed_out(reads)
                =~= pipe::payloads(deliveries));
        } else {
            assert(contract_deliveries(rounds) =~= deliveries.push(round_delivery(round)[0]));
            assert(contract_deliveries(rounds).drop_last() =~= deliveries);
            lemma_data_handed_out::<X>(round.metadata, Ok(round.payload));
        }
    }
}

/// The outputs hold nothing but data: what the data source hands out is, in order, the
/// payloads of the deliveries, and each output accepts its share of them and no other byte.
/// The one exception is a chunk whose delivery fails, which ends the run.
pub proof fn law_outputs_hold_only_data<X, D: Fn(&str) -> Option<BuildLogMetadata>>(
    decode: D,
    rounds: Seq<ContractRound>,
    end: ContractEnd<X>,
    stream: LogStream,
)
    requires
        is_contract_run(decode, rounds, end),
    ensures
        endpoint::handed_out(contract_data_reads(rounds, end)) == pipe::payloads(
            contract_deliveries(rounds) + undelivered(end),
        ),
        !(end is DeliveryFailed) ==> endpoint::accepted(contract_routing(rounds, end, stream))
            == pipe::routed(contract_deliveries(rounds), stream),
        end matches ContractEnd::DeliveryFailed { step, .. } ==> endpoint::accepted(
            contract_routing(rounds, end, stream),
        ) == (if step == 0 {
            pipe::routed(contract_deliveries(rounds), stream)
        } else {
            pipe::routed(contract_deliveries(rounds) + undelivered(end), stream)
        }),
{
    let deliveries = contract_deliveries(rounds);
    let routing = pipe::routing::<X>(deliveries, stream);
    lemma_rounds_deliver_data::<X, D>(decode, rounds);
    pipe::law_routing_hands_over_payloads::<X>(deliveries, stream);
    match end {
        ContractEnd::DeliveryFailed { round, step, error } => {
            let delivery = round_delivery(round)[0];
            let more = deliveries + undelivered(end);
            assert(more.drop_last() =~= deliveries);
            assert(more.last() == delivery);
            let reads = data_reads_of::<X>(round.metadata, Ok(round.payload));
            endpoint::lemma_handed_out_append(round_data_reads::<X>(rounds), reads);
            lemma_data_handed_out::<X>(round.metadata, Ok(round.payload));
            endpoint::lemma_delivery_accepted::<X>(round.payload);
            let failed = pipe::failed_routing_of(delivery, stream, step, error);
            endpoint::lemma_accepted_append(routing, failed);
            assert(pipe::routed(deliveries, stream) + Seq::<u8>::empty() =~= pipe::routed(
                deliveries,
                stream,
            ));
        },
        ContractEnd::DataReadFailed { metadata, error, .. } => {
            let reads = data_reads_of::<X>(metadata, Err(error));
            endpoint::lemma_handed_out_append(round_data_reads::<X>(rounds), reads);
            lemma_data_handed_out::<X>(metadata, Err(error));
            assert(deliveries + undelivered(end) =~= deliveries);
            assert(endpoint::handed_out(contract_data_reads(rounds, end)) =~= pipe::payloads(
                deliveries,
            ));
            assert(contract_routing(rounds, end, stream) =~= routing);
        },
        _ => {
            assert(deliveries + undelivered(end) =~= deliveries);
            assert(contract_data_reads(rounds, end) =~= round_data_reads(rounds));
            assert(contract_routing(rounds, end, stream) =~= routing);
        },
    }
}

/// No text of a metadata line reaches an output: runs whose lines decode alike and bring the
/// same payloads make the same calls on the data source and on the outputs, and return the
/// same.
pub proof fn law_metadata_text_stays_off_outputs<X>(
    rounds: Seq<ContractRound>,
    others: Seq<ContractRound>,
    end: ContractEnd<X>,
    stream: LogStream,
)
    requires
        rounds.len() == others.len(),
        forall|k: int|
            0 <= k < rounds.len() ==> (#[trigger] rounds[k]).metadata == others[k].metadata
                && rounds[k].payload == others[k].payload,
    ensures
        contract_data_reads(rounds, end) == contract_data_reads(others, end),
        contract_routing(rounds, end, stream) == contract_routing(others, end, stream),
        contract_result(rounds, end) == contract_result(others, end),
{
    lemma_same_deliveries::<X>(rounds, others);
}

/// What is read as data and delivered rests on decoded metadata and payloads alone.
proof fn lemma_same_deliveries<X>(rounds: Seq<ContractRound>, others: Seq<ContractRound>)
    requires
        rounds.len() == others.len(),
        forall|k: int|
            0 <= k < rounds.len() ==> (#[trigger] rounds[k]).metadata == others[k].metadata
                && rounds[k].payload == others[k].payload,
    ensures
        contract_deliveries(rounds) == contract_deliveries(others),
        round_data_reads::<X>(rounds) == round_data_reads::<X>(others),
    decreases rounds.len(),
{
    if rounds.len() > 0 {
        assert(rounds[rounds.len() - 1].metadata == others[rounds.len() - 1].metadata);
        assert forall|k: int| 0 <= k < rounds.drop_last().len() implies (
        #[trigger] rounds.drop_last()[k]).metadata == others.drop_last()[k].metadata
            && rounds.drop_last()[k].payload == others.drop_last()[k].payload by {
            assert(rounds[k].metadata == others[k].metadata);
        }
        lemma_same_deliveries::<X>(rounds.drop_last(), others.drop_last());
    }
}

/// The receiver asks the data source once for each chunk that it delivers, for no fewer
/// than one byte and no more than its bound; all other events leave the data source alone.
pub proof fn law_only_chunks_take_data<X, D: Fn(&str) -> Option<BuildLogMetadata>>(
    decode: D,
    rounds: Seq<ContractRound>,
    end: ContractEnd<X>,
    k: int,
)
    requires
        is_contract_run(decode, rounds, end),
        0 <= k < rounds.len(),
    ensures
        rounds[k].metadata.event == BuildLogEvent::Chunk ==> {
            &&& rounds[k].payload.len() == rounds[k].metadata.byte_length
            &&& 0 < rounds[k].payload.len() <= MAX_FRAME_BYTES
            &&& output_of(rounds[k].metadata.stream) == Some(round_delivery(rounds[k])[0].stream)
            &&& round_delivery(rounds[k])[0].payload == rounds[k].payload
        },
        rounds[k].metadata.event != BuildLogEvent::Chunk ==> {
            &&& rounds[k].metadata.byte_length == 0
            &&& rounds[k].payload.len() == 0
            &&& round_delivery(rounds[k]).len() == 0
            &&& data_reads_of::<X>(rounds[k].metadata, Ok(rounds[k].payload)).len() == 0
        },
        round_data_reads::<X>(rounds).len() == contract_deliveries(rounds).len(),
{
    assert(is_round(decode, rounds[k]));
    lemma_rounds_deliver_data::<X, D>(decode, rounds);
}

/// The data reads and the deliveries of two stretches of rounds come in their order.
pub proof fn lemma_rounds_append<X>(first: Seq<ContractRound>, second: Seq<ContractRound>)
    ensures
        contract_deliveries(first + second) == contract_deliveries(first) + contract_deliveries(
            second,
        ),
        round_data_reads::<X>(first + second) == round_data_reads::<X>(first)
            + round_data_reads::<X>(second),
    decreases second.len(),
{
    let both = first + second;
    if second.len() == 0 {
        assert(both =~= first);
        assert(contract_deliveries(both) =~= contract_deliveries(first) + contract_deliveries(
            second,
        ));
        assert(round_data_reads::<X>(both) =~= round_data_reads::<X>(first) + round_data_reads::<X>(
            second,
        ));
    } else {
        lemma_rounds_append::<X>(first, second.drop_last());
        assert(both.drop_last() =~= first + second.drop_last());
        assert(contract_deliveries(both) =~= contract_deliveries(first) + contract_deliveries(
            second,
        ));
        assert(round_data_reads::<X>(both) =~= round_data_reads::<X>(first) + round_data_reads::<X>(
            second,
        ));
    }
}

/// One round delivers and reads what its metadata asks for.
pub proof fn lemma_one_round<X>(round: ContractRound)
    ensures
        contract_deliveries(seq![round]) == round_delivery(round),
        round_data_reads::<X>(seq![round]) == data_reads_of::<X>(
            round.metadata,
            Ok(round.payload),
        ),
{
    reveal_with_fuel(contract_deliveries, 2);
    reveal_with_fuel(round_data_reads, 2);
    assert(seq![round].drop_last() =~= Seq::empty());
    assert(contract_deliveries(seq![round]) =~= round_delivery(round));
    assert(round_data_reads::<X>(seq![round]) =~= data_reads_of::<X>(
        round.metadata,
        Ok(round.payload),
    ));
}

/// One more line that asks for no chunk, such as a drop receipt or the close of a stream or
/// of the receiver, changes nothing wherever it comes: the run with it is a run too, takes
/// the same data, makes the same calls on the outputs and returns the same.
pub proof fn law_lines_without_chunk_change_nothing<X, D: Fn(&str) -> Option<BuildLogMetadata>>(
    decode: D,
    rounds: Seq<ContractRound>,
    at: int,
    round: ContractRound,
    end: ContractEnd<X>,
)
    requires
        is_contract_run(decode, rounds, end),
        0 <= at <= rounds.len(),
        is_round(decode, round),
        round.metadata.event != BuildLogEvent::Chunk,
    ensures
        is_contract_run(decode, rounds.insert(at, round), end),
        contract_data_reads(rounds.insert(at, round), end) == contract_data_reads(rounds, end),
        forall|stream: LogStream| #[trigger]
            contract_routing(rounds.insert(at, round), end, stream) == contract_routing(
                rounds,
                end,
                stream,
            ),
        contract_result(rounds.insert(at, round), end) == contract_result(rounds, end),
{
    let more = rounds.insert(at, round);
    let front = rounds.take(at);
    let back = rounds.skip(at);
    assert(rounds =~= front + back);
    assert(more =~= front + seq![round] + back);
    lemma_rounds_append::<X>(front, back);
    lemma_rounds_append::<X>(front + seq![round], back);
    lemma_rounds_append::<X>(front, seq![round]);
    lemma_one_round::<X>(round);
    assert(contract_deliveries(more) =~= contract_deliveries(rounds));
    assert(round_data_reads::<X>(more) =~= round_data_reads::<X>(rounds));
    assert forall|k: int| 0 <= k < more.len() implies is_round(decode, #[trigger] more[k]) by {
        if k < at {
            assert(is_round(decode, rounds[k]));
        } else if k > at {
            assert(is_round(decode, rounds[k - 1]));
        }
    }
}

/// A refused line is answered by a fault that says whether it was cut short or was invalid,
/// and before any data is read for it or any output is touched on its account.
pub proof fn law_refusals_are_faults<X, D: Fn(&str) -> Option<BuildLogMetadata>>(
    decode: D,
    rounds: Seq<ContractRound>,
    end: ContractEnd<X>,
)
    requires
        is_contract_run(decode, rounds, end),
        end is LineRefused || end is LineRejected || end is EventRefused,
    ensures
        contract_result(rounds, end) matches Err(CopyError::Fault(fault)) && {
            ||| fault.spec_kind() == FaultKind::InvalidData
            ||| fault == Fault::MetadataLineTruncated && fault.spec_kind()
                == FaultKind::UnexpectedEof
        },
        contract_data_reads(rounds, end) == round_data_reads::<X>(rounds),
        forall|stream: LogStream| #[trigger]
            contract_routing(rounds, end, stream) == pipe::routing::<X>(
                contract_deliveries(rounds),
                stream,
            ),
{
    assert(contract_data_reads(rounds, end) =~= round_data_reads::<X>(rounds));
    assert forall|stream: LogStream| #[trigger]
        contract_routing(rounds, end, stream) == pipe::routing::<X>(
            contract_deliveries(rounds),
            stream,
        ) by {
        assert(contract_routing(rounds, end, stream) =~= pipe::routing::<X>(
            contract_deliveries(rounds),
            stream,
        ));
    }
}

} // verus!
