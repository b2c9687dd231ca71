//! The frame protocol: each frame names its stream and its length before its payload.

use vstd::prelude::*;

use crate::endpoint;
use crate::endpoint::{ByteSink, ByteSource, SinkEvent, SourceEvent};
use crate::fault::{CopyError, Fault, FaultKind};
use crate::log_tee::LogStream;
use crate::pipe;
use crate::pipe::{route, CopyStats, Delivery, MAX_FRAME_BYTES};

verus! {

/// The version of the frame layout.
pub const FRAME_VERSION: u8 = 1;

/// The stream id of standard output.
pub const STREAM_STDOUT: u8 = 1;

/// The stream id of standard error.
pub const STREAM_STDERR: u8 = 2;

/// The bytes of a frame before its payload: magic number, version, stream id, length.
pub const FRAME_HEADER_BYTES: usize = 10;

/// The bytes that every frame starts with.
pub open spec fn frame_magic() -> Seq<u8> {
    seq![0x47u8, 0x48u8, 0x4cu8, 0x47u8]
}

/// The payload length that a header states, most significant byte first.
pub open spec fn header_len(header: Seq<u8>) -> nat {
    (header[6] * 0x100_0000 + header[7] * 0x1_0000 + header[8] * 0x100 + header[9]) as nat
}

/// The stream that a valid header names.
pub open spec fn header_stream(header: Seq<u8>) -> LogStream {
    if header[5] == STREAM_STDOUT {
        LogStream::Stdout
    } else {
        LogStream::Stderr
    }
}

/// The first rule that a header breaks, if it breaks one.
pub open spec fn header_fault(header: Seq<u8>) -> Option<Fault> {
    if header.take(4) != frame_magic() {
        Some(Fault::FrameMagic)
    } else if header[4] != FRAME_VERSION {
        Some(Fault::FrameVersion)
    } else if header[5] != STREAM_STDOUT && header[5] != STREAM_STDERR {
        Some(Fault::FrameStream)
    } else if header_len(header) > MAX_FRAME_BYTES {
        Some(Fault::FrameTooLong)
    } else {
        None
    }
}

/// What a valid header says of its frame.
#[derive(Debug, Clone, Copy, PartialEq, Eq, Structural)]
pub struct FrameHeader {
    pub stream: LogStream,
    pub len: usize,
}

/// Reads a header, or says which rule it breaks.
pub fn parse_frame_header(header: &[u8]) -> (result: Result<FrameHeader, Fault>)
    requires
        header@.len() == FRAME_HEADER_BYTES,
    ensures
        match result {
            Ok(frame) => {
                &&& header_fault(header@) is None
                &&& frame.stream == header_stream(header@)
                &&& frame.len == header_len(header@)
            },
            Err(fault) => header_fault(header@) == Some(fault),
        },
{
    let magic = header[0] == 0x47 && header[1] == 0x48 && header[2] == 0x4c && header[3] == 0x47;
    assert(magic == (header@.take(4) =~= frame_magic())) by {
        let front = header@.take(4);
        assert(front[0] == header@[0] && front[1] == header@[1] && front[2] == header@[2]
            && front[3] == header@[3]);
    }
    if !magic {
        return Err(Fault::FrameMagic);
    }
    if header[4] != FRAME_VERSION {
        return Err(Fault::FrameVersion);
    }
    let stream = if header[5] == STREAM_STDOUT {
        LogStream::Stdout
    } else if header[5] == STREAM_STDERR {
        LogStream::Stderr
    } else {
        return Err(Fault::FrameStream);
    };
    let len: u32 = header[6] as u32 * 0x100_0000 + header[7] as u32 * 0x1_0000 + header[8] as u32
        * 0x100 + header[9] as u32;
    if len as usize > MAX_FRAME_BYTES {
        return Err(Fault::FrameTooLong);
    }
    Ok(FrameHeader { stream, len: len as usize })
}

/// The reads by which `len` bytes come in pieces: each asks for all that is still missing.
pub open spec fn piece_reads<X>(len: nat, pieces: Seq<Seq<u8>>) -> Seq<SourceEvent<X>> {
    Seq::new(
        pieces.len(),
        |i: int|
            SourceEvent::Read {
                limit: (len - endpoint::joined(pieces.take(i)).len()) as nat,
                outcome: Ok(pieces[i]),
            },
    )
}

/// A read that asks for what is missing after these pieces.
pub open spec fn rest_read<X>(
    len: nat,
    pieces: Seq<Seq<u8>>,
    outcome: Result<Seq<u8>, X>,
) -> SourceEvent<X> {
    SourceEvent::Read { limit: (len - endpoint::joined(pieces).len()) as nat, outcome }
}

/// No piece is empty.
pub open spec fn nonempty(pieces: Seq<Seq<u8>>) -> bool {
    forall|i: int| 0 <= i < pieces.len() ==> (#[trigger] pieces[i]).len() > 0
}

/// Pieces came in until the buffer was full, or until the source ended or failed, and this
/// is what that comes to. Where the buffer is not full, it holds what came in, and behind
/// that what the last read `left` there.
pub open spec fn filled<X>(
    before: Seq<SourceEvent<X>>,
    after: Seq<SourceEvent<X>>,
    buffer: Seq<u8>,
    left: Seq<u8>,
    pieces: Seq<Seq<u8>>,
    result: Result<bool, CopyError<X>>,
) -> bool {
    let len = buffer.len();
    let got = endpoint::joined(pieces);
    &&& nonempty(pieces)
    &&& match result {
        Ok(true) => {
            &&& got == buffer
            &&& after == before + piece_reads(len, pieces)
        },
        Ok(false) => {
            &&& len > 0
            &&& pieces.len() == 0
            &&& buffer == left
            &&& after == before.push(rest_read(len, pieces, Ok(Seq::empty())))
        },
        Err(CopyError::Fault(fault)) => {
            &&& fault == Fault::FrameHeaderTruncated
            &&& 0 < got.len() < len
            &&& buffer == got + left
            &&& after == (before + piece_reads(len, pieces)).push(
                rest_read(len, pieces, Ok(Seq::empty())),
            )
        },
        Err(CopyError::Endpoint(error)) => {
            &&& got.len() < len
            &&& buffer == got + left
            &&& after == (before + piece_reads(len, pieces)).push(
                rest_read(len, pieces, Err(error)),
            )
        },
    }
}

/// Fills the buffer. Returns `false` where the source is at its end before the first byte,
/// and fails where it ends after some. The bytes that came in stay at the front of the
/// buffer in any case; a source that leaves its buffer alone when it is at its end leaves
/// this one alone too.
pub fn read_exact_or_eof<X, R: ByteSource<X>>(reader: &mut R, buffer: &mut [u8]) -> (result: Result<
    bool,
    CopyError<X>,
>)
    ensures
        final(buffer)@.len() == old(buffer)@.len(),
        exists|pieces: Seq<Seq<u8>>| #[trigger]
            filled(
                old(reader).history(),
                final(reader).history(),
                final(buffer)@,
                final(reader).last_buffer().left,
                pieces,
                result,
            ),
        result == Ok::<bool, CopyError<X>>(false) ==> {
            let last = final(reader).last_buffer();
            &&& last.given == old(buffer)@
            &&& last.left == last.given ==> final(buffer)@ == old(buffer)@
        },
        result == Ok::<bool, CopyError<X>>(true) ==> final(reader).unread() + old(buffer)@.len()
            <= old(reader).unread(),
{
    let len = buffer.len();
    let mut offset: usize = 0;
    let ghost mut pieces: Seq<Seq<u8>> = Seq::empty();
    assert(buffer@.take(0) =~= endpoint::joined(pieces));
    assert(reader.history() =~= old(reader).history() + piece_reads(len as nat, pieces));
    while offset < len
        invariant
            offset <= len,
            len == buffer@.len(),
            buffer@.len() == old(buffer)@.len(),
            nonempty(pieces),
            offset > 0 <==> pieces.len() > 0,
            offset == 0 ==> buffer@ == old(buffer)@,
            endpoint::joined(pieces) == buffer@.take(offset as int),
            reader.history() == old(reader).history() + piece_reads(len as nat, pieces),
            reader.unread() + offset <= old(reader).unread(),
        decreases len - offset,
    {
        let ghost start = buffer@;
        let ghost history = reader.history();
        let (front, rest) = buffer.split_at_mut(offset);
        let read = reader.read(rest);
        match read {
            Ok(count) => {
                let ghost piece = rest@.take(count as int);
                assert(buffer@.take(offset as int) =~= start.take(offset as int));
                if count == 0 {
                    assert(piece =~= Seq::empty());
                    if offset == 0 {
                        proof {
                            let result = Ok::<bool, CopyError<X>>(false);
                            assert(start.subrange(0, len as int) =~= start);
                            assert(history =~= old(reader).history());
                            assert(filled(
                                old(reader).history(),
                                reader.history(),
                                buffer@,
                                reader.last_buffer().left,
                                pieces,
                                result,
                            ));
                        }
                        return Ok(false);
                    }
                    proof {
                        let result = Err::<bool, CopyError<X>>(
                            CopyError::Fault(Fault::FrameHeaderTruncated),
                        );
                        assert(filled(
                            old(reader).history(),
                            reader.history(),
                            buffer@,
                            reader.last_buffer().left,
                            pieces,
                            result,
                        ));
                    }
                    return Err(CopyError::Fault(Fault::FrameHeaderTruncated));
                }
                proof {
                    let before = pieces;
                    pieces = pieces.push(piece);
                    endpoint::lemma_joined_push(before, piece);
                    assert(buffer@.take(offset + count) =~= buffer@.take(offset as int) + piece);
                    assert forall|i: int| 0 <= i <= before.len() implies pieces.take(i)
                        == before.take(i) by {
                        assert(pieces.take(i) =~= before.take(i));
                    }
                    assert(before.take(before.len() as int) =~= before);
                    assert(piece_reads::<X>(len as nat, pieces) =~= piece_reads::<X>(
                        len as nat,
                        before,
                    ).push(rest_read(len as nat, before, Ok(piece))));
                    assert(reader.history() =~= old(reader).history() + piece_reads(
                        len as nat,
                        pieces,
                    ));
                }
                offset = offset + count;
            },
            Err(error) => {
                proof {
                    assert(buffer@.take(offset as int) =~= start.take(offset as int));
                    let result = Err::<bool, CopyError<X>>(CopyError::Endpoint(error));
                    assert(filled(
                        old(reader).history(),
                        reader.history(),
                        buffer@,
                        reader.last_buffer().left,
                        pieces,
                        result,
                    ));
                }
                return Err(CopyError::Endpoint(error));
            },
        }
    }
    assert(buffer@.take(offset as int) =~= buffer@);
    assert(filled(
        old(reader).history(),
        reader.history(),
        buffer@,
        reader.last_buffer().left,
        pieces,
        Ok::<bool, CopyError<X>>(true),
    ));
    Ok(true)
}

/// A frame as it came in: the pieces of its header, and its payload.
pub struct FrameRound {
    pub pieces: Seq<Seq<u8>>,
    pub payload: Seq<u8>,
}

/// How a copy of frames ends, after its last complete frame.
pub enum FramesEnd<X> {
    /// The source is at its end.
    Drained,
    /// The source ends inside a header.
    HeaderTruncated { pieces: Seq<Seq<u8>> },
    /// The source fails in a header.
    HeaderReadFailed { pieces: Seq<Seq<u8>>, error: X },
    /// A header breaks a rule.
    HeaderRefused { pieces: Seq<Seq<u8>>, fault: Fault },
    /// The source does not deliver a payload.
    PayloadReadFailed { pieces: Seq<Seq<u8>>, error: X },
    /// The sink does not take a payload, or does not pass it on.
    DeliveryFailed { round: FrameRound, step: int, error: X },
}

/// These pieces make up a header.
pub open spec fn is_header(pieces: Seq<Seq<u8>>) -> bool {
    &&& nonempty(pieces)
    &&& endpoint::joined(pieces).len() == FRAME_HEADER_BYTES
}

/// These pieces make up a header that breaks no rule.
pub open spec fn is_valid_header(pieces: Seq<Seq<u8>>) -> bool {
    &&& is_header(pieces)
    &&& header_fault(endpoint::joined(pieces)) is None
}

/// A valid header, and a payload of the length that it states.
pub open spec fn is_frame(round: FrameRound) -> bool {
    &&& is_valid_header(round.pieces)
    &&& round.payload.len() == header_len(endpoint::joined(round.pieces))
}

/// These frames, ended so, are a run of a copy.
pub open spec fn is_frames_run<X>(rounds: Seq<FrameRound>, end: FramesEnd<X>) -> bool {
    &&& forall|k: int| 0 <= k < rounds.len() ==> is_frame(#[trigger] rounds[k])
    &&& match end {
        FramesEnd::Drained => true,
        FramesEnd::HeaderTruncated { pieces } => {
            &&& nonempty(pieces)
            &&& 0 < endpoint::joined(pieces).len() < FRAME_HEADER_BYTES
        },
        FramesEnd::HeaderReadFailed { pieces, .. } => {
            &&& nonempty(pieces)
            &&& endpoint::joined(pieces).len() < FRAME_HEADER_BYTES
        },
        FramesEnd::HeaderRefused { pieces, fault } => {
            &&& is_header(pieces)
            &&& header_fault(endpoint::joined(pieces)) == Some(fault)
        },
        FramesEnd::PayloadReadFailed { pieces, .. } => is_valid_header(pieces),
        FramesEnd::DeliveryFailed { round, step, .. } => is_frame(round) && 0 <= step < 2,
    }
}

/// The reads of a header.
pub open spec fn header_reads<X>(pieces: Seq<Seq<u8>>) -> Seq<SourceEvent<X>> {
    piece_reads(FRAME_HEADER_BYTES as nat, pieces)
}

/// The reads of a header, and one more that finds it incomplete.
pub open spec fn cut_header_reads<X>(
    pieces: Seq<Seq<u8>>,
    outcome: Result<Seq<u8>, X>,
) -> Seq<SourceEvent<X>> {
    header_reads(pieces).push(rest_read(FRAME_HEADER_BYTES as nat, pieces, outcome))
}

/// The reads of a header, and of the payload that it announces.
pub open spec fn payload_reads<X>(
    pieces: Seq<Seq<u8>>,
    outcome: Result<Seq<u8>, X>,
) -> Seq<SourceEvent<X>> {
    header_reads(pieces).push(
        SourceEvent::ReadExact { len: header_len(endpoint::joined(pieces)), outcome },
    )
}

/// The reads of complete frames.
pub open spec fn round_reads<X>(rounds: Seq<FrameRound>) -> Seq<SourceEvent<X>>
    decreases rounds.len(),
{
    if rounds.len() == 0 {
        Seq::empty()
    } else {
        round_reads(rounds.drop_last()) + payload_reads(
            rounds.last().pieces,
            Ok(rounds.last().payload),
        )
    }
}

/// The reads of a run after its last complete frame.
pub open spec fn end_reads<X>(end: FramesEnd<X>) -> Seq<SourceEvent<X>> {
    match end {
        FramesEnd::Drained => cut_header_reads(Seq::empty(), Ok(Seq::empty())),
        FramesEnd::HeaderTruncated { pieces } => cut_header_reads(pieces, Ok(Seq::empty())),
        FramesEnd::HeaderReadFailed { pieces, error } => cut_header_reads(pieces, Err(error)),
        FramesEnd::HeaderRefused { pieces, .. } => header_reads(pieces),
        FramesEnd::PayloadReadFailed { pieces, error } => payload_reads(pieces, Err(error)),
        FramesEnd::DeliveryFailed { round, .. } => payload_reads(round.pieces, Ok(round.payload)),
    }
}

/// The reads of a run.
pub open spec fn frames_reads<X>(rounds: Seq<FrameRound>, end: FramesEnd<X>) -> Seq<
    SourceEvent<X>,
> {
    round_reads(rounds) + end_reads(end)
}

/// What a frame carries.
pub open spec fn frame_delivery(round: FrameRound) -> Delivery {
    Delivery {
        stream: header_stream(endpoint::joined(round.pieces)),
        payload: round.payload,
    }
}

/// What these frames carry.
pub open spec fn frame_deliveries(rounds: Seq<FrameRound>) -> Seq<Delivery> {
    Seq::new(rounds.len(), |k: int| frame_delivery(rounds[k]))
}

/// The calls on the sink of one stream in a run.
pub open spec fn frames_routing<X>(
    rounds: Seq<FrameRound>,
    end: FramesEnd<X>,
    stream: LogStream,
) -> Seq<SinkEvent<X>> {
    pipe::routing(frame_deliveries(rounds), stream) + match end {
        FramesEnd::DeliveryFailed { round, step, error } => pipe::failed_routing_of(
            frame_delivery(round),
            stream,
            step,
            error,
        ),
        _ => Seq::empty(),
    }
}

/// What a copy returns at the end of a run.
pub open spec fn frames_result<X>(rounds: Seq<FrameRound>, end: FramesEnd<X>) -> Result<
    CopyStats,
    CopyError<X>,
> {
    match end {
        FramesEnd::Drained => Ok(pipe::stats_of(frame_deliveries(rounds))),
        FramesEnd::HeaderTruncated { .. } => Err(CopyError::Fault(Fault::FrameHeaderTruncated)),
        FramesEnd::HeaderReadFailed { error, .. } => Err(CopyError::Endpoint(error)),
        FramesEnd::HeaderRefused { fault, .. } => Err(CopyError::Fault(fault)),
        FramesEnd::PayloadReadFailed { error, .. } => Err(CopyError::Endpoint(error)),
        FramesEnd::DeliveryFailed { error, .. } => Err(CopyError::Endpoint(error)),
    }
}

/// Reads frames and routes their payloads to the two outputs, until the source ends.
///
/// A frame is routed only once its header is found valid and its payload is complete. The
/// payload is bytes, not text: it reaches the output as it is.
pub fn copy_frames<X, R: ByteSource<X>, O: ByteSink<X>, E: ByteSink<X>>(
    reader: &mut R,
    stdout: &mut O,
    stderr: &mut E,
) -> (result: Result<CopyStats, CopyError<X>>)
    ensures
        exists|rounds: Seq<FrameRound>, end: FramesEnd<X>|
            {
                &&& #[trigger] is_frames_run(rounds, end)
                &&& final(reader).history() == old(reader).history() + frames_reads(rounds, end)
                &&& final(stdout).history() == old(stdout).history() + frames_routing(
                    rounds,
                    end,
                    LogStream::Stdout,
                )
                &&& final(stderr).history() == old(stderr).history() + frames_routing(
                    rounds,
                    end,
                    LogStream::Stderr,
                )
                &&& result == frames_result(rounds, end)
            },
{
    let mut stats = CopyStats::default();
    let ghost mut rounds: Seq<FrameRound> = Seq::empty();
    let ghost deliveries = frame_deliveries(rounds);
    assert(deliveries.len() == 0);
    assert(reader.history() =~= old(reader).history() + round_reads(rounds));
    assert(stdout.history() =~= old(stdout).history() + pipe::routing(
        deliveries,
        LogStream::Stdout,
    ));
    assert(stderr.history() =~= old(stderr).history() + pipe::routing(
        deliveries,
        LogStream::Stderr,
    ));
    loop
        invariant
            forall|k: int| 0 <= k < rounds.len() ==> is_frame(#[trigger] rounds[k]),
            stats == pipe::stats_of(frame_deliveries(rounds)),
            reader.history() == old(reader).history() + round_reads(rounds),
            stdout.history() == old(stdout).history() + pipe::routing(
                frame_deliveries(rounds),
                LogStream::Stdout,
            ),
            stderr.history() == old(stderr).history() + pipe::routing(
                frame_deliveries(rounds),
                LogStream::Stderr,
            ),
        decreases reader.unread(),
    {
        let ghost start = reader.history();
        let ghost out = stdout.history();
        let ghost err = stderr.history();
        proof {
            let nothing = Seq::<SinkEvent<X>>::empty();
            let deliveries = frame_deliveries(rounds);
            let to_stdout = pipe::routing::<X>(deliveries, LogStream::Stdout);
            let to_stderr = pipe::routing::<X>(deliveries, LogStream::Stderr);
            assert(to_stdout + nothing =~= to_stdout);
            assert(to_stderr + nothing =~= to_stderr);
        }
        let mut header: Vec<u8> = vec![0u8; FRAME_HEADER_BYTES];
        let fill = read_exact_or_eof(reader, header.as_mut_slice());
        let ghost pieces = choose|pieces: Seq<Seq<u8>>| #[trigger]
            filled(
                start,
                reader.history(),
                header@,
                reader.last_buffer().left,
                pieces,
                fill,
            );
        match fill {
            Ok(true) => {},
            Ok(false) => {
                proof {
                    let end = FramesEnd::<X>::Drained;
                    assert(pieces =~= Seq::empty());
                    assert(is_frames_run(rounds, end));
                    assert(reader.history() =~= old(reader).history() + frames_reads(rounds, end));
                }
                return Ok(stats);
            },
            Err(error) => {
                proof {
                    let end = if error is Fault {
                        FramesEnd::HeaderTruncated { pieces }
                    } else {
                        FramesEnd::HeaderReadFailed { pieces, error: error->Endpoint_0 }
                    };
                    assert(is_frames_run(rounds, end));
                    assert(reader.history() =~= old(reader).history() + frames_reads(rounds, end));
                }
                return Err(error);
            },
        }
        let frame = match parse_frame_header(header.as_slice()) {
            Ok(frame) => frame,
            Err(fault) => {
                proof {
                    let end = FramesEnd::<X>::HeaderRefused { pieces, fault };
                    assert(is_frames_run(rounds, end));
                    assert(reader.history() =~= old(reader).history() + frames_reads(rounds, end));
                }
                return Err(CopyError::Fault(fault));
            },
        };
        let mut payload: Vec<u8> = vec![0u8; frame.len];
        if let Err(error) = reader.read_exact(payload.as_mut_slice()) {
            proof {
                let end = FramesEnd::PayloadReadFailed { pieces, error };
                assert(is_frames_run(rounds, end));
                assert(reader.history() =~= old(reader).history() + frames_reads(rounds, end));
            }
            return Err(CopyError::Endpoint(error));
        }
        let ghost round = FrameRound { pieces, payload: payload@ };
        assert(is_frame(round));
        assert(frame_delivery(round) == Delivery { stream: frame.stream, payload: payload@ });
        if let Err(error) = route(stdout, stderr, frame.stream, payload.as_slice()) {
            proof {
                let step = choose|step: int|
                    {
                        &&& 0 <= step < 2
                        &&& stdout.history() == out + #[trigger] pipe::failed_routing_of(
                            frame_delivery(round),
                            LogStream::Stdout,
                            step,
                            error,
                        )
                        &&& stderr.history() == err + pipe::failed_routing_of(
                            frame_delivery(round),
                            LogStream::Stderr,
                            step,
                            error,
                        )
                    };
                let end = FramesEnd::DeliveryFailed { round, step, error };
                assert(is_frames_run(rounds, end));
                assert(reader.history() =~= old(reader).history() + frames_reads(rounds, end));
                assert(stdout.history() =~= old(stdout).history() + frames_routing(
                    rounds,
                    end,
                    LogStream::Stdout,
                ));
                assert(stderr.history() =~= old(stderr).history() + frames_routing(
                    rounds,
                    end,
                    LogStream::Stderr,
                ));
            }
            return Err(CopyError::Endpoint(error));
        }
        stats.count(frame.len);
        proof {
            let before = rounds;
            rounds = rounds.push(round);
            assert(rounds.drop_last() =~= before);
            assert(frame_deliveries(rounds).drop_last() =~= frame_deliveries(before));
            assert(reader.history() =~= old(reader).history() + round_reads(rounds));
            assert(stdout.history() =~= old(stdout).history() + pipe::routing(
                frame_deliveries(rounds),
                LogStream::Stdout,
            ));
            assert(stderr.history() =~= old(stderr).history() + pipe::routing(
                frame_deliveries(rounds),
                LogStream::Stderr,
            ));
        }
    }
}

/// How the frame protocol ends, given how its two lanes ended. `None` stands for a
/// metadata thread that died. What happened to the metadata counts first.
pub fn legacy_outcome<X>(
    metadata: Option<Result<(), CopyError<X>>>,
    frames: Result<CopyStats, CopyError<X>>,
) -> (result: Result<bool, CopyError<X>>)
    ensures
        result == match metadata {
            None => Err(CopyError::Fault(Fault::MetadataThreadPanicked)),
            Some(Err(error)) => Err(error),
            Some(Ok(_)) => match frames {
                Ok(_) => Ok(true),
                Err(error) => Err(error),
            },
        },
{
    match metadata {
        None => Err(CopyError::Fault(Fault::MetadataThreadPanicked)),
        Some(Err(error)) => Err(error),
        Some(Ok(_)) => match frames {
            Ok(_) => Ok(true),
            Err(error) => Err(error),
        },
    }
}

/// The id of a stream in a header.
pub open spec fn stream_id(stream: LogStream) -> u8 {
    match stream {
        LogStream::Stdout => STREAM_STDOUT,
        LogStream::Stderr => STREAM_STDERR,
    }
}

/// The header of a frame with a payload of this length.
pub open spec fn encoded_header(stream: LogStream, len: nat) -> Seq<u8> {
    frame_magic() + seq![
        FRAME_VERSION,
        stream_id(stream),
        (len / 0x100_0000) as u8,
        (len / 0x1_0000 % 0x100) as u8,
        (len / 0x100 % 0x100) as u8,
        (len % 0x100) as u8,
    ]
}

/// The frame that carries a delivery.
pub open spec fn encoded_frame(delivery: Delivery) -> Seq<u8> {
    encoded_header(delivery.stream, delivery.payload.len()) + delivery.payload
}

/// The frames that carry these deliveries, one after the other.
pub open spec fn encoded_frames(deliveries: Seq<Delivery>) -> Seq<u8>
    decreases deliveries.len(),
{
    if deliveries.len() == 0 {
        Seq::empty()
    } else {
        encoded_frame(deliveries.first()) + encoded_frames(deliveries.drop_first())
    }
}

/// These deliveries fit into frames.
pub open spec fn fit_frames(deliveries: Seq<Delivery>) -> bool {
    forall|k: int| 0 <= k < deliveries.len() ==> (#[trigger] deliveries[k]).payload.len()
        <= MAX_FRAME_BYTES
}

/// The encoded header is the one that the receiver takes for that stream and length.
pub proof fn law_encoded_header_is_valid(stream: LogStream, len: nat)
    requires
        len <= MAX_FRAME_BYTES,
    ensures
        encoded_header(stream, len).len() == FRAME_HEADER_BYTES,
        header_fault(encoded_header(stream, len)) is None,
        header_stream(encoded_header(stream, len)) == stream,
        header_len(encoded_header(stream, len)) == len,
{
    assert(encoded_header(stream, len).take(4) =~= frame_magic());
}

/// A header that the receiver takes is the encoded one.
pub proof fn law_valid_header_is_encoded(header: Seq<u8>)
    requires
        header.len() == FRAME_HEADER_BYTES,
        header_fault(header) is None,
    ensures
        header == encoded_header(header_stream(header), header_len(header)),
{
    let front = header.take(4);
    assert(front == frame_magic());
    assert(header[0] == front[0] && header[1] == front[1] && header[2] == front[2] && header[3]
        == front[3]);
    assert(header =~= encoded_header(header_stream(header), header_len(header)));
}

/// One more frame comes last.
pub proof fn lemma_encoded_push(deliveries: Seq<Delivery>, delivery: Delivery)
    ensures
        encoded_frames(deliveries.push(delivery)) == encoded_frames(deliveries) + encoded_frame(
            delivery,
        ),
    decreases deliveries.len(),
{
    let more = deliveries.push(delivery);
    if deliveries.len() == 0 {
        assert(more.drop_first() =~= deliveries);
        assert(encoded_frames(more) =~= encoded_frames(deliveries) + encoded_frame(delivery));
    } else {
        lemma_encoded_push(deliveries.drop_first(), delivery);
        assert(more.drop_first() =~= deliveries.drop_first().push(delivery));
        assert(encoded_frames(more) =~= encoded_frames(deliveries) + encoded_frame(delivery));
    }
}

/// The reads of pieces hand out the pieces.
pub proof fn lemma_pieces_handed_out<X>(len: nat, pieces: Seq<Seq<u8>>)
    ensures
        endpoint::handed_out(piece_reads::<X>(len, pieces)) == endpoint::joined(pieces),
    decreases pieces.len(),
{
    if pieces.len() > 0 {
        let before = pieces.drop_last();
        lemma_pieces_handed_out::<X>(len, before);
        assert forall|i: int| 0 <= i <= before.len() implies pieces.take(i) == before.take(i) by {
            assert(pieces.take(i) =~= before.take(i));
        }
        assert(piece_reads::<X>(len, pieces).drop_last() =~= piece_reads::<X>(len, before));
    }
}

/// What the receiver reads of complete frames is the encoding of what it routes.
pub proof fn law_frames_read_are_frames_routed<X>(rounds: Seq<FrameRound>)
    requires
        forall|k: int| 0 <= k < rounds.len() ==> is_frame(#[trigger] rounds[k]),
    ensures
        endpoint::handed_out(round_reads::<X>(rounds)) == encoded_frames(frame_deliveries(rounds)),
        fit_frames(frame_deliveries(rounds)),
    decreases rounds.len(),
{
    if rounds.len() > 0 {
        let before = rounds.drop_last();
        let round = rounds.last();
        assert(is_frame(rounds[rounds.len() - 1]));
        assert forall|k: int| 0 <= k < before.len() implies is_frame(#[trigger] before[k]) by {
            assert(is_frame(rounds[k]));
        }
        law_frames_read_are_frames_routed::<X>(before);
        let reads = payload_reads::<X>(round.pieces, Ok(round.payload));
        endpoint::lemma_handed_out_append(round_reads::<X>(before), reads);
        lemma_pieces_handed_out::<X>(FRAME_HEADER_BYTES as nat, round.pieces);
        assert(reads.drop_last() =~= header_reads::<X>(round.pieces));
        law_valid_header_is_encoded(endpoint::joined(round.pieces));
        lemma_encoded_push(frame_deliveries(before), frame_delivery(round));
        assert(frame_deliveries(rounds) =~= frame_deliveries(before).push(frame_delivery(round)));
        assert forall|k: int| 0 <= k < rounds.len() implies (#[trigger] frame_deliveries(
            rounds,
        )[k]).payload.len() <= MAX_FRAME_BYTES by {
            assert(is_frame(rounds[k]));
        }
    }
}

/// Frames at the front of an encoding are its first frames, and what follows them encodes
/// the others.
proof fn lemma_front_frames(front: Seq<Delivery>, rest: Seq<u8>, deliveries: Seq<Delivery>)
    requires
        fit_frames(front),
        fit_frames(deliveries),
        encoded_frames(front) + rest == encoded_frames(deliveries),
    ensures
        front.len() <= deliveries.len(),
        front == deliveries.take(front.len() as int),
        rest == encoded_frames(deliveries.skip(front.len() as int)),
    decreases front.len(),
{
    let all = encoded_frames(deliveries);
    if front.len() == 0 {
        assert(deliveries.skip(0) =~= deliveries);
        assert(rest =~= encoded_frames(front) + rest);
    } else {
        let head = front.first();
        assert(front[0] == head);
        assert(head.payload.len() <= MAX_FRAME_BYTES);
        let head_header = encoded_header(head.stream, head.payload.len());
        law_encoded_header_is_valid(head.stream, head.payload.len());
        let after = encoded_frames(front.drop_first()) + rest;
        assert(encoded_frames(front) + rest =~= head_header + head.payload + after);
        assert(all.len() >= FRAME_HEADER_BYTES);
        assert(deliveries.len() > 0);
        let other = deliveries.first();
        assert(deliveries[0] == other);
        assert(other.payload.len() <= MAX_FRAME_BYTES);
        let other_header = encoded_header(other.stream, other.payload.len());
        law_encoded_header_is_valid(other.stream, other.payload.len());
        let other_after = encoded_frames(deliveries.drop_first());
        assert(all =~= other_header + other.payload + other_after);
        assert(all.take(FRAME_HEADER_BYTES as int) =~= head_header);
        assert(all.take(FRAME_HEADER_BYTES as int) =~= other_header);
        assert(head.payload.len() == other.payload.len());
        let end = FRAME_HEADER_BYTES + head.payload.len();
        assert(all.subrange(FRAME_HEADER_BYTES as int, end as int) =~= head.payload);
        assert(all.subrange(FRAME_HEADER_BYTES as int, end as int) =~= other.payload);
        assert(all.skip(end as int) =~= after);
        assert(all.skip(end as int) =~= other_after);
        assert forall|k: int| 0 <= k < front.drop_first().len() implies (
        #[trigger] front.drop_first()[k]).payload.len() <= MAX_FRAME_BYTES by {
            assert(front.drop_first()[k] == front[k + 1]);
        }
        assert forall|k: int| 0 <= k < deliveries.drop_first().len() implies (
        #[trigger] deliveries.drop_first()[k]).payload.len() <= MAX_FRAME_BYTES by {
            assert(deliveries.drop_first()[k] == deliveries[k + 1]);
        }
        lemma_front_frames(front.drop_first(), rest, deliveries.drop_first());
        let count = front.len() as int;
        assert forall|k: int| 0 <= k < count implies front[k] == deliveries[k] by {
            if k > 0 {
                assert(front[k] == front.drop_first()[k - 1]);
                assert(deliveries.drop_first().take(count - 1)[k - 1] == deliveries[k]);
            }
        }
        assert(front =~= deliveries.take(count));
        assert(deliveries.drop_first().skip(count - 1) =~= deliveries.skip(count));
    }
}

/// A header behind complete frames of an encoding breaks no rule, and the payload that it
/// announces follows it there.
pub proof fn lemma_next_header(front: Seq<Delivery>, header: Seq<u8>, deliveries: Seq<Delivery>)
    requires
        fit_frames(front),
        fit_frames(deliveries),
        header.len() == FRAME_HEADER_BYTES,
        (encoded_frames(front) + header).is_prefix_of(encoded_frames(deliveries)),
    ensures
        header_fault(header) is None,
        encoded_frames(front).len() + header.len() + header_len(header) <= encoded_frames(
            deliveries,
        ).len(),
{
    let all = encoded_frames(deliveries);
    let start = encoded_frames(front).len() as int;
    let rest = all.skip(start);
    let both = encoded_frames(front) + header;
    assert(both == all.take(both.len() as int));
    assert(encoded_frames(front) =~= both.take(start));
    assert(encoded_frames(front) + rest =~= all);
    assert(header =~= both.skip(start));
    assert(rest.take(FRAME_HEADER_BYTES as int) =~= header);
    lemma_front_frames(front, rest, deliveries);
    let left = deliveries.skip(front.len() as int);
    assert(left.len() > 0);
    let first = left.first();
    assert(first == deliveries[front.len() as int]);
    law_encoded_header_is_valid(first.stream, first.payload.len());
    let encoded = encoded_header(first.stream, first.payload.len());
    assert(encoded_frames(left).take(FRAME_HEADER_BYTES as int) =~= encoded);
}

/// No two lists of deliveries have the same encoding.
pub proof fn law_encoding_is_unambiguous(deliveries: Seq<Delivery>, others: Seq<Delivery>)
    requires
        fit_frames(deliveries),
        fit_frames(others),
        encoded_frames(deliveries) == encoded_frames(others),
    ensures
        deliveries == others,
{
    let nothing = Seq::<u8>::empty();
    assert(encoded_frames(deliveries) + nothing =~= encoded_frames(others));
    lemma_front_frames(deliveries, nothing, others);
    let left = others.skip(deliveries.len() as int);
    if left.len() > 0 {
        assert(encoded_frames(left).len() >= FRAME_HEADER_BYTES);
    }
    assert(deliveries =~= others);
}

/// A receiver that is handed an encoding, in whatever pieces, and then the end of its
/// source routes exactly the encoded deliveries, and finds no fault.
pub proof fn law_encoded_frames_are_routed<X>(
    rounds: Seq<FrameRound>,
    end: FramesEnd<X>,
    deliveries: Seq<Delivery>,
)
    requires
        is_frames_run(rounds, end),
        end is Drained || end is HeaderTruncated || end is HeaderRefused,
        fit_frames(deliveries),
        endpoint::handed_out(frames_reads(rounds, end)) == encoded_frames(deliveries),
    ensures
        end is Drained,
        frame_deliveries(rounds) == deliveries,
        frames_result(rounds, end) == Ok::<CopyStats, CopyError<X>>(pipe::stats_of(deliveries)),
        forall|stream: LogStream|
            endpoint::accepted(#[trigger] frames_routing(rounds, end, stream)) == pipe::routed(
                deliveries,
                stream,
            ),
{
    let routed = frame_deliveries(rounds);
    let tail = end_reads(end);
    let rest = endpoint::handed_out(tail);
    endpoint::lemma_handed_out_append(round_reads(rounds), tail);
    law_frames_read_are_frames_routed::<X>(rounds);
    lemma_front_frames(routed, rest, deliveries);
    let left = deliveries.skip(routed.len() as int);
    assert(forall|k: int| 0 <= k < left.len() ==> left[k] == deliveries[k + routed.len()]);
    let pieces = match end {
        FramesEnd::HeaderTruncated { pieces } => pieces,
        FramesEnd::HeaderRefused { pieces, .. } => pieces,
        _ => Seq::empty(),
    };
    lemma_pieces_handed_out::<X>(FRAME_HEADER_BYTES as nat, pieces);
    if end is Drained || end is HeaderTruncated {
        assert(tail.drop_last() =~= header_reads::<X>(pieces));
        assert(rest =~= endpoint::joined(pieces));
    }
    if left.len() > 0 {
        let first = left.first();
        assert(left[0] == deliveries[routed.len() as int]);
        law_encoded_header_is_valid(first.stream, first.payload.len());
        let header = encoded_header(first.stream, first.payload.len());
        assert(encoded_frames(left).take(FRAME_HEADER_BYTES as int) =~= header);
        assert(rest.len() >= FRAME_HEADER_BYTES);
        assert(end is HeaderRefused);
        assert(rest.take(FRAME_HEADER_BYTES as int) =~= rest);
        assert(false);
    }
    assert(routed =~= deliveries);
    assert forall|stream: LogStream|
        endpoint::accepted(#[trigger] frames_routing(rounds, end, stream)) == pipe::routed(
            deliveries,
            stream,
        ) by {
        pipe::law_routing_hands_over_payloads::<X>(routed, stream);
        assert(frames_routing(rounds, end, stream) =~= pipe::routing(routed, stream));
    }
}

/// A frame that is refused or cut short is answered by a fault that says which, and no
/// output is touched on its account.
pub proof fn law_bad_frames_are_faults<X>(rounds: Seq<FrameRound>, end: FramesEnd<X>)
    requires
        is_frames_run(rounds, end),
        end is HeaderTruncated || end is HeaderRefused,
    ensures
        frames_result(rounds, end) matches Err(CopyError::Fault(fault)) && fault.spec_kind() == (
        if end is HeaderTruncated {
            FaultKind::UnexpectedEof
        } else {
            FaultKind::InvalidData
        }),
        forall|stream: LogStream| #[trigger]
            frames_routing(rounds, end, stream) == pipe::routing::<X>(
                frame_deliveries(rounds),
                stream,
            ),
{
    assert forall|stream: LogStream| #[trigger]
        frames_routing(rounds, end, stream) == pipe::routing::<X>(
            frame_deliveries(rounds),
            stream,
        ) by {
        assert(frames_routing(rounds, end, stream) =~= pipe::routing::<X>(
            frame_deliveries(rounds),
            stream,
        ));
    }
}

} // verus!
