//! Laws of the frame protocol.

use vstd::prelude::*;

use crate::endpoint;
use crate::endpoint::{ByteSink, ByteSource, SinkCall, SinkEvent, SourceEvent};
use crate::fault::{CopyError, Fault, FaultKind};
use crate::laws;
use crate::laws::endpoints;
use crate::log_tee::LogStream;
use crate::memory;
use crate::pipe;
use crate::pipe::frames;
use crate::pipe::frames::{
    copy_frames, parse_frame_header, read_exact_or_eof, FrameHeader, FrameRound, FramesEnd,
};
use crate::pipe::{CopyStats, Delivery};

verus! {

/// A header is taken exactly where it holds the magic number, version one, the id of a stream
/// and a length within the bound, which is the number that its last four bytes spell with the
/// most significant first. Otherwise the first rule that it breaks, in this order, is named.
pub proof fn law_header_fields(header: &[u8], result: Result<FrameHeader, Fault>)
    requires
        header@.len() == 10,
        call_ensures(parse_frame_header, (header,), result),
    ensures
        ({
            let h = header@;
            let len = ((h[6] * 256 + h[7]) * 256 + h[8]) * 256 + h[9];
            if !(h[0] == 0x47 && h[1] == 0x48 && h[2] == 0x4c && h[3] == 0x47) {
                result == Err::<FrameHeader, Fault>(Fault::FrameMagic)
            } else if h[4] != 1 {
                result == Err::<FrameHeader, Fault>(Fault::FrameVersion)
            } else if h[5] != 1 && h[5] != 2 {
                result == Err::<FrameHeader, Fault>(Fault::FrameStream)
            } else if len > 65536 {
                result == Err::<FrameHeader, Fault>(Fault::FrameTooLong)
            } else {
                &&& result is Ok
                &&& result->Ok_0.len == len
                &&& result->Ok_0.stream == LogStream::Stdout <==> h[5] == 1
                &&& result->Ok_0.stream == LogStream::Stderr <==> h[5] == 2
            }
        }),
{
    lemma_header_rules(header@);
}

/// The rules of a header, byte by byte.
proof fn lemma_header_rules(h: Seq<u8>)
    requires
        h.len() == 10,
    ensures
        ({
            let len = ((h[6] * 256 + h[7]) * 256 + h[8]) * 256 + h[9];
            let magic = h[0] == 0x47 && h[1] == 0x48 && h[2] == 0x4c && h[3] == 0x47;
            &&& frames::header_len(h) == len
            &&& frames::header_fault(h) == (if !magic {
                Some(Fault::FrameMagic)
            } else if h[4] != 1 {
                Some(Fault::FrameVersion)
            } else if h[5] != 1 && h[5] != 2 {
                Some(Fault::FrameStream)
            } else if len > 65536 {
                Some(Fault::FrameTooLong)
            } else {
                None
            })
            &&& frames::header_stream(h) == (if h[5] == 1 {
                LogStream::Stdout
            } else {
                LogStream::Stderr
            })
        }),
{
    let front = h.take(4);
    let magic = frames::frame_magic();
    assert(front[0] == h[0] && front[1] == h[1] && front[2] == h[2] && front[3] == h[3]);
    if h[0] == 0x47 && h[1] == 0x48 && h[2] == 0x4c && h[3] == 0x47 {
        assert(front =~= magic);
    } else {
        assert(front[0] != magic[0] || front[1] != magic[1] || front[2] != magic[2] || front[3]
            != magic[3]);
    }
}

/// A number by its four bytes, the most significant first.
proof fn lemma_four_bytes(len: nat, a: u8, b: u8, c: u8, d: u8)
    requires
        len == ((a * 256 + b) * 256 + c) * 256 + d,
    ensures
        len / 0x100_0000 == a,
        len / 0x1_0000 % 0x100 == b,
        len / 0x100 % 0x100 == c,
        len % 0x100 == d,
{
}

/// Frames are encoded one behind the other, each as the magic number, version one, the id of
/// its stream, the four bytes of its length with the most significant first, and its payload.
pub proof fn law_encoding_of_frames(
    deliveries: Seq<Delivery>,
    delivery: Delivery,
    a: u8,
    b: u8,
    c: u8,
    d: u8,
)
    requires
        delivery.payload.len() == ((a * 256 + b) * 256 + c) * 256 + d,
    ensures
        frames::encoded_frames(Seq::empty()) == Seq::<u8>::empty(),
        frames::encoded_frames(deliveries.push(delivery)) == frames::encoded_frames(deliveries)
            + seq![
            0x47u8,
            0x48u8,
            0x4cu8,
            0x47u8,
            1u8,
            if delivery.stream == LogStream::Stdout {
                1u8
            } else {
                2u8
            },
            a,
            b,
            c,
            d,
        ] + delivery.payload,
{
    let len = delivery.payload.len();
    frames::lemma_encoded_push(deliveries, delivery);
    lemma_four_bytes(len, a, b, c, d);
    let header = seq![
        0x47u8,
        0x48u8,
        0x4cu8,
        0x47u8,
        1u8,
        if delivery.stream == LogStream::Stdout {
            1u8
        } else {
            2u8
        },
        a,
        b,
        c,
        d,
    ];
    assert(frames::encoded_header(delivery.stream, len) =~= header);
    assert(frames::encoded_frames(deliveries.push(delivery)) =~= frames::encoded_frames(deliveries)
        + header + delivery.payload);
}

/// Filling a buffer: each read asks for what is still missing, and there is no read once the
/// buffer is full or a read got nothing or failed. What came in stands at the front of the
/// buffer, and behind it what the last read left there. The answer is `true` exactly where the buffer is full, `false` exactly where the
/// first read got nothing, a fault where a later one did, and otherwise the reader's error.
pub proof fn law_buffer_is_filled_or_source_ends<X, R: ByteSource<X>>(
    reader: &mut R,
    buffer: &mut [u8],
    result: Result<bool, CopyError<X>>,
)
    requires
        call_ensures(read_exact_or_eof::<X, R>, (reader, buffer), result),
    ensures
        ({
            let reads = laws::added(old(reader).history(), final(reader).history());
            let got = endpoint::handed_out(reads);
            let len = old(buffer)@.len();
            let n = reads.len() as int;
            &&& final(buffer)@.len() == len
            &&& got.is_prefix_of(final(buffer)@)
            &&& forall|i: int|
                #![trigger reads[i]]
                0 <= i < n ==> {
                    &&& reads[i] is Read
                    &&& reads[i]->limit == len - endpoint::handed_out(reads.take(i)).len()
                    &&& reads[i]->limit > 0
                    &&& i < n - 1 ==> reads[i]->Read_outcome is Ok
                        && reads[i]->Read_outcome->Ok_0.len() > 0
                }
            &&& match result {
                Ok(full) => if full {
                    &&& got == final(buffer)@
                    &&& n > 0 ==> reads[n - 1]->Read_outcome is Ok
                        && reads[n - 1]->Read_outcome->Ok_0.len() > 0
                } else {
                    &&& n == 1
                    &&& reads[0]->Read_outcome == Ok::<Seq<u8>, X>(Seq::empty())
                    &&& final(reader).last_buffer().given == old(buffer)@
                    &&& final(buffer)@ == final(reader).last_buffer().left
                },
                Err(CopyError::Fault(fault)) => {
                    &&& fault == Fault::FrameHeaderTruncated
                    &&& n > 1
                    &&& reads[n - 1]->Read_outcome == Ok::<Seq<u8>, X>(Seq::empty())
                    &&& final(buffer)@ == got + final(reader).last_buffer().left
                },
                Err(CopyError::Endpoint(error)) => {
                    &&& n > 0
                    &&& reads[n - 1]->Read_outcome == Err::<Seq<u8>, X>(error)
                    &&& final(buffer)@ == got + final(reader).last_buffer().left
                },
            }
        }),
        old(reader).history().is_prefix_of(final(reader).history()),
{
    let pieces = choose|pieces: Seq<Seq<u8>>| #[trigger]
        frames::filled(
            old(reader).history(),
            final(reader).history(),
            final(buffer)@,
            final(reader).last_buffer().left,
            pieces,
            result,
        );
    let before = old(reader).history();
    let len = final(buffer)@.len();
    let front = frames::piece_reads::<X>(len, pieces);
    let reads = match result {
        Ok(true) => front,
        Ok(false) => front.push(frames::rest_read(len, pieces, Ok(Seq::empty()))),
        Err(CopyError::Fault(_)) => front.push(frames::rest_read(len, pieces, Ok(Seq::empty()))),
        Err(CopyError::Endpoint(error)) => front.push(frames::rest_read(len, pieces, Err(error))),
    };
    assert(final(reader).history() =~= before + reads);
    laws::lemma_added(before, reads);
    let got = endpoint::joined(pieces);
    frames::lemma_pieces_handed_out::<X>(len, pieces);
    if !(result matches Ok(true)) {
        assert(reads.drop_last() =~= front);
    }
    assert(endpoint::handed_out(reads) =~= got);
    assert(got.len() <= len);
    if result matches Ok(true) {
        assert(got == final(buffer)@);
    } else if result matches Ok(false) {
        assert(pieces =~= Seq::empty());
    } else {
        assert(final(buffer)@.take(got.len() as int) =~= got);
        if pieces.len() == 0 {
            assert(got.len() == 0);
        }
    }
    assert forall|i: int|
        #![trigger reads[i]]
        0 <= i < reads.len() implies {
        &&& reads[i] is Read
        &&& reads[i]->limit == len - endpoint::handed_out(reads.take(i)).len()
        &&& reads[i]->limit > 0
        &&& i < reads.len() - 1 ==> reads[i]->Read_outcome is Ok
            && reads[i]->Read_outcome->Ok_0.len() > 0
    } by {
        let earlier = pieces.take(i);
        frames::lemma_pieces_handed_out::<X>(len, earlier);
        lemma_piece_reads_take::<X>(len, pieces, i);
        assert(reads.take(i) =~= front.take(i));
        if i < pieces.len() {
            assert(pieces[i].len() > 0);
            lemma_joined_take(pieces, i);
        } else {
            assert(earlier =~= pieces);
        }
    }
    if (result matches Ok(true)) && reads.len() > 0 {
        assert(pieces[reads.len() - 1].len() > 0);
        assert(reads[reads.len() - 1]->Read_outcome == Ok::<Seq<u8>, X>(
            pieces[reads.len() - 1],
        ));
    }
}

/// The reads of the first pieces come first.
proof fn lemma_piece_reads_take<X>(len: nat, pieces: Seq<Seq<u8>>, count: int)
    requires
        0 <= count <= pieces.len(),
    ensures
        frames::piece_reads::<X>(len, pieces).take(count) == frames::piece_reads::<X>(
            len,
            pieces.take(count),
        ),
{
    assert forall|i: int| 0 <= i < count implies pieces.take(i) == #[trigger] pieces.take(
        count,
    ).take(i) by {
        assert(pieces.take(i) =~= pieces.take(count).take(i));
    }
    assert(frames::piece_reads::<X>(len, pieces).take(count) =~= frames::piece_reads::<X>(
        len,
        pieces.take(count),
    ));
}

/// A piece that is not empty leaves less in front of it than there is in all.
proof fn lemma_joined_take(pieces: Seq<Seq<u8>>, i: int)
    requires
        0 <= i < pieces.len(),
    ensures
        endpoint::joined(pieces.take(i)).len() + pieces[i].len() <= endpoint::joined(pieces).len(),
{
    assert(pieces.take(i + 1).drop_last() =~= pieces.take(i));
    assert(pieces =~= pieces.take(i + 1) + pieces.skip(i + 1));
    endpoint::lemma_joined_append(pieces.take(i + 1), pieces.skip(i + 1));
}

/// The reads of complete frames all succeed.
proof fn lemma_round_reads_succeed<X>(rounds: Seq<FrameRound>)
    ensures
        forall|i: int|
            0 <= i < frames::round_reads::<X>(rounds).len() ==> laws::succeeded(
                #[trigger] frames::round_reads::<X>(rounds)[i],
            ),
    decreases rounds.len(),
{
    if rounds.len() > 0 {
        let all = frames::round_reads::<X>(rounds);
        let front = frames::round_reads::<X>(rounds.drop_last());
        let last = frames::payload_reads::<X>(rounds.last().pieces, Ok(rounds.last().payload));
        lemma_round_reads_succeed::<X>(rounds.drop_last());
        assert forall|i: int| 0 <= i < all.len() implies laws::succeeded(#[trigger] all[i]) by {
            if i < front.len() {
                assert(all[i] == front[i]);
            } else {
                assert(all[i] == last[i - front.len()]);
            }
        }
    }
}

/// What is read behind the last complete frame, and how.
proof fn lemma_end_reads<X>(end: FramesEnd<X>)
    requires
        frames::is_frames_run(Seq::empty(), end),
    ensures
        frames::end_reads(end).len() > 0,
        forall|i: int|
            0 <= i < frames::end_reads(end).len() - 1 ==> laws::succeeded(
                #[trigger] frames::end_reads(end)[i],
            ),
        endpoint::handed_out(frames::end_reads(end)) == match end {
            FramesEnd::Drained => Seq::empty(),
            FramesEnd::HeaderTruncated { pieces } => endpoint::joined(pieces),
            FramesEnd::HeaderReadFailed { pieces, .. } => endpoint::joined(pieces),
            FramesEnd::HeaderRefused { pieces, .. } => endpoint::joined(pieces),
            FramesEnd::PayloadReadFailed { pieces, .. } => endpoint::joined(pieces),
            FramesEnd::DeliveryFailed { round, .. } => endpoint::joined(round.pieces)
                + round.payload,
        },
        frames::end_reads(end).last() == match end {
            FramesEnd::Drained => SourceEvent::Read { limit: 10, outcome: Ok(Seq::empty()) },
            FramesEnd::HeaderTruncated { pieces } => SourceEvent::Read {
                limit: (10 - endpoint::joined(pieces).len()) as nat,
                outcome: Ok(Seq::empty()),
            },
            FramesEnd::HeaderReadFailed { pieces, error } => SourceEvent::Read {
                limit: (10 - endpoint::joined(pieces).len()) as nat,
                outcome: Err(error),
            },
            FramesEnd::HeaderRefused { pieces, .. } => SourceEvent::Read {
                limit: pieces.last().len(),
                outcome: Ok(pieces.last()),
            },
            FramesEnd::PayloadReadFailed { pieces, error } => SourceEvent::ReadExact {
                len: frames::header_len(endpoint::joined(pieces)),
                outcome: Err(error),
            },
            FramesEnd::DeliveryFailed { round, .. } => SourceEvent::ReadExact {
                len: round.payload.len(),
                outcome: Ok(round.payload),
            },
        },
{
    let reads = frames::end_reads(end);
    let pieces = match end {
        FramesEnd::Drained => Seq::empty(),
        FramesEnd::HeaderTruncated { pieces } => pieces,
        FramesEnd::HeaderReadFailed { pieces, .. } => pieces,
        FramesEnd::HeaderRefused { pieces, .. } => pieces,
        FramesEnd::PayloadReadFailed { pieces, .. } => pieces,
        FramesEnd::DeliveryFailed { round, .. } => round.pieces,
    };
    let header = frames::header_reads::<X>(pieces);
    frames::lemma_pieces_handed_out::<X>(10, pieces);
    if end is HeaderRefused {
        let last = pieces.len() - 1;
        assert(pieces.len() > 0);
        assert(pieces.take(last) =~= pieces.drop_last());
    } else {
        assert(reads.drop_last() =~= header);
    }
}

/// A copy of frames routes the frames that come in, in order and each with its payload as it
/// is, and nothing else: what the source hands out is the encoding of what was routed, and
/// what is left behind it says how the copy ends. It succeeds exactly where nothing is left
/// and a read for the next header got nothing. It names the rule that a header breaks, or
/// that a header was cut; it fails with the reader's error where a header or a payload cannot
/// be read, however many frames came before, and with the sink's error where a payload cannot
/// be delivered.
pub proof fn law_frames_are_copied_to_the_end<X, R: ByteSource<X>, O: ByteSink<X>, E: ByteSink<X>>(
    reader: &mut R,
    stdout: &mut O,
    stderr: &mut E,
    result: Result<CopyStats, CopyError<X>>,
)
    requires
        call_ensures(copy_frames::<X, R, O, E>, (reader, stdout, stderr), result),
    ensures
        old(reader).history().is_prefix_of(final(reader).history()),
        old(stdout).history().is_prefix_of(final(stdout).history()),
        old(stderr).history().is_prefix_of(final(stderr).history()),
        exists|deliveries: Seq<Delivery>, rest: Seq<u8>|
            {
                let reads = laws::added(old(reader).history(), final(reader).history());
                let out = laws::added(old(stdout).history(), final(stdout).history());
                let err = laws::added(old(stderr).history(), final(stderr).history());
                let for_out = deliveries.filter(|d: Delivery| d.stream == LogStream::Stdout);
                let for_err = deliveries.filter(|d: Delivery| d.stream == LogStream::Stderr);
                let all_out = out.len() == 2 * for_out.len();
                let all_err = err.len() == 2 * for_err.len();
                &&& endpoint::handed_out(reads) == #[trigger] (frames::encoded_frames(deliveries)
                    + rest)
                &&& forall|k: int|
                    0 <= k < deliveries.len() ==> (#[trigger] deliveries[k]).payload.len() <= 65536
                &&& reads.len() > 0
                &&& forall|i: int|
                    0 <= i < reads.len() - 1 ==> laws::succeeded(#[trigger] reads[i])
                &&& laws::delivers(out, for_out)
                &&& laws::delivers(err, for_err)
                &&& match result {
                    Ok(stats) => {
                        let bytes = endpoint::accepted(out).len() + endpoint::accepted(err).len();
                        &&& rest.len() == 0
                        &&& reads.last() == (SourceEvent::<X>::Read {
                            limit: 10,
                            outcome: Ok(Seq::empty()),
                        })
                        &&& all_out && all_err
                        &&& stats.frames == (if deliveries.len() <= u64::MAX {
                            deliveries.len() as int
                        } else {
                            u64::MAX as int
                        })
                        &&& stats.bytes == (if bytes <= u64::MAX {
                            bytes as int
                        } else {
                            u64::MAX as int
                        })
                    },
                    Err(CopyError::Fault(Fault::FrameHeaderTruncated)) => {
                        &&& 0 < rest.len() < 10
                        &&& reads.last() == (SourceEvent::<X>::Read {
                            limit: (10 - rest.len()) as nat,
                            outcome: Ok(Seq::empty()),
                        })
                        &&& all_out && all_err
                    },
                    Err(CopyError::Fault(fault)) => {
                        &&& rest.len() == 10
                        &&& frames::header_fault(rest) == Some(fault)
                        &&& laws::succeeded(reads.last())
                        &&& all_out && all_err
                    },
                    Err(CopyError::Endpoint(error)) => {
                        ||| {
                            &&& rest.len() < 10
                            &&& reads.last() == (SourceEvent::Read {
                                limit: (10 - rest.len()) as nat,
                                outcome: Err(error),
                            })
                            &&& all_out && all_err
                        }
                        ||| {
                            &&& rest.len() == 10
                            &&& frames::header_fault(rest) is None
                            &&& reads.last() == (SourceEvent::ReadExact {
                                len: frames::header_len(rest),
                                outcome: Err(error),
                            })
                            &&& all_out && all_err
                        }
                        ||| exists|failed: Delivery|
                            {
                                &&& rest == #[trigger] frames::encoded_frames(seq![failed])
                                &&& failed.payload.len() <= 65536
                                &&& reads.last() == (SourceEvent::<X>::ReadExact {
                                    len: failed.payload.len(),
                                    outcome: Ok(failed.payload),
                                })
                                &&& match failed.stream {
                                    LogStream::Stdout => all_err && laws::delivery_fails(
                                        out,
                                        for_out,
                                        failed,
                                        error,
                                    ),
                                    LogStream::Stderr => all_out && laws::delivery_fails(
                                        err,
                                        for_err,
                                        failed,
                                        error,
                                    ),
                                }
                            }
                    },
                }
            },
{
    let (rounds, end) = choose|rounds: Seq<FrameRound>, end: FramesEnd<X>|
        {
            &&& #[trigger] frames::is_frames_run(rounds, end)
            &&& final(reader).history() == old(reader).history() + frames::frames_reads(
                rounds,
                end,
            )
            &&& final(stdout).history() == old(stdout).history() + frames::frames_routing(
                rounds,
                end,
                LogStream::Stdout,
            )
            &&& final(stderr).history() == old(stderr).history() + frames::frames_routing(
                rounds,
                end,
                LogStream::Stderr,
            )
            &&& result == frames::frames_result(rounds, end)
        };
    let reads = frames::frames_reads(rounds, end);
    let out = frames::frames_routing(rounds, end, LogStream::Stdout);
    let err = frames::frames_routing(rounds, end, LogStream::Stderr);
    laws::lemma_added(old(reader).history(), reads);
    laws::lemma_added(old(stdout).history(), out);
    laws::lemma_added(old(stderr).history(), err);
    let deliveries = frames::frame_deliveries(rounds);
    let tail = frames::end_reads(end);
    let rest = endpoint::handed_out(tail);
    let for_out = deliveries.filter(|d: Delivery| d.stream == LogStream::Stdout);
    let for_err = deliveries.filter(|d: Delivery| d.stream == LogStream::Stderr);
    lemma_run_reads(rounds, end);
    lemma_run_routing(rounds, end, LogStream::Stdout);
    lemma_run_routing(rounds, end, LogStream::Stderr);
    assert(endpoint::handed_out(reads) == frames::encoded_frames(deliveries) + rest);
    match end {
        FramesEnd::Drained => {
            lemma_bytes_routed::<X>(deliveries);
            assert(out =~= pipe::routing::<X>(deliveries, LogStream::Stdout));
            assert(err =~= pipe::routing::<X>(deliveries, LogStream::Stderr));
        },
        FramesEnd::DeliveryFailed { round, .. } => {
            let failed = frames::frame_delivery(round);
            let header = endpoint::joined(round.pieces);
            frames::law_valid_header_is_encoded(header);
            lemma_one_frame(failed);
            assert(rest == frames::encoded_frames(seq![failed]));
        },
        _ => {},
    }
}

/// The frame of one delivery.
proof fn lemma_one_frame(delivery: Delivery)
    ensures
        frames::encoded_frames(seq![delivery]) == frames::encoded_frame(delivery),
{
    reveal_with_fuel(frames::encoded_frames, 2);
    assert(seq![delivery].drop_first() =~= Seq::empty());
    assert(frames::encoded_frames(seq![delivery]) =~= frames::encoded_frame(delivery));
}

/// What a run reads.
proof fn lemma_run_reads<X>(rounds: Seq<FrameRound>, end: FramesEnd<X>)
    requires
        frames::is_frames_run(rounds, end),
    ensures
        ({
            let reads = frames::frames_reads(rounds, end);
            let tail = frames::end_reads(end);
            let deliveries = frames::frame_deliveries(rounds);
            &&& tail.len() > 0
            &&& reads.len() > 0
            &&& reads.last() == tail.last()
            &&& forall|i: int|
                0 <= i < reads.len() - 1 ==> laws::succeeded(#[trigger] reads[i])
            &&& endpoint::handed_out(reads) == frames::encoded_frames(deliveries)
                + endpoint::handed_out(tail)
            &&& forall|k: int|
                0 <= k < deliveries.len() ==> (#[trigger] deliveries[k]).payload.len() <= 65536
            &&& endpoint::handed_out(tail) == match end {
                FramesEnd::Drained => Seq::empty(),
                FramesEnd::HeaderTruncated { pieces } => endpoint::joined(pieces),
                FramesEnd::HeaderReadFailed { pieces, .. } => endpoint::joined(pieces),
                FramesEnd::HeaderRefused { pieces, .. } => endpoint::joined(pieces),
                FramesEnd::PayloadReadFailed { pieces, .. } => endpoint::joined(pieces),
                FramesEnd::DeliveryFailed { round, .. } => endpoint::joined(round.pieces)
                    + round.payload,
            }
            &&& tail.last() == match end {
                FramesEnd::Drained => SourceEvent::Read { limit: 10, outcome: Ok(Seq::empty()) },
                FramesEnd::HeaderTruncated { pieces } => SourceEvent::Read {
                    limit: (10 - endpoint::joined(pieces).len()) as nat,
                    outcome: Ok(Seq::empty()),
                },
                FramesEnd::HeaderReadFailed { pieces, error } => SourceEvent::Read {
                    limit: (10 - endpoint::joined(pieces).len()) as nat,
                    outcome: Err(error),
                },
                FramesEnd::HeaderRefused { pieces, .. } => tail.last(),
                FramesEnd::PayloadReadFailed { pieces, error } => SourceEvent::ReadExact {
                    len: frames::header_len(endpoint::joined(pieces)),
                    outcome: Err(error),
                },
                FramesEnd::DeliveryFailed { round, .. } => SourceEvent::ReadExact {
                    len: round.payload.len(),
                    outcome: Ok(round.payload),
                },
            }
            &&& end is HeaderRefused ==> laws::succeeded(tail.last())
        }),
{
    let front = frames::round_reads::<X>(rounds);
    let tail = frames::end_reads(end);
    let reads = frames::frames_reads(rounds, end);
    lemma_end_reads(end);
    lemma_round_reads_succeed::<X>(rounds);
    endpoint::lemma_handed_out_append(front, tail);
    frames::law_frames_read_are_frames_routed::<X>(rounds);
    assert forall|i: int| 0 <= i < reads.len() - 1 implies laws::succeeded(
        #[trigger] reads[i],
    ) by {
        if i < front.len() {
            assert(reads[i] == front[i]);
        } else {
            assert(reads[i] == tail[i - front.len()]);
        }
    }
}

/// What a run routes to one stream.
proof fn lemma_run_routing<X>(rounds: Seq<FrameRound>, end: FramesEnd<X>, stream: LogStream)
    requires
        frames::is_frames_run(rounds, end),
    ensures
        ({
            let calls = frames::frames_routing(rounds, end, stream);
            let mine = frames::frame_deliveries(rounds).filter(|d: Delivery| d.stream == stream);
            &&& laws::delivers(calls, mine)
            &&& !(end is DeliveryFailed) ==> calls.len() == 2 * mine.len()
            &&& end matches FramesEnd::DeliveryFailed { round, error, .. } ==> {
                let failed = frames::frame_delivery(round);
                &&& failed.stream != stream ==> calls.len() == 2 * mine.len()
                &&& failed.stream == stream ==> laws::delivery_fails(calls, mine, failed, error)
            }
        }),
{
    let deliveries = frames::frame_deliveries(rounds);
    let calls = frames::frames_routing(rounds, end, stream);
    let front = pipe::routing::<X>(deliveries, stream);
    let mine = deliveries.filter(|d: Delivery| d.stream == stream);
    endpoints::lemma_routing_by_stream::<X>(deliveries, stream);
    if let FramesEnd::DeliveryFailed { round, .. } = end {
        endpoints::lemma_delivery_events::<X>(round.payload);
    }
    assert forall|i: int|
        #![trigger mine[i]]
        0 <= i < mine.len() implies {
        &&& calls[2 * i] == (SinkEvent::<X> {
            call: SinkCall::Write(mine[i].payload),
            outcome: Ok(()),
        })
        &&& calls[2 * i + 1] == (SinkEvent::<X> { call: SinkCall::Flush, outcome: Ok(()) })
    } by {
        assert(calls[2 * i] == front[2 * i]);
        assert(calls[2 * i + 1] == front[2 * i + 1]);
    }
}

/// The bytes of deliveries are those that the two sinks accept of them.
pub proof fn lemma_bytes_routed<X>(deliveries: Seq<Delivery>)
    ensures
        pipe::total_bytes(deliveries) == endpoint::accepted(
            pipe::routing::<X>(deliveries, LogStream::Stdout),
        ).len() + endpoint::accepted(pipe::routing::<X>(deliveries, LogStream::Stderr)).len(),
{
    pipe::law_routing_hands_over_payloads::<X>(deliveries, LogStream::Stdout);
    pipe::law_routing_hands_over_payloads::<X>(deliveries, LogStream::Stderr);
    pipe::law_each_byte_goes_to_one_stream(deliveries);
}

/// What comes of data in memory that is copied to sinks that fail no call, whatever the data
/// is: its complete valid frames are routed, and what is left of it decides. Where nothing is
/// left the copy succeeds with the exact counts. Less than a header is a header cut short; a
/// header that breaks a rule is named; and where a valid header is left, its payload is cut
/// short, which is an unexpected end however many frames came before.
pub proof fn law_any_data_in_memory<
    R: ByteSource<FaultKind>,
    O: ByteSink<FaultKind>,
    E: ByteSink<FaultKind>,
>(
    data: Seq<u8>,
    reader: &mut R,
    stdout: &mut O,
    stderr: &mut E,
    result: Result<CopyStats, CopyError<FaultKind>>,
)
    requires
        call_ensures(copy_frames::<FaultKind, R, O, E>, (reader, stdout, stderr), result),
        old(reader).history() == seq![SourceEvent::<FaultKind>::Opened { data }],
        memory::is_memory_history(data, final(reader).history()),
        memory::all_succeed(laws::added(old(stdout).history(), final(stdout).history())),
        memory::all_succeed(laws::added(old(stderr).history(), final(stderr).history())),
    ensures
        exists|deliveries: Seq<Delivery>, rest: Seq<u8>|
            {
                let out = endpoint::accepted(
                    laws::added(old(stdout).history(), final(stdout).history()),
                );
                let err = endpoint::accepted(
                    laws::added(old(stderr).history(), final(stderr).history()),
                );
                &&& data == #[trigger] (frames::encoded_frames(deliveries) + rest)
                &&& forall|k: int|
                    0 <= k < deliveries.len() ==> (#[trigger] deliveries[k]).payload.len() <= 65536
                &&& out == pipe::routed(deliveries, LogStream::Stdout)
                &&& err == pipe::routed(deliveries, LogStream::Stderr)
                &&& if rest.len() == 0 {
                    &&& result is Ok
                    &&& deliveries.len() <= u64::MAX ==> result->Ok_0.frames == deliveries.len()
                    &&& out.len() + err.len() <= u64::MAX ==> result->Ok_0.bytes == out.len()
                        + err.len()
                } else if rest.len() < 10 {
                    result == Err::<CopyStats, CopyError<FaultKind>>(
                        CopyError::Fault(Fault::FrameHeaderTruncated),
                    )
                } else if frames::header_fault(rest.take(10)) is Some {
                    result == Err::<CopyStats, CopyError<FaultKind>>(
                        CopyError::Fault(frames::header_fault(rest.take(10))->0),
                    )
                } else {
                    &&& rest.len() < 10 + frames::header_len(rest.take(10))
                    &&& result == Err::<CopyStats, CopyError<FaultKind>>(
                        CopyError::Endpoint(FaultKind::UnexpectedEof),
                    )
                }
            },
{
    let (rounds, end) = choose|rounds: Seq<FrameRound>, end: FramesEnd<FaultKind>|
        {
            &&& #[trigger] frames::is_frames_run(rounds, end)
            &&& final(reader).history() == old(reader).history() + frames::frames_reads(
                rounds,
                end,
            )
            &&& final(stdout).history() == old(stdout).history() + frames::frames_routing(
                rounds,
                end,
                LogStream::Stdout,
            )
            &&& final(stderr).history() == old(stderr).history() + frames::frames_routing(
                rounds,
                end,
                LogStream::Stderr,
            )
            &&& result == frames::frames_result(rounds, end)
        };
    let out = frames::frames_routing(rounds, end, LogStream::Stdout);
    let err = frames::frames_routing(rounds, end, LogStream::Stderr);
    laws::lemma_added(old(stdout).history(), out);
    laws::lemma_added(old(stderr).history(), err);
    let deliveries = frames::frame_deliveries(rounds);
    let start = frames::encoded_frames(deliveries).len() as int;
    let rest = data.skip(start);
    lemma_data_behind_frames(data, rounds, end);
    lemma_run_reads(rounds, end);
    lemma_run_routing(rounds, end, LogStream::Stdout);
    lemma_run_routing(rounds, end, LogStream::Stderr);
    if let FramesEnd::DeliveryFailed { round, .. } = end {
        match frames::frame_delivery(round).stream {
            LogStream::Stdout => {
                assert(out[out.len() - 1].outcome is Err);
            },
            LogStream::Stderr => {
                assert(err[err.len() - 1].outcome is Err);
            },
        }
    }
    assert(out =~= pipe::routing::<FaultKind>(deliveries, LogStream::Stdout));
    assert(err =~= pipe::routing::<FaultKind>(deliveries, LogStream::Stderr));
    pipe::law_routing_hands_over_payloads::<FaultKind>(deliveries, LogStream::Stdout);
    pipe::law_routing_hands_over_payloads::<FaultKind>(deliveries, LogStream::Stderr);
    pipe::law_each_byte_goes_to_one_stream(deliveries);
    assert(data =~= frames::encoded_frames(deliveries) + rest);
}

/// What a run in memory finds behind the frames that it routes.
#[verifier::rlimit(40)]
proof fn lemma_data_behind_frames(
    data: Seq<u8>,
    rounds: Seq<FrameRound>,
    end: FramesEnd<FaultKind>,
)
    requires
        frames::is_frames_run(rounds, end),
        memory::is_memory_history(
            data,
            seq![SourceEvent::<FaultKind>::Opened { data }] + frames::frames_reads(rounds, end),
        ),
    ensures
        ({
            let deliveries = frames::frame_deliveries(rounds);
            let start = frames::encoded_frames(deliveries).len() as int;
            let rest = data.skip(start);
            &&& frames::encoded_frames(deliveries).is_prefix_of(data)
            &&& match end {
                FramesEnd::Drained => rest.len() == 0,
                FramesEnd::HeaderTruncated { .. } => 0 < rest.len() < 10,
                FramesEnd::HeaderReadFailed { .. } => false,
                FramesEnd::HeaderRefused { fault, .. } => rest.len() >= 10
                    && frames::header_fault(rest.take(10)) == Some(fault),
                FramesEnd::PayloadReadFailed { error, .. } => {
                    &&& error == FaultKind::UnexpectedEof
                    &&& rest.len() >= 10
                    &&& frames::header_fault(rest.take(10)) is None
                    &&& rest.len() < 10 + frames::header_len(rest.take(10))
                },
                FramesEnd::DeliveryFailed { .. } => true,
            }
        }),
{
    let opened = seq![SourceEvent::<FaultKind>::Opened { data }];
    let reads = frames::frames_reads(rounds, end);
    let history = opened + reads;
    let deliveries = frames::frame_deliveries(rounds);
    let encoded = frames::encoded_frames(deliveries);
    let found = endpoint::handed_out(frames::end_reads(end));
    let start = encoded.len() as int;
    let rest = data.skip(start);
    lemma_run_reads(rounds, end);
    memory::law_memory_is_read_in_order(data, history);
    memory::lemma_opened_hands_out_nothing(data, reads);
    let handed = encoded + found;
    assert(handed == data.take(handed.len() as int));
    assert(encoded =~= handed.take(start));
    assert(encoded =~= data.take(start));
    assert(found =~= handed.skip(start));
    assert(rest.take(found.len() as int) =~= found);
    let last = history.len() - 1;
    let before = reads.drop_last();
    assert(history.take(last) =~= opened + before);
    assert(history[last] == reads.last());
    memory::lemma_opened_hands_out_nothing(data, before);
    assert(memory::is_memory_answer(
        data,
        endpoint::handed_out(history.take(last)).len() as int,
        history[last],
    ));
    if end is PayloadReadFailed {
        assert(endpoint::handed_out(reads) == endpoint::handed_out(before));
    }
    if end is Drained || end is HeaderTruncated {
        assert(handed == data);
    }
}

} // verus!
