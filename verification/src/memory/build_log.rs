//! The build-log protocol between endpoints in memory.

use vstd::prelude::*;

use crate::endpoint;
use crate::endpoint::{LineEvent, SourceEvent};
use crate::fault::{CopyError, Fault, FaultKind};
use crate::log_tee::LogStream;
use crate::memory;
use crate::pipe;
use crate::pipe::contract;
use crate::pipe::contract::{BuildLogEvent, BuildLogMetadata, ContractEnd, ContractRound};
use crate::pipe::metadata;
use crate::pipe::{CopyStats, Delivery};

verus! {

/// The lines of a text: the last may lack its newline.
pub open spec fn are_lines(lines: Seq<Seq<u8>>) -> bool {
    forall|k: int|
        0 <= k < lines.len() ==> {
            &&& metadata::is_line(#[trigger] lines[k])
            &&& k < lines.len() - 1 ==> lines[k].last() == metadata::NEWLINE
        }
}

/// The decoder has one answer to a line.
pub open spec fn answers_alike<D: Fn(&str) -> Option<BuildLogMetadata>>(decode: D) -> bool {
    forall|line: Seq<u8>, one: Option<BuildLogMetadata>, other: Option<BuildLogMetadata>|
        #[trigger] contract::decodes_to(decode, line, one) && #[trigger] contract::decodes_to(
            decode,
            line,
            other,
        ) ==> one == other
}

/// What the decoder answers to a line.
pub open spec fn answer_to<D: Fn(&str) -> Option<BuildLogMetadata>>(
    decode: D,
    line: Seq<u8>,
) -> Option<BuildLogMetadata> {
    choose|outcome: Option<BuildLogMetadata>| contract::decodes_to(decode, line, outcome)
}

/// This run reads this metadata and this data from memory, and writes to sinks in memory.
pub open spec fn is_run_in_memory<D: Fn(&str) -> Option<BuildLogMetadata>>(
    decode: D,
    metadata: Seq<u8>,
    data: Seq<u8>,
    rounds: Seq<ContractRound>,
    end: ContractEnd<FaultKind>,
) -> bool {
    &&& contract::is_contract_run(decode, rounds, end)
    &&& memory::is_line_history(
        metadata,
        seq![LineEvent::<FaultKind>::Opened { data: metadata }] + contract::contract_line_reads(
            rounds,
            end,
        ),
    )
    &&& memory::is_memory_history(
        data,
        seq![SourceEvent::<FaultKind>::Opened { data }] + contract::contract_data_reads(
            rounds,
            end,
        ),
    )
    &&& forall|stream: LogStream|
        memory::all_succeed(#[trigger] contract::contract_routing(rounds, end, stream))
}

/// What comes of metadata lines and data: what is delivered, and why no more is, unless it
/// is that the lines are at their end.
pub struct Outcome {
    pub deliveries: Seq<Delivery>,
    pub failure: Option<CopyError<FaultKind>>,
}

/// An outcome that delivers nothing more.
pub open spec fn failure(error: CopyError<FaultKind>) -> Outcome {
    Outcome { deliveries: Seq::empty(), failure: Some(error) }
}

/// What comes of these lines and this data: each line that asks for a chunk takes it from
/// the front of the data, and the first line that cannot be served ends it all.
pub open spec fn outcome_of<D: Fn(&str) -> Option<BuildLogMetadata>>(
    decode: D,
    lines: Seq<Seq<u8>>,
    data: Seq<u8>,
) -> Outcome
    decreases lines.len(),
{
    if lines.len() == 0 {
        Outcome { deliveries: Seq::empty(), failure: None }
    } else if contract::line_fault(lines.first()) is Some {
        failure(CopyError::Fault(contract::line_fault(lines.first())->0))
    } else {
        match answer_to(decode, lines.first()) {
            None => failure(CopyError::Fault(Fault::MetadataRejected)),
            Some(metadata) => match contract::admission(metadata) {
                Err(fault) => failure(CopyError::Fault(fault)),
                Ok(None) => outcome_of(decode, lines.drop_first(), data),
                Ok(Some(order)) => if order.len > data.len() {
                    failure(CopyError::Endpoint(FaultKind::UnexpectedEof))
                } else {
                    let chunk = Delivery {
                        stream: order.stream,
                        payload: data.take(order.len as int),
                    };
                    let rest = outcome_of(
                        decode,
                        lines.drop_first(),
                        data.skip(order.len as int),
                    );
                    Outcome { deliveries: seq![chunk] + rest.deliveries, failure: rest.failure }
                },
            },
        }
    }
}

/// There is one next line.
proof fn lemma_next_line_is_unique(rest: Seq<u8>, delimiter: u8, one: Seq<u8>, other: Seq<u8>)
    requires
        memory::is_next_line(rest, delimiter, one),
        memory::is_next_line(rest, delimiter, other),
    ensures
        one == other,
{
    if one.len() < other.len() {
        assert(one[one.len() - 1] == rest[one.len() - 1]);
        assert(other[one.len() - 1] == rest[one.len() - 1]);
    } else if other.len() < one.len() {
        assert(one[other.len() - 1] == rest[other.len() - 1]);
        assert(other[other.len() - 1] == rest[other.len() - 1]);
    }
    assert(one =~= other);
}

/// Requests for lines hand out the lines.
pub proof fn lemma_lines_handed_out(data: Seq<u8>, lines: Seq<Seq<u8>>)
    ensures
        endpoint::lines_handed_out(
            seq![LineEvent::<FaultKind>::Opened { data }] + metadata::line_reads::<FaultKind>(
                lines,
            ),
        ) == endpoint::joined(lines),
    decreases lines.len(),
{
    let opened = seq![LineEvent::<FaultKind>::Opened { data }];
    let reads = metadata::line_reads::<FaultKind>(lines);
    if lines.len() == 0 {
        reveal_with_fuel(endpoint::lines_handed_out, 2);
        assert(opened + reads =~= opened);
        assert(opened.drop_last() =~= Seq::empty());
    } else {
        lemma_lines_handed_out(data, lines.drop_last());
        assert((opened + reads).drop_last() =~= opened + metadata::line_reads::<FaultKind>(
            lines.drop_last(),
        ));
    }
}

/// The line at the front of a text is the next one.
proof fn lemma_first_line_is_next(lines: Seq<Seq<u8>>)
    requires
        are_lines(lines),
        lines.len() > 0,
    ensures
        memory::is_next_line(endpoint::joined(lines), metadata::NEWLINE, lines.first()),
{
    let first = lines.first();
    assert(metadata::is_line(lines[0]));
    assert(lines =~= seq![first] + lines.drop_first());
    endpoint::lemma_joined_append(seq![first], lines.drop_first());
    reveal_with_fuel(endpoint::joined, 2);
    assert(seq![first].drop_last() =~= Seq::empty());
    assert(endpoint::joined(seq![first]) =~= first);
    if lines.len() == 1 {
        assert(lines =~= seq![first]);
    }
}

/// What is left of a text behind some of its lines are the others.
proof fn lemma_rest_of_lines(lines: Seq<Seq<u8>>, k: int)
    requires
        are_lines(lines),
        0 <= k <= lines.len(),
    ensures
        endpoint::joined(lines).skip(endpoint::joined(lines.take(k)).len() as int)
            == endpoint::joined(lines.skip(k)),
        are_lines(lines.skip(k)),
{
    assert(lines =~= lines.take(k) + lines.skip(k));
    endpoint::lemma_joined_append(lines.take(k), lines.skip(k));
    assert(endpoint::joined(lines).skip(endpoint::joined(lines.take(k)).len() as int)
        =~= endpoint::joined(lines.skip(k)));
    let rest = lines.skip(k);
    assert forall|i: int| 0 <= i < rest.len() implies {
        &&& metadata::is_line(#[trigger] rest[i])
        &&& i < rest.len() - 1 ==> rest[i].last() == metadata::NEWLINE
    } by {
        assert(rest[i] == lines[i + k]);
    }
}

/// Requests to a text in memory get its lines, in order, and then nothing.
proof fn lemma_answer_is_line(
    lines: Seq<Seq<u8>>,
    read: Seq<Seq<u8>>,
    answer: Result<Seq<u8>, FaultKind>,
)
    requires
        are_lines(lines),
        read.len() <= lines.len(),
        read == lines.take(read.len() as int),
        memory::is_line_answer(
            endpoint::joined(lines),
            endpoint::joined(read).len() as int,
            metadata::line_read(answer),
        ),
    ensures
        answer == Ok::<Seq<u8>, FaultKind>(
            if read.len() < lines.len() {
                lines[read.len() as int]
            } else {
                Seq::empty()
            },
        ),
{
    let k = read.len() as int;
    let rest = lines.skip(k);
    lemma_rest_of_lines(lines, k);
    assert(answer is Ok);
    let line = answer->Ok_0;
    assert(memory::is_next_line(endpoint::joined(rest), metadata::NEWLINE, line));
    if k < lines.len() {
        lemma_first_line_is_next(rest);
        lemma_next_line_is_unique(endpoint::joined(rest), metadata::NEWLINE, line, rest.first());
    } else {
        assert(line =~= Seq::empty());
    }
}

/// The lines that were read from a text in memory are its first ones, and the request after
/// them gets the next, or nothing.
pub proof fn lemma_lines_are_read_in_order(
    lines: Seq<Seq<u8>>,
    read: Seq<Seq<u8>>,
    last: Result<Seq<u8>, FaultKind>,
)
    requires
        are_lines(lines),
        forall|k: int| 0 <= k < read.len() ==> (#[trigger] read[k]).len() > 0,
        memory::is_line_history(
            endpoint::joined(lines),
            seq![LineEvent::<FaultKind>::Opened { data: endpoint::joined(lines) }]
                + metadata::line_reads::<FaultKind>(read).push(metadata::line_read(last)),
        ),
    ensures
        read.len() <= lines.len(),
        read == lines.take(read.len() as int),
        last == Ok::<Seq<u8>, FaultKind>(
            if read.len() < lines.len() {
                lines[read.len() as int]
            } else {
                Seq::empty()
            },
        ),
    decreases read.len(),
{
    let data = endpoint::joined(lines);
    let opened = seq![LineEvent::<FaultKind>::Opened { data }];
    let reads = metadata::line_reads::<FaultKind>(read);
    let history = opened + reads.push(metadata::line_read(last));
    let count = read.len() as int;
    if count > 0 {
        let before = read.drop_last();
        let earlier = metadata::line_reads::<FaultKind>(before);
        let previous = Ok::<Seq<u8>, FaultKind>(read.last());
        let shorter = opened + earlier.push(metadata::line_read(previous));
        assert(shorter =~= history.drop_last());
        assert forall|i: int| 1 <= i < shorter.len() implies memory::is_line_answer(
            data,
            endpoint::lines_handed_out(shorter.take(i)).len() as int,
            #[trigger] shorter[i],
        ) by {
            assert(shorter.take(i) =~= history.take(i));
            assert(shorter[i] == history[i]);
        }
        assert forall|k: int| 0 <= k < before.len() implies (#[trigger] before[k]).len() > 0 by {
            assert(before[k] == read[k]);
        }
        lemma_lines_are_read_in_order(lines, before, previous);
        assert(read[count - 1].len() > 0);
        assert(read =~= lines.take(count));
    }
    lemma_lines_handed_out(data, read);
    assert(history.take(count + 1) =~= opened + reads);
    assert(history[count + 1] == metadata::line_read(last));
    assert(read =~= lines.take(count));
    lemma_answer_is_line(lines, read, last);
}

/// How many bytes of the data these rounds take.
pub open spec fn taken(rounds: Seq<ContractRound>) -> int {
    pipe::payloads(contract::contract_deliveries(rounds)).len() as int
}

/// The answer of data in memory behind complete rounds starts where these have come to.
proof fn lemma_answer_behind_rounds<D: Fn(&str) -> Option<BuildLogMetadata>>(
    decode: D,
    data: Seq<u8>,
    rounds: Seq<ContractRound>,
    event: SourceEvent<FaultKind>,
    tail: Seq<SourceEvent<FaultKind>>,
)
    requires
        forall|k: int| 0 <= k < rounds.len() ==> contract::is_round(decode, #[trigger] rounds[k]),
        memory::is_memory_history(
            data,
            seq![SourceEvent::<FaultKind>::Opened { data }] + (contract::round_data_reads(rounds)
                + seq![event] + tail),
        ),
    ensures
        memory::is_memory_answer(data, taken(rounds), event),
{
    let opened = seq![SourceEvent::<FaultKind>::Opened { data }];
    let reads = contract::round_data_reads::<FaultKind>(rounds);
    let history = opened + (reads + seq![event] + tail);
    let at = 1 + reads.len() as int;
    contract::lemma_rounds_deliver_data::<FaultKind, D>(decode, rounds);
    memory::lemma_opened_hands_out_nothing(data, reads);
    assert(history.take(at) =~= opened + reads);
    assert(history[at] == event);
}

/// A chunk that was read from memory is the next part of the data.
proof fn lemma_chunk_is_next<D: Fn(&str) -> Option<BuildLogMetadata>>(
    decode: D,
    metadata: Seq<u8>,
    data: Seq<u8>,
    rounds: Seq<ContractRound>,
    end: ContractEnd<FaultKind>,
    k: int,
)
    requires
        is_run_in_memory(decode, metadata, data, rounds, end),
        0 <= k < rounds.len(),
    ensures
        contract::admission(rounds[k].metadata) matches Ok(Some(order)) ==> {
            &&& taken(rounds.take(k)) + order.len <= data.len()
            &&& rounds[k].payload == data.subrange(
                taken(rounds.take(k)),
                taken(rounds.take(k)) + order.len,
            )
        },
{
    if let Ok(Some(order)) = contract::admission(rounds[k].metadata) {
        let front = rounds.take(k);
        let round = rounds[k];
        let back = rounds.skip(k + 1);
        let event = SourceEvent::<FaultKind>::ReadExact {
            len: order.len as nat,
            outcome: Ok(round.payload),
        };
        let all = contract::contract_data_reads(rounds, end);
        let behind = contract::round_data_reads::<FaultKind>(rounds).len() as int;
        let tail = contract::round_data_reads::<FaultKind>(back) + all.skip(behind);
        assert(rounds =~= front + seq![round] + back);
        contract::lemma_rounds_append::<FaultKind>(front + seq![round], back);
        contract::lemma_rounds_append::<FaultKind>(front, seq![round]);
        contract::lemma_one_round::<FaultKind>(round);
        assert(all =~= contract::round_data_reads::<FaultKind>(front) + seq![event] + tail);
        assert forall|i: int| 0 <= i < front.len() implies contract::is_round(
            decode,
            #[trigger] front[i],
        ) by {
            assert(front[i] == rounds[i]);
        }
        lemma_answer_behind_rounds(decode, data, front, event, tail);
    }
}

/// Where a chunk cannot be read from memory, too little of the data is left.
proof fn lemma_missing_chunk<D: Fn(&str) -> Option<BuildLogMetadata>>(
    decode: D,
    metadata: Seq<u8>,
    data: Seq<u8>,
    rounds: Seq<ContractRound>,
    end: ContractEnd<FaultKind>,
)
    requires
        is_run_in_memory(decode, metadata, data, rounds, end),
    ensures
        end matches ContractEnd::DataReadFailed { metadata, error, .. } ==> {
            &&& contract::admission(metadata) matches Ok(Some(order)) && taken(rounds) + order.len
                > data.len()
            &&& error == FaultKind::UnexpectedEof
        },
{
    if let ContractEnd::DataReadFailed { metadata, error, .. } = end {
        if let Ok(Some(order)) = contract::admission(metadata) {
            let event = SourceEvent::<FaultKind>::ReadExact {
                len: order.len as nat,
                outcome: Err(error),
            };
            let reads = contract::contract_data_reads(rounds, end);
            let nothing = Seq::<SourceEvent<FaultKind>>::empty();
            assert(reads =~= contract::round_data_reads(rounds) + seq![event] + nothing);
            lemma_answer_behind_rounds(decode, data, rounds, event, nothing);
        }
    }
}

/// Endpoints in memory do not fail, but for data that is at its end.
proof fn lemma_memory_does_not_fail<D: Fn(&str) -> Option<BuildLogMetadata>>(
    decode: D,
    lines: Seq<Seq<u8>>,
    data: Seq<u8>,
    rounds: Seq<ContractRound>,
    end: ContractEnd<FaultKind>,
)
    requires
        are_lines(lines),
        is_run_in_memory(decode, endpoint::joined(lines), data, rounds, end),
    ensures
        end !is MetadataReadFailed,
        end !is DeliveryFailed,
        rounds.len() <= lines.len(),
        contract::round_lines(rounds) == lines.take(rounds.len() as int),
        end is Drained ==> rounds.len() == lines.len(),
        rounds.len() < lines.len() ==> match end {
            ContractEnd::LineRefused { line, .. } => line == lines[rounds.len() as int],
            ContractEnd::LineRejected { line } => line == lines[rounds.len() as int],
            ContractEnd::EventRefused { line, .. } => line == lines[rounds.len() as int],
            ContractEnd::DataReadFailed { line, .. } => line == lines[rounds.len() as int],
            _ => false,
        },
        rounds.len() == lines.len() ==> end is Drained,
{
    let read = contract::round_lines(rounds);
    assert forall|k: int| 0 <= k < read.len() implies (#[trigger] read[k]).len() > 0 by {
        assert(contract::is_round(decode, rounds[k]));
    }
    let reads = contract::contract_line_reads(rounds, end);
    let last = reads.last()->outcome;
    assert(reads =~= metadata::line_reads::<FaultKind>(read).push(metadata::line_read(last)));
    lemma_lines_are_read_in_order(lines, read, last);
    if rounds.len() < lines.len() {
        assert(metadata::is_line(lines[rounds.len() as int]));
    }
    if let ContractEnd::DeliveryFailed { round, .. } = end {
        let stream = contract::round_delivery(round)[0].stream;
        let calls = contract::contract_routing(rounds, end, stream);
        assert(memory::all_succeed(calls));
        assert(calls[calls.len() - 1].outcome is Err);
    }
}

/// What a run returns that ends so, where it is not at the end of its lines.
pub open spec fn failure_at(end: ContractEnd<FaultKind>) -> Option<CopyError<FaultKind>> {
    match contract::contract_result(Seq::empty(), end) {
        Ok(_) => None,
        Err(error) => Some(error),
    }
}

/// The last rounds of a run do with the last lines and data what is to come of these.
proof fn lemma_rounds_follow_lines<D: Fn(&str) -> Option<BuildLogMetadata>>(
    decode: D,
    lines: Seq<Seq<u8>>,
    data: Seq<u8>,
    rounds: Seq<ContractRound>,
    end: ContractEnd<FaultKind>,
    k: int,
)
    requires
        answers_alike(decode),
        are_lines(lines),
        is_run_in_memory(decode, endpoint::joined(lines), data, rounds, end),
        0 <= k <= rounds.len(),
    ensures
        k <= lines.len(),
        0 <= taken(rounds.take(k)) <= data.len(),
        outcome_of(decode, lines.skip(k), data.skip(taken(rounds.take(k)))) == (Outcome {
            deliveries: contract::contract_deliveries(rounds.skip(k)),
            failure: failure_at(end),
        }),
    decreases rounds.len() - k,
{
    let text = endpoint::joined(lines);
    let position = taken(rounds.take(k));
    let left = lines.skip(k);
    lemma_memory_does_not_fail(decode, lines, data, rounds, end);
    lemma_taken_is_front(decode, text, data, rounds, end, k);
    if k == rounds.len() {
        assert(rounds.take(k) =~= rounds);
        assert(rounds.skip(k) =~= Seq::empty());
        lemma_missing_chunk(decode, text, data, rounds, end);
        if k < lines.len() {
            assert(left.first() == lines[k]);
        }
    } else {
        let round = rounds[k];
        let rest = rounds.skip(k + 1);
        assert(contract::is_round(decode, round));
        assert(contract::round_lines(rounds)[k] == lines[k]);
        assert(left.first() == round.line);
        assert(left.drop_first() =~= lines.skip(k + 1));
        lemma_rounds_follow_lines(decode, lines, data, rounds, end, k + 1);
        lemma_chunk_is_next(decode, text, data, rounds, end, k);
        lemma_one_more_taken(rounds, k);
        assert(rounds.skip(k) =~= seq![round] + rest);
        contract::lemma_rounds_append::<FaultKind>(seq![round], rest);
        contract::lemma_one_round::<FaultKind>(round);
        let deliveries = contract::contract_deliveries(rest);
        match contract::admission(round.metadata) {
            Ok(Some(order)) => {
                assert(data.skip(position).take(order.len as int) =~= round.payload);
                assert(data.skip(position).skip(order.len as int) =~= data.skip(
                    position + order.len,
                ));
            },
            _ => {
                assert(contract::round_delivery(round) + deliveries =~= deliveries);
            },
        }
    }
}

/// A round takes its payload.
proof fn lemma_one_more_taken(rounds: Seq<ContractRound>, k: int)
    requires
        0 <= k < rounds.len(),
    ensures
        taken(rounds.take(k + 1)) == taken(rounds.take(k)) + match contract::admission(
            rounds[k].metadata,
        ) {
            Ok(Some(_)) => rounds[k].payload.len(),
            _ => 0,
        },
{
    let front = rounds.take(k);
    let before = contract::contract_deliveries(front);
    let after = contract::contract_deliveries(rounds.take(k + 1));
    assert(rounds.take(k + 1).drop_last() =~= front);
    match contract::admission(rounds[k].metadata) {
        Ok(Some(_)) => {
            assert(after.drop_last() =~= before);
        },
        _ => {
            assert(after =~= before);
        },
    }
}

/// What complete rounds take is not more than there is.
proof fn lemma_taken_is_front<D: Fn(&str) -> Option<BuildLogMetadata>>(
    decode: D,
    metadata: Seq<u8>,
    data: Seq<u8>,
    rounds: Seq<ContractRound>,
    end: ContractEnd<FaultKind>,
    k: int,
)
    requires
        is_run_in_memory(decode, metadata, data, rounds, end),
        0 <= k <= rounds.len(),
    ensures
        taken(rounds.take(k)) <= data.len(),
    decreases k,
{
    if k > 0 {
        lemma_taken_is_front(decode, metadata, data, rounds, end, k - 1);
        lemma_one_more_taken(rounds, k - 1);
        lemma_chunk_is_next(decode, metadata, data, rounds, end, k - 1);
    }
}

/// A copy between endpoints in memory does what is to come of its lines and its data: it
/// takes from the data the chunks that are delivered, the sinks then hold exactly these, and
/// it returns their exact counts or the failure.
pub proof fn law_build_log_in_memory<D: Fn(&str) -> Option<BuildLogMetadata>>(
    decode: D,
    lines: Seq<Seq<u8>>,
    data: Seq<u8>,
    rounds: Seq<ContractRound>,
    end: ContractEnd<FaultKind>,
)
    requires
        answers_alike(decode),
        are_lines(lines),
        is_run_in_memory(decode, endpoint::joined(lines), data, rounds, end),
    ensures
        contract::contract_result(rounds, end) == match outcome_of(decode, lines, data).failure {
            None => Ok(pipe::stats_of(outcome_of(decode, lines, data).deliveries)),
            Some(error) => Err(error),
        },
        endpoint::handed_out(contract::contract_data_reads(rounds, end)) == pipe::payloads(
            outcome_of(decode, lines, data).deliveries,
        ),
        forall|stream: LogStream|
            endpoint::accepted(#[trigger] contract::contract_routing(rounds, end, stream))
                == pipe::routed(outcome_of(decode, lines, data).deliveries, stream),
{
    let deliveries = contract::contract_deliveries(rounds);
    lemma_rounds_follow_lines(decode, lines, data, rounds, end, 0);
    lemma_memory_does_not_fail(decode, lines, data, rounds, end);
    assert(lines.skip(0) =~= lines);
    assert(data.skip(0) =~= data);
    assert(rounds.skip(0) =~= rounds);
    assert(taken(rounds.take(0)) == 0);
    assert forall|stream: LogStream|
        endpoint::accepted(#[trigger] contract::contract_routing(rounds, end, stream))
            == pipe::routed(deliveries, stream) by {
        contract::law_outputs_hold_only_data(decode, rounds, end, stream);
    }
    contract::law_outputs_hold_only_data(decode, rounds, end, LogStream::Stdout);
    assert(deliveries + contract::undelivered(end) =~= deliveries);
}

/// Acceptable lines come to what they announce.
proof fn lemma_announced_outcome<D: Fn(&str) -> Option<BuildLogMetadata>>(
    decode: D,
    announced: Seq<ContractRound>,
    data: Seq<u8>,
)
    requires
        answers_alike(decode),
        forall|k: int|
            0 <= k < announced.len() ==> contract::is_round(decode, #[trigger] announced[k]),
        pipe::payloads(contract::contract_deliveries(announced)).is_prefix_of(data),
    ensures
        outcome_of(decode, contract::round_lines(announced), data) == (Outcome {
            deliveries: contract::contract_deliveries(announced),
            failure: None,
        }),
    decreases announced.len(),
{
    let lines = contract::round_lines(announced);
    if announced.len() > 0 {
        let round = announced[0];
        let rest = announced.drop_first();
        let deliveries = contract::contract_deliveries(rest);
        assert(contract::is_round(decode, round));
        assert(lines.first() == round.line);
        assert(lines.drop_first() =~= contract::round_lines(rest));
        assert forall|k: int| 0 <= k < rest.len() implies contract::is_round(
            decode,
            #[trigger] rest[k],
        ) by {
            assert(rest[k] == announced[k + 1]);
        }
        assert(announced =~= seq![round] + rest);
        contract::lemma_rounds_append::<FaultKind>(seq![round], rest);
        contract::lemma_one_round::<FaultKind>(round);
        match contract::admission(round.metadata) {
            Ok(Some(order)) => {
                let chunk = contract::round_delivery(round)[0];
                let all = pipe::payloads(seq![chunk] + deliveries);
                pipe::lemma_first_payload(chunk, deliveries);
                assert(all == data.take(all.len() as int));
                assert(data.take(order.len as int) =~= all.take(order.len as int));
                assert(data.take(order.len as int) =~= round.payload);
                assert(all.skip(order.len as int) =~= pipe::payloads(deliveries));
                assert(data.skip(order.len as int).take(all.len() - order.len)
                    =~= pipe::payloads(deliveries));
                lemma_announced_outcome(decode, rest, data.skip(order.len as int));
            },
            _ => {
                assert(contract::round_delivery(round) + deliveries =~= deliveries);
                lemma_announced_outcome(decode, rest, data);
            },
        }
    }
}

/// A copy of acceptable lines and of all the data that they announce, from memory to sinks in
/// memory, succeeds with the exact counts, and the sinks then hold the chunks of their
/// streams. Data that no line announces is left alone.
pub proof fn law_acceptable_build_log_in_memory<D: Fn(&str) -> Option<BuildLogMetadata>>(
    decode: D,
    announced: Seq<ContractRound>,
    data: Seq<u8>,
    rounds: Seq<ContractRound>,
    end: ContractEnd<FaultKind>,
)
    requires
        answers_alike(decode),
        forall|k: int|
            0 <= k < announced.len() ==> contract::is_round(decode, #[trigger] announced[k]),
        pipe::payloads(contract::contract_deliveries(announced)).is_prefix_of(data),
        is_run_in_memory(
            decode,
            endpoint::joined(contract::round_lines(announced)),
            data,
            rounds,
            end,
        ),
    ensures
        contract::contract_result(rounds, end) == Ok::<CopyStats, CopyError<FaultKind>>(
            pipe::stats_of(contract::contract_deliveries(announced)),
        ),
        endpoint::handed_out(contract::contract_data_reads(rounds, end)) == pipe::payloads(
            contract::contract_deliveries(announced),
        ),
        forall|stream: LogStream|
            endpoint::accepted(#[trigger] contract::contract_routing(rounds, end, stream))
                == pipe::routed(contract::contract_deliveries(announced), stream),
{
    let lines = contract::round_lines(announced);
    assert forall|k: int| 0 <= k < lines.len() implies {
        &&& metadata::is_line(#[trigger] lines[k])
        &&& k < lines.len() - 1 ==> lines[k].last() == metadata::NEWLINE
    } by {
        assert(contract::is_round(decode, announced[k]));
    }
    lemma_announced_outcome(decode, announced, data);
    law_build_log_in_memory(decode, lines, data, rounds, end);
}

/// One more line that asks for no chunk changes nothing of what comes of the lines.
proof fn lemma_line_without_chunk<D: Fn(&str) -> Option<BuildLogMetadata>>(
    decode: D,
    lines: Seq<Seq<u8>>,
    at: int,
    line: Seq<u8>,
    metadata: BuildLogMetadata,
    data: Seq<u8>,
)
    requires
        answers_alike(decode),
        0 <= at <= lines.len(),
        contract::is_decoded(decode, line, metadata),
        contract::announces(metadata, 0),
        metadata.event != BuildLogEvent::Chunk,
    ensures
        outcome_of(decode, lines.insert(at, line), data) == outcome_of(decode, lines, data),
    decreases at,
{
    let more = lines.insert(at, line);
    if at == 0 {
        assert(more.first() == line);
        assert(more.drop_first() =~= lines);
        assert(answer_to(decode, line) == Some(metadata));
    } else {
        assert(more.first() == lines.first());
        assert(more.drop_first() =~= lines.drop_first().insert(at - 1, line));
        let rest = match answer_to(decode, lines.first()) {
            Some(first) => match contract::admission(first) {
                Ok(Some(order)) => data.skip(order.len as int),
                _ => data,
            },
            None => data,
        };
        lemma_line_without_chunk(decode, lines.drop_first(), at - 1, line, metadata, rest);
    }
}

/// Two copies between endpoints in memory, of the same data, one of them with one more
/// acceptable line that asks for no chunk, before, between or behind the lines of the other:
/// both return the same, take the same data and leave the same bytes in their sinks.
pub proof fn law_line_without_chunk_in_memory<D: Fn(&str) -> Option<BuildLogMetadata>>(
    decode: D,
    lines: Seq<Seq<u8>>,
    at: int,
    line: Seq<u8>,
    metadata: BuildLogMetadata,
    data: Seq<u8>,
    rounds: Seq<ContractRound>,
    end: ContractEnd<FaultKind>,
    other_rounds: Seq<ContractRound>,
    other_end: ContractEnd<FaultKind>,
)
    requires
        answers_alike(decode),
        are_lines(lines),
        0 <= at <= lines.len(),
        are_lines(lines.insert(at, line)),
        contract::is_decoded(decode, line, metadata),
        contract::announces(metadata, 0),
        metadata.event != BuildLogEvent::Chunk,
        is_run_in_memory(decode, endpoint::joined(lines), data, rounds, end),
        is_run_in_memory(
            decode,
            endpoint::joined(lines.insert(at, line)),
            data,
            other_rounds,
            other_end,
        ),
    ensures
        contract::contract_result(rounds, end) == contract::contract_result(
            other_rounds,
            other_end,
        ),
        endpoint::handed_out(contract::contract_data_reads(rounds, end)) == endpoint::handed_out(
            contract::contract_data_reads(other_rounds, other_end),
        ),
        forall|stream: LogStream|
            endpoint::accepted(#[trigger] contract::contract_routing(rounds, end, stream))
                == endpoint::accepted(
                contract::contract_routing(other_rounds, other_end, stream),
            ),
{
    lemma_line_without_chunk(decode, lines, at, line, metadata, data);
    law_build_log_in_memory(decode, lines, data, rounds, end);
    law_build_log_in_memory(decode, lines.insert(at, line), data, other_rounds, other_end);
    assert forall|stream: LogStream|
        endpoint::accepted(#[trigger] contract::contract_routing(rounds, end, stream))
            == endpoint::accepted(
            contract::contract_routing(other_rounds, other_end, stream),
        ) by {
        assert(endpoint::accepted(contract::contract_routing(other_rounds, other_end, stream))
            == pipe::routed(outcome_of(decode, lines, data).deliveries, stream));
    }
}

} // verus!
