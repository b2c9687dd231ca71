//! Endpoints in memory.

use vstd::prelude::*;

use crate::endpoint;
use crate::endpoint::{
    BufferUse, ByteBound, ByteSink, ByteSource, LineEvent, LineHistory, LineSource, SinkCall,
    SinkEvent, SinkHistory, SourceEvent, SourceHistory,
};
use crate::fault::{CopyError, FaultKind};
use crate::log_tee;
use crate::log_tee::{
    ExportChunk, ExportEvent, ExportHistory, ExportRecord, Exporter, LogStream, Redaction,
    RedactionHistory, Redactor, TeeEnd, TeeRound,
};
use crate::pipe;
use crate::pipe::frames;
use crate::pipe::frames::{FrameRound, FramesEnd};
use crate::pipe::{CopyStats, Delivery};

pub mod build_log;

verus! {

/// What bytes in memory answer to a call, where reading has come to this position: a read
/// gets as much as there is and fits, and an exact read fails where too little is left.
pub open spec fn is_memory_answer(
    data: Seq<u8>,
    position: int,
    event: SourceEvent<FaultKind>,
) -> bool {
    match event {
        SourceEvent::Opened { .. } => false,
        SourceEvent::Read { limit, outcome } => outcome == Ok::<Seq<u8>, FaultKind>(
            if position + limit <= data.len() {
                data.subrange(position, position + limit)
            } else {
                data.skip(position)
            },
        ),
        SourceEvent::ReadExact { len, outcome } => outcome == if position + len <= data.len() {
            Ok(data.subrange(position, position + len))
        } else {
            Err(FaultKind::UnexpectedEof)
        },
    }
}

/// The history of a source that was made with these bytes.
pub open spec fn is_memory_history(data: Seq<u8>, history: SourceHistory<FaultKind>) -> bool {
    &&& history.len() > 0
    &&& history[0] == SourceEvent::<FaultKind>::Opened { data }
    &&& forall|i: int|
        1 <= i < history.len() ==> is_memory_answer(
            data,
            endpoint::handed_out(history.take(i)).len() as int,
            #[trigger] history[i],
        )
}

/// The bytes that a source was made with.
pub open spec fn opened_with(history: SourceHistory<FaultKind>) -> Seq<u8> {
    history[0]->data
}

/// The last call was a read that got nothing.
pub open spec fn ends_empty(history: SourceHistory<FaultKind>) -> bool {
    match history.last() {
        SourceEvent::Read { outcome: Ok(bytes), .. } => bytes.len() == 0,
        _ => false,
    }
}

/// Bytes in memory, read from front to back.
pub struct MemorySource {
    data: Vec<u8>,
    position: usize,
    reads: Ghost<SourceHistory<FaultKind>>,
    buffer: Ghost<BufferUse>,
}

impl MemorySource {
    #[verifier::type_invariant]
    spec fn accounts_for_data(&self) -> bool {
        &&& self.position <= self.data@.len()
        &&& is_memory_history(self.data@, self.reads@)
        &&& endpoint::handed_out(self.reads@) == self.data@.take(self.position as int)
        &&& ends_empty(self.reads@) ==> self.buffer@.left == self.buffer@.given
    }

    /// A source of these bytes.
    pub fn new(data: Vec<u8>) -> (source: MemorySource)
        ensures
            source.history() == seq![SourceEvent::<FaultKind>::Opened { data: data@ }],
    {
        let ghost reads = seq![SourceEvent::<FaultKind>::Opened { data: data@ }];
        proof {
            reveal_with_fuel(endpoint::handed_out, 2);
            assert(endpoint::handed_out(reads) =~= data@.take(0));
        }
        MemorySource {
            data,
            position: 0,
            reads: Ghost(reads),
            buffer: Ghost(BufferUse { given: Seq::empty(), left: Seq::empty() }),
        }
    }

    /// The bytes that were not read yet. What was handed out and these are the bytes that the
    /// source was made with, and each answer so far is the one that those bytes call for.
    pub fn rest(&self) -> (rest: &[u8])
        ensures
            is_memory_history(opened_with(self.history()), self.history()),
            endpoint::handed_out(self.history()) + rest@ == opened_with(self.history()),
            ends_empty(self.history()) ==> self.last_buffer().left == self.last_buffer().given,
    {
        proof {
            use_type_invariant(self);
        }
        let rest = vstd::slice::slice_subrange(
            self.data.as_slice(),
            self.position,
            self.data.len(),
        );
        assert(endpoint::handed_out(self.history()) + rest@ =~= self.data@);
        rest
    }
}

/// One more answer of bytes in memory makes one more history of theirs.
proof fn lemma_memory_push(
    data: Seq<u8>,
    history: SourceHistory<FaultKind>,
    event: SourceEvent<FaultKind>,
)
    requires
        is_memory_history(data, history),
        is_memory_answer(data, endpoint::handed_out(history).len() as int, event),
    ensures
        is_memory_history(data, history.push(event)),
        endpoint::handed_out(history.push(event)) == endpoint::handed_out(history) + match event {
            SourceEvent::Read { outcome: Ok(bytes), .. } => bytes,
            SourceEvent::ReadExact { outcome: Ok(bytes), .. } => bytes,
            _ => Seq::empty(),
        },
{
    let more = history.push(event);
    assert(more.drop_last() =~= history);
    assert(endpoint::handed_out(history) + Seq::<u8>::empty() =~= endpoint::handed_out(history));
    assert forall|i: int| 1 <= i < more.len() implies is_memory_answer(
        data,
        endpoint::handed_out(more.take(i)).len() as int,
        #[trigger] more[i],
    ) by {
        if i < history.len() {
            assert(more.take(i) =~= history.take(i));
            assert(more[i] == history[i]);
        } else {
            assert(more.take(i) =~= history);
        }
    }
}

/// Copies a part of the data to the front of the buffer.
fn copy_part(data: &Vec<u8>, start: usize, count: usize, buffer: &mut [u8])
    requires
        start + count <= data@.len(),
        count <= old(buffer)@.len(),
    ensures
        final(buffer)@ == data@.subrange(start as int, start + count) + old(buffer)@.skip(
            count as int,
        ),
{
    let end = data.len();
    let mut i: usize = 0;
    while i < count
        invariant
            i <= count,
            count <= buffer@.len(),
            buffer@.len() == old(buffer)@.len(),
            start + count <= end,
            end == data@.len(),
            forall|k: int| 0 <= k < i ==> buffer@[k] == data@[start + k],
            forall|k: int| i <= k < buffer@.len() ==> buffer@[k] == old(buffer)@[k],
        decreases count - i,
    {
        buffer[i] = data[start + i];
        i = i + 1;
    }
    assert(buffer@ =~= data@.subrange(start as int, start + count) + old(buffer)@.skip(
        count as int,
    ));
}

impl ByteSource<FaultKind> for MemorySource {
    closed spec fn history(&self) -> SourceHistory<FaultKind> {
        self.reads@
    }

    closed spec fn unread(&self) -> ByteBound {
        (self.data@.len() - self.position) as nat
    }

    closed spec fn last_buffer(&self) -> BufferUse {
        self.buffer@
    }

    fn read(&mut self, buffer: &mut [u8]) -> (result: Result<usize, FaultKind>) {
        let mut taken = MemorySource::new(Vec::new());
        std::mem::swap(self, &mut taken);
        proof {
            use_type_invariant(&taken);
        }
        let ghost given = buffer@;
        let start = taken.position;
        let data = taken.data;
        let left = data.len() - start;
        let count = if left < buffer.len() {
            left
        } else {
            buffer.len()
        };
        copy_part(&data, start, count, buffer);
        let ghost event = SourceEvent::Read {
            limit: given.len(),
            outcome: Ok(buffer@.take(count as int)),
        };
        proof {
            assert(buffer@.take(count as int) =~= data@.subrange(start as int, start + count));
            assert(data@.skip(start as int) =~= data@.subrange(start as int, data@.len() as int));
            lemma_memory_push(data@, taken.reads@, event);
            assert(data@.take(start as int) + buffer@.take(count as int) =~= data@.take(
                start + count,
            ));
            if count == 0 {
                assert(buffer@ =~= given);
            }
        }
        *self = MemorySource {
            data,
            position: start + count,
            reads: Ghost(taken.reads@.push(event)),
            buffer: Ghost(BufferUse { given, left: buffer@ }),
        };
        Ok(count)
    }

    fn read_exact(&mut self, buffer: &mut [u8]) -> (result: Result<(), FaultKind>) {
        let mut taken = MemorySource::new(Vec::new());
        std::mem::swap(self, &mut taken);
        proof {
            use_type_invariant(&taken);
        }
        let count = buffer.len();
        let start = taken.position;
        let data = taken.data;
        if data.len() - start < count {
            let ghost event = SourceEvent::ReadExact {
                len: count as nat,
                outcome: Err(FaultKind::UnexpectedEof),
            };
            proof {
                lemma_memory_push(data@, taken.reads@, event);
                assert(endpoint::handed_out(taken.reads@.push(event)) =~= data@.take(start as int));
            }
            *self = MemorySource {
                data,
                position: start,
                reads: Ghost(taken.reads@.push(event)),
                buffer: taken.buffer,
            };
            return Err(FaultKind::UnexpectedEof);
        }
        copy_part(&data, start, count, buffer);
        let ghost event = SourceEvent::ReadExact { len: count as nat, outcome: Ok(buffer@) };
        proof {
            assert(buffer@ =~= data@.subrange(start as int, start + count));
            lemma_memory_push(data@, taken.reads@, event);
            assert(data@.take(start as int) + buffer@ =~= data@.take(start + count));
        }
        *self = MemorySource {
            data,
            position: start + count,
            reads: Ghost(taken.reads@.push(event)),
            buffer: taken.buffer,
        };
        Ok(())
    }
}

/// The line that a request gets from these bytes: up to and including the first delimiter,
/// or all of them where there is none.
pub open spec fn is_next_line(rest: Seq<u8>, delimiter: u8, line: Seq<u8>) -> bool {
    &&& line.is_prefix_of(rest)
    &&& endpoint::is_single_line(line, delimiter)
    &&& line.len() < rest.len() ==> line.len() > 0 && line.last() == delimiter
}

/// What lines in memory answer to a request, where reading has come to this position.
pub open spec fn is_line_answer(
    data: Seq<u8>,
    position: int,
    event: LineEvent<FaultKind>,
) -> bool {
    match event {
        LineEvent::ReadUntil { delimiter, outcome: Ok(line) } => is_next_line(
            data.skip(position),
            delimiter,
            line,
        ),
        _ => false,
    }
}

/// The history of a source of lines that was made with these bytes.
pub open spec fn is_line_history(data: Seq<u8>, history: LineHistory<FaultKind>) -> bool {
    &&& history.len() > 0
    &&& history[0] == LineEvent::<FaultKind>::Opened { data }
    &&& forall|i: int|
        1 <= i < history.len() ==> is_line_answer(
            data,
            endpoint::lines_handed_out(history.take(i)).len() as int,
            #[trigger] history[i],
        )
}

/// The bytes that a source of lines was made with.
pub open spec fn lines_opened_with(history: LineHistory<FaultKind>) -> Seq<u8> {
    history[0]->data
}

/// Lines in memory, read from front to back.
pub struct MemoryLines {
    data: Vec<u8>,
    position: usize,
    lines: Ghost<LineHistory<FaultKind>>,
}

impl MemoryLines {
    #[verifier::type_invariant]
    spec fn accounts_for_data(&self) -> bool {
        &&& self.position <= self.data@.len()
        &&& is_line_history(self.data@, self.lines@)
        &&& endpoint::lines_handed_out(self.lines@) == self.data@.take(self.position as int)
    }

    /// A source of the lines in these bytes.
    pub fn new(data: Vec<u8>) -> (source: MemoryLines)
        ensures
            source.history() == seq![LineEvent::<FaultKind>::Opened { data: data@ }],
    {
        let ghost lines = seq![LineEvent::<FaultKind>::Opened { data: data@ }];
        proof {
            reveal_with_fuel(endpoint::lines_handed_out, 2);
            assert(endpoint::lines_handed_out(lines) =~= data@.take(0));
        }
        MemoryLines { data, position: 0, lines: Ghost(lines) }
    }

    /// The bytes that were not read yet. What was handed out and these are the bytes that the
    /// source was made with, and each answer so far is the line that was next in them.
    pub fn rest(&self) -> (rest: &[u8])
        ensures
            is_line_history(lines_opened_with(self.history()), self.history()),
            endpoint::lines_handed_out(self.history()) + rest@ == lines_opened_with(self.history()),
    {
        proof {
            use_type_invariant(self);
        }
        let rest = vstd::slice::slice_subrange(
            self.data.as_slice(),
            self.position,
            self.data.len(),
        );
        assert(endpoint::lines_handed_out(self.history()) + rest@ =~= self.data@);
        rest
    }
}

impl LineSource<FaultKind> for MemoryLines {
    closed spec fn history(&self) -> LineHistory<FaultKind> {
        self.lines@
    }

    closed spec fn unread(&self) -> ByteBound {
        (self.data@.len() - self.position) as nat
    }

    fn read_until(&mut self, delimiter: u8, line: &mut Vec<u8>) -> (result: Result<
        usize,
        FaultKind,
    >) {
        let mut taken = MemoryLines::new(Vec::new());
        std::mem::swap(self, &mut taken);
        proof {
            use_type_invariant(&taken);
        }
        let start = taken.position;
        let data = taken.data;
        let ghost before = line@;
        let mut at: usize = start;
        let mut found = false;
        while at < data.len() && !found
            invariant
                start <= at <= data@.len(),
                line@ == before + data@.subrange(start as int, at as int),
                forall|k: int| start <= k < at - 1 ==> data@[k] != delimiter,
                at > start ==> found == (data@[at - 1] == delimiter),
                at == start ==> !found,
            decreases data@.len() - at,
        {
            let byte = data[at];
            line.push(byte);
            found = byte == delimiter;
            assert(data@.subrange(start as int, at as int).push(byte) =~= data@.subrange(
                start as int,
                at + 1,
            ));
            at = at + 1;
        }
        let ghost read = line@.skip(before.len() as int);
        let ghost event = LineEvent::ReadUntil { delimiter, outcome: Ok(read) };
        let ghost history = taken.lines@;
        let ghost more = history.push(event);
        proof {
            assert(read =~= data@.subrange(start as int, at as int));
            assert(is_next_line(data@.skip(start as int), delimiter, read));
            assert(more.drop_last() =~= history);
            assert(endpoint::lines_handed_out(more) =~= data@.take(at as int));
            assert forall|i: int| 1 <= i < more.len() implies is_line_answer(
                data@,
                endpoint::lines_handed_out(more.take(i)).len() as int,
                #[trigger] more[i],
            ) by {
                if i < history.len() {
                    assert(more.take(i) =~= history.take(i));
                    assert(more[i] == history[i]);
                } else {
                    assert(more.take(i) =~= history);
                }
            }
        }
        *self = MemoryLines { data, position: at, lines: Ghost(more) };
        Ok(at - start)
    }
}

/// No call on the sink failed.
pub open spec fn all_succeed(history: SinkHistory<FaultKind>) -> bool {
    forall|i: int| 0 <= i < history.len() ==> (#[trigger] history[i]).outcome is Ok
}

/// A sink that keeps what it gets in memory.
pub struct MemorySink {
    bytes: Vec<u8>,
    calls: Ghost<Seq<SinkEvent<FaultKind>>>,
}

impl MemorySink {
    #[verifier::type_invariant]
    spec fn keeps_what_it_accepts(&self) -> bool {
        &&& self.bytes@ == endpoint::accepted(self.calls@)
        &&& all_succeed(self.calls@)
    }

    /// A sink that has got nothing.
    pub fn new() -> (sink: MemorySink)
        ensures
            sink.history().len() == 0,
    {
        MemorySink { bytes: Vec::new(), calls: Ghost(Seq::empty()) }
    }

    /// What the sink accepted so far. It accepts every call.
    pub fn contents(&self) -> (bytes: &[u8])
        ensures
            bytes@ == endpoint::accepted(self.history()),
            all_succeed(self.history()),
    {
        proof {
            use_type_invariant(self);
        }
        self.bytes.as_slice()
    }
}

impl ByteSink<FaultKind> for MemorySink {
    closed spec fn history(&self) -> SinkHistory<FaultKind> {
        self.calls@
    }

    fn write_all(&mut self, bytes: &[u8]) -> (result: Result<(), FaultKind>)
        ensures
            result is Ok,
    {
        let mut taken = MemorySink::new();
        std::mem::swap(self, &mut taken);
        proof {
            use_type_invariant(&taken);
        }
        let mut kept = taken.bytes;
        let ghost before = kept@;
        kept.extend_from_slice(bytes);
        assert(kept@ =~= before + bytes@);
        let ghost event = SinkEvent { call: SinkCall::Write(bytes@), outcome: Ok(()) };
        let ghost calls = taken.calls@.push(event);
        assert(calls.drop_last() =~= taken.calls@);
        *self = MemorySink { bytes: kept, calls: Ghost(calls) };
        Ok(())
    }

    fn flush(&mut self) -> (result: Result<(), FaultKind>)
        ensures
            result is Ok,
    {
        proof {
            use_type_invariant(&*self);
        }
        let ghost event = SinkEvent { call: SinkCall::Flush, outcome: Ok(()) };
        let ghost calls = self.calls@.push(event);
        assert(calls.drop_last() =~= self.calls@);
        self.calls = Ghost(calls);
        Ok(())
    }
}

/// No redaction changed anything.
pub open spec fn all_plain(history: RedactionHistory) -> bool {
    forall|i: int|
        0 <= i < history.len() ==> (#[trigger] history[i]).output == history[i].input
            && !history[i].changed
}

/// A redactor with nothing to hide.
pub struct PlainCopy {
    redactions: Ghost<Seq<Redaction>>,
}

impl PlainCopy {
    #[verifier::type_invariant]
    spec fn copies_plainly(&self) -> bool {
        all_plain(self.redactions@)
    }

    /// States of all redactions so far that they changed nothing.
    pub fn attest(&self)
        ensures
            all_plain(self.history()),
    {
        proof {
            use_type_invariant(self);
        }
    }

    /// A redactor that was not used yet.
    pub fn new() -> (redactor: PlainCopy)
        ensures
            redactor.history().len() == 0,
    {
        PlainCopy { redactions: Ghost(Seq::empty()) }
    }
}

impl Redactor for PlainCopy {
    closed spec fn history(&self) -> RedactionHistory {
        self.redactions@
    }

    fn redact(&mut self, input: &[u8], output: &mut Vec<u8>) -> (changed: bool)
        ensures
            final(output)@ == input@,
            !changed,
    {
        proof {
            use_type_invariant(&*self);
        }
        output.extend_from_slice(input);
        assert(output@ =~= input@);
        let ghost redaction = Redaction { input: input@, output: output@, changed: false };
        self.redactions = Ghost(self.redactions@.push(redaction));
        false
    }
}

/// An exported chunk that owns its bytes.
#[derive(Debug, PartialEq, Eq)]
pub struct StoredChunk {
    pub stream: LogStream,
    pub sequence: u32,
    pub bytes: Vec<u8>,
    pub redacted: bool,
    pub truncated: bool,
}

impl View for StoredChunk {
    type V = ExportRecord;

    open spec fn view(&self) -> ExportRecord {
        ExportRecord {
            stream: self.stream,
            sequence: self.sequence as nat,
            bytes: self.bytes@,
            redacted: self.redacted,
            truncated: self.truncated,
        }
    }
}

/// An exporter that keeps its chunks in memory.
pub struct MemoryExporter {
    chunks: Vec<StoredChunk>,
    exports: Ghost<Seq<ExportEvent>>,
}

impl MemoryExporter {
    #[verifier::type_invariant]
    spec fn keeps_every_chunk(&self) -> bool {
        &&& self.chunks@.len() == self.exports@.len()
        &&& forall|k: int|
            0 <= k < self.chunks@.len() ==> #[trigger] self.exports@[k] == (ExportEvent {
                chunk: self.chunks@[k]@,
                delivered: true,
            })
    }

    /// An exporter that has got nothing.
    pub fn new() -> (exporter: MemoryExporter)
        ensures
            exporter.history().len() == 0,
    {
        MemoryExporter { chunks: Vec::new(), exports: Ghost(Seq::empty()) }
    }

    /// The chunks so far, in order. The exporter takes every chunk.
    pub fn chunks(&self) -> (chunks: &[StoredChunk])
        ensures
            chunks@.len() == self.history().len(),
            forall|k: int|
                0 <= k < chunks@.len() ==> #[trigger] self.history()[k] == (ExportEvent {
                    chunk: chunks@[k]@,
                    delivered: true,
                }),
    {
        proof {
            use_type_invariant(self);
        }
        self.chunks.as_slice()
    }
}

impl Exporter for MemoryExporter {
    closed spec fn history(&self) -> ExportHistory {
        self.exports@
    }

    fn export(&mut self, chunk: ExportChunk<'_>) -> (result: Result<(), ()>)
        ensures
            result is Ok,
    {
        let mut taken = MemoryExporter::new();
        std::mem::swap(self, &mut taken);
        proof {
            use_type_invariant(&taken);
        }
        let mut chunks = taken.chunks;
        let ghost exports = taken.exports@.push(ExportEvent { chunk: chunk@, delivered: true });
        let stored = StoredChunk {
            stream: chunk.stream,
            sequence: chunk.sequence,
            bytes: vstd::slice::slice_to_vec(chunk.bytes),
            redacted: chunk.redacted,
            truncated: chunk.truncated,
        };
        assert(stored@ == chunk@);
        chunks.push(stored);
        *self = MemoryExporter { chunks, exports: Ghost(exports) };
        Ok(())
    }
}

/// What bytes in memory hand out is their front, in order; once a read that has room gets
/// nothing, it is all of them.
pub proof fn law_memory_is_read_in_order(data: Seq<u8>, history: SourceHistory<FaultKind>)
    requires
        is_memory_history(data, history),
    ensures
        endpoint::handed_out(history).is_prefix_of(data),
        history.last() matches SourceEvent::Read { limit, outcome: Ok(bytes) } && limit > 0
            && bytes.len() == 0 ==> endpoint::handed_out(history) == data,
    decreases history.len(),
{
    if history.len() == 1 {
        assert(history.drop_last() =~= Seq::empty());
        assert(endpoint::handed_out(history.drop_last()).len() == 0);
    } else {
        let before = history.drop_last();
        let last = history.len() - 1;
        assert(history.take(last) =~= before);
        assert forall|i: int| 1 <= i < before.len() implies is_memory_answer(
            data,
            endpoint::handed_out(before.take(i)).len() as int,
            #[trigger] before[i],
        ) by {
            assert(before.take(i) =~= history.take(i));
            assert(before[i] == history[i]);
        }
        law_memory_is_read_in_order(data, before);
        assert(is_memory_answer(
            data,
            endpoint::handed_out(before).len() as int,
            history[last],
        ));
        if endpoint::handed_out(history).len() == data.len() {
            assert(endpoint::handed_out(history) =~= data);
        }
    }
}

/// Being opened hands out nothing.
pub proof fn lemma_opened_hands_out_nothing(data: Seq<u8>, reads: SourceHistory<FaultKind>)
    ensures
        endpoint::handed_out(seq![SourceEvent::<FaultKind>::Opened { data }] + reads)
            == endpoint::handed_out(reads),
{
    reveal_with_fuel(endpoint::handed_out, 2);
    let opened = seq![SourceEvent::<FaultKind>::Opened { data }];
    endpoint::lemma_handed_out_append(opened, reads);
    assert(opened.drop_last() =~= Seq::empty());
    assert(endpoint::handed_out(opened) + endpoint::handed_out(reads) =~= endpoint::handed_out(
        reads,
    ));
}

/// A tee from bytes in memory to a sink in memory ends well, unless sequence numbers run
/// out, and the sink then holds the very bytes.
pub proof fn law_tee_in_memory(
    data: Seq<u8>,
    rounds: Seq<TeeRound>,
    end: TeeEnd<FaultKind>,
)
    requires
        log_tee::is_tee_run(rounds, end),
        is_memory_history(
            data,
            seq![SourceEvent::<FaultKind>::Opened { data }] + log_tee::tee_reads(rounds, end),
        ),
        all_succeed(log_tee::tee_mirroring(rounds, end)),
    ensures
        end is Drained || end is SequenceExhausted,
        end is Drained ==> endpoint::accepted(log_tee::tee_mirroring(rounds, end)) == data,
        data.len() <= u32::MAX ==> end is Drained,
{
    let opened = seq![SourceEvent::<FaultKind>::Opened { data }];
    let reads = log_tee::tee_reads(rounds, end);
    let history = opened + reads;
    let calls = log_tee::tee_mirroring(rounds, end);
    law_memory_is_read_in_order(data, history);
    lemma_opened_hands_out_nothing(data, reads);
    log_tee::law_mirror_keeps_every_byte(rounds, end);
    let last = history.len() - 1;
    match end {
        TeeEnd::ReadFailed { error } => {
            assert(history[last] == log_tee::chunk_read(Err::<Seq<u8>, FaultKind>(error)));
        },
        TeeEnd::FinalFlushFailed { .. } => {
            assert(calls[calls.len() - 1].outcome is Err);
        },
        TeeEnd::MirrorFailed { .. } => {
            assert(calls[calls.len() - 1].outcome is Err);
        },
        TeeEnd::Drained => {
            assert(history.last() == log_tee::chunk_read(Ok::<Seq<u8>, FaultKind>(Seq::empty())));
        },
        TeeEnd::SequenceExhausted => {
            log_tee::lemma_rounds_carry_bytes::<FaultKind>(rounds);
        },
    }
}

/// Encoded frames in memory give no cause to refuse a header, and have every payload that a
/// header announces.
proof fn lemma_encoded_frames_hold(
    deliveries: Seq<Delivery>,
    rounds: Seq<FrameRound>,
    end: FramesEnd<FaultKind>,
)
    requires
        frames::is_frames_run(rounds, end),
        frames::fit_frames(deliveries),
        is_memory_history(
            frames::encoded_frames(deliveries),
            seq![
                SourceEvent::<FaultKind>::Opened { data: frames::encoded_frames(deliveries) },
            ] + frames::frames_reads(rounds, end),
        ),
    ensures
        end !is HeaderRefused,
        end !is PayloadReadFailed,
{
    if end is HeaderRefused || end is PayloadReadFailed {
        let data = frames::encoded_frames(deliveries);
        let opened = seq![SourceEvent::<FaultKind>::Opened { data }];
        let complete = frames::round_reads::<FaultKind>(rounds);
        let reads = frames::frames_reads(rounds, end);
        let tail = frames::end_reads(end);
        let history = opened + reads;
        let pieces = match end {
            FramesEnd::HeaderRefused { pieces, .. } => pieces,
            FramesEnd::PayloadReadFailed { pieces, .. } => pieces,
            _ => Seq::empty(),
        };
        let header = endpoint::joined(pieces);
        let routed = frames::frame_deliveries(rounds);
        let front = complete + frames::header_reads::<FaultKind>(pieces);
        let handed = frames::encoded_frames(routed) + header;
        frames::law_frames_read_are_frames_routed::<FaultKind>(rounds);
        frames::lemma_pieces_handed_out::<FaultKind>(frames::FRAME_HEADER_BYTES as nat, pieces);
        endpoint::lemma_handed_out_append(complete, frames::header_reads::<FaultKind>(pieces));
        assert(endpoint::handed_out(front) == handed);
        assert(endpoint::handed_out(reads) == handed) by {
            if end is PayloadReadFailed {
                assert(reads.drop_last() =~= front);
            }
        }
        lemma_opened_hands_out_nothing(data, reads);
        law_memory_is_read_in_order(data, history);
        frames::lemma_next_header(routed, header, deliveries);
        let last = history.len() - 1;
        assert(history.take(last) =~= opened + front);
        lemma_opened_hands_out_nothing(data, front);
        assert(history[last] == tail.last());
        assert(is_memory_answer(
            data,
            endpoint::handed_out(history.take(last)).len() as int,
            history[last],
        ));
    }
}

/// A copy of encoded frames from memory to sinks in memory succeeds, and the sinks then hold
/// the payloads of their streams.
pub proof fn law_frames_in_memory(
    deliveries: Seq<Delivery>,
    rounds: Seq<FrameRound>,
    end: FramesEnd<FaultKind>,
)
    requires
        frames::is_frames_run(rounds, end),
        frames::fit_frames(deliveries),
        is_memory_history(
            frames::encoded_frames(deliveries),
            seq![
                SourceEvent::<FaultKind>::Opened { data: frames::encoded_frames(deliveries) },
            ] + frames::frames_reads(rounds, end),
        ),
        forall|stream: LogStream| all_succeed(#[trigger] frames::frames_routing(rounds, end, stream)),
    ensures
        frames::frames_result(rounds, end) == Ok::<CopyStats, CopyError<FaultKind>>(
            pipe::stats_of(deliveries),
        ),
        frames::frame_deliveries(rounds) == deliveries,
        forall|stream: LogStream|
            endpoint::accepted(#[trigger] frames::frames_routing(rounds, end, stream))
                == pipe::routed(deliveries, stream),
{
    let data = frames::encoded_frames(deliveries);
    let reads = frames::frames_reads(rounds, end);
    let tail = frames::end_reads(end);
    let history = seq![SourceEvent::<FaultKind>::Opened { data }] + reads;
    let last = history.len() - 1;
    match end {
        FramesEnd::DeliveryFailed { round, .. } => {
            let stream = frames::frame_delivery(round).stream;
            let calls = frames::frames_routing(rounds, end, stream);
            assert(all_succeed(calls));
            assert(calls[calls.len() - 1].outcome is Err);
        },
        FramesEnd::HeaderReadFailed { .. } => {
            assert(history[last] == tail.last());
            assert(is_memory_answer(
                data,
                endpoint::handed_out(history.take(last)).len() as int,
                history[last],
            ));
        },
        FramesEnd::HeaderRefused { .. } => {
            lemma_encoded_frames_hold(deliveries, rounds, end);
        },
        FramesEnd::PayloadReadFailed { .. } => {
            lemma_encoded_frames_hold(deliveries, rounds, end);
        },
        _ => {
            law_memory_is_read_in_order(data, history);
            lemma_opened_hands_out_nothing(data, reads);
            assert(history.last() == tail.last());
            frames::law_encoded_frames_are_routed::<FaultKind>(rounds, end, deliveries);
        },
    }
}

} // verus!
