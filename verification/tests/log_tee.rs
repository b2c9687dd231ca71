use gha_indie_worker_sidecar::endpoint::{
    BufferUse, ByteBound, ByteSink, ByteSource, SinkHistory, SourceHistory,
};
use gha_indie_worker_sidecar::fault::{CopyError, Fault, FaultKind};
use gha_indie_worker_sidecar::log_tee::{
    tee_stream, ExportChunk, ExportHistory, Exporter, LogStream, RedactionHistory, Redactor,
    TeeProgress, TeeReport, MAX_EXPORT_CHUNK_BYTES, MAX_READ_CHUNK_BYTES,
};
use gha_indie_worker_sidecar::memory::{
    MemoryExporter, MemorySink, MemorySource, PlainCopy, StoredChunk,
};

struct HideSecret;

impl Redactor for HideSecret {
    fn history(&self) -> RedactionHistory {
        unreachable!()
    }

    fn redact(&mut self, input: &[u8], output: &mut Vec<u8>) -> bool {
        let text = String::from_utf8_lossy(input).replace("secret", "[REDACTED]");
        output.extend_from_slice(text.as_bytes());
        text.as_bytes() != input
    }
}

struct Expand(usize);

impl Redactor for Expand {
    fn history(&self) -> RedactionHistory {
        unreachable!()
    }

    fn redact(&mut self, _input: &[u8], output: &mut Vec<u8>) -> bool {
        output.resize(self.0, b'z');
        true
    }
}

struct Refuse {
    seen: usize,
}

impl Exporter for Refuse {
    fn history(&self) -> ExportHistory {
        unreachable!()
    }

    fn export(&mut self, _chunk: ExportChunk<'_>) -> Result<(), ()> {
        self.seen += 1;
        Err(())
    }
}

/// Hands out one byte at a time, and fails after some.
struct Drip {
    data: Vec<u8>,
    position: usize,
    fail_at: usize,
}

impl ByteSource<FaultKind> for Drip {
    fn history(&self) -> SourceHistory<FaultKind> {
        unreachable!()
    }

    fn unread(&self) -> ByteBound {
        unreachable!()
    }

    fn last_buffer(&self) -> BufferUse {
        unreachable!()
    }

    fn read(&mut self, buffer: &mut [u8]) -> Result<usize, FaultKind> {
        if self.position == self.fail_at {
            return Err(FaultKind::Unsupported);
        }
        if self.position == self.data.len() || buffer.is_empty() {
            return Ok(0);
        }
        buffer[0] = self.data[self.position];
        self.position += 1;
        Ok(1)
    }

    fn read_exact(&mut self, _buffer: &mut [u8]) -> Result<(), FaultKind> {
        Err(FaultKind::Unsupported)
    }
}

/// Fails after some calls.
struct Brittle {
    calls: usize,
    good: usize,
    bytes: Vec<u8>,
}

impl ByteSink<FaultKind> for Brittle {
    fn history(&self) -> SinkHistory<FaultKind> {
        unreachable!()
    }

    fn write_all(&mut self, bytes: &[u8]) -> Result<(), FaultKind> {
        self.calls += 1;
        if self.calls > self.good {
            return Err(FaultKind::Other);
        }
        self.bytes.extend_from_slice(bytes);
        Ok(())
    }

    fn flush(&mut self) -> Result<(), FaultKind> {
        self.calls += 1;
        if self.calls > self.good {
            return Err(FaultKind::Other);
        }
        Ok(())
    }
}

#[test]
fn stream_names_match_cross_runtime_contract() {
    assert_eq!(LogStream::Stdout.as_str(), "stdout");
    assert_eq!(LogStream::Stderr.as_str(), "stderr");
}

#[test]
fn preserves_original_bytes_while_exporting_redacted_copy() {
    let input = b"before secret after\n";
    let mut reader = MemorySource::new(input.to_vec());
    let mut mirror = MemorySink::new();
    let mut exported = MemoryExporter::new();

    let report = tee_stream(
        &mut reader,
        &mut mirror,
        LogStream::Stdout,
        &mut HideSecret,
        &mut exported,
    )
    .unwrap();

    assert_eq!(mirror.contents(), input);
    assert_eq!(
        exported.chunks(),
        &[StoredChunk {
            stream: LogStream::Stdout,
            sequence: 0,
            bytes: b"before [REDACTED] after\n".to_vec(),
            redacted: true,
            truncated: false,
        }]
    );
    assert_eq!(report.mirrored_bytes, input.len() as u64);
    assert_eq!(report.export_attempts, 1);
    assert_eq!(report.export_failures, 0);
}

#[test]
fn exporter_failure_is_fail_open_for_native_log_stream() {
    let input = b"build output stays visible\n";
    let mut reader = MemorySource::new(input.to_vec());
    let mut mirror = MemorySink::new();

    let report = tee_stream(
        &mut reader,
        &mut mirror,
        LogStream::Stderr,
        &mut PlainCopy::new(),
        &mut Refuse { seen: 0 },
    )
    .unwrap();

    assert_eq!(mirror.contents(), input);
    assert_eq!(report.export_attempts, 1);
    assert_eq!(report.export_failures, 1);
}

#[test]
fn bounds_export_chunks_and_keeps_monotonic_per_stream_sequence() {
    let input = vec![b'x'; MAX_READ_CHUNK_BYTES * 2 + 3];
    let mut reader = MemorySource::new(input.clone());
    let mut mirror = MemorySink::new();
    let mut seen = MemoryExporter::new();

    let report = tee_stream(
        &mut reader,
        &mut mirror,
        LogStream::Stdout,
        &mut PlainCopy::new(),
        &mut seen,
    )
    .unwrap();

    assert_eq!(mirror.contents(), input);
    let seen: Vec<(u32, usize, bool)> = seen
        .chunks()
        .iter()
        .map(|chunk| (chunk.sequence, chunk.bytes.len(), chunk.truncated))
        .collect();
    assert_eq!(
        seen,
        vec![
            (0, MAX_READ_CHUNK_BYTES, false),
            (1, MAX_READ_CHUNK_BYTES, false),
            (2, 3, false),
        ]
    );
    assert_eq!(report.export_attempts, 3);
}

#[test]
fn truncates_redactor_expansion_before_export() {
    let input = b"x";
    let mut reader = MemorySource::new(input.to_vec());
    let mut mirror = MemorySink::new();
    let mut exported = MemoryExporter::new();

    let report = tee_stream(
        &mut reader,
        &mut mirror,
        LogStream::Stdout,
        &mut Expand(MAX_EXPORT_CHUNK_BYTES + 50),
        &mut exported,
    )
    .unwrap();

    assert_eq!(mirror.contents(), input);
    let observed: Vec<(usize, bool, bool)> = exported
        .chunks()
        .iter()
        .map(|chunk| (chunk.bytes.len(), chunk.redacted, chunk.truncated))
        .collect();
    assert_eq!(observed, vec![(MAX_EXPORT_CHUNK_BYTES, true, true)]);
    assert_eq!(report.truncated_exports, 1);
}

#[test]
fn limits_have_their_documented_values() {
    assert_eq!(MAX_READ_CHUNK_BYTES, 8192);
    assert_eq!(MAX_EXPORT_CHUNK_BYTES, 16384);
}

#[test]
fn a_copy_at_the_ceiling_is_not_truncated() {
    let mut exported = MemoryExporter::new();
    let report = tee_stream(
        &mut MemorySource::new(b"x".to_vec()),
        &mut MemorySink::new(),
        LogStream::Stderr,
        &mut Expand(MAX_EXPORT_CHUNK_BYTES),
        &mut exported,
    )
    .unwrap();
    assert_eq!(report.truncated_exports, 0);
    assert!(!exported.chunks()[0].truncated);
    assert_eq!(exported.chunks()[0].bytes.len(), MAX_EXPORT_CHUNK_BYTES);
    assert_eq!(exported.chunks()[0].stream, LogStream::Stderr);
}

#[test]
fn an_empty_source_is_flushed_and_reported_as_nothing() {
    let mut mirror = Brittle { calls: 0, good: 1, bytes: Vec::new() };
    let report = tee_stream(
        &mut MemorySource::new(Vec::new()),
        &mut mirror,
        LogStream::Stdout,
        &mut PlainCopy::new(),
        &mut Refuse { seen: 0 },
    )
    .unwrap();
    assert_eq!(report, TeeReport::default());
    assert_eq!(mirror.calls, 1);
}

#[test]
fn short_reads_are_exported_as_they_come() {
    let mut reader = Drip { data: b"abc".to_vec(), position: 0, fail_at: 100 };
    let mut mirror = MemorySink::new();
    let mut exporter = Refuse { seen: 0 };
    let report = tee_stream(
        &mut reader,
        &mut mirror,
        LogStream::Stdout,
        &mut PlainCopy::new(),
        &mut exporter,
    )
    .unwrap();
    assert_eq!(mirror.contents(), b"abc");
    assert_eq!(exporter.seen, 3);
    assert_eq!(
        report,
        TeeReport {
            mirrored_bytes: 3,
            export_attempts: 3,
            export_failures: 3,
            truncated_exports: 0,
        }
    );
}

#[test]
fn a_source_failure_is_fatal_after_what_was_mirrored() {
    let mut reader = Drip { data: b"abc".to_vec(), position: 0, fail_at: 2 };
    let mut mirror = MemorySink::new();
    let mut exporter = Refuse { seen: 0 };
    let result = tee_stream(
        &mut reader,
        &mut mirror,
        LogStream::Stdout,
        &mut PlainCopy::new(),
        &mut exporter,
    );
    assert_eq!(result, Err(CopyError::Endpoint(FaultKind::Unsupported)));
    assert_eq!(mirror.contents(), b"ab");
    assert_eq!(exporter.seen, 2);
}

#[test]
fn a_chunk_that_the_mirror_refuses_is_not_exported() {
    for good in [0, 1] {
        let mut mirror = Brittle { calls: 0, good, bytes: Vec::new() };
        let mut exporter = Refuse { seen: 0 };
        let result = tee_stream(
            &mut MemorySource::new(b"abc".to_vec()),
            &mut mirror,
            LogStream::Stdout,
            &mut PlainCopy::new(),
            &mut exporter,
        );
        assert_eq!(result, Err(CopyError::Endpoint(FaultKind::Other)));
        assert_eq!(exporter.seen, 0);
        assert_eq!(mirror.calls, good + 1);
    }
}

#[test]
fn a_last_flush_that_fails_is_fatal() {
    let mut mirror = Brittle { calls: 0, good: 2, bytes: Vec::new() };
    let result = tee_stream(
        &mut MemorySource::new(b"abc".to_vec()),
        &mut mirror,
        LogStream::Stdout,
        &mut PlainCopy::new(),
        &mut MemoryExporter::new(),
    );
    assert_eq!(result, Err(CopyError::Endpoint(FaultKind::Other)));
    assert_eq!(mirror.bytes, b"abc");
}

#[test]
fn counters_do_not_wrap() {
    let mut progress = TeeProgress::new();
    progress.report.mirrored_bytes = u64::MAX - 1;
    assert_eq!(progress.count_mirrored(1), Ok(()));
    assert_eq!(progress.count_mirrored(1), Err(Fault::MirroredByteOverflow));
    progress.report.truncated_exports = u64::MAX;
    let mut long = vec![7u8; MAX_EXPORT_CHUNK_BYTES + 1];
    assert_eq!(progress.clip(&mut long), Err(Fault::TruncatedExportOverflow));
    let mut short = vec![7u8; 3];
    assert_eq!(progress.clip(&mut short), Ok(false));
    assert_eq!(short.len(), 3);
    progress.report.export_attempts = u64::MAX;
    assert_eq!(progress.count_attempt(), Err(Fault::ExportAttemptOverflow));
    progress.report.export_failures = u64::MAX;
    assert_eq!(progress.settle(true), Ok(()));
    assert_eq!(progress.settle(false), Err(Fault::ExportFailureOverflow));
    progress.sequence = u32::MAX;
    assert_eq!(progress.advance(), Err(Fault::SequenceOverflow));
}

/// Endpoints that share one record of the calls made on them.
#[derive(Clone)]
struct Recorder(std::rc::Rc<std::cell::RefCell<Vec<String>>>);

struct RecordingSource(Recorder, MemorySource);

impl ByteSource<FaultKind> for RecordingSource {
    fn history(&self) -> SourceHistory<FaultKind> {
        unreachable!()
    }

    fn unread(&self) -> ByteBound {
        unreachable!()
    }

    fn last_buffer(&self) -> BufferUse {
        unreachable!()
    }

    fn read(&mut self, buffer: &mut [u8]) -> Result<usize, FaultKind> {
        let result = self.1.read(buffer);
        self.0 .0.borrow_mut().push(format!("read {}", result.unwrap_or(0)));
        result
    }

    fn read_exact(&mut self, _buffer: &mut [u8]) -> Result<(), FaultKind> {
        Err(FaultKind::Unsupported)
    }
}

impl ByteSink<FaultKind> for Recorder {
    fn history(&self) -> SinkHistory<FaultKind> {
        unreachable!()
    }

    fn write_all(&mut self, bytes: &[u8]) -> Result<(), FaultKind> {
        self.0.borrow_mut().push(format!("write {}", bytes.len()));
        Ok(())
    }

    fn flush(&mut self) -> Result<(), FaultKind> {
        self.0.borrow_mut().push("flush".to_string());
        Ok(())
    }
}

impl Redactor for Recorder {
    fn history(&self) -> RedactionHistory {
        unreachable!()
    }

    fn redact(&mut self, input: &[u8], output: &mut Vec<u8>) -> bool {
        self.0.borrow_mut().push(format!("redact {}", input.len()));
        output.extend_from_slice(input);
        false
    }
}

impl Exporter for Recorder {
    fn history(&self) -> ExportHistory {
        unreachable!()
    }

    fn export(&mut self, chunk: ExportChunk<'_>) -> Result<(), ()> {
        self.0.borrow_mut().push(format!("export {}", chunk.sequence));
        Err(())
    }
}

#[test]
fn each_chunk_is_exported_before_the_next_is_read() {
    let calls = Recorder(std::rc::Rc::new(std::cell::RefCell::new(Vec::new())));
    let data = MemorySource::new(vec![b'x'; MAX_READ_CHUNK_BYTES + 1]);
    let report = tee_stream(
        &mut RecordingSource(calls.clone(), data),
        &mut calls.clone(),
        LogStream::Stdout,
        &mut calls.clone(),
        &mut calls.clone(),
    )
    .unwrap();
    assert_eq!(report.export_failures, 2);
    assert_eq!(
        *calls.0.borrow(),
        vec![
            "read 8192", "write 8192", "flush", "redact 8192", "export 0",
            "read 1", "write 1", "flush", "redact 1", "export 1",
            "read 0", "flush",
        ]
    );
}
