use gha_indie_worker_sidecar::fault::{CopyError, Fault, FaultKind};
use gha_indie_worker_sidecar::log_tee::LogStream;
use gha_indie_worker_sidecar::memory::{MemoryLines, MemorySink, MemorySource};
use gha_indie_worker_sidecar::pipe::contract::{
    chunk_order, copy_contract_streams, line_text, BuildLogEvent, BuildLogMetadata,
    BuildLogStream, ChunkOrder, MAX_METADATA_LINE_BYTES,
};
use gha_indie_worker_sidecar::pipe::descriptor::BUILD_LOG_PROTOCOL;
use gha_indie_worker_sidecar::pipe::{CopyStats, MAX_FRAME_BYTES};

/// Decodes the flat objects that these tests write, and rejects every other field.
fn decode(text: &str) -> Option<BuildLogMetadata> {
    let body = text.strip_suffix("}\n")?.strip_prefix('{')?;
    let mut event = None;
    let mut stream = None;
    let mut byte_length = None;
    let mut version = None;
    for field in body.split(',') {
        let (name, value) = field.split_once(':')?;
        match name {
            "\"schemaVersion\"" => version = Some(value.trim_matches('"').to_string()),
            "\"event\"" => {
                event = Some(match value {
                    "\"chunk\"" => BuildLogEvent::Chunk,
                    "\"dropped\"" => BuildLogEvent::Dropped,
                    "\"receiver_closed\"" => BuildLogEvent::ReceiverClosed,
                    "\"stream_closed\"" => BuildLogEvent::StreamClosed,
                    _ => return None,
                })
            }
            "\"stream\"" => {
                stream = Some(match value {
                    "\"stdout\"" => BuildLogStream::Stdout,
                    "\"stderr\"" => BuildLogStream::Stderr,
                    "\"worker\"" => BuildLogStream::Worker,
                    _ => return None,
                })
            }
            "\"byteLength\"" => byte_length = Some(value.parse().ok()?),
            "\"jobId\"" | "\"sequence\"" | "\"timestamp\"" => {}
            _ => return None,
        }
    }
    if version? != BUILD_LOG_PROTOCOL {
        return None;
    }
    Some(BuildLogMetadata {
        event: event?,
        stream: stream?,
        byte_length: byte_length?,
    })
}

fn contract_line(event: &str, stream: &str, sequence: u32, byte_length: u32) -> String {
    format!(
        "{{\"schemaVersion\":\"{BUILD_LOG_PROTOCOL}\",\"event\":\"{event}\",\"jobId\":\"build-1\",\"stream\":\"{stream}\",\"sequence\":{sequence},\"byteLength\":{byte_length},\"timestamp\":\"2026-09-09T19:45:00Z\"}}\n"
    )
}

fn refusal(metadata: &[u8], data: &[u8]) -> CopyError<FaultKind> {
    copy_contract_streams(
        &mut MemoryLines::new(metadata.to_vec()),
        &mut MemorySource::new(data.to_vec()),
        &mut MemorySink::new(),
        &mut MemorySink::new(),
        decode,
    )
    .unwrap_err()
}

#[test]
fn routes_contract_stdout_and_stderr_without_text_decoding() {
    let mut metadata = contract_line("chunk", "stdout", 1, 6);
    metadata.push_str(&contract_line("chunk", "stderr", 1, 3));
    metadata.push_str(&contract_line("stream_closed", "stdout", 2, 0));
    let mut stdout = MemorySink::new();
    let mut stderr = MemorySink::new();
    let stats = copy_contract_streams(
        &mut MemoryLines::new(metadata.into_bytes()),
        &mut MemorySource::new([b"hello\n".as_slice(), &[0xff, 0x00, b'\n']].concat()),
        &mut stdout,
        &mut stderr,
        decode,
    )
    .unwrap();

    assert_eq!(stdout.contents(), b"hello\n");
    assert_eq!(stderr.contents(), vec![0xff, 0x00, b'\n']);
    assert_eq!(
        stats,
        CopyStats {
            frames: 2,
            bytes: 9
        }
    );
}

#[test]
fn contract_rejects_unknown_or_credential_fields() {
    let credential = format!(
        "{{\"schemaVersion\":\"{BUILD_LOG_PROTOCOL}\",\"event\":\"chunk\",\"jobId\":\"build-1\",\"stream\":\"stdout\",\"sequence\":1,\"byteLength\":1,\"timestamp\":\"2026-09-09T19:45:00Z\",\"accessToken\":\"forbidden\"}}\n"
    );
    assert_eq!(
        refusal(credential.as_bytes(), b"x").kind(),
        FaultKind::InvalidData
    );
}

#[test]
fn contract_rejects_wrong_version_and_oversized_chunk() {
    let wrong_version = "{\"schemaVersion\":\"gha-indie-worker.build-log-metadata/v0\",\"event\":\"chunk\",\"jobId\":\"build-1\",\"stream\":\"stdout\",\"sequence\":1,\"byteLength\":1,\"timestamp\":\"2026-09-09T19:45:00Z\"}\n";
    assert_eq!(
        refusal(wrong_version.as_bytes(), b"x").kind(),
        FaultKind::InvalidData
    );

    let oversized = contract_line("chunk", "stdout", 1, (MAX_FRAME_BYTES as u32) + 1);
    assert_eq!(
        refusal(oversized.as_bytes(), b"").kind(),
        FaultKind::InvalidData
    );
}

#[test]
fn contract_rejects_truncated_raw_data_and_metadata() {
    let metadata = contract_line("chunk", "stdout", 1, 5);
    assert_eq!(
        refusal(metadata.as_bytes(), b"abc").kind(),
        FaultKind::UnexpectedEof
    );

    let truncated_metadata = contract_line("stream_closed", "stdout", 2, 0)
        .trim_end_matches('\n')
        .as_bytes()
        .to_vec();
    assert_eq!(
        refusal(&truncated_metadata, b"").kind(),
        FaultKind::UnexpectedEof
    );
}

#[test]
fn contract_requires_worker_drop_receipts_and_zero_lifecycle_bytes() {
    let invalid_drop = contract_line("dropped", "stdout", 1, 0);
    assert_eq!(
        refusal(invalid_drop.as_bytes(), b"").kind(),
        FaultKind::InvalidData
    );

    let lifecycle_with_data = contract_line("stream_closed", "stdout", 2, 1);
    assert_eq!(
        refusal(lifecycle_with_data.as_bytes(), b"x").kind(),
        FaultKind::InvalidData
    );
}

#[test]
fn each_broken_metadata_rule_has_its_fault() {
    let line = |event: &str, stream: &str, len: u32| contract_line(event, stream, 1, len);
    let cases = [
        (line("chunk", "worker", 1), Fault::WorkerChunk),
        (line("chunk", "stdout", 0), Fault::ChunkOutOfBounds),
        (line("chunk", "stderr", 65537), Fault::ChunkOutOfBounds),
        (line("dropped", "worker", 1), Fault::DropReceipt),
        (line("dropped", "stderr", 0), Fault::DropReceipt),
        (line("receiver_closed", "worker", 1), Fault::LifecycleBytes),
        ("{}\n".to_string(), Fault::MetadataRejected),
        ("\n".to_string(), Fault::MetadataRejected),
        ("{".to_string(), Fault::MetadataLineTruncated),
        ("x".repeat(MAX_METADATA_LINE_BYTES + 1), Fault::MetadataLineTooLong),
    ];
    for (metadata, fault) in cases {
        assert_eq!(refusal(metadata.as_bytes(), b"xx"), CopyError::Fault(fault));
    }
    assert_eq!(
        refusal(b"\xff\n", b"xx"),
        CopyError::Fault(Fault::MetadataNotUtf8)
    );
}

#[test]
fn a_line_at_the_bound_is_taken_and_text_is_decoded() {
    let mut line = vec![b'x'; MAX_METADATA_LINE_BYTES - 1];
    line.push(b'\n');
    assert_eq!(line_text(&line).map(|text| text.len()), Ok(16384));
    assert_eq!(line_text("gr\u{fc}n \u{1f600}\n".as_bytes()), Ok("gr\u{fc}n \u{1f600}\n"));
    assert_eq!(line_text(b"gr\xfcn\n"), Err(Fault::MetadataNotUtf8));
    assert_eq!(line_text(b""), Err(Fault::MetadataLineTruncated));
}

#[test]
fn chunk_lengths_are_bounded() {
    let chunk = |byte_length: i128| {
        chunk_order(&BuildLogMetadata {
            event: BuildLogEvent::Chunk,
            stream: BuildLogStream::Stderr,
            byte_length,
        })
    };
    assert_eq!(chunk(-1), Err(Fault::ByteLengthInvalid));
    assert_eq!(chunk(1 << 64), Err(Fault::ByteLengthInvalid));
    assert_eq!(chunk(1), Ok(Some(ChunkOrder { stream: LogStream::Stderr, len: 1 })));
    assert_eq!(chunk(65536), Ok(Some(ChunkOrder { stream: LogStream::Stderr, len: 65536 })));
    assert_eq!(chunk(65537), Err(Fault::ChunkOutOfBounds));
}

#[test]
fn metadata_and_surplus_data_stay_off_the_outputs() {
    let mut metadata = contract_line("chunk", "stderr", 1, 2);
    metadata.push_str(&contract_line("dropped", "worker", 2, 0));
    metadata.push_str(&contract_line("receiver_closed", "worker", 3, 0));
    let mut stdout = MemorySink::new();
    let mut stderr = MemorySink::new();
    let stats = copy_contract_streams(
        &mut MemoryLines::new(metadata.into_bytes()),
        &mut MemorySource::new(b"abcdef".to_vec()),
        &mut stdout,
        &mut stderr,
        decode,
    );
    assert_eq!(stats, Ok(CopyStats { frames: 1, bytes: 2 }));
    assert_eq!(stdout.contents(), b"");
    assert_eq!(stderr.contents(), b"ab");
}

#[test]
fn no_data_is_read_for_a_refused_line() {
    let mut metadata = contract_line("chunk", "stdout", 1, 1);
    metadata.push_str(&contract_line("chunk", "worker", 2, 2));
    metadata.push_str(&contract_line("chunk", "stdout", 3, 2));
    let mut stdout = MemorySink::new();
    let result = copy_contract_streams(
        &mut MemoryLines::new(metadata.into_bytes()),
        &mut MemorySource::new(b"abcdef".to_vec()),
        &mut stdout,
        &mut MemorySink::new(),
        decode,
    );
    assert_eq!(result, Err(CopyError::Fault(Fault::WorkerChunk)));
    assert_eq!(stdout.contents(), b"a");
}

/// What a copy in memory returns, leaves in its two sinks and leaves of its data.
fn copied(
    metadata: &str,
    data: &[u8],
) -> (Result<CopyStats, CopyError<FaultKind>>, Vec<u8>, Vec<u8>, Vec<u8>) {
    let mut source = MemorySource::new(data.to_vec());
    let mut stdout = MemorySink::new();
    let mut stderr = MemorySink::new();
    let result = copy_contract_streams(
        &mut MemoryLines::new(metadata.as_bytes().to_vec()),
        &mut source,
        &mut stdout,
        &mut stderr,
        decode,
    );
    (
        result,
        stdout.contents().to_vec(),
        stderr.contents().to_vec(),
        source.rest().to_vec(),
    )
}

#[test]
fn a_line_without_chunk_changes_nothing_wherever_it_comes() {
    let lines = [
        contract_line("chunk", "stdout", 1, 2),
        contract_line("chunk", "stderr", 2, 3),
        contract_line("chunk", "stdout", 3, 1),
    ];
    let quiet = [
        contract_line("dropped", "worker", 9, 0),
        contract_line("receiver_closed", "worker", 9, 0),
        contract_line("receiver_closed", "stderr", 9, 0),
        contract_line("stream_closed", "stdout", 9, 0),
    ];
    let cases: [(&[u8], _); 2] = [
        (
            b"abcdefgh",
            (
                Ok(CopyStats { frames: 3, bytes: 6 }),
                b"abf".to_vec(),
                b"cde".to_vec(),
                b"gh".to_vec(),
            ),
        ),
        (
            b"abcd",
            (
                Err(CopyError::Endpoint(FaultKind::UnexpectedEof)),
                b"ab".to_vec(),
                b"".to_vec(),
                b"cd".to_vec(),
            ),
        ),
    ];
    for (data, expected) in cases {
        assert_eq!(copied(&lines.concat(), data), expected);
        for line in &quiet {
            for at in 0..=lines.len() {
                let mut more = lines.to_vec();
                more.insert(at, line.clone());
                assert_eq!(copied(&more.concat(), data), expected);
            }
        }
    }
}

#[test]
fn acceptable_lines_and_their_data_are_copied_exactly() {
    assert_eq!(
        copied("", b"left"),
        (
            Ok(CopyStats { frames: 0, bytes: 0 }),
            b"".to_vec(),
            b"".to_vec(),
            b"left".to_vec()
        )
    );
    let mut metadata = contract_line("stream_closed", "stderr", 1, 0);
    metadata.push_str(&contract_line("chunk", "stderr", 2, 4));
    metadata.push_str(&contract_line("chunk", "stderr", 3, 1));
    metadata.push_str(&contract_line("chunk", "stdout", 4, 65536));
    let mut data = vec![0, 0xff, b'\n', 0x80, 7];
    data.extend_from_slice(&vec![b'z'; 65536]);
    let (result, stdout, stderr, rest) = copied(&metadata, &data);
    assert_eq!(result, Ok(CopyStats { frames: 3, bytes: 65541 }));
    assert_eq!(stdout, vec![b'z'; 65536]);
    assert_eq!(stderr, vec![0, 0xff, b'\n', 0x80, 7]);
    assert!(rest.is_empty());
}
