use gha_indie_worker_sidecar::endpoint::{
    BufferUse, ByteBound, ByteSink, ByteSource, LineSource, SinkHistory, SourceHistory,
};
use gha_indie_worker_sidecar::fault::{CopyError, Fault, FaultKind};
use gha_indie_worker_sidecar::log_tee::LogStream;
use gha_indie_worker_sidecar::memory::{MemoryLines, MemorySink, MemorySource};
use gha_indie_worker_sidecar::pipe::frames::{
    copy_frames, legacy_outcome, parse_frame_header, read_exact_or_eof, FrameHeader,
    FRAME_HEADER_BYTES, FRAME_VERSION, STREAM_STDERR, STREAM_STDOUT,
};
use gha_indie_worker_sidecar::pipe::metadata::copy_metadata;
use gha_indie_worker_sidecar::pipe::{CopyStats, MAX_FRAME_BYTES};

const FRAME_MAGIC: &[u8; 4] = b"GHLG";

fn frame(stream: u8, payload: &[u8]) -> Vec<u8> {
    let mut bytes = Vec::new();
    bytes.extend_from_slice(FRAME_MAGIC);
    bytes.push(FRAME_VERSION);
    bytes.push(stream);
    bytes.extend_from_slice(&(payload.len() as u32).to_be_bytes());
    bytes.extend_from_slice(payload);
    bytes
}

fn refusal(input: Vec<u8>) -> CopyError<FaultKind> {
    copy_frames(
        &mut MemorySource::new(input),
        &mut MemorySink::new(),
        &mut MemorySink::new(),
    )
    .unwrap_err()
}

/// Hands out at most three bytes at a time.
struct Slow(MemorySource);

impl ByteSource<FaultKind> for Slow {
    fn history(&self) -> SourceHistory<FaultKind> {
        unreachable!()
    }

    fn unread(&self) -> ByteBound {
        unreachable!()
    }

    fn last_buffer(&self) -> BufferUse {
        unreachable!()
    }

    fn read(&mut self, buffer: &mut [u8]) -> Result<usize, FaultKind> {
        let limit = buffer.len().min(3);
        self.0.read(&mut buffer[..limit])
    }

    fn read_exact(&mut self, buffer: &mut [u8]) -> Result<(), FaultKind> {
        self.0.read_exact(buffer)
    }
}

/// Fails at once.
struct Broken;

impl ByteSource<FaultKind> for Broken {
    fn history(&self) -> SourceHistory<FaultKind> {
        unreachable!()
    }

    fn unread(&self) -> ByteBound {
        unreachable!()
    }

    fn last_buffer(&self) -> BufferUse {
        unreachable!()
    }

    fn read(&mut self, _buffer: &mut [u8]) -> Result<usize, FaultKind> {
        Err(FaultKind::Other)
    }

    fn read_exact(&mut self, _buffer: &mut [u8]) -> Result<(), FaultKind> {
        Err(FaultKind::Other)
    }
}

impl ByteSink<FaultKind> for Broken {
    fn history(&self) -> SinkHistory<FaultKind> {
        unreachable!()
    }

    fn write_all(&mut self, _bytes: &[u8]) -> Result<(), FaultKind> {
        Err(FaultKind::Other)
    }

    fn flush(&mut self) -> Result<(), FaultKind> {
        Err(FaultKind::Other)
    }
}

#[test]
fn routes_legacy_stdout_and_stderr_frames_without_text_decoding() {
    let mut input = frame(STREAM_STDOUT, b"hello\n");
    input.extend(frame(STREAM_STDERR, &[0xff, 0x00, b'\n']));
    let mut stdout = MemorySink::new();
    let mut stderr = MemorySink::new();
    let stats = copy_frames(&mut MemorySource::new(input), &mut stdout, &mut stderr).unwrap();

    assert_eq!(stdout.contents(), b"hello\n");
    assert_eq!(stderr.contents(), vec![0xff, 0x00, b'\n']);
    assert_eq!(
        stats,
        CopyStats {
            frames: 2,
            bytes: 9
        }
    );
}

#[test]
fn rejects_oversized_and_truncated_legacy_frames() {
    let mut oversized = Vec::new();
    oversized.extend_from_slice(FRAME_MAGIC);
    oversized.push(FRAME_VERSION);
    oversized.push(STREAM_STDOUT);
    oversized.extend_from_slice(&((MAX_FRAME_BYTES as u32) + 1).to_be_bytes());
    assert_eq!(refusal(oversized).kind(), FaultKind::InvalidData);

    let truncated = b"GHLG\x01".to_vec();
    assert_eq!(refusal(truncated).kind(), FaultKind::UnexpectedEof);
}

#[test]
fn prefixes_legacy_metadata_without_rewriting_json() {
    let mut output = MemorySink::new();
    copy_metadata(
        &mut MemoryLines::new(b"{\"event\":\"command_started\"}\n".to_vec()),
        &mut output,
    )
    .unwrap();
    assert_eq!(
        output.contents(),
        b"[ghaiw-meta] {\"event\":\"command_started\"}\n"
    );
}

#[test]
fn metadata_lines_are_marked_one_by_one_and_completed() {
    let mut output = MemorySink::new();
    copy_metadata(
        &mut MemoryLines::new(b"one\n\n\xff\x00".to_vec()),
        &mut output,
    )
    .unwrap();
    assert_eq!(
        output.contents(),
        b"[ghaiw-meta] one\n[ghaiw-meta] \n[ghaiw-meta] \xff\x00\n"
    );
    assert_eq!(
        copy_metadata(&mut MemoryLines::new(b"one\n".to_vec()), &mut Broken),
        Err(CopyError::Endpoint(FaultKind::Other))
    );
}

#[test]
fn each_broken_header_rule_has_its_fault() {
    let good = frame(STREAM_STDERR, b"x");
    for (at, value, fault) in [
        (0, b'X', Fault::FrameMagic),
        (3, b'X', Fault::FrameMagic),
        (4, 2, Fault::FrameVersion),
        (5, 0, Fault::FrameStream),
        (5, 3, Fault::FrameStream),
        (6, 1, Fault::FrameTooLong),
    ] {
        let mut bad = good.clone();
        bad[at] = value;
        assert_eq!(refusal(bad), CopyError::Fault(fault));
    }
    assert_eq!(
        refusal(good[..FRAME_HEADER_BYTES - 1].to_vec()),
        CopyError::Fault(Fault::FrameHeaderTruncated)
    );
    assert_eq!(
        refusal(good[..FRAME_HEADER_BYTES].to_vec()),
        CopyError::Endpoint(FaultKind::UnexpectedEof)
    );
}

#[test]
fn header_length_is_big_endian_and_bounded() {
    let header = [b'G', b'H', b'L', b'G', 1, 2, 0, 0, 0x12, 0x34];
    assert_eq!(
        parse_frame_header(&header),
        Ok(FrameHeader { stream: LogStream::Stderr, len: 0x1234 })
    );
    let largest = [b'G', b'H', b'L', b'G', 1, 1, 0, 1, 0, 0];
    assert_eq!(
        parse_frame_header(&largest),
        Ok(FrameHeader { stream: LogStream::Stdout, len: MAX_FRAME_BYTES })
    );
}

#[test]
fn frames_before_a_bad_one_stay_routed() {
    let mut input = frame(STREAM_STDOUT, b"kept");
    input.extend_from_slice(b"garbage!!!");
    let mut stdout = MemorySink::new();
    let mut stderr = MemorySink::new();
    let result = copy_frames(&mut MemorySource::new(input), &mut stdout, &mut stderr);
    assert_eq!(result, Err(CopyError::Fault(Fault::FrameMagic)));
    assert_eq!(stdout.contents(), b"kept");
    assert_eq!(stderr.contents(), b"");
}

#[test]
fn frames_survive_short_reads_and_may_be_empty() {
    let mut input = frame(STREAM_STDOUT, b"");
    input.extend(frame(STREAM_STDOUT, b"ab"));
    let mut stdout = MemorySink::new();
    let stats = copy_frames(
        &mut Slow(MemorySource::new(input)),
        &mut stdout,
        &mut MemorySink::new(),
    )
    .unwrap();
    assert_eq!(stdout.contents(), b"ab");
    assert_eq!(stats, CopyStats { frames: 2, bytes: 2 });
}

#[test]
fn filling_a_buffer_tells_the_end_from_a_cut() {
    let mut buffer = [0u8; 4];
    let mut empty = MemorySource::new(Vec::new());
    assert_eq!(read_exact_or_eof(&mut empty, &mut buffer), Ok(false));
    assert_eq!(read_exact_or_eof(&mut empty, &mut []), Ok(true));
    let mut five = Slow(MemorySource::new(b"abcde".to_vec()));
    assert_eq!(read_exact_or_eof(&mut five, &mut buffer), Ok(true));
    assert_eq!(&buffer, b"abcd");
    assert_eq!(
        read_exact_or_eof(&mut five, &mut buffer),
        Err(CopyError::Fault(Fault::FrameHeaderTruncated))
    );
    assert_eq!(
        read_exact_or_eof(&mut Broken, &mut buffer),
        Err(CopyError::Endpoint(FaultKind::Other))
    );
}

/// Scribbles over the whole buffer before it fails, after a first byte.
struct Scribble {
    fresh: bool,
}

impl ByteSource<FaultKind> for Scribble {
    fn history(&self) -> SourceHistory<FaultKind> {
        unreachable!()
    }

    fn unread(&self) -> ByteBound {
        unreachable!()
    }

    fn last_buffer(&self) -> BufferUse {
        unreachable!()
    }

    fn read(&mut self, buffer: &mut [u8]) -> Result<usize, FaultKind> {
        if self.fresh {
            self.fresh = false;
            buffer[0] = b'a';
            return Ok(1);
        }
        buffer.fill(b'z');
        Err(FaultKind::Other)
    }

    fn read_exact(&mut self, _buffer: &mut [u8]) -> Result<(), FaultKind> {
        Err(FaultKind::Other)
    }
}

#[test]
fn a_buffer_that_is_not_filled_keeps_what_came_in() {
    let mut buffer = *b"wxyz";
    let mut empty = MemorySource::new(Vec::new());
    assert_eq!(read_exact_or_eof(&mut empty, &mut buffer), Ok(false));
    assert_eq!(&buffer, b"wxyz");
    let mut two = MemorySource::new(b"ab".to_vec());
    assert_eq!(
        read_exact_or_eof(&mut two, &mut buffer),
        Err(CopyError::Fault(Fault::FrameHeaderTruncated))
    );
    assert_eq!(&buffer, b"abyz");
    let mut buffer = *b"wxyz";
    assert_eq!(
        read_exact_or_eof(&mut Scribble { fresh: true }, &mut buffer),
        Err(CopyError::Endpoint(FaultKind::Other))
    );
    assert_eq!(&buffer, b"azzz");
}

#[test]
fn memory_accounts_for_its_bytes() {
    let mut source = MemorySource::new(b"abcde".to_vec());
    let mut buffer = [0u8; 2];
    assert_eq!(source.read(&mut buffer), Ok(2));
    assert_eq!(source.rest(), b"cde");
    let mut four = [0u8; 4];
    assert_eq!(source.read_exact(&mut four), Err(FaultKind::UnexpectedEof));
    assert_eq!(source.rest(), b"cde");
    assert_eq!(source.read(&mut four), Ok(3));
    assert_eq!(source.read(&mut four), Ok(0));
    assert_eq!(source.rest(), b"");

    let mut lines = MemoryLines::new(b"a\nbc".to_vec());
    let mut line = b">".to_vec();
    assert_eq!(lines.read_until(b'\n', &mut line), Ok(2));
    assert_eq!(line, b">a\n");
    assert_eq!(lines.rest(), b"bc");
    assert_eq!(lines.read_until(b'\n', &mut line), Ok(2));
    assert_eq!(lines.read_until(b'\n', &mut line), Ok(0));
    assert_eq!(line, b">a\nbc");
}

#[test]
fn an_output_that_fails_ends_the_copy() {
    let mut stdout = MemorySink::new();
    let mut input = frame(STREAM_STDERR, b"x");
    input.extend(frame(STREAM_STDOUT, b"y"));
    assert_eq!(
        copy_frames(&mut MemorySource::new(input), &mut stdout, &mut Broken),
        Err(CopyError::Endpoint(FaultKind::Other))
    );
    assert_eq!(stdout.contents(), b"");
}

#[test]
fn the_metadata_lane_decides_first() {
    let fine = CopyStats { frames: 1, bytes: 1 };
    let broken = CopyError::Endpoint(FaultKind::Other);
    assert_eq!(legacy_outcome::<FaultKind>(Some(Ok(())), Ok(fine)), Ok(true));
    assert_eq!(
        legacy_outcome(Some(Ok(())), Err(CopyError::Fault::<FaultKind>(Fault::FrameMagic))),
        Err(CopyError::Fault(Fault::FrameMagic))
    );
    assert_eq!(
        legacy_outcome(Some(Err(broken)), Err(CopyError::Fault(Fault::FrameMagic))),
        Err(CopyError::Endpoint(FaultKind::Other))
    );
    assert_eq!(
        legacy_outcome::<FaultKind>(None, Ok(fine)),
        Err(CopyError::Fault(Fault::MetadataThreadPanicked))
    );
}

#[test]
fn counts_stop_at_their_maximum() {
    let mut stats = CopyStats { frames: u64::MAX, bytes: u64::MAX - 1 };
    stats.count(5);
    assert_eq!(stats, CopyStats { frames: u64::MAX, bytes: u64::MAX });
    let mut stats = CopyStats::default();
    stats.count(5);
    assert_eq!(stats, CopyStats { frames: 1, bytes: 5 });
}
