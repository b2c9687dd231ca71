//! Why the sidecar gives up on a stream.

use vstd::prelude::*;

verus! {

/// The broad class of a failure.
#[derive(Debug, Clone, Copy, PartialEq, Eq, Structural)]
pub enum FaultKind {
    /// The peer broke the protocol.
    InvalidData,
    /// The input ended in the middle of a unit.
    UnexpectedEof,
    /// The platform lacks the transport.
    Unsupported,
    /// Anything else.
    Other,
}

/// A rule of the sidecar that its input or its environment broke.
#[derive(Debug, Clone, Copy, PartialEq, Eq, Structural)]
pub enum Fault {
    /// The count of mirrored bytes would pass its maximum.
    MirroredByteOverflow,
    /// The count of truncated exports would pass its maximum.
    TruncatedExportOverflow,
    /// The count of export attempts would pass its maximum.
    ExportAttemptOverflow,
    /// The count of failed exports would pass its maximum.
    ExportFailureOverflow,
    /// No sequence number is left for another chunk.
    SequenceOverflow,
    /// The default descriptor is negative.
    DefaultDescriptor,
    /// The descriptor variable does not hold a number.
    DescriptorSyntax,
    /// The descriptor number is reserved or too large.
    DescriptorRange,
    /// Metadata and data are to come from one descriptor.
    DescriptorsCoincide,
    /// Paired descriptors do not exist on this platform.
    BuildLogUnsupported,
    /// The metadata descriptor does not exist on this platform.
    LegacyUnsupported,
    /// The thread that copies metadata died.
    MetadataThreadPanicked,
    /// A metadata line is longer than the receiver accepts.
    MetadataLineTooLong,
    /// The metadata ends inside a line.
    MetadataLineTruncated,
    /// A metadata line is not UTF-8.
    MetadataNotUtf8,
    /// A metadata line does not decode.
    MetadataRejected,
    /// A chunk claims to come from the worker itself.
    WorkerChunk,
    /// A chunk's length does not fit in memory.
    ByteLengthInvalid,
    /// A chunk is empty or longer than the receiver accepts.
    ChunkOutOfBounds,
    /// A drop receipt is not the worker's, or claims bytes.
    DropReceipt,
    /// A lifecycle event claims bytes.
    LifecycleBytes,
    /// A frame does not start with the magic number.
    FrameMagic,
    /// A frame has a version that the receiver does not know.
    FrameVersion,
    /// A frame names no stream.
    FrameStream,
    /// A frame is longer than the receiver accepts.
    FrameTooLong,
    /// The input ends inside a frame header.
    FrameHeaderTruncated,
}

impl Fault {
    /// The class of each fault.
    pub open spec fn spec_kind(self) -> FaultKind {
        match self {
            Fault::MirroredByteOverflow
            | Fault::TruncatedExportOverflow
            | Fault::ExportAttemptOverflow
            | Fault::ExportFailureOverflow
            | Fault::SequenceOverflow
            | Fault::MetadataThreadPanicked => FaultKind::Other,
            Fault::BuildLogUnsupported | Fault::LegacyUnsupported => FaultKind::Unsupported,
            Fault::MetadataLineTruncated | Fault::FrameHeaderTruncated => FaultKind::UnexpectedEof,
            _ => FaultKind::InvalidData,
        }
    }

    /// The words that go with each fault.
    pub open spec fn spec_message(self) -> Seq<char> {
        match self {
            Fault::MirroredByteOverflow => "mirrored byte counter overflow"@,
            Fault::TruncatedExportOverflow => "truncated export counter overflow"@,
            Fault::ExportAttemptOverflow => "export attempt counter overflow"@,
            Fault::ExportFailureOverflow => "export failure counter overflow"@,
            Fault::SequenceOverflow => "log sequence overflow"@,
            Fault::DefaultDescriptor => "invalid default fd"@,
            Fault::DescriptorSyntax => "invalid inherited descriptor"@,
            Fault::DescriptorRange => "inherited descriptor is outside the allowed range"@,
            Fault::DescriptorsCoincide => "metadata and data descriptors must differ"@,
            Fault::BuildLogUnsupported =>
                "dual build-log descriptors are not supported on this platform"@,
            Fault::LegacyUnsupported =>
                "FD 3 metadata transport is not supported on this platform"@,
            Fault::MetadataThreadPanicked => "metadata reader thread panicked"@,
            Fault::MetadataLineTooLong => "build-log metadata line exceeds maximum size"@,
            Fault::MetadataLineTruncated => "truncated build-log metadata line"@,
            Fault::MetadataNotUtf8 => "build-log metadata must be UTF-8 JSON"@,
            Fault::MetadataRejected => "build-log metadata failed contract validation"@,
            Fault::WorkerChunk => "worker stream cannot carry raw log chunks"@,
            Fault::ByteLengthInvalid => "invalid build-log byte length"@,
            Fault::ChunkOutOfBounds => "build-log chunk exceeds receiver bounds"@,
            Fault::DropReceipt => "invalid build-log drop receipt"@,
            Fault::LifecycleBytes => "lifecycle event cannot claim raw data bytes"@,
            Fault::FrameMagic => "invalid log-sidecar frame magic"@,
            Fault::FrameVersion => "unsupported log-sidecar frame version"@,
            Fault::FrameStream => "invalid log-sidecar stream id"@,
            Fault::FrameTooLong => "log-sidecar frame exceeds maximum size"@,
            Fault::FrameHeaderTruncated => "truncated log-sidecar frame header"@,
        }
    }

    /// The class of this fault.
    pub fn kind(&self) -> (kind: FaultKind)
        ensures
            kind == self.spec_kind(),
    {
        match self {
            Fault::MirroredByteOverflow
            | Fault::TruncatedExportOverflow
            | Fault::ExportAttemptOverflow
            | Fault::ExportFailureOverflow
            | Fault::SequenceOverflow
            | Fault::MetadataThreadPanicked => FaultKind::Other,
            Fault::BuildLogUnsupported | Fault::LegacyUnsupported => FaultKind::Unsupported,
            Fault::MetadataLineTruncated | Fault::FrameHeaderTruncated => FaultKind::UnexpectedEof,
            _ => FaultKind::InvalidData,
        }
    }

    /// What to tell an operator.
    pub fn message(&self) -> (message: &'static str)
        ensures
            message@ == self.spec_message(),
    {
        match self {
            Fault::MirroredByteOverflow => "mirrored byte counter overflow",
            Fault::TruncatedExportOverflow => "truncated export counter overflow",
            Fault::ExportAttemptOverflow => "export attempt counter overflow",
            Fault::ExportFailureOverflow => "export failure counter overflow",
            Fault::SequenceOverflow => "log sequence overflow",
            Fault::DefaultDescriptor => "invalid default fd",
            Fault::DescriptorSyntax => "invalid inherited descriptor",
            Fault::DescriptorRange => "inherited descriptor is outside the allowed range",
            Fault::DescriptorsCoincide => "metadata and data descriptors must differ",
            Fault::BuildLogUnsupported =>
                "dual build-log descriptors are not supported on this platform",
            Fault::LegacyUnsupported =>
                "FD 3 metadata transport is not supported on this platform",
            Fault::MetadataThreadPanicked => "metadata reader thread panicked",
            Fault::MetadataLineTooLong => "build-log metadata line exceeds maximum size",
            Fault::MetadataLineTruncated => "truncated build-log metadata line",
            Fault::MetadataNotUtf8 => "build-log metadata must be UTF-8 JSON",
            Fault::MetadataRejected => "build-log metadata failed contract validation",
            Fault::WorkerChunk => "worker stream cannot carry raw log chunks",
            Fault::ByteLengthInvalid => "invalid build-log byte length",
            Fault::ChunkOutOfBounds => "build-log chunk exceeds receiver bounds",
            Fault::DropReceipt => "invalid build-log drop receipt",
            Fault::LifecycleBytes => "lifecycle event cannot claim raw data bytes",
            Fault::FrameMagic => "invalid log-sidecar frame magic",
            Fault::FrameVersion => "unsupported log-sidecar frame version",
            Fault::FrameStream => "invalid log-sidecar stream id",
            Fault::FrameTooLong => "log-sidecar frame exceeds maximum size",
            Fault::FrameHeaderTruncated => "truncated log-sidecar frame header",
        }
    }
}

/// What ends a copy early: a broken rule, or an endpoint that failed.
#[derive(Debug, PartialEq, Eq)]
pub enum CopyError<X> {
    /// The input broke a rule.
    Fault(Fault),
    /// A source or a sink reported this error.
    Endpoint(X),
}

impl CopyError<FaultKind> {
    /// The class of the failure, where endpoints report theirs by class.
    pub fn kind(&self) -> (kind: FaultKind)
        ensures
            kind == match *self {
                CopyError::Fault(fault) => fault.spec_kind(),
                CopyError::Endpoint(kind) => kind,
            },
    {
        match self {
            CopyError::Fault(fault) => fault.kind(),
            CopyError::Endpoint(kind) => *kind,
        }
    }
}

} // verus!
