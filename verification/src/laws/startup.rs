//! Laws of the settings, of the start of the program and of its failures.

use vstd::prelude::*;

use crate::config::{after_bind, after_pipe, SidecarConfig, Startup};
use crate::fault::{CopyError, Fault, FaultKind};
use crate::pipe::frames::legacy_outcome;
use crate::pipe::CopyStats;

verus! {

/// The sidecar listens exactly where the variable says, and on its loopback default where the
/// variable has no value.
pub proof fn law_bind_variable_decides(bind: Option<String>, config: SidecarConfig)
    requires
        call_ensures(SidecarConfig::from_env, (bind,), config),
    ensures
        bind matches Some(address) ==> config.listen@ == address@,
        bind is None ==> config.listen@ == "127.0.0.1:9090"@,
{
}

/// A copy of a configuration is the same configuration.
pub proof fn law_configuration_copies(config: &SidecarConfig, copy: SidecarConfig)
    requires
        call_ensures(SidecarConfig::clone, (config,), copy),
    ensures
        copy.listen@ == config.listen@,
{
}

/// A pipe that ran ends the program, one that was not asked for leaves it to serve, and one
/// that broke is fatal, whatever broke it.
pub proof fn law_broken_pipe_is_fatal<X>(pipe: &Result<bool, X>, next: Startup)
    requires
        call_ensures(after_pipe::<X>, (pipe,), next),
    ensures
        next is Finish <==> *pipe is Ok && (*pipe)->Ok_0,
        next is Serve <==> *pipe is Ok && !(*pipe)->Ok_0,
        next is Fail <==> *pipe is Err,
        next matches Startup::Fail { status, message } ==> status == 2 && message@
            == "ghaiw-sidecar: live log pipe protocol failed"@,
{
}

/// The program serves exactly where its address can be used, and fails closed otherwise.
pub proof fn law_bad_address_fails_closed<T, X>(config: &Result<T, X>, next: Startup)
    requires
        call_ensures(after_bind::<T, X>, (config,), next),
    ensures
        next is Serve <==> *config is Ok,
        next is Fail <==> *config is Err,
        next matches Startup::Fail { status, message } ==> status == 2 && message@
            == "ghaiw-sidecar: invalid GHA_INDIE_WORKER_SIDECAR_BIND"@,
{
}

/// The frame protocol succeeds exactly where both of its lanes do. What happened to the
/// metadata counts before what happened to the frames.
pub proof fn law_both_lanes_must_succeed<X>(
    metadata: Option<Result<(), CopyError<X>>>,
    frames: Result<CopyStats, CopyError<X>>,
    result: Result<bool, CopyError<X>>,
)
    requires
        call_ensures(legacy_outcome::<X>, (metadata, frames), result),
    ensures
        result is Ok <==> metadata is Some && metadata->0 is Ok && frames is Ok,
        result is Ok ==> result->Ok_0,
        metadata is None ==> result == Err::<bool, CopyError<X>>(
            CopyError::Fault(Fault::MetadataThreadPanicked),
        ),
        metadata matches Some(Err(error)) ==> result == Err::<bool, CopyError<X>>(error),
        metadata matches Some(Ok(_)) && frames is Err ==> result == Err::<bool, CopyError<X>>(
            frames->Err_0,
        ),
{
}

/// One more unit adds one and its bytes, and a count that is full stays so.
pub proof fn law_counts_add_up(stats: &mut CopyStats, bytes: usize)
    requires
        call_ensures(CopyStats::count, (stats, bytes), ()),
    ensures
        old(stats).frames < u64::MAX ==> final(stats).frames == old(stats).frames + 1,
        old(stats).frames == u64::MAX ==> final(stats).frames == u64::MAX,
        old(stats).bytes + bytes <= u64::MAX ==> final(stats).bytes == old(stats).bytes + bytes,
        old(stats).bytes + bytes > u64::MAX ==> final(stats).bytes == u64::MAX,
{
}

/// The class of a fault: unsupported transports and input that is cut off have their own, and
/// the sidecar's own trouble is not put down to its peer; all the rest is invalid data.
pub proof fn law_faults_are_classed(fault: Fault, kind: FaultKind)
    requires
        call_ensures(Fault::kind, (&fault,), kind),
    ensures
        kind == FaultKind::Unsupported <==> fault == Fault::BuildLogUnsupported || fault
            == Fault::LegacyUnsupported,
        kind == FaultKind::UnexpectedEof <==> fault == Fault::MetadataLineTruncated || fault
            == Fault::FrameHeaderTruncated,
        kind == FaultKind::Other <==> {
            ||| fault == Fault::MirroredByteOverflow
            ||| fault == Fault::TruncatedExportOverflow
            ||| fault == Fault::ExportAttemptOverflow
            ||| fault == Fault::ExportFailureOverflow
            ||| fault == Fault::SequenceOverflow
            ||| fault == Fault::MetadataThreadPanicked
        },
{
}

/// The class of an error is that of its fault, or the one that the endpoint reports.
pub proof fn law_errors_are_classed(
    error: CopyError<FaultKind>,
    fault_kind: FaultKind,
    kind: FaultKind,
)
    requires
        call_ensures(CopyError::<FaultKind>::kind, (&error,), kind),
        error matches CopyError::Fault(fault) ==> call_ensures(
            Fault::kind,
            (&fault,),
            fault_kind,
        ),
    ensures
        error is Fault ==> kind == fault_kind,
        error matches CopyError::Endpoint(reported) ==> kind == reported,
{
}

/// What an operator is told of each fault.
pub proof fn law_faults_are_worded(fault: Fault, message: &'static str)
    requires
        call_ensures(Fault::message, (&fault,), message),
    ensures
        fault == Fault::MirroredByteOverflow ==> message@ == "mirrored byte counter overflow"@,
        fault == Fault::TruncatedExportOverflow ==> message@
            == "truncated export counter overflow"@,
        fault == Fault::ExportAttemptOverflow ==> message@ == "export attempt counter overflow"@,
        fault == Fault::ExportFailureOverflow ==> message@ == "export failure counter overflow"@,
        fault == Fault::SequenceOverflow ==> message@ == "log sequence overflow"@,
        fault == Fault::DefaultDescriptor ==> message@ == "invalid default fd"@,
        fault == Fault::DescriptorSyntax ==> message@ == "invalid inherited descriptor"@,
        fault == Fault::DescriptorRange ==> message@
            == "inherited descriptor is outside the allowed range"@,
        fault == Fault::DescriptorsCoincide ==> message@
            == "metadata and data descriptors must differ"@,
        fault == Fault::BuildLogUnsupported ==> message@
            == "dual build-log descriptors are not supported on this platform"@,
        fault == Fault::LegacyUnsupported ==> message@
            == "FD 3 metadata transport is not supported on this platform"@,
        fault == Fault::MetadataThreadPanicked ==> message@ == "metadata reader thread panicked"@,
        fault == Fault::MetadataLineTooLong ==> message@
            == "build-log metadata line exceeds maximum size"@,
        fault == Fault::MetadataLineTruncated ==> message@ == "truncated build-log metadata line"@,
        fault == Fault::MetadataNotUtf8 ==> message@ == "build-log metadata must be UTF-8 JSON"@,
        fault == Fault::MetadataRejected ==> message@
            == "build-log metadata failed contract validation"@,
        fault == Fault::WorkerChunk ==> message@ == "worker stream cannot carry raw log chunks"@,
        fault == Fault::ByteLengthInvalid ==> message@ == "invalid build-log byte length"@,
        fault == Fault::ChunkOutOfBounds ==> message@
            == "build-log chunk exceeds receiver bounds"@,
        fault == Fault::DropReceipt ==> message@ == "invalid build-log drop receipt"@,
        fault == Fault::LifecycleBytes ==> message@
            == "lifecycle event cannot claim raw data bytes"@,
        fault == Fault::FrameMagic ==> message@ == "invalid log-sidecar frame magic"@,
        fault == Fault::FrameVersion ==> message@ == "unsupported log-sidecar frame version"@,
        fault == Fault::FrameStream ==> message@ == "invalid log-sidecar stream id"@,
        fault == Fault::FrameTooLong ==> message@ == "log-sidecar frame exceeds maximum size"@,
        fault == Fault::FrameHeaderTruncated ==> message@ == "truncated log-sidecar frame header"@,
{
}

} // verus!
