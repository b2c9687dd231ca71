use gha_indie_worker_sidecar::config::{
    after_bind, after_pipe, SidecarConfig, Startup, BIND_VARIABLE,
};
use gha_indie_worker_sidecar::fault::{Fault, FaultKind};
use gha_indie_worker_sidecar::pipe::descriptor::{
    build_log_descriptors, legacy_descriptor, parse_fd, requested_protocol, Protocol,
};

#[test]
fn the_build_log_protocol_is_preferred() {
    let current = Some("gha-indie-worker.build-log-metadata/v1");
    let legacy = Some("gha-indie-worker.log-sidecar.v1");
    assert_eq!(requested_protocol(current, legacy), Some(Protocol::BuildLog));
    assert_eq!(requested_protocol(current, None), Some(Protocol::BuildLog));
    assert_eq!(requested_protocol(None, legacy), Some(Protocol::Legacy));
    assert_eq!(requested_protocol(Some("other"), legacy), Some(Protocol::Legacy));
    assert_eq!(requested_protocol(legacy, current), None);
    assert_eq!(requested_protocol(None, None), None);
    assert_eq!(requested_protocol(Some("gha-indie-worker.build-log-metadata/v"), None), None);
}

#[test]
fn descriptors_are_decimal_and_in_range() {
    assert_eq!(parse_fd(None, 3), Ok(3));
    assert_eq!(parse_fd(None, -1), Err(Fault::DefaultDescriptor));
    assert_eq!(parse_fd(Some("7"), -1), Err(Fault::DefaultDescriptor));
    assert_eq!(parse_fd(Some("7"), 3), Ok(7));
    assert_eq!(parse_fd(Some("+7"), 3), Ok(7));
    assert_eq!(parse_fd(Some("0007"), 3), Ok(7));
    assert_eq!(parse_fd(Some("1024"), 3), Ok(1024));
    assert_eq!(parse_fd(Some("3"), 4), Ok(3));
    for text in ["2", "0", "1025", "4294967295"] {
        assert_eq!(parse_fd(Some(text), 3), Err(Fault::DescriptorRange));
    }
    for text in ["", "+", "-7", "++7", " 7", "7a", "0x7", "4294967296", "99999999999", "\u{663}"] {
        assert_eq!(parse_fd(Some(text), 3), Err(Fault::DescriptorSyntax));
        assert!(text.parse::<u32>().is_err());
    }
}

#[test]
fn the_two_descriptors_differ() {
    assert_eq!(build_log_descriptors(true, None, None), Ok((3, 4)));
    assert_eq!(build_log_descriptors(true, Some("9"), Some("8")), Ok((9, 8)));
    assert_eq!(
        build_log_descriptors(true, Some("4"), None),
        Err(Fault::DescriptorsCoincide)
    );
    assert_eq!(
        build_log_descriptors(true, Some("x"), Some("1")),
        Err(Fault::DescriptorSyntax)
    );
    assert_eq!(build_log_descriptors(true, None, Some("1")), Err(Fault::DescriptorRange));
    assert_eq!(build_log_descriptors(false, None, None), Err(Fault::BuildLogUnsupported));
    assert_eq!(legacy_descriptor(true, None), Ok(3));
    assert_eq!(legacy_descriptor(true, Some("5")), Ok(5));
    assert_eq!(legacy_descriptor(false, Some("5")), Err(Fault::LegacyUnsupported));
}

#[test]
fn the_sidecar_listens_on_loopback_unless_told_otherwise() {
    assert_eq!(SidecarConfig::from_env(None).listen, "127.0.0.1:9090");
    assert_eq!(
        SidecarConfig::from_env(Some("0.0.0.0:80".to_string())).clone().listen,
        "0.0.0.0:80"
    );
}

#[test]
fn an_invalid_bind_address_fails_closed() {
    let invalid: Result<(), ()> = Err(());
    assert_eq!(
        after_bind(&invalid),
        Startup::Fail {
            status: 2,
            message: "ghaiw-sidecar: invalid GHA_INDIE_WORKER_SIDECAR_BIND"
        }
    );
    assert_eq!(after_bind::<(), ()>(&Ok(())), Startup::Serve);
    assert_eq!(BIND_VARIABLE, "GHA_INDIE_WORKER_SIDECAR_BIND");
}

#[test]
fn a_broken_pipe_protocol_is_fatal() {
    assert_eq!(after_pipe::<()>(&Ok(true)), Startup::Finish);
    assert_eq!(after_pipe::<()>(&Ok(false)), Startup::Serve);
    assert_eq!(
        after_pipe(&Err::<bool, ()>(())),
        Startup::Fail {
            status: 2,
            message: "ghaiw-sidecar: live log pipe protocol failed"
        }
    );
}

#[test]
fn faults_are_classed_and_worded() {
    for (fault, kind, message) in [
        (Fault::MirroredByteOverflow, FaultKind::Other, "mirrored byte counter overflow"),
        (Fault::SequenceOverflow, FaultKind::Other, "log sequence overflow"),
        (Fault::DescriptorSyntax, FaultKind::InvalidData, "invalid inherited descriptor"),
        (
            Fault::BuildLogUnsupported,
            FaultKind::Unsupported,
            "dual build-log descriptors are not supported on this platform",
        ),
        (
            Fault::MetadataLineTruncated,
            FaultKind::UnexpectedEof,
            "truncated build-log metadata line",
        ),
        (
            Fault::FrameHeaderTruncated,
            FaultKind::UnexpectedEof,
            "truncated log-sidecar frame header",
        ),
        (Fault::FrameMagic, FaultKind::InvalidData, "invalid log-sidecar frame magic"),
        (Fault::MetadataThreadPanicked, FaultKind::Other, "metadata reader thread panicked"),
    ] {
        assert_eq!(fault.kind(), kind);
        assert_eq!(fault.message(), message);
    }
}
