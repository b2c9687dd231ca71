//! Sidecar of a build worker: receives the logs of a build over inherited descriptors, and
//! copies a log stream to its native output and, redacted, to a central log.

pub mod config;
pub mod endpoint;
pub mod fault;
pub mod laws;
pub mod log_tee;
pub mod memory;
pub mod pipe;
