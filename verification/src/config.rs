//! Where the sidecar listens, and how the program goes on or ends.

use vstd::prelude::*;
use vstd::string::*;

verus! {

/// The variable that says where to listen.
pub const BIND_VARIABLE: &'static str = "GHA_INDIE_WORKER_SIDECAR_BIND";

/// Where to listen unless told otherwise.
pub const DEFAULT_BIND: &'static str = "127.0.0.1:9090";

/// The exit status of a start that failed.
pub const FAILURE_STATUS: i32 = 2;

/// How the sidecar is set up.
#[derive(Debug)]
pub struct SidecarConfig {
    pub listen: String,
}

impl Clone for SidecarConfig {
    fn clone(&self) -> (copy: SidecarConfig)
        ensures
            copy == *self,
    {
        SidecarConfig { listen: self.listen.clone() }
    }
}

impl SidecarConfig {
    /// The configuration, given the value of the bind variable where it has one.
    pub fn from_env(bind: Option<String>) -> (config: SidecarConfig)
        ensures
            config.listen@ == match bind {
                Some(bind) => bind@,
                None => DEFAULT_BIND@,
            },
    {
        match bind {
            Some(listen) => SidecarConfig { listen },
            None => SidecarConfig { listen: DEFAULT_BIND.to_owned() },
        }
    }
}

/// What the program does next.
#[derive(Debug, Clone, Copy, PartialEq, Eq)]
pub enum Startup {
    /// It is done.
    Finish,
    /// It serves.
    Serve,
    /// It says why it fails, on standard error, and exits.
    Fail { status: i32, message: &'static str },
}

/// What follows the log pipe: nothing where the pipe ran, the service where it was not asked
/// for, and failure where it broke.
pub fn after_pipe<X>(pipe: &Result<bool, X>) -> (next: Startup)
    ensures
        match *pipe {
            Ok(true) => next is Finish,
            Ok(false) => next is Serve,
            Err(_) => next matches Startup::Fail { status, message } && {
                &&& status == FAILURE_STATUS
                &&& message@ == "ghaiw-sidecar: live log pipe protocol failed"@
            },
        },
{
    match pipe {
        Ok(true) => Startup::Finish,
        Ok(false) => Startup::Serve,
        Err(_) => Startup::Fail {
            status: FAILURE_STATUS,
            message: "ghaiw-sidecar: live log pipe protocol failed",
        },
    }
}

/// What follows a look at the bind address. An address that cannot be used is a failure:
/// the service does not start on another one instead.
pub fn after_bind<T, X>(config: &Result<T, X>) -> (next: Startup)
    ensures
        match *config {
            Ok(_) => next is Serve,
            Err(_) => next matches Startup::Fail { status, message } && {
                &&& status == FAILURE_STATUS
                &&& message@ == "ghaiw-sidecar: invalid GHA_INDIE_WORKER_SIDECAR_BIND"@
            },
        },
{
    match config {
        Ok(_) => Startup::Serve,
        Err(_) => Startup::Fail {
            status: FAILURE_STATUS,
            message: "ghaiw-sidecar: invalid GHA_INDIE_WORKER_SIDECAR_BIND",
        },
    }
}

} // verus!
