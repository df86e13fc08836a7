//! The log verbosity levels the server understands on its command line.

use vstd::prelude::*;

verus! {

/// A log verbosity level, from most to least chatty.
#[derive(Clone, Copy, PartialEq, Eq, Debug, Structural)]
pub enum LogLevel {
    /// Everything, including per-message traces.
    Trace,
    /// Debugging detail.
    Debug,
    /// Normal operation.
    Info,
    /// Only warnings.
    Warn,
    /// Only errors.
    Error,
}

impl LogLevel {
    /// The level's name as the logging filter expects it.
    pub fn as_str(&self) -> (r: &'static str)
        ensures
            r@ == match *self {
                LogLevel::Trace => "trace"@,
                LogLevel::Debug => "debug"@,
                LogLevel::Info => "info"@,
                LogLevel::Warn => "warn"@,
                LogLevel::Error => "error"@,
            },
    {
        match self {
            LogLevel::Trace => "trace",
            LogLevel::Debug => "debug",
            LogLevel::Info => "info",
            LogLevel::Warn => "warn",
            LogLevel::Error => "error",
        }
    }
}

} // verus!
