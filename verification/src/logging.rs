//! What the node's logger is set up with, from the configured verbosity.
use vstd::prelude::*;

verus! {

/// The level of the log filter.
#[derive(Clone, Copy, Debug, PartialEq, Eq, Structural)]
pub enum LogLevel {
    Info,
    Debug,
    Trace,
}

impl LogLevel {
    /// The name of the level in a log filter.
    pub fn as_str(&self) -> (s: &'static str)
        ensures
            match self {
                LogLevel::Info => s@ == "info"@,
                LogLevel::Debug => s@ == "debug"@,
                LogLevel::Trace => s@ == "trace"@,
            },
    {
        match self {
            LogLevel::Info => "info",
            LogLevel::Debug => "debug",
            LogLevel::Trace => "trace",
        }
    }
}

/// How the logger is set up.
#[derive(Clone, Copy, Debug, PartialEq, Eq, Structural)]
pub struct LoggerSettings {
    /// The level that the log filter lets through.
    pub level: LogLevel,
    /// Whether each line names the module that logged it.
    pub with_target: bool,
}

/// The level for a verbosity: 1 is info, 2 is debug, 3 and 4 are trace,
/// and any higher verbosity is info again.
pub open spec fn spec_log_level(verbosity: u8) -> LogLevel {
    if verbosity == 2 {
        LogLevel::Debug
    } else if verbosity == 3 || verbosity == 4 {
        LogLevel::Trace
    } else {
        LogLevel::Info
    }
}

/// Law: the level is debug exactly at verbosity 2, trace exactly at
/// verbosities 3 and 4, and info at every other verbosity, 1 and every
/// verbosity from 5 up included.
pub proof fn lemma_log_levels(verbosity: u8)
    ensures
        (spec_log_level(verbosity) == LogLevel::Debug) == (verbosity == 2),
        (spec_log_level(verbosity) == LogLevel::Trace) == (verbosity == 3 || verbosity == 4),
        (spec_log_level(verbosity) == LogLevel::Info) == (verbosity != 2 && verbosity != 3
            && verbosity != 4),
        verbosity >= 5 ==> spec_log_level(verbosity) == LogLevel::Info,
        verbosity == 1 ==> spec_log_level(verbosity) == LogLevel::Info,
{
}

/// The logger set-up for a verbosity: none at verbosity 0; otherwise the
/// level of `spec_log_level`, with the module of each line shown at
/// verbosity 4 alone.
pub fn logger_settings(verbosity: u8) -> (r: Option<LoggerSettings>)
    ensures
        verbosity == 0 ==> r is None,
        verbosity != 0 ==> r == Some(
            LoggerSettings { level: spec_log_level(verbosity), with_target: verbosity == 4 },
        ),
        r matches Some(s) ==> {
            &&& (s.level == LogLevel::Debug) == (verbosity == 2)
            &&& (s.level == LogLevel::Trace) == (verbosity == 3 || verbosity == 4)
            &&& (s.level == LogLevel::Info) == (verbosity == 1 || verbosity >= 5)
        },
{
    match verbosity {
        0 => None,
        verbosity => {
            let level = match verbosity {
                1 => LogLevel::Info,
                2 => LogLevel::Debug,
                3 | 4 => LogLevel::Trace,
                _ => LogLevel::Info,
            };
            Some(LoggerSettings { level, with_target: verbosity == 4 })
        },
    }
}

/// The log filter directive that silences the event loop's logs.
pub fn muted_directive() -> (s: &'static str)
    ensures
        s@ == "mio=off"@,
{
    "mio=off"
}

} // verus!
