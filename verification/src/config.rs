use vstd::prelude::*;

verus! {

/// The least severe level of log messages that the server writes.
#[derive(Debug, Clone, Copy, PartialEq, Eq, Structural)]
pub enum LogLevel {
    Error,
    Warn,
    Info,
    Debug,
    Trace,
}

/// The filter directive that stands for each level.
pub open spec fn filter_text(level: LogLevel) -> Seq<char> {
    match level {
        LogLevel::Error => "error"@,
        LogLevel::Warn => "warn"@,
        LogLevel::Info => "info"@,
        LogLevel::Debug => "debug"@,
        LogLevel::Trace => "trace"@,
    }
}

impl LogLevel {
    /// The filter directive for this level, in lower case.
    pub fn into_filter(self) -> (s: &'static str)
        ensures
            s@ == filter_text(self),
    {
        match self {
            LogLevel::Error => "error",
            LogLevel::Warn => "warn",
            LogLevel::Info => "info",
            LogLevel::Debug => "debug",
            LogLevel::Trace => "trace",
        }
    }
}

} // verus!
