//! The colored prefixes of the surrounding program's log lines.

use vstd::prelude::*;
use vstd::string::StringExecFns;

verus! {

/// Verbosity level of a log line. The program around this library reads the
/// level off each log record and asks for the matching prefix.
#[derive(Copy, Clone, Debug, PartialEq, Eq, Structural)]
pub enum LogLevel {
    Trace,
    Debug,
    Info,
    Warn,
    Error,
}

pub open spec fn spec_logging_prefix(level: LogLevel) -> Seq<char> {
    match level {
        LogLevel::Trace => "🐭\u{1b}[0;33m "@,
        LogLevel::Debug => "🐱\u{1b}[0;36m "@,
        LogLevel::Info => "🦔 "@,
        LogLevel::Warn => "😺\u{1b}[1;33m "@,
        LogLevel::Error => "🙀\u{1b}[0;31m "@,
    }
}

/// The prefix drawn before a log line of the given level.
pub fn get_logging_prefix_for_level(level: LogLevel) -> (r: String)
    ensures
        r@ == spec_logging_prefix(level),
{
    match level {
        LogLevel::Trace => String::from_str("🐭\u{1b}[0;33m "),
        LogLevel::Debug => String::from_str("🐱\u{1b}[0;36m "),
        LogLevel::Info => String::from_str("🦔 "),
        LogLevel::Warn => String::from_str("😺\u{1b}[1;33m "),
        LogLevel::Error => String::from_str("🙀\u{1b}[0;31m "),
    }
}

/// The prefix for a log record that carries the given level.
pub fn get_logging_prefix(level: LogLevel) -> (r: String)
    ensures
        r@ == spec_logging_prefix(level),
{
    match level {
        LogLevel::Trace => get_logging_prefix_for_level(LogLevel::Trace),
        LogLevel::Debug => get_logging_prefix_for_level(LogLevel::Debug),
        LogLevel::Info => get_logging_prefix_for_level(LogLevel::Info),
        LogLevel::Warn => get_logging_prefix_for_level(LogLevel::Warn),
        LogLevel::Error => get_logging_prefix_for_level(LogLevel::Error),
    }
}

} // verus!
