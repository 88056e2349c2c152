//! The coordinator's configuration: the values the environment can set, with
//! their defaults, and the log-level keyword table.

use vstd::prelude::*;
use vstd::string::StringExecFns;
use crate::state::string_eq;

verus! {

/// The coordinator's configuration. Loaded once at startup from the process
/// environment; every field falls back to its default.
pub struct Config {
    /// Concurrent build containers.
    pub max_builders: usize,
    /// Retry attempts per package per update cycle.
    pub max_retries: u8,
    /// Seconds between update polls.
    pub update_check_interval: u32,
    /// HTTP bind port.
    pub port: u32,
    /// Container image used for builds.
    pub image: String,
    /// Base name of the repository index artifacts.
    pub repo_name: String,
    /// Per-container memory cap in bytes; `None` means no cap.
    pub memory_limit: Option<i64>,
}

impl Default for Config {
    /// The documented defaults.
    fn default() -> (r: Config)
        ensures
            r.max_builders == 1,
            r.max_retries == 3,
            r.update_check_interval == 240,
            r.port == 3200,
            r.image@ == "aur_worker"@,
            r.repo_name@ == "aur"@,
            r.memory_limit is None,
    {
        Config {
            max_builders: 1,
            max_retries: 3,
            update_check_interval: 240,
            port: 3200,
            image: String::from_str("aur_worker"),
            repo_name: String::from_str("aur"),
            memory_limit: None,
        }
    }
}

impl Config {
    pub fn max_builders(&self) -> (r: usize)
        ensures
            r == self.max_builders,
    {
        self.max_builders
    }

    pub fn max_retries(&self) -> (r: u8)
        ensures
            r == self.max_retries,
    {
        self.max_retries
    }

    pub fn update_check_interval(&self) -> (r: u32)
        ensures
            r == self.update_check_interval,
    {
        self.update_check_interval
    }

    pub fn port(&self) -> (r: u32)
        ensures
            r == self.port,
    {
        self.port
    }

    pub fn image(&self) -> (r: String)
        ensures
            r@ == self.image@,
    {
        self.image.clone()
    }

    pub fn repo_name(&self) -> (r: String)
        ensures
            r@ == self.repo_name@,
    {
        self.repo_name.clone()
    }

    pub fn max_memory(&self) -> (r: Option<i64>)
        ensures
            r == self.memory_limit,
    {
        self.memory_limit
    }
}

/// A log verbosity keyword.
#[derive(Debug, PartialEq, Eq, Structural)]
pub enum LogLevel {
    Error,
    Warn,
    Info,
    Debug,
    Trace,
    Off,
}

/// What a (lower-cased) log-level keyword selects: the documented table,
/// with everything unrecognized falling back to `Info`.
pub open spec fn log_level_of(s: Seq<char>) -> LogLevel {
    if s == "error"@ {
        LogLevel::Error
    } else if s == "warn"@ {
        LogLevel::Warn
    } else if s == "debug"@ {
        LogLevel::Debug
    } else if s == "trace"@ {
        LogLevel::Trace
    } else if s == "off"@ {
        LogLevel::Off
    } else {
        LogLevel::Info
    }
}

/// Parses a lower-cased log-level keyword.
pub fn parse_log_level(s: &String) -> (r: LogLevel)
    ensures
        r == log_level_of(s@),
{
    let error_kw = String::from_str("error");
    let warn_kw = String::from_str("warn");
    let debug_kw = String::from_str("debug");
    let trace_kw = String::from_str("trace");
    let off_kw = String::from_str("off");
    if string_eq(s, &error_kw) {
        LogLevel::Error
    } else if string_eq(s, &warn_kw) {
        LogLevel::Warn
    } else if string_eq(s, &debug_kw) {
        LogLevel::Debug
    } else if string_eq(s, &trace_kw) {
        LogLevel::Trace
    } else if string_eq(s, &off_kw) {
        LogLevel::Off
    } else {
        LogLevel::Info
    }
}

} // verus!
