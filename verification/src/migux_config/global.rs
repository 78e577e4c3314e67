//! Settings of the process as a whole.
use crate::text::{copy_str, is_empty};
use vstd::prelude::*;

verus! {

/// Settings of the whole process.
#[derive(Debug)]
pub struct GlobalConfig {
    pub worker_processes: u8,
    pub worker_connections: u16,
    pub log_level: String,
    pub error_log: String,
}

/// The same, as texts and numbers.
#[verifier::ext_equal]
pub struct GlobalView {
    pub worker_processes: u8,
    pub worker_connections: u16,
    pub log_level: Seq<char>,
    pub error_log: Seq<char>,
}

impl DeepView for GlobalConfig {
    type V = GlobalView;

    open spec fn deep_view(&self) -> GlobalView {
        GlobalView {
            worker_processes: self.worker_processes,
            worker_connections: self.worker_connections,
            log_level: self.log_level@,
            error_log: self.error_log@,
        }
    }
}

/// The default global settings.
pub open spec fn default_global() -> GlobalView {
    GlobalView {
        worker_processes: 1,
        worker_connections: 1024,
        log_level: "info"@,
        error_log: "/var/log/migux/error.log"@,
    }
}

/// Global settings with what is missing taken from others.
pub open spec fn global_with_defaults(v: GlobalView, d: GlobalView) -> GlobalView {
    GlobalView {
        worker_processes: if v.worker_processes == 0 {
            d.worker_processes
        } else {
            v.worker_processes
        },
        worker_connections: if v.worker_connections == 0 {
            d.worker_connections
        } else {
            v.worker_connections
        },
        log_level: or_text(v.log_level, d.log_level),
        error_log: or_text(v.error_log, d.error_log),
    }
}

/// A text, or another one where it is empty.
pub open spec fn or_text(s: Seq<char>, default: Seq<char>) -> Seq<char> {
    if s.len() == 0 {
        default
    } else {
        s
    }
}

impl Default for GlobalConfig {
    fn default() -> (r: Self)
        ensures
            r.deep_view() == default_global(),
    {
        GlobalConfig {
            worker_processes: 1,
            worker_connections: 1024,
            log_level: copy_str("info"),
            error_log: copy_str("/var/log/migux/error.log"),
        }
    }
}

impl GlobalConfig {
    /// The number of worker processes.
    pub fn worker_processes(&self) -> (r: u8)
        ensures
            r == self.worker_processes,
    {
        self.worker_processes
    }

    /// How many connections are served at once.
    pub fn worker_connections(&self) -> (r: u16)
        ensures
            r == self.worker_connections,
    {
        self.worker_connections
    }

    /// The log level.
    pub fn log_level(&self) -> (r: &str)
        ensures
            r@ == self.log_level@,
    {
        self.log_level.as_str()
    }

    /// The path of the error log.
    pub fn error_log(&self) -> (r: &str)
        ensures
            r@ == self.error_log@,
    {
        self.error_log.as_str()
    }

    /// Takes what is missing from other settings.
    pub fn apply_defaults_from(&mut self, defaults: &GlobalConfig)
        ensures
            final(self).deep_view() == global_with_defaults(
                old(self).deep_view(),
                defaults.deep_view(),
            ),
    {
        if self.worker_processes == 0 {
            self.worker_processes = defaults.worker_processes;
        }
        if self.worker_connections == 0 {
            self.worker_connections = defaults.worker_connections;
        }
        if is_empty(self.log_level.as_str()) {
            self.log_level = defaults.log_level.clone();
        }
        if is_empty(self.error_log.as_str()) {
            self.error_log = defaults.error_log.clone();
        }
    }
}

} // verus!
