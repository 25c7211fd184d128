//! Top-level configuration consumed by the engine: the templated ban
//! command, and the policies of the monitors to run.

use vstd::prelude::*;

use crate::monitor::MonitorConfig;

verus! {

/// The whole configuration: one ban command template and one policy per
/// monitor.
pub struct Config {
    /// Command run for a banned address; the address replaces its
    /// placeholder token.
    pub ban_command: String,
    /// One policy per monitor to run.
    pub monitors: Vec<MonitorConfig>,
}

impl Config {
    /// The default configuration: an empty command and no monitors.
    pub fn default() -> (c: Config)
        ensures
            c.ban_command@ == Seq::<char>::empty(),
            c.monitors@.len() == 0,
    {
        Config { ban_command: String::new(), monitors: Vec::new() }
    }
}

} // verus!
