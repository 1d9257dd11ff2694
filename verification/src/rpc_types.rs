//! Plain data carried over the control plane between peers.

use vstd::prelude::*;

use crate::types::LumpId;

verus! {

/// A peer's metadata.
#[derive(Clone, Debug)]
pub struct PeerInfo {
    /// This peer's nickname, if it has one.
    pub nickname: Option<String>,
}

/// Log event emitted by a process.
#[derive(Clone, Debug)]
pub struct ProcessLogEvent {
    pub level: ProcessLogLevel,
    pub module: String,
    pub content: String,
}

/// Severity of a process log event.
#[derive(Clone, Copy, Debug, Hash, PartialEq, Eq, Structural)]
pub enum ProcessLogLevel {
    Trace,
    Debug,
    Info,
    Warning,
    Error,
}

/// A process's metadata.
#[derive(Clone, Copy, Debug)]
pub struct ProcessInfo {
    /// The lump this process was spawned from.
    pub source_lump: LumpId,
}

} // verus!
