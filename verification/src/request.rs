//! The messages between the profiler and a client that streams its data.

use vstd::prelude::*;
use crate::timestamp::Timestamp;
use crate::event::DataId;

verus! {

/// The version of the streaming protocol.
pub const PROTOCOL_VERSION: u32 = 2;

/// What a client asks of the profiler.
#[derive(PartialEq, Debug)]
pub enum Request {
    StartStreaming,
    TriggerMemoryDump,
    Ping,
}

/// What the profiler answers.
#[derive(PartialEq, Debug)]
pub enum Response {
    Start(BroadcastHeader),
    Data(Vec<u8>),
    FinishedInitialStreaming,
    Pong,
    Finished,
}

/// What a profiled process announces of itself.
#[derive(PartialEq, Debug)]
pub struct BroadcastHeader {
    pub id: DataId,
    pub initial_timestamp: Timestamp,
    pub timestamp: Timestamp,
    pub wall_clock_secs: u64,
    pub wall_clock_nsecs: u64,
    pub pid: u32,
    pub cmdline: Vec<u8>,
    pub executable: Vec<u8>,
    pub arch: String,
    pub listener_port: u16,
    pub protocol_version: u32,
}

impl BroadcastHeader {
    /// Whether the announcing process speaks this version of the protocol.
    pub fn is_compatible(&self) -> (r: bool)
        ensures
            r == (self.protocol_version == PROTOCOL_VERSION),
    {
        self.protocol_version == PROTOCOL_VERSION
    }
}

} // verus!
