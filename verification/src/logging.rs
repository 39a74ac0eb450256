//! What the DAG consensus writes to its log.

use vstd::prelude::*;
use crate::types::Address;

verus! {

/// What one line of the DAG consensus log says.
pub struct LogSchema {
    pub event: LogEvent,
    pub remote_peer: Option<Address>,
    pub round: Option<u64>,
}

impl LogSchema {
    /// A line for `event` that names no peer and no round.
    pub fn new(event: LogEvent) -> (schema: Self)
        ensures
            schema.event == event,
            schema.remote_peer is None,
            schema.round is None,
    {
        LogSchema { event, remote_peer: None, round: None }
    }
}

/// The events that the DAG consensus reports to its log.
#[derive(Clone, Copy, Debug, PartialEq, Eq, Structural)]
pub enum LogEvent {
    EpochStart,
    ModeTransition,
    BroadcastNode,
    ReceiveNode,
    Vote,
    ReceiveVote,
    BroadcastCertifiedNode,
    ReceiveCertifiedNode,
    ReceiveAck,
    OrderedAnchor,
    NewRound,
    FetchNodes,
    ReceiveFetchNodes,
    ActiveMode,
    SyncMode,
    SyncOutcome,
    Shutdown,
    FetchPayload,
}

} // verus!
