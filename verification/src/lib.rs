//! A group-membership protocol for a small static cluster of processes.
//!
//! Each process keeps a replicated view of the current membership. The
//! process at position 1 of the host list is the leader; it serializes
//! joins and evictions through a two-phase request/acknowledgement
//! protocol and disseminates each new view. Liveness is tracked by
//! periodic heartbeats; a silent peer is evicted by the leader.

pub mod assoc;
pub mod beats;
pub mod codec;
pub mod hostsfile;
pub mod members;
pub mod messaging;
pub mod roles;
pub mod state;
pub mod views;

use vstd::prelude::*;

verus! {

/// A peer's identity: its 1-based position in the ordered host list.
pub type PeerId = usize;

/// Identifies one membership view; starts at 1 and only grows.
pub type ViewId = u32;

/// Identifies one membership-change request on the leader; the counter
/// starts at 0 and is incremented before use.
pub type RequestId = u32;

/// The first host in the list is always the leader.
pub const DEFAULT_LEADER_ID: usize = 1;

/// Period between heartbeat broadcasts, in milliseconds.
pub const HEARTBEAT_PERIOD_MILLIS: u64 = 2000;

/// Why an operation of this library failed.
#[derive(Clone, Copy, Debug, PartialEq, Eq, Structural)]
pub enum Reasons {
    /// A socket or file operation failed.
    IO,
    /// An inbound byte string did not decode to a letter.
    BadMessage,
    /// This process's own hostname does not appear exactly once in the host list.
    HostNotInHostsfile,
    /// A message arrived that the current role never accepts, or a view
    /// change could not be applied.
    ProtocolViolation,
}

} // verus!
