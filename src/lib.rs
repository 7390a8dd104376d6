//! Agent-side core of a cluster telemetry daemon: a compact delta log for
//! metric samples, the gossip membership state machine and the controller of
//! persistent peer connections.
use vstd::prelude::*;

pub mod deltabuf;
pub mod gossip;
pub mod manager;
pub mod peer;

verus! {

} // verus!
