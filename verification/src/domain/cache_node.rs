//! Cache node identity, lifecycle state, health and retained segments.
use vstd::prelude::*;

use crate::domain::segment::SegmentId;
use crate::ordered::SortedSet;

verus! {

/// Lifecycle state controlling whether a node receives new client playlists.
#[derive(Debug, Clone, Copy, PartialEq, Eq, Structural)]
pub enum CacheNodeState {
    /// Prewarming; not used for client playlists.
    Cold,
    /// Eligible for new client playlists.
    Active,
    /// Kept out of future playlists until load recovers.
    Draining,
    /// Heartbeats stopped; not used for prewarm or playlists.
    Dead,
}

/// Health a cache node reports (`ok` or `bad` on the wire).
#[derive(Debug, Clone, Copy, PartialEq, Eq, Structural)]
pub enum Health {
    Good,
    Bad,
}

/// The order key of a reported load of `0.0`: the load a node has before
/// its first heartbeat. Keys order loads as `f64::total_cmp` does, so a
/// non-negative load's key is its bit pattern with the top bit set.
pub const ZERO_LOAD_KEY: u64 = 0x8000_0000_0000_0000;

/// A registered cache node and its last reported state.
///
/// `load_score` is an order key of the reported load: a larger key means a
/// higher load, and keys compare as the loads do.
#[derive(Debug, Clone)]
pub struct CacheNode {
    pub node_id: String,
    pub base_url: String,
    pub state: CacheNodeState,
    pub last_heartbeat_ms: u64,
    pub health: Health,
    pub load_score: u64,
    pub retained: SortedSet<SegmentId>,
}

impl CacheNode {
    pub open spec fn wf(&self) -> bool {
        self.retained.wf()
    }

    /// A newly registered node, in the COLD state.
    pub fn new_cold(node_id: String, base_url: String, now_ms: u64) -> (n: CacheNode)
        ensures
            n.wf(),
            n.node_id == node_id,
            n.base_url == base_url,
            n.state == CacheNodeState::Cold,
            n.last_heartbeat_ms == now_ms,
            n.health == Health::Good,
            n.load_score == ZERO_LOAD_KEY,
            n.retained.items() == Seq::<(Seq<char>, Seq<char>, u64)>::empty(),
    {
        CacheNode {
            node_id,
            base_url,
            state: CacheNodeState::Cold,
            last_heartbeat_ms: now_ms,
            health: Health::Good,
            load_score: ZERO_LOAD_KEY,
            retained: SortedSet::new(),
        }
    }

    /// True when the node holds every currently required live-window segment.
    pub fn has_all(&self, required: &SortedSet<SegmentId>) -> (b: bool)
        requires
            self.wf(),
        ensures
            b == required.as_set().subset_of(self.retained.as_set()),
    {
        required.is_subset(&self.retained)
    }
}

} // verus!
