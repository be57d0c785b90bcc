//! The node side of registration and heartbeats: URLs of the core API, the
//! report of retained segments, and the reply carrying prewarm work.
use vstd::prelude::*;

use crate::domain::segment::{SegmentId, SegmentKey};
use crate::node::cache::{NodeCache, SegmentView};
use crate::text::{push_text, push_without_trailing_slashes, trim_trailing_slashes};

verus! {

/// The state the controller returns to a node after a heartbeat.
#[derive(Debug, Clone, PartialEq, Eq)]
pub struct HeartbeatResponse {
    pub state: String,
    pub prewarm: Vec<PrewarmItem>,
}

/// A segment the node must fetch from the core while prewarming.
#[derive(Debug, Clone, PartialEq, Eq)]
pub struct PrewarmItem {
    pub channel_id: String,
    pub rendition: String,
    pub filename: String,
}

/// The core base URL without trailing slashes.
pub open spec fn core_base(core_url: Seq<char>) -> Seq<char> {
    trim_trailing_slashes(core_url)
}

/// `PUT` target that registers node `node_id` with the core.
pub fn registration_url(core_url: &str, node_id: &str) -> (u: String)
    ensures
        u@ == core_base(core_url@) + "/nodes/"@ + node_id@,
{
    let mut u = String::new();
    push_without_trailing_slashes(&mut u, core_url);
    push_text(&mut u, "/nodes/");
    push_text(&mut u, node_id);
    assert(u@ =~= core_base(core_url@) + "/nodes/"@ + node_id@);
    u
}

/// `POST` target of the heartbeats of node `node_id`.
pub fn heartbeat_url(core_url: &str, node_id: &str) -> (u: String)
    ensures
        u@ == core_base(core_url@) + "/nodes/"@ + node_id@ + "/heartbeat"@,
{
    let mut u = String::new();
    push_without_trailing_slashes(&mut u, core_url);
    push_text(&mut u, "/nodes/");
    push_text(&mut u, node_id);
    push_text(&mut u, "/heartbeat");
    assert(u@ =~= core_base(core_url@) + "/nodes/"@ + node_id@ + "/heartbeat"@);
    u
}

/// Canonical core URL of the segment a prewarm item names.
pub fn origin_url(core_url: &str, item: &PrewarmItem) -> (u: String)
    ensures
        u@ == core_base(core_url@) + "/segments/"@ + item.channel_id@ + "/"@ + item.rendition@ + "/"@
            + item.filename@,
{
    let mut u = String::new();
    push_without_trailing_slashes(&mut u, core_url);
    push_text(&mut u, "/segments/");
    push_text(&mut u, item.channel_id.as_str());
    push_text(&mut u, "/");
    push_text(&mut u, item.rendition.as_str());
    push_text(&mut u, "/");
    push_text(&mut u, item.filename.as_str());
    assert(u@ =~= core_base(core_url@) + "/segments/"@ + item.channel_id@ + "/"@ + item.rendition@
        + "/"@ + item.filename@);
    u
}

/// The retained segments a heartbeat reports, in identity order.
pub fn heartbeat_keys(cache: &NodeCache) -> (keys: Vec<SegmentKey>)
    ensures
        keys@.len() == cache.entries().len(),
        forall|i: int|
            0 <= i < keys@.len() ==> (#[trigger] keys@[i]).channel_id@ == cache.entries()[i].0.0
                && keys@[i].rendition@ == cache.entries()[i].0.1 && keys@[i].sequence
                == cache.entries()[i].0.2,
{
    let ids = cache.retained_ids();
    let ghost views = ids@.map_values(|id: SegmentId| id@);
    assert(views.len() == ids@.len());
    assert(views.len() == cache.entries().len());
    let mut keys: Vec<SegmentKey> = Vec::new();
    let mut i: usize = 0;
    while i < ids.len()
        invariant
            i <= ids@.len(),
            views == ids@.map_values(|id: SegmentId| id@),
            views == cache.entries().map_values(|p: (SegmentView, String)| p.0),
            views.len() == ids@.len(),
            ids@.len() == cache.entries().len(),
            keys@.len() == i,
            forall|j: int|
                0 <= j < i ==> (#[trigger] keys@[j]).channel_id@ == cache.entries()[j].0.0
                    && keys@[j].rendition@ == cache.entries()[j].0.1 && keys@[j].sequence
                    == cache.entries()[j].0.2,
        decreases ids@.len() - i,
    {
        assert(views[i as int] == ids@[i as int]@);
        assert(cache.entries().map_values(|p: (SegmentView, String)| p.0)[i as int]
            == cache.entries()[i as int].0);
        keys.push(SegmentKey::from(&ids[i]));
        i = i + 1;
    }
    keys
}

} // verus!
