//! The combined origin and controller: ingest, generated playlists, the
//! cache node registry, placement and canonical storage layout.
//!
//! Origin duties (canonical storage, validated playlists) and controller
//! duties (registry, state evaluation, prewarm planning, manifest rewriting)
//! live in separate modules even though one process hosts both.
pub mod ingest;
pub mod manifest;
pub mod placement;
pub mod registry;
pub mod storage;

use vstd::prelude::*;

use crate::controller::ingest::{
    ChannelState, SegmentRecord, channels_wf, is_required, lemma_channel_wf_map,
    lemma_channels_wf_map, rendition_at, required_segments, segments_at,
};
use crate::controller::manifest::{
    all_fit, is_regen_error, is_snapshot_of, master_text, media_text, refresh_snapshot,
    render_master_m3u8, render_media_m3u8,
};
use crate::controller::placement::{
    has_active, is_first_active, prewarm_plan, select_active,
};
use crate::controller::registry::{
    EvalParams, Registry, evaluated, evaluated_pairs, heartbeat_applied, next_state,
};
use crate::domain::cache_node::{CacheNode, CacheNodeState, Health};
use crate::domain::playlist::{ChannelSnapshot, first_media_of};
use crate::domain::segment::{
    SegmentId, SegmentKey, filename_text, identifier_message, render_filename, segment_precedes,
    valid_identifier,
};
use crate::domain::window::WindowConfig;
use crate::error::{EdamameError, prefixed};
use crate::node::cache::SegmentView;
use crate::node::heartbeat::PrewarmItem;
use crate::ordered::{SortedMap, SortedSet, increasing, lemma_filter_increasing, lemma_pairs_map_at};
use crate::text::{ends_with, owned_text, same_text, strip_suffix_text};

verus! {

/// The mutable state of the core: channels, the node registry and the last
/// validated snapshot of each channel.
#[derive(Debug)]
pub struct CoreInner {
    pub channels: SortedMap<String, ChannelState>,
    pub registry: Registry,
    pub snapshots: SortedMap<String, ChannelSnapshot>,
}

/// The segments a cache node must hold to become ACTIVE.
pub open spec fn required_set(channels: SortedMap<String, ChannelState>, window: WindowConfig) -> Set<
    SegmentView,
> {
    Set::new(|id: SegmentView| is_required(channels, window, id))
}

/// What a playlist request answers once a channel snapshot is settled.
pub open spec fn served_text(
    snap: ChannelSnapshot,
    file: Seq<char>,
    nodes: Seq<(Seq<char>, CacheNode)>,
    r: Result<String, EdamameError>,
) -> bool {
    if file == "master.m3u8"@ {
        r matches Ok(t) && t@ == master_text(snap.master)
    } else if !ends_with(file, ".m3u8"@) {
        r matches Err(EdamameError::NotFound(m)) && m@ == "unknown playlist "@ + file
    } else {
        let rendition = file.subrange(0, file.len() - ".m3u8"@.len());
        match first_media_of(snap.media@, rendition) {
            None => r matches Err(EdamameError::NotFound(m)) && m@ == "unknown rendition "@
                + rendition,
            Some(i) => r matches Ok(t) && exists|n: CacheNode|
                is_first_active(n, nodes) && t@ == media_text(snap.media@[i], n.base_url@),
        }
    }
}

/// How the snapshots and the answer of a playlist request for a known
/// channel follow from its renditions.
pub open spec fn playlist_answer(
    before: SortedMap<String, ChannelSnapshot>,
    after: SortedMap<String, ChannelSnapshot>,
    c: Seq<char>,
    cs: ChannelState,
    window: WindowConfig,
    file: Seq<char>,
    nodes: Seq<(Seq<char>, CacheNode)>,
    r: Result<String, EdamameError>,
) -> bool {
    let pairs = cs.renditions.pairs();
    let valid = pairs.len() > 0 && all_fit(pairs, window);
    &&& valid ==> after.as_map() == before.as_map().insert(c, after.as_map()[c]) && is_snapshot_of(
        after.as_map()[c],
        c,
        pairs,
        window,
    )
    &&& !valid ==> after == before
    &&& if !valid && !before.as_map().contains_key(c) {
        r matches Err(e) && is_regen_error(e, c, pairs, window)
    } else {
        served_text(after.as_map()[c], file, nodes, r)
    }
}

/// The state a heartbeat leaves the reporting node in before evaluation.
pub open spec fn reported(
    before: CacheNode,
    after: CacheNode,
    health: Health,
    load_score: u64,
    keys: Set<SegmentView>,
    now_ms: u64,
) -> bool {
    &&& after.node_id == before.node_id
    &&& after.base_url == before.base_url
    &&& after.last_heartbeat_ms == now_ms
    &&& after.health == health
    &&& after.load_score == load_score
    &&& after.retained.wf()
    &&& if before.state == CacheNodeState::Dead {
        after.state == CacheNodeState::Cold && after.retained.as_set() == Set::<SegmentView>::empty()
    } else {
        after.state == before.state && after.retained.as_set() == keys
    }
}

/// A DEAD node that heartbeats again is COLD with nothing retained, so the
/// evaluation that follows does not make it ACTIVE while any segment is
/// required: it has to prewarm again first.
pub proof fn lemma_resumed_node_not_active(
    before: CacheNode,
    after: CacheNode,
    health: Health,
    load_score: u64,
    keys: Set<SegmentView>,
    now_ms: u64,
    eval: EvalParams,
    req: Set<SegmentView>,
    needed: SegmentView,
)
    requires
        before.state == CacheNodeState::Dead,
        reported(before, after, health, load_score, keys, now_ms),
        req.contains(needed),
    ensures
        after.state == CacheNodeState::Cold,
        next_state(after, eval, req, now_ms) != CacheNodeState::Active,
{
    assert(!after.retained.as_set().contains(needed));
}

/// The identities a list of wire keys names.
pub open spec fn keys_set(keys: Seq<SegmentKey>) -> Set<SegmentView> {
    Set::new(
        |v: SegmentView|
            exists|j: int|
                0 <= j < keys.len() && (#[trigger] keys[j]).channel_id@ == v.0 && keys[j].rendition@
                    == v.1 && keys[j].sequence == v.2,
    )
}

/// Whether a wire key names a valid identity.
pub open spec fn key_valid(k: SegmentKey) -> bool {
    valid_identifier(k.channel_id@) && valid_identifier(k.rendition@)
}

/// The error an invalid wire key is rejected with.
pub open spec fn key_error(e: EdamameError, k: SegmentKey) -> bool {
    if !valid_identifier(k.channel_id@) {
        e matches EdamameError::BadRequest(m) && m@ == identifier_message("channel"@, k.channel_id@)
    } else {
        e matches EdamameError::BadRequest(m) && m@ == identifier_message("rendition"@, k.rendition@)
    }
}

/// Whether `plan` is the prewarm work of `node`: the required segments it
/// does not retain, in identity order; none for DEAD and DRAINING nodes.
pub open spec fn is_prewarm_plan(plan: Seq<SegmentView>, node: CacheNode, req: Set<SegmentView>) -> bool {
    if node.state == CacheNodeState::Dead || node.state == CacheNodeState::Draining {
        plan.len() == 0
    } else {
        &&& increasing::<SegmentId>(plan)
        &&& forall|v: SegmentView| #[trigger]
            plan.contains(v) == (req.contains(v) && !node.retained.as_set().contains(v))
    }
}

/// Fetching the whole prewarm plan of a COLD or ACTIVE node gives it every
/// required segment: retained and planned segments together cover the
/// requirement.
pub proof fn lemma_prewarm_completes(plan: Seq<SegmentView>, node: CacheNode, req: Set<SegmentView>)
    requires
        is_prewarm_plan(plan, node, req),
        node.state == CacheNodeState::Cold || node.state == CacheNodeState::Active,
    ensures
        req.subset_of(node.retained.as_set().union(plan.to_set())),
{
    assert forall|v: SegmentView| req.contains(v) implies node.retained.as_set().union(
        plan.to_set(),
    ).contains(v) by {
        if !node.retained.as_set().contains(v) {
            assert(plan.contains(v));
        }
    }
}

/// Whether `items` names the segments of `plan` with their stored filenames.
pub open spec fn is_prewarm_list(
    items: Seq<PrewarmItem>,
    plan: Seq<SegmentView>,
    channels: SortedMap<String, ChannelState>,
) -> bool {
    &&& items.len() == plan.len()
    &&& forall|i: int|
        0 <= i < plan.len() ==> (#[trigger] items[i]).channel_id@ == plan[i].0 && items[i].rendition@
            == plan[i].1 && items[i].filename@ == filename_text(
            plan[i].2,
            segments_at(channels, plan[i].0, plan[i].1)[plan[i].2].ext@,
        )
}

/// What the core answers a heartbeat with.
#[derive(Debug, Clone, PartialEq, Eq)]
pub struct HeartbeatReply {
    pub state: CacheNodeState,
    pub prewarm: Vec<PrewarmItem>,
}

/// Position of the first invalid key.
pub open spec fn first_bad_key(keys: Seq<SegmentKey>) -> int {
    choose|j: int| 0 <= j < keys.len() && !key_valid(keys[j]) && forall|i: int|
        0 <= i < j ==> #[trigger] key_valid(keys[i])
}

proof fn lemma_first_bad_key(keys: Seq<SegmentKey>, j: int)
    requires
        0 <= j < keys.len(),
        !key_valid(keys[j]),
        forall|i: int| 0 <= i < j ==> #[trigger] key_valid(keys[i]),
    ensures
        first_bad_key(keys) == j,
{
    let f = first_bad_key(keys);
    assert(0 <= f < keys.len() && !key_valid(keys[f]) && forall|i: int|
        0 <= i < f ==> #[trigger] key_valid(keys[i]));
    if f < j {
        assert(key_valid(keys[f]));
    }
    if j < f {
        assert(key_valid(keys[j]));
    }
}

/// The retained set a heartbeat reports; the first invalid key is rejected.
fn retained_from_keys(keys: Vec<SegmentKey>) -> (r: Result<SortedSet<SegmentId>, EdamameError>)
    ensures
        (forall|j: int| 0 <= j < keys@.len() ==> #[trigger] key_valid(keys@[j])) ==> (r matches Ok(
            s,
        ) && s.wf() && s.as_set() == keys_set(keys@)),
        !(forall|j: int| 0 <= j < keys@.len() ==> #[trigger] key_valid(keys@[j])) ==> (r matches Err(
            e,
        ) && key_error(e, keys@[first_bad_key(keys@)])),
{
    let ghost ks = keys@;
    let mut set: SortedSet<SegmentId> = SortedSet::new();
    let mut i: usize = 0;
    let n = keys.len();
    while i < n
        invariant
            n == ks.len(),
            ks == keys@,
            i <= n,
            set.wf(),
            forall|j: int| 0 <= j < i ==> #[trigger] key_valid(ks[j]),
            set.as_set() == keys_set(ks.take(i as int)),
        decreases n - i,
    {
        let key = &keys[i];
        let ghost k = ks[i as int];
        let id = match SegmentId::new(key.channel_id.as_str(), key.rendition.as_str(), key.sequence) {
            Ok(id) => id,
            Err(e) => {
                proof {
                    lemma_first_bad_key(ks, i as int);
                }
                return Err(e);
            },
        };
        set.insert(id);
        proof {
            assert(set.as_set() =~= keys_set(ks.take(i + 1))) by {
                assert forall|v: SegmentView| #[trigger] set.as_set().contains(v) == keys_set(
                    ks.take(i + 1),
                ).contains(v) by {
                    if keys_set(ks.take(i + 1)).contains(v) {
                        let j = choose|j: int|
                            0 <= j < ks.take(i + 1).len() && (#[trigger] ks.take(i + 1)[j]).channel_id@
                                == v.0 && ks.take(i + 1)[j].rendition@ == v.1 && ks.take(
                                i + 1,
                            )[j].sequence == v.2;
                        if j < i {
                            assert(ks.take(i as int)[j] == ks.take(i + 1)[j]);
                            assert(keys_set(ks.take(i as int)).contains(v));
                        }
                    }
                    if keys_set(ks.take(i as int)).contains(v) {
                        let j = choose|j: int|
                            0 <= j < ks.take(i as int).len() && (#[trigger] ks.take(
                                i as int,
                            )[j]).channel_id@ == v.0 && ks.take(i as int)[j].rendition@ == v.1
                                && ks.take(i as int)[j].sequence == v.2;
                        assert(ks.take(i + 1)[j] == ks.take(i as int)[j]);
                    }
                    if v == (k.channel_id@, k.rendition@, k.sequence) {
                        assert(ks.take(i + 1)[i as int] == k);
                    }
                }
            }
        }
        i = i + 1;
    }
    assert(ks.take(n as int) =~= ks);
    Ok(set)
}

/// Names the planned segments with their stored filenames.
fn prewarm_items(channels: &SortedMap<String, ChannelState>, plan: &Vec<SegmentId>) -> (items: Vec<
    PrewarmItem,
>)
    requires
        channels_wf(*channels),
        forall|i: int|
            0 <= i < plan@.len() ==> #[trigger] segments_at(
                *channels,
                plan@[i]@.0,
                plan@[i]@.1,
            ).contains_key(plan@[i]@.2),
    ensures
        is_prewarm_list(items@, plan@.map_values(|k: SegmentId| k@), *channels),
{
    let ghost views = plan@.map_values(|k: SegmentId| k@);
    let mut items: Vec<PrewarmItem> = Vec::new();
    let mut i: usize = 0;
    while i < plan.len()
        invariant
            channels_wf(*channels),
            views == plan@.map_values(|k: SegmentId| k@),
            i <= plan@.len(),
            items@.len() == i,
            forall|j: int|
                0 <= j < plan@.len() ==> #[trigger] segments_at(
                    *channels,
                    plan@[j]@.0,
                    plan@[j]@.1,
                ).contains_key(plan@[j]@.2),
            forall|j: int|
                0 <= j < i ==> (#[trigger] items@[j]).channel_id@ == views[j].0
                    && items@[j].rendition@ == views[j].1 && items@[j].filename@ == filename_text(
                    views[j].2,
                    segments_at(*channels, views[j].0, views[j].1)[views[j].2].ext@,
                ),
        decreases plan@.len() - i,
    {
        let id = &plan[i];
        assert(views[i as int] == id@);
        assert(segments_at(*channels, id@.0, id@.1).contains_key(id@.2));
        let cs = channels.get(&id.channel);
        match cs {
            Some(cs) => {
                proof {
                    lemma_channels_wf_map(*channels, id.channel@);
                }
                match cs.renditions.get(&id.rendition) {
                    Some(rs) => {
                        proof {
                            lemma_channel_wf_map(*cs, id.rendition@);
                        }
                        match rs.segments.get(&id.sequence) {
                            Some(record) => {
                                items.push(
                                    PrewarmItem {
                                        channel_id: id.channel.clone(),
                                        rendition: id.rendition.clone(),
                                        filename: render_filename(id.sequence, record.ext.as_str()),
                                    },
                                );
                            },
                            None => {
                                assert(false);
                            },
                        }
                    },
                    None => {
                        assert(false);
                    },
                }
            },
            None => {
                assert(false);
            },
        }
        i = i + 1;
    }
    items
}

/// How the registry changes and what the core answers when a known node
/// sends a valid heartbeat.
pub open spec fn heartbeat_answer(
    before: Registry,
    after: Registry,
    id: Seq<char>,
    health: Health,
    load_score: u64,
    keys: Set<SegmentView>,
    now_ms: u64,
    eval: EvalParams,
    req: Set<SegmentView>,
    channels: SortedMap<String, ChannelState>,
    r: Result<HeartbeatReply, EdamameError>,
) -> bool {
    let node = after.nodes.as_map()[id];
    &&& after.nodes.as_map().dom() == before.nodes.as_map().dom()
    &&& forall|k: Seq<char>|
        k != id && #[trigger] before.nodes.as_map().contains_key(k) ==> after.nodes.as_map()[k]
            == evaluated(before.nodes.as_map()[k], eval, req, now_ms)
    &&& exists|n: CacheNode|
        reported(before.nodes.as_map()[id], n, health, load_score, keys, now_ms) && node
            == evaluated(n, eval, req, now_ms)
    &&& r matches Ok(reply) && reply.state == node.state && exists|plan: Seq<SegmentView>|
        is_prewarm_plan(plan, node, req) && is_prewarm_list(reply.prewarm@, plan, channels)
}

proof fn lemma_evaluated_map(
    before: Seq<(Seq<char>, CacheNode)>,
    after: Seq<(Seq<char>, CacheNode)>,
    eval: EvalParams,
    req: Set<SegmentView>,
    now_ms: u64,
)
    requires
        crate::ordered::keys_increase::<String, CacheNode>(before),
        after == evaluated_pairs(before, eval, req, now_ms),
    ensures
        crate::ordered::pairs_map(after).dom() == crate::ordered::pairs_map(before).dom(),
        forall|k: Seq<char>|
            #[trigger] crate::ordered::pairs_map(before).contains_key(k) ==> crate::ordered::pairs_map(
                after,
            )[k] == evaluated(crate::ordered::pairs_map(before)[k], eval, req, now_ms),
{
    assert(crate::ordered::keys_increase::<String, CacheNode>(after)) by {
        assert forall|a: int, b: int| 0 <= a < b < after.len() implies crate::text::chars_lt(
            #[trigger] after[a].0,
            #[trigger] after[b].0,
        ) by {
            assert(after[a].0 == before[a].0 && after[b].0 == before[b].0);
        }
    }
    assert forall|k: Seq<char>| #[trigger] crate::ordered::pairs_map(after).contains_key(k)
        == crate::ordered::pairs_map(before).contains_key(k) by {
        if crate::ordered::has_key(after, k) {
            let j = choose|j: int| 0 <= j < after.len() && #[trigger] after[j].0 == k;
            assert(before[j].0 == k);
        }
        if crate::ordered::has_key(before, k) {
            let j = choose|j: int| 0 <= j < before.len() && #[trigger] before[j].0 == k;
            assert(after[j].0 == k);
        }
    }
    assert(crate::ordered::pairs_map(after).dom() =~= crate::ordered::pairs_map(before).dom());
    assert forall|k: Seq<char>| #[trigger] crate::ordered::pairs_map(before).contains_key(k) implies crate::ordered::pairs_map(
        after,
    )[k] == evaluated(crate::ordered::pairs_map(before)[k], eval, req, now_ms) by {
        let j = choose|j: int| 0 <= j < before.len() && #[trigger] before[j].0 == k;
        lemma_pairs_map_at::<String, CacheNode>(before, j);
        assert(after[j].0 == k);
        lemma_pairs_map_at::<String, CacheNode>(after, j);
    }
}

/// The node a heartbeat updated is the report applied to its old state.
proof fn lemma_report_recorded(
    before: Registry,
    mid: Registry,
    id: Seq<char>,
    health: Health,
    load_score: u64,
    retained: SortedSet<SegmentId>,
    keys: Seq<SegmentKey>,
    now_ms: u64,
)
    requires
        mid.wf(),
        retained.wf(),
        retained.as_set() == keys_set(keys),
        before.nodes.as_map().contains_key(id),
        mid.nodes.as_map() == before.nodes.as_map().insert(id, mid.nodes.as_map()[id]),
        heartbeat_applied(
            before.nodes.as_map()[id],
            mid.nodes.as_map()[id],
            health,
            load_score,
            retained,
            now_ms,
        ),
    ensures
        mid.nodes.as_map().contains_key(id),
        reported(before.nodes.as_map()[id], mid.nodes.as_map()[id], health, load_score, keys_set(keys), now_ms),
{
    assert(mid.nodes.as_map().contains_key(id));
    mid.lemma_node_at(id);
    let n = mid.nodes.as_map()[id];
    if before.nodes.as_map()[id].state == CacheNodeState::Dead {
        assert(n.retained.as_set() =~= Set::<SegmentView>::empty());
    }
}

/// After evaluation every node other than `id` is its old self evaluated.
proof fn lemma_others_evaluated(
    before: Registry,
    mid: Registry,
    after: Registry,
    id: Seq<char>,
    eval: EvalParams,
    req: Set<SegmentView>,
    now_ms: u64,
)
    requires
        mid.wf(),
        before.nodes.as_map().contains_key(id),
        mid.nodes.as_map() == before.nodes.as_map().insert(id, mid.nodes.as_map()[id]),
        after.nodes.pairs() == evaluated_pairs(mid.nodes.pairs(), eval, req, now_ms),
    ensures
        after.nodes.as_map().dom() == before.nodes.as_map().dom(),
        after.nodes.as_map()[id] == evaluated(mid.nodes.as_map()[id], eval, req, now_ms),
        forall|k: Seq<char>|
            k != id && #[trigger] before.nodes.as_map().contains_key(k) ==> after.nodes.as_map()[k]
                == evaluated(before.nodes.as_map()[k], eval, req, now_ms),
{
    lemma_evaluated_map(mid.nodes.pairs(), after.nodes.pairs(), eval, req, now_ms);
    assert(mid.nodes.as_map().contains_key(id));
    assert forall|k: Seq<char>| k != id && #[trigger] before.nodes.as_map().contains_key(k) implies
        after.nodes.as_map()[k] == evaluated(before.nodes.as_map()[k], eval, req, now_ms) by {
        assert(mid.nodes.as_map().contains_key(k));
        assert(mid.nodes.as_map()[k] == before.nodes.as_map()[k]);
    }
    assert(after.nodes.as_map().dom() =~= before.nodes.as_map().dom());
}

/// The planned segments are the node's prewarm work, and each names a
/// stored segment.
proof fn lemma_plan_required(
    node: CacheNode,
    required: SortedSet<SegmentId>,
    plan: Seq<SegmentId>,
    channels: SortedMap<String, ChannelState>,
    window: WindowConfig,
)
    requires
        required.wf(),
        forall|v: SegmentView| #[trigger] required.as_set().contains(v) == is_required(channels, window, v),
        node.state == CacheNodeState::Dead || node.state == CacheNodeState::Draining ==> plan.len() == 0,
        !(node.state == CacheNodeState::Dead || node.state == CacheNodeState::Draining) ==> plan.map_values(
            |k: SegmentId| k@,
        ) == required.items().filter(|k: SegmentView| !node.retained.as_set().contains(k)),
    ensures
        is_prewarm_plan(plan.map_values(|k: SegmentId| k@), node, required_set(channels, window)),
        forall|i: int|
            0 <= i < plan.len() ==> #[trigger] segments_at(channels, plan[i]@.0, plan[i]@.1).contains_key(
                plan[i]@.2,
            ),
{
    let views = plan.map_values(|k: SegmentId| k@);
    let req = required_set(channels, window);
    if !(node.state == CacheNodeState::Dead || node.state == CacheNodeState::Draining) {
        let pred = |k: SegmentView| !node.retained.as_set().contains(k);
        lemma_filter_increasing::<SegmentId>(required.items(), pred);
        assert forall|v: SegmentView| #[trigger] views.contains(v) == (req.contains(v)
            && !node.retained.as_set().contains(v)) by {
            assert(required.items().filter(pred).contains(v) == (required.items().contains(v) && pred(v)));
            assert(required.as_set().contains(v) == required.items().contains(v));
        }
    } else {
        assert(views.len() == 0);
    }
    assert forall|i: int| 0 <= i < plan.len() implies #[trigger] segments_at(
        channels,
        plan[i]@.0,
        plan[i]@.1,
    ).contains_key(plan[i]@.2) by {
        assert(views[i] == plan[i]@);
        assert(views.contains(views[i]));
        assert(req.contains(views[i]));
        assert(is_required(channels, window, views[i]));
    }
}

impl CoreInner {
    pub open spec fn wf(&self) -> bool {
        &&& channels_wf(self.channels)
        &&& self.registry.wf()
        &&& self.snapshots.wf()
    }

    /// An empty core: no channels, nodes or snapshots.
    pub fn new() -> (c: CoreInner)
        ensures
            c.wf(),
            c.channels.pairs().len() == 0,
            c.registry.nodes.pairs().len() == 0,
            c.snapshots.pairs().len() == 0,
    {
        CoreInner { channels: SortedMap::new(), registry: Registry::new(), snapshots: SortedMap::new() }
    }

    /// Answers a request for a generated playlist (`file` is `master.m3u8` or
    /// `{rendition}.m3u8`).
    ///
    /// Node states are re-evaluated at `now_ms` first. Without an ACTIVE node
    /// the answer is `503`, never origin URLs. The channel's snapshot is
    /// refreshed; media playlist URLs all point at the first ACTIVE node in
    /// routing order.
    pub fn playlist(
        &mut self,
        window: WindowConfig,
        eval: &EvalParams,
        channel: &str,
        file: &str,
        now_ms: u64,
    ) -> (r: Result<String, EdamameError>)
        requires
            old(self).wf(),
        ensures
            final(self).wf(),
            final(self).channels == old(self).channels,
            final(self).registry.nodes.pairs() == evaluated_pairs(
                old(self).registry.nodes.pairs(),
                *eval,
                required_set(old(self).channels, window),
                now_ms,
            ),
            !has_active(final(self).registry.nodes.pairs()) ==> (r matches Err(
                EdamameError::Unavailable(m),
            ) && m@ == "no ACTIVE cache node is available"@ && final(self).snapshots == old(
                self,
            ).snapshots),
            has_active(final(self).registry.nodes.pairs()) && !old(
                self,
            ).channels.as_map().contains_key(channel@) ==> (r matches Err(
                EdamameError::NotFound(m),
            ) && m@ == "unknown channel "@ + channel@ && final(self).snapshots == old(
                self,
            ).snapshots),
            has_active(final(self).registry.nodes.pairs()) && old(self).channels.as_map().contains_key(
                channel@,
            ) ==> playlist_answer(
                old(self).snapshots,
                final(self).snapshots,
                channel@,
                old(self).channels.as_map()[channel@],
                window,
                file@,
                final(self).registry.nodes.pairs(),
                r,
            ),
    {
        let required = required_segments(&self.channels, window);
        proof {
            assert(required.as_set() =~= required_set(self.channels, window));
        }
        self.registry.evaluate_all(eval, &required, now_ms);
        let base_url = match select_active(&self.registry) {
            Some(node) => node.base_url.clone(),
            None => {
                return Err(EdamameError::Unavailable("no ACTIVE cache node is available".to_owned()));
            },
        };
        let ghost chosen = choose|n: CacheNode| is_first_active(n, self.registry.nodes.pairs()) && n.base_url == base_url;
        let key = owned_text(channel);
        let cstate = match self.channels.get(&key) {
            Some(c) => c,
            None => {
                return Err(EdamameError::NotFound(prefixed("unknown channel ", channel)));
            },
        };
        proof {
            lemma_channels_wf_map(self.channels, channel@);
        }
        let snapshot = refresh_snapshot(&mut self.snapshots, channel, cstate, window)?;
        if same_text(file, "master.m3u8") {
            return Ok(render_master_m3u8(&snapshot.master));
        }
        let rendition = match strip_suffix_text(file, ".m3u8") {
            Some(r) => r,
            None => {
                return Err(EdamameError::NotFound(prefixed("unknown playlist ", file)));
            },
        };
        let media = match snapshot.media_for(rendition.as_str()) {
            Some(m) => m,
            None => {
                return Err(EdamameError::NotFound(prefixed("unknown rendition ", rendition.as_str())));
            },
        };
        Ok(render_media_m3u8(media, base_url.as_str()))
    }

    /// Answers a heartbeat: records the report, re-evaluates every node at
    /// `now_ms`, and returns the node's state and the live-window segments it
    /// still has to prewarm.
    ///
    /// Retained keys are validated first (`400`), then the node must be
    /// registered (`404`).
    pub fn heartbeat(
        &mut self,
        window: WindowConfig,
        eval: &EvalParams,
        node_id: &str,
        health: Health,
        load_score: u64,
        retained_segments: Vec<SegmentKey>,
        now_ms: u64,
    ) -> (r: Result<HeartbeatReply, EdamameError>)
        requires
            old(self).wf(),
        ensures
            final(self).wf(),
            final(self).channels == old(self).channels,
            final(self).snapshots == old(self).snapshots,
            !(forall|j: int| 0 <= j < retained_segments@.len() ==> #[trigger] key_valid(retained_segments@[j])) ==> (
            r matches Err(e) && key_error(e, retained_segments@[first_bad_key(retained_segments@)])
                && final(self).registry == old(self).registry),
            (forall|j: int| 0 <= j < retained_segments@.len() ==> #[trigger] key_valid(retained_segments@[j]))
                && !old(self).registry.nodes.as_map().contains_key(node_id@) ==> (r matches Err(
                EdamameError::NotFound(m),
            ) && m@ == "unknown node "@ + node_id@ && final(self).registry == old(self).registry),
            (forall|j: int| 0 <= j < retained_segments@.len() ==> #[trigger] key_valid(retained_segments@[j]))
                && old(self).registry.nodes.as_map().contains_key(node_id@) ==> heartbeat_answer(
                old(self).registry,
                final(self).registry,
                node_id@,
                health,
                load_score,
                keys_set(retained_segments@),
                now_ms,
                *eval,
                required_set(old(self).channels, window),
                old(self).channels,
                r,
            ),
    {
        let ghost keys = retained_segments@;
        let retained = retained_from_keys(retained_segments)?;
        let ghost before = self.registry;
        let ghost retained_view = retained;
        self.registry.heartbeat(node_id, health, load_score, retained, now_ms)?;
        let ghost mid = self.registry;
        proof {
            lemma_report_recorded(before, mid, node_id@, health, load_score, retained_view, keys, now_ms);
        }
        let required = required_segments(&self.channels, window);
        let ghost req = required_set(self.channels, window);
        proof {
            assert(required.as_set() =~= req);
        }
        self.registry.evaluate_all(eval, &required, now_ms);
        proof {
            lemma_others_evaluated(before, mid, self.registry, node_id@, *eval, req, now_ms);
        }
        let key = owned_text(node_id);
        let node = match self.registry.nodes.get(&key) {
            Some(n) => n,
            None => {
                return Err(EdamameError::NotFound(prefixed("unknown node ", node_id)));
            },
        };
        proof {
            self.registry.lemma_node_at(node_id@);
        }
        let state_now = node.state;
        let plan = prewarm_plan(node, &required);
        proof {
            lemma_plan_required(*node, required, plan@, self.channels, window);
        }
        let prewarm = prewarm_items(&self.channels, &plan);
        Ok(HeartbeatReply { state: state_now, prewarm })
    }
}

impl Default for CoreInner {
    fn default() -> (c: CoreInner)
        ensures
            c.wf(),
            c.channels.pairs().len() == 0,
            c.registry.nodes.pairs().len() == 0,
            c.snapshots.pairs().len() == 0,
    {
        CoreInner::new()
    }
}

} // verus!
