//! End-to-end flows of the core state: ingest, registration, heartbeats,
//! lifecycle transitions and generated playlists, driven with an injected
//! clock.

use std::collections::HashMap;
use std::ops::{Deref, DerefMut};
use std::path::PathBuf;

use edamame_alpha::config::window_config;
use edamame_alpha::controller::CoreInner;
use edamame_alpha::controller::ingest::{
    IngestOutcome, IngestStep, commit_segment, ingest_segment, required_segments, settle_repeat,
};
use edamame_alpha::controller::registry::EvalParams;
use edamame_alpha::controller::storage::CanonicalStore;
use edamame_alpha::domain::cache_node::{CacheNodeState, Health, ZERO_LOAD_KEY};
use edamame_alpha::domain::rendition::RenditionMetadata;
use edamame_alpha::domain::segment::{SegmentId, SegmentKey};
use edamame_alpha::domain::window::WindowConfig;
use edamame_alpha::error::EdamameError;
use edamame_alpha::node::cache::NodeCache;
use edamame_alpha::node::heartbeat::{
    PrewarmItem, heartbeat_keys, heartbeat_url, origin_url, registration_url,
};
use edamame_alpha::node::prewarm::prewarm_target;

fn load_key(load: f64) -> u64 {
    let bits = load.to_bits();
    if bits >> 63 == 1 { !bits } else { bits | (1 << 63) }
}

fn default_window() -> WindowConfig {
    WindowConfig { window_size: 4, retention_window: 8 }
}

fn default_eval() -> EvalParams {
    EvalParams { heartbeat_timeout_ms: 10_000, overload_threshold: load_key(0.80) }
}

fn sample_bytes(seed: &str) -> Vec<u8> {
    format!("edamame-segment-{seed}").into_bytes()
}

fn metadata(bandwidth: Option<u64>, resolution: Option<&str>) -> RenditionMetadata {
    RenditionMetadata { bandwidth, resolution: resolution.map(|r| r.to_owned()) }
}

/// The core state with the canonical files it has written.
struct Origin {
    inner: CoreInner,
    files: HashMap<(String, u64, String), Vec<u8>>,
}

impl Origin {
    fn new() -> Self {
        Origin { inner: CoreInner::new(), files: HashMap::new() }
    }
}

impl Deref for Origin {
    type Target = CoreInner;
    fn deref(&self) -> &CoreInner {
        &self.inner
    }
}

impl DerefMut for Origin {
    fn deref_mut(&mut self) -> &mut CoreInner {
        &mut self.inner
    }
}

/// Ingests a segment the way the core's handler does and returns its status.
fn publish(
    core: &mut Origin,
    rendition: &str,
    filename: &str,
    md: &RenditionMetadata,
    bytes: &[u8],
    now: u64,
) -> Result<u16, EdamameError> {
    match ingest_segment(&mut core.inner.channels, "live", rendition, filename, md, bytes)? {
        IngestStep::Compare { sequence, ext } => {
            let stored = core.files[&(rendition.to_owned(), sequence, ext)].clone();
            let outcome = settle_repeat("live", rendition, sequence, Some(stored.as_slice()), bytes)?;
            assert_eq!(outcome, IngestOutcome::AlreadyExists);
            Ok(200)
        }
        IngestStep::Store { sequence, ext, hash } => {
            core.files.insert((rendition.to_owned(), sequence, ext.clone()), bytes.to_vec());
            let outcome =
                commit_segment(&mut core.inner.channels, "live", rendition, sequence, ext, hash, now);
            assert_eq!(outcome, IngestOutcome::Created);
            Ok(201)
        }
    }
}

fn key(rendition: &str, sequence: u64) -> SegmentKey {
    SegmentKey { channel_id: "live".to_owned(), rendition: rendition.to_owned(), sequence }
}

fn full_window() -> Vec<SegmentKey> {
    vec![key("720p", 101), key("720p", 102)]
}

fn heartbeat(core: &mut CoreInner, eval: &EvalParams, load: f64, keys: Vec<SegmentKey>, now: u64) -> CacheNodeState {
    core.heartbeat(default_window(), eval, "cache-a", Health::Good, load_key(load), keys, now)
        .unwrap()
        .state
}

#[test]
fn segment_ingest_status_codes() {
    let mut core = Origin::new();
    let md = metadata(Some(3_000_000), Some("1280x720"));
    assert_eq!(publish(&mut core, "720p", "101.ts", &md, b"101", 1).unwrap(), 201);
    assert_eq!(publish(&mut core, "720p", "101.ts", &md, b"101", 2).unwrap(), 200);
    let conflict = publish(&mut core, "720p", "101.ts", &md, b"different", 3).unwrap_err();
    assert_eq!(conflict.status(), 409);
    assert_eq!(
        conflict,
        EdamameError::Conflict("segment live/720p/101 already exists with different bytes".to_owned())
    );
    let bad = publish(&mut core, "720p", "badname", &md, b"x", 4).unwrap_err();
    assert_eq!(bad.status(), 400);
    let rs = core.channels.get(&"live".to_owned()).unwrap().renditions.get(&"720p".to_owned()).unwrap();
    assert_eq!(rs.commits.len(), 1);
    assert_eq!(rs.commits[0].sequence, 101);
    assert_eq!(rs.commits[0].committed_at_ms, 1);
    assert_eq!(rs.live_edge(), Some(101));
}

#[test]
fn conflicting_rendition_metadata_is_rejected() {
    let mut core = Origin::new();
    publish(&mut core, "720p", "101.ts", &metadata(Some(3_000_000), None), b"a", 1).unwrap();
    let err = publish(&mut core, "720p", "102.ts", &metadata(Some(6_000_000), None), b"b", 2).unwrap_err();
    assert_eq!(
        err,
        EdamameError::Conflict("rendition metadata conflicts with established values".to_owned())
    );
    // Omitted metadata is compatible and fills nothing in.
    assert_eq!(publish(&mut core, "720p", "102.ts", &metadata(None, None), b"b", 3).unwrap(), 201);
    let rs = core.channels.get(&"live".to_owned()).unwrap().renditions.get(&"720p".to_owned()).unwrap();
    assert_eq!(rs.metadata.bandwidth, Some(3_000_000));
    assert_eq!(rs.metadata.resolution, None);
}

#[test]
fn same_sequence_with_other_extension_conflicts() {
    let mut core = Origin::new();
    publish(&mut core, "720p", "101.ts", &metadata(None, None), b"a", 1).unwrap();
    let err = publish(&mut core, "720p", "101.m4s", &metadata(None, None), b"a", 2).unwrap_err();
    assert_eq!(err.status(), 409);
}

#[test]
fn invalid_identifiers_are_rejected_before_anything_changes() {
    let mut core = Origin::new();
    let md = metadata(None, None);
    let err = ingest_segment(&mut core.channels, "a/b", "720p", "1.ts", &md, b"x").unwrap_err();
    assert_eq!(err, EdamameError::BadRequest("channel must not contain path separators: a/b".to_owned()));
    let err = ingest_segment(&mut core.channels, "live", "", "1.ts", &md, b"x").unwrap_err();
    assert_eq!(err, EdamameError::BadRequest("rendition must not be empty".to_owned()));
    assert!(core.channels.is_empty());
}

#[test]
fn node_registration_status_codes() {
    let mut core = Origin::new();
    assert!(core.registry.register("cache-a".to_owned(), "http://127.0.0.1:9001".to_owned(), 5));
    assert!(!core.registry.register("cache-a".to_owned(), "http://127.0.0.1:9002".to_owned(), 6));
    let node = core.registry.nodes.get(&"cache-a".to_owned()).unwrap();
    assert_eq!(node.base_url, "http://127.0.0.1:9002");
    assert_eq!(node.state, CacheNodeState::Cold);
    assert_eq!(node.last_heartbeat_ms, 6);
}

#[test]
fn heartbeat_returns_state_and_prewarm_work() {
    let mut core = Origin::new();
    core.registry.register("cache-a".to_owned(), "http://127.0.0.1:9001".to_owned(), 0);
    publish(&mut core, "720p", "101.ts", &metadata(None, None), b"101", 0).unwrap();
    let reply = core
        .heartbeat(default_window(), &default_eval(), "cache-a", Health::Good, load_key(0.1), vec![], 10)
        .unwrap();
    assert_eq!(reply.state, CacheNodeState::Cold);
    assert_eq!(
        reply.prewarm,
        vec![PrewarmItem {
            channel_id: "live".to_owned(),
            rendition: "720p".to_owned(),
            filename: "101.ts".to_owned(),
        }]
    );
}

#[test]
fn heartbeat_errors() {
    let mut core = Origin::new();
    let unknown = core
        .heartbeat(default_window(), &default_eval(), "ghost", Health::Good, 0, vec![], 1)
        .unwrap_err();
    assert_eq!(unknown, EdamameError::NotFound("unknown node ghost".to_owned()));
    core.registry.register("cache-a".to_owned(), "http://a".to_owned(), 0);
    let bad = core
        .heartbeat(
            default_window(),
            &default_eval(),
            "ghost",
            Health::Good,
            0,
            vec![key("720p", 1), key("a/b", 2)],
            1,
        )
        .unwrap_err();
    // Keys are checked before the node is looked up.
    assert_eq!(bad, EdamameError::BadRequest("rendition must not contain path separators: a/b".to_owned()));
}

#[test]
fn playlists_unavailable_without_active_node() {
    let mut core = Origin::new();
    publish(&mut core, "720p", "101.ts", &metadata(None, None), b"101", 0).unwrap();
    for file in ["master.m3u8", "720p.m3u8"] {
        let err = core.playlist(default_window(), &default_eval(), "live", file, 1).unwrap_err();
        assert_eq!(err.status(), 503);
        assert_eq!(err, EdamameError::Unavailable("no ACTIVE cache node is available".to_owned()));
    }
}

#[test]
fn publishes_and_serves_generated_master_and_media_playlists() {
    let mut core = Origin::new();
    for (rendition, bw) in [("720p", 3_000_000u64), ("1080p", 6_000_000)] {
        for seq in [101u64, 102] {
            let status = publish(
                &mut core,
                rendition,
                &format!("{seq}.ts"),
                &metadata(Some(bw), Some("1280x720")),
                &sample_bytes(&format!("{rendition}-{seq}")),
                0,
            )
            .unwrap();
            assert!(status == 200 || status == 201);
        }
    }
    let unavailable = core.playlist(default_window(), &default_eval(), "live", "master.m3u8", 1).unwrap_err();
    assert_eq!(unavailable.status(), 503);

    let node_base = "http://127.0.0.1:18080";
    core.registry.register("cache-a".to_owned(), node_base.to_owned(), 1);
    let state = heartbeat(
        &mut core,
        &default_eval(),
        0.1,
        vec![key("720p", 101), key("720p", 102), key("1080p", 101), key("1080p", 102)],
        2,
    );
    assert_eq!(state, CacheNodeState::Active);

    let master = core.playlist(default_window(), &default_eval(), "live", "master.m3u8", 3).unwrap();
    assert!(master.contains("720p.m3u8"));
    assert!(master.contains("1080p.m3u8"));

    let media = core.playlist(default_window(), &default_eval(), "live", "720p.m3u8", 3).unwrap();
    assert!(media.contains(&format!("{node_base}/segments/live/720p/101.ts")));
    assert!(media.contains(&format!("{node_base}/segments/live/720p/102.ts")));

    let unknown = core.playlist(default_window(), &default_eval(), "live", "480p.m3u8", 3).unwrap_err();
    assert_eq!(unknown, EdamameError::NotFound("unknown rendition 480p".to_owned()));
    let other = core.playlist(default_window(), &default_eval(), "live", "index.html", 3).unwrap_err();
    assert_eq!(other, EdamameError::NotFound("unknown playlist index.html".to_owned()));
    let channel = core.playlist(default_window(), &default_eval(), "news", "master.m3u8", 3).unwrap_err();
    assert_eq!(channel, EdamameError::NotFound("unknown channel news".to_owned()));
}

#[test]
fn node_transitions_through_lifecycle_states() {
    let eval = EvalParams { heartbeat_timeout_ms: 200, overload_threshold: load_key(0.80) };
    let mut core = Origin::new();
    for seq in [101u64, 102] {
        publish(&mut core, "720p", &format!("{seq}.ts"), &metadata(None, None), &sample_bytes(&format!("720p-{seq}")), 0)
            .unwrap();
    }
    core.registry.register("cache-a".to_owned(), "http://127.0.0.1:18081".to_owned(), 0);

    // Nothing retained: stays COLD.
    assert_eq!(heartbeat(&mut core, &eval, 0.1, vec![], 10), CacheNodeState::Cold);
    // Live window retained: ACTIVE.
    assert_eq!(heartbeat(&mut core, &eval, 0.1, full_window(), 20), CacheNodeState::Active);
    // Overloaded: DRAINING.
    assert_eq!(heartbeat(&mut core, &eval, 0.95, full_window(), 30), CacheNodeState::Draining);
    // Recovered: ACTIVE.
    assert_eq!(heartbeat(&mut core, &eval, 0.1, full_window(), 40), CacheNodeState::Active);

    // Heartbeats stop past the timeout; a playlist request evaluates the
    // registry and finds the only node DEAD.
    let media = core.playlist(default_window(), &eval, "live", "720p.m3u8", 40 + 350).unwrap_err();
    assert_eq!(media.status(), 503);
    assert_eq!(
        core.registry.nodes.get(&"cache-a".to_owned()).unwrap().state,
        CacheNodeState::Dead
    );

    // A resumed heartbeat brings the node back to COLD; it must prewarm again.
    assert_eq!(heartbeat(&mut core, &eval, 0.1, full_window(), 400), CacheNodeState::Cold);
    assert!(core.registry.nodes.get(&"cache-a".to_owned()).unwrap().retained.len() == 0);
    assert_eq!(heartbeat(&mut core, &eval, 0.1, full_window(), 410), CacheNodeState::Active);
}

#[test]
fn required_segments_cover_each_rendition_live_window() {
    let mut core = Origin::new();
    for seq in 1..=6u64 {
        publish(&mut core, "720p", &format!("{seq}.ts"), &metadata(None, None), &[seq as u8], 0).unwrap();
    }
    publish(&mut core, "1080p", "3.ts", &metadata(None, None), b"x", 0).unwrap();
    let required = required_segments(&core.channels, default_window());
    let mut seen = Vec::new();
    for i in 0..required.len() {
        let id: &SegmentId = required.at(i);
        seen.push((id.rendition.clone(), id.sequence));
    }
    assert_eq!(
        seen,
        vec![
            ("1080p".to_owned(), 3),
            ("720p".to_owned(), 3),
            ("720p".to_owned(), 4),
            ("720p".to_owned(), 5),
            ("720p".to_owned(), 6)
        ]
    );
}

#[test]
fn node_prewarms_serves_and_evicts_past_retention() {
    let mut cache = NodeCache::new(PathBuf::from("/var/cache/a"), 2);
    for seq in 1..=4u64 {
        let (id, ext) = prewarm_target("live", "720p", &format!("{seq}.ts")).unwrap();
        cache.retain(id, &ext);
        cache.evict();
    }
    // live_edge = 4, retention = 2 => sequence 1 is evicted.
    assert!(cache.locate("live", "720p", 1).is_none());
    let path = cache.locate("live", "720p", 4).unwrap();
    assert_eq!(path.channel, "live");
    assert_eq!(path.rendition, "720p");
    assert_eq!(path.file_name, "4.ts");
    assert!(cache.locate("live", "720p", 9).is_none());
    assert_eq!(cache.dir(), &PathBuf::from("/var/cache/a"));
    let keys = heartbeat_keys(&cache);
    let seqs: Vec<u64> = keys.iter().map(|k| k.sequence).collect();
    assert_eq!(seqs, vec![2, 3, 4]);
}

#[test]
fn prewarm_target_checks_filename_then_identifiers() {
    assert_eq!(
        prewarm_target("a/b", "720p", "x").unwrap_err(),
        EdamameError::BadRequest("filename must include an extension: x".to_owned())
    );
    assert_eq!(
        prewarm_target("a/b", "720p", "1.ts").unwrap_err(),
        EdamameError::BadRequest("channel must not contain path separators: a/b".to_owned())
    );
    let (id, ext) = prewarm_target("live", "720p", "7.m4s").unwrap();
    assert_eq!((id.channel.as_str(), id.rendition.as_str(), id.sequence), ("live", "720p", 7));
    assert_eq!(ext, "m4s");
}

#[test]
fn node_urls_drop_trailing_slashes_of_core_url() {
    assert_eq!(registration_url("http://core:9000//", "cache-a"), "http://core:9000/nodes/cache-a");
    assert_eq!(heartbeat_url("http://core:9000", "cache-a"), "http://core:9000/nodes/cache-a/heartbeat");
    let item = PrewarmItem {
        channel_id: "live".to_owned(),
        rendition: "720p".to_owned(),
        filename: "101.ts".to_owned(),
    };
    assert_eq!(origin_url("http://core:9000/", &item), "http://core:9000/segments/live/720p/101.ts");
}

#[test]
fn canonical_store_layout() {
    let store = CanonicalStore::new(PathBuf::from("/srv/edamame"));
    assert_eq!(store.root(), &PathBuf::from("/srv/edamame"));
    let path = store.locate_segment("live", "720p", "0101.ts").unwrap();
    assert_eq!((path.channel.as_str(), path.rendition.as_str(), path.file_name.as_str()), ("live", "720p", "101.ts"));
    let written = store.segment_path("live", "720p", 101, "ts");
    assert_eq!(written, path);
    assert_eq!(store.locate_segment("live", "720p", "x.ts").unwrap_err().status(), 400);
}

#[test]
fn window_settings_are_checked() {
    assert_eq!(
        window_config(6, 12).unwrap(),
        WindowConfig { window_size: 6, retention_window: 12 }
    );
    assert_eq!(
        window_config(6, 5).unwrap_err(),
        EdamameError::BadRequest("retention window must be at least the live window size".to_owned())
    );
    assert_eq!(
        window_config(0, 5).unwrap_err(),
        EdamameError::BadRequest("live window size must be greater than zero".to_owned())
    );
}

#[test]
fn fetching_the_prewarm_plan_makes_the_node_active() {
    let mut core = Origin::new();
    core.registry.register("cache-a".to_owned(), "http://a".to_owned(), 0);
    for seq in [101u64, 102, 103] {
        publish(&mut core, "720p", &format!("{seq}.m4s"), &metadata(None, None), &[seq as u8], 0).unwrap();
    }
    let reply = core
        .heartbeat(default_window(), &default_eval(), "cache-a", Health::Good, load_key(0.2), vec![key("720p", 102)], 5)
        .unwrap();
    assert_eq!(reply.state, CacheNodeState::Cold);
    let files: Vec<&str> = reply.prewarm.iter().map(|p| p.filename.as_str()).collect();
    assert_eq!(files, vec!["101.m4s", "103.m4s"]);
    let mut keys = vec![key("720p", 102)];
    for item in &reply.prewarm {
        let (id, _) = prewarm_target(&item.channel_id, &item.rendition, &item.filename).unwrap();
        keys.push(SegmentKey::from(&id));
    }
    let reply = core
        .heartbeat(default_window(), &default_eval(), "cache-a", Health::Good, load_key(0.2), keys, 6)
        .unwrap();
    assert_eq!(reply.state, CacheNodeState::Active);
    assert!(reply.prewarm.is_empty());
}

#[test]
fn draining_node_gets_no_prewarm_work() {
    let mut core = Origin::new();
    core.registry.register("cache-a".to_owned(), "http://a".to_owned(), 0);
    publish(&mut core, "720p", "101.ts", &metadata(None, None), b"a", 0).unwrap();
    let reply = core
        .heartbeat(default_window(), &default_eval(), "cache-a", Health::Good, load_key(0.1), vec![key("720p", 101)], 1)
        .unwrap();
    assert_eq!(reply.state, CacheNodeState::Active);
    publish(&mut core, "720p", "102.ts", &metadata(None, None), b"b", 2).unwrap();
    let reply = core
        .heartbeat(default_window(), &default_eval(), "cache-a", Health::Good, load_key(0.9), vec![key("720p", 101)], 3)
        .unwrap();
    assert_eq!(reply.state, CacheNodeState::Draining);
    assert!(reply.prewarm.is_empty());
}

#[test]
fn repeats_are_decided_on_the_stored_bytes() {
    assert_eq!(settle_repeat("live", "720p", 7, Some(&b"abc"[..]), b"abc").unwrap(), IngestOutcome::AlreadyExists);
    assert_eq!(
        settle_repeat("live", "720p", 7, Some(&b"abc"[..]), b"abd").unwrap_err(),
        EdamameError::Conflict("segment live/720p/7 already exists with different bytes".to_owned())
    );
    assert_eq!(settle_repeat("live", "720p", 7, Some(&b"abc"[..]), b"ab").unwrap_err().status(), 409);
    assert_eq!(settle_repeat("live", "720p", 7, Some(&b""[..]), b"").unwrap(), IngestOutcome::AlreadyExists);
    // An unreadable canonical copy leaves the matching fingerprint to decide.
    assert_eq!(settle_repeat("live", "720p", 7, None, b"abc").unwrap(), IngestOutcome::AlreadyExists);
}

#[test]
fn repeat_with_same_bytes_asks_for_a_comparison() {
    let mut core = Origin::new();
    publish(&mut core, "720p", "5.ts", &metadata(None, None), b"five", 0).unwrap();
    let step = ingest_segment(&mut core.inner.channels, "live", "720p", "5.ts", &metadata(None, None), b"five").unwrap();
    assert_eq!(step, IngestStep::Compare { sequence: 5, ext: "ts".to_owned() });
}

#[test]
fn new_node_reports_load_zero_until_its_first_heartbeat() {
    assert_eq!(load_key(0.0), ZERO_LOAD_KEY);
    let mut core = Origin::new();
    core.registry.register("cache-a".to_owned(), "http://a".to_owned(), 0);
    assert_eq!(core.registry.nodes.get(&"cache-a".to_owned()).unwrap().load_score, ZERO_LOAD_KEY);
    // With a threshold of 0.0 a load of 0.0 counts as overloaded, so the
    // node is neither ACTIVE nor DRAINING before and after its heartbeat.
    let eval = EvalParams { heartbeat_timeout_ms: 10_000, overload_threshold: load_key(-0.0) };
    let err = core.playlist(default_window(), &eval, "live", "master.m3u8", 1).unwrap_err();
    assert_eq!(err.status(), 503);
    assert_eq!(core.registry.nodes.get(&"cache-a".to_owned()).unwrap().state, CacheNodeState::Cold);
    assert_eq!(heartbeat(&mut core, &eval, 0.0, vec![], 2), CacheNodeState::Cold);
}
