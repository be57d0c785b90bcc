//! Cache node state transitions, overload handling, heartbeat timeouts with
//! an injected clock, and cache eviction.

use std::path::PathBuf;

use edamame_alpha::controller::registry::{EvalParams, evaluate_state};
use edamame_alpha::domain::cache_node::{CacheNode, CacheNodeState, Health};
use edamame_alpha::domain::segment::SegmentId;
use edamame_alpha::node::cache::NodeCache;
use edamame_alpha::ordered::SortedSet;

/// The order key of a reported load, as the core derives it: keys compare
/// as the loads do.
fn load_key(load: f64) -> u64 {
    let bits = load.to_bits();
    if bits >> 63 == 1 { !bits } else { bits | (1 << 63) }
}

fn params() -> EvalParams {
    EvalParams {
        heartbeat_timeout_ms: 10_000,
        overload_threshold: load_key(0.80),
    }
}

fn required(seqs: &[u64]) -> SortedSet<SegmentId> {
    let mut set = SortedSet::new();
    for s in seqs {
        set.insert(SegmentId {
            channel: "live".to_owned(),
            rendition: "720p".to_owned(),
            sequence: *s,
        });
    }
    set
}

fn node(state: CacheNodeState, retained: &[u64]) -> CacheNode {
    CacheNode {
        node_id: "cache-a".to_owned(),
        base_url: "http://127.0.0.1:9001".to_owned(),
        state,
        last_heartbeat_ms: 1_000,
        health: Health::Good,
        load_score: load_key(0.0),
        retained: required(retained),
    }
}

#[test]
fn cold_becomes_active_when_prewarm_complete() {
    let mut n = node(CacheNodeState::Cold, &[101, 102]);
    evaluate_state(&mut n, &params(), &required(&[101, 102]), 1_000);
    assert_eq!(n.state, CacheNodeState::Active);
}

#[test]
fn cold_stays_cold_when_missing_required_segment() {
    let mut n = node(CacheNodeState::Cold, &[101]);
    evaluate_state(&mut n, &params(), &required(&[101, 102]), 1_000);
    assert_eq!(n.state, CacheNodeState::Cold);
}

#[test]
fn active_overloaded_moves_to_draining() {
    let mut n = node(CacheNodeState::Active, &[101, 102]);
    n.load_score = load_key(0.95);
    evaluate_state(&mut n, &params(), &required(&[101, 102]), 1_000);
    assert_eq!(n.state, CacheNodeState::Draining);
}

#[test]
fn active_missing_segment_returns_to_cold() {
    let mut n = node(CacheNodeState::Active, &[101]);
    evaluate_state(&mut n, &params(), &required(&[101, 102]), 1_000);
    assert_eq!(n.state, CacheNodeState::Cold);
}

#[test]
fn draining_recovers_to_active_when_load_and_health_ok() {
    let mut n = node(CacheNodeState::Draining, &[101, 102]);
    n.load_score = load_key(0.10);
    evaluate_state(&mut n, &params(), &required(&[101, 102]), 1_000);
    assert_eq!(n.state, CacheNodeState::Active);
}

#[test]
fn missing_heartbeat_marks_dead_using_injected_time() {
    let mut n = node(CacheNodeState::Active, &[101, 102]);
    // last_heartbeat_ms is 1_000; move now past the timeout window.
    evaluate_state(&mut n, &params(), &required(&[101, 102]), 1_000 + 10_001);
    assert_eq!(n.state, CacheNodeState::Dead);
}

#[test]
fn fresh_heartbeat_does_not_trip_timeout() {
    let mut n = node(CacheNodeState::Active, &[101, 102]);
    evaluate_state(&mut n, &params(), &required(&[101, 102]), 1_000 + 10_000);
    assert_eq!(n.state, CacheNodeState::Active);
}

#[test]
fn evicts_sequences_older_than_live_edge_minus_retention() {
    let mut cache = NodeCache::new(PathBuf::from("cache"), 12);
    for seq in 1..=20u64 {
        let id = SegmentId {
            channel: "live".to_owned(),
            rendition: "720p".to_owned(),
            sequence: seq,
        };
        cache.retain(id, "ts");
        cache.evict();
    }
    let retained: Vec<u64> = cache.retained_ids().into_iter().map(|id| id.sequence).collect();
    // live_edge = 20, retention = 12 => sequences < 8 are evicted.
    assert!(!retained.contains(&7));
    assert!(retained.contains(&8));
    assert!(retained.contains(&20));
}

#[test]
fn dead_node_stays_dead_without_heartbeat() {
    let mut n = node(CacheNodeState::Dead, &[101, 102]);
    evaluate_state(&mut n, &params(), &required(&[101, 102]), 1_000);
    assert_eq!(n.state, CacheNodeState::Dead);
}

#[test]
fn unhealthy_active_node_returns_to_cold() {
    let mut n = node(CacheNodeState::Active, &[101, 102]);
    n.health = Health::Bad;
    evaluate_state(&mut n, &params(), &required(&[101, 102]), 1_000);
    assert_eq!(n.state, CacheNodeState::Cold);
}

#[test]
fn unhealthy_cold_node_stays_cold() {
    let mut n = node(CacheNodeState::Cold, &[101, 102]);
    n.health = Health::Bad;
    evaluate_state(&mut n, &params(), &required(&[101, 102]), 1_000);
    assert_eq!(n.state, CacheNodeState::Cold);
}

#[test]
fn overloaded_draining_node_keeps_draining() {
    let mut n = node(CacheNodeState::Draining, &[101, 102]);
    n.load_score = load_key(0.80);
    evaluate_state(&mut n, &params(), &required(&[101, 102]), 1_000);
    assert_eq!(n.state, CacheNodeState::Draining);
}

#[test]
fn load_at_threshold_counts_as_overloaded() {
    let mut n = node(CacheNodeState::Cold, &[101, 102]);
    n.load_score = load_key(0.80);
    evaluate_state(&mut n, &params(), &required(&[101, 102]), 1_000);
    assert_eq!(n.state, CacheNodeState::Cold);
    n.load_score = load_key(0.79);
    evaluate_state(&mut n, &params(), &required(&[101, 102]), 1_000);
    assert_eq!(n.state, CacheNodeState::Active);
}

#[test]
fn clock_behind_last_heartbeat_is_no_timeout() {
    let mut n = node(CacheNodeState::Active, &[101, 102]);
    evaluate_state(&mut n, &params(), &required(&[101, 102]), 0);
    assert_eq!(n.state, CacheNodeState::Active);
}

#[test]
fn evaluating_twice_changes_nothing_more() {
    for state in [
        CacheNodeState::Cold,
        CacheNodeState::Active,
        CacheNodeState::Draining,
        CacheNodeState::Dead,
    ] {
        for retained in [&[101u64][..], &[101, 102][..]] {
            for load in [0.1, 0.9] {
                let mut n = node(state, retained);
                n.load_score = load_key(load);
                evaluate_state(&mut n, &params(), &required(&[101, 102]), 2_000);
                let once = n.state;
                evaluate_state(&mut n, &params(), &required(&[101, 102]), 2_000);
                assert_eq!(n.state, once);
            }
        }
    }
}

#[test]
fn active_after_evaluation_means_ready() {
    let mut n = node(CacheNodeState::Draining, &[101, 102]);
    n.load_score = load_key(0.5);
    evaluate_state(&mut n, &params(), &required(&[101, 102]), 1_000);
    assert_eq!(n.state, CacheNodeState::Active);
    assert_eq!(n.health, Health::Good);
    assert!(n.load_score < params().overload_threshold);
}

#[test]
fn eviction_keeps_each_rendition_live_edge() {
    let mut cache = NodeCache::new(PathBuf::from("cache"), 2);
    for (rendition, seq) in [("720p", 1u64), ("720p", 10), ("1080p", 3), ("1080p", 4)] {
        cache.retain(SegmentId::new("live", rendition, seq).unwrap(), "ts");
    }
    let evicted = cache.evict();
    let evicted: Vec<(String, u64)> =
        evicted.into_iter().map(|(id, _)| (id.rendition, id.sequence)).collect();
    assert_eq!(evicted, vec![("720p".to_owned(), 1)]);
    let kept: Vec<(String, u64)> =
        cache.retained_ids().into_iter().map(|id| (id.rendition, id.sequence)).collect();
    assert_eq!(
        kept,
        vec![("1080p".to_owned(), 3), ("1080p".to_owned(), 4), ("720p".to_owned(), 10)]
    );
}
