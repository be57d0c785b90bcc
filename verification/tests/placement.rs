//! Deterministic ACTIVE node selection, refusal without an ACTIVE node, and
//! prewarm planning.

use edamame_alpha::controller::placement::{active_nodes, prewarm_plan, select_active};
use edamame_alpha::controller::registry::Registry;
use edamame_alpha::domain::cache_node::{CacheNode, CacheNodeState, Health};
use edamame_alpha::domain::segment::SegmentId;
use edamame_alpha::ordered::SortedSet;

/// The order key of a reported load: keys compare as the loads do.
fn load_key(load: f64) -> u64 {
    let bits = load.to_bits();
    if bits >> 63 == 1 { !bits } else { bits | (1 << 63) }
}

fn ids(seqs: &[u64]) -> SortedSet<SegmentId> {
    let mut set = SortedSet::new();
    for s in seqs {
        set.insert(SegmentId {
            channel: "live".to_owned(),
            rendition: "720p".to_owned(),
            sequence: *s,
        });
    }
    set
}

fn node(id: &str, state: CacheNodeState, load: f64, retained: &[u64]) -> CacheNode {
    CacheNode {
        node_id: id.to_owned(),
        base_url: format!("http://{id}"),
        state,
        last_heartbeat_ms: 0,
        health: Health::Good,
        load_score: load_key(load),
        retained: ids(retained),
    }
}

fn registry(nodes: Vec<CacheNode>) -> Registry {
    let mut reg = Registry::default();
    for n in nodes {
        reg.nodes.insert(n.node_id.clone(), n);
    }
    reg
}

fn required(seqs: &[u64]) -> SortedSet<SegmentId> {
    ids(seqs)
}

#[test]
fn selects_lowest_load_active_node_deterministically() {
    let reg = registry(vec![
        node("cache-b", CacheNodeState::Active, 0.50, &[]),
        node("cache-a", CacheNodeState::Active, 0.20, &[]),
        node("cache-c", CacheNodeState::Draining, 0.10, &[]),
    ]);
    // The lowest load wins; cache-c is DRAINING and not eligible.
    let chosen = select_active(&reg).unwrap();
    assert_eq!(chosen.node_id, "cache-a");

    // The choice is stable over repeated calls.
    assert_eq!(select_active(&reg).unwrap().node_id, "cache-a");
}

#[test]
fn no_active_node_yields_none() {
    let reg = registry(vec![
        node("cache-a", CacheNodeState::Cold, 0.0, &[]),
        node("cache-b", CacheNodeState::Draining, 0.0, &[]),
        node("cache-c", CacheNodeState::Dead, 0.0, &[]),
    ]);
    assert!(select_active(&reg).is_none());
}

#[test]
fn prewarm_plan_lists_missing_segments_for_eligible_nodes() {
    let cold = node("cache-a", CacheNodeState::Cold, 0.0, &[101]);
    let plan = prewarm_plan(&cold, &required(&[101, 102, 103]));
    let seqs: Vec<u64> = plan.iter().map(|id| id.sequence).collect();
    assert_eq!(seqs, vec![102, 103]);
}

#[test]
fn prewarm_plan_skips_draining_and_dead_nodes() {
    let draining = node("cache-a", CacheNodeState::Draining, 0.0, &[]);
    assert!(prewarm_plan(&draining, &required(&[101])).is_empty());
    let dead = node("cache-b", CacheNodeState::Dead, 0.0, &[]);
    assert!(prewarm_plan(&dead, &required(&[101])).is_empty());
}

#[test]
fn equal_loads_are_ranked_by_node_id() {
    let reg = registry(vec![
        node("cache-c", CacheNodeState::Active, 0.30, &[]),
        node("cache-b", CacheNodeState::Active, 0.30, &[]),
        node("cache-a", CacheNodeState::Active, 0.40, &[]),
        node("cache-d", CacheNodeState::Cold, 0.00, &[]),
    ]);
    let ranked: Vec<&str> = active_nodes(&reg).iter().map(|n| n.node_id.as_str()).collect();
    assert_eq!(ranked, vec!["cache-b", "cache-c", "cache-a"]);
    assert_eq!(select_active(&reg).unwrap().node_id, "cache-b");
}

#[test]
fn active_node_gets_missing_live_window_segments() {
    let active = node("cache-a", CacheNodeState::Active, 0.0, &[101, 103]);
    let plan = prewarm_plan(&active, &required(&[101, 102, 103, 104]));
    let seqs: Vec<u64> = plan.iter().map(|id| id.sequence).collect();
    assert_eq!(seqs, vec![102, 104]);
    let complete = node("cache-b", CacheNodeState::Cold, 0.0, &[101, 102]);
    assert!(prewarm_plan(&complete, &required(&[101, 102])).is_empty());
}
