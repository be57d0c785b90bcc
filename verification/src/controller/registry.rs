//! The cache node registry and its deterministic on-demand state evaluation.
use vstd::prelude::*;

use crate::domain::cache_node::{CacheNode, CacheNodeState, Health, ZERO_LOAD_KEY};
use crate::domain::segment::SegmentId;
use crate::error::{EdamameError, prefixed};
use crate::ordered::{SortedMap, SortedSet, lemma_pairs_map_at, lemma_update_value};

verus! {

/// Tunable thresholds of state evaluation.
///
/// `overload_threshold` is an order key of the load threshold, comparable
/// with the `load_score` keys of cache nodes.
#[derive(Debug, Clone, Copy, PartialEq, Eq, Structural)]
pub struct EvalParams {
    pub heartbeat_timeout_ms: u64,
    pub overload_threshold: u64,
}

/// The controller's cache node registry, keyed by node id.
#[derive(Debug, Clone)]
pub struct Registry {
    pub nodes: SortedMap<String, CacheNode>,
}

/// Whether the node's last heartbeat is older than the timeout at `now_ms`.
pub open spec fn timed_out(node: CacheNode, eval: EvalParams, now_ms: u64) -> bool {
    (if now_ms >= node.last_heartbeat_ms {
        now_ms - node.last_heartbeat_ms
    } else {
        0
    }) > eval.heartbeat_timeout_ms
}

/// Whether the node reports a load at or above the threshold.
pub open spec fn overloaded(node: CacheNode, eval: EvalParams) -> bool {
    node.load_score >= eval.overload_threshold
}

/// Whether the node holds every required segment.
pub open spec fn holds_all(node: CacheNode, required: Set<(Seq<char>, Seq<char>, u64)>) -> bool {
    required.subset_of(node.retained.as_set())
}

/// The state one evaluation pass moves a node to.
pub open spec fn next_state(
    node: CacheNode,
    eval: EvalParams,
    required: Set<(Seq<char>, Seq<char>, u64)>,
    now_ms: u64,
) -> CacheNodeState {
    if timed_out(node, eval, now_ms) {
        CacheNodeState::Dead
    } else {
        let over = overloaded(node, eval);
        let healthy = node.health == Health::Good;
        let all = holds_all(node, required);
        match node.state {
            CacheNodeState::Cold => if healthy && !over && all {
                CacheNodeState::Active
            } else {
                CacheNodeState::Cold
            },
            CacheNodeState::Active => if over {
                CacheNodeState::Draining
            } else if !all || !healthy {
                CacheNodeState::Cold
            } else {
                CacheNodeState::Active
            },
            CacheNodeState::Draining => if !over && healthy && all {
                CacheNodeState::Active
            } else {
                CacheNodeState::Draining
            },
            CacheNodeState::Dead => CacheNodeState::Dead,
        }
    }
}

/// The node after one evaluation pass: only its state changes.
pub open spec fn evaluated(
    node: CacheNode,
    eval: EvalParams,
    required: Set<(Seq<char>, Seq<char>, u64)>,
    now_ms: u64,
) -> CacheNode {
    CacheNode { state: next_state(node, eval, required, now_ms), ..node }
}

/// The registry entries after every node is evaluated.
pub open spec fn evaluated_pairs(
    pairs: Seq<(Seq<char>, CacheNode)>,
    eval: EvalParams,
    required: Set<(Seq<char>, Seq<char>, u64)>,
    now_ms: u64,
) -> Seq<(Seq<char>, CacheNode)> {
    pairs.map_values(|p: (Seq<char>, CacheNode)| (p.0, evaluated(p.1, eval, required, now_ms)))
}

/// A node that evaluation leaves ACTIVE has heartbeated within the timeout,
/// reports `ok` health, is below the overload threshold and holds every
/// required segment.
pub proof fn lemma_active_meets_requirements(
    node: CacheNode,
    eval: EvalParams,
    required: Set<(Seq<char>, Seq<char>, u64)>,
    now_ms: u64,
)
    requires
        next_state(node, eval, required, now_ms) == CacheNodeState::Active,
    ensures
        !timed_out(node, eval, now_ms),
        node.health == Health::Good,
        !overloaded(node, eval),
        holds_all(node, required),
{
}

/// A node whose last heartbeat is older than the timeout is DEAD after
/// evaluation, whatever its state.
pub proof fn lemma_timeout_is_dead(
    node: CacheNode,
    eval: EvalParams,
    required: Set<(Seq<char>, Seq<char>, u64)>,
    now_ms: u64,
)
    requires
        timed_out(node, eval, now_ms),
    ensures
        next_state(node, eval, required, now_ms) == CacheNodeState::Dead,
{
}

/// Evaluation never brings a DEAD node back; only a heartbeat does.
pub proof fn lemma_dead_stays_dead(
    node: CacheNode,
    eval: EvalParams,
    required: Set<(Seq<char>, Seq<char>, u64)>,
    now_ms: u64,
)
    requires
        node.state == CacheNodeState::Dead,
    ensures
        next_state(node, eval, required, now_ms) == CacheNodeState::Dead,
{
}

/// Evaluating twice with the same inputs gives what evaluating once gives.
pub proof fn lemma_evaluation_idempotent(
    node: CacheNode,
    eval: EvalParams,
    required: Set<(Seq<char>, Seq<char>, u64)>,
    now_ms: u64,
)
    ensures
        evaluated(evaluated(node, eval, required, now_ms), eval, required, now_ms) == evaluated(
            node,
            eval,
            required,
            now_ms,
        ),
{
}

/// A node that is not overloaded, reports `ok` health, holds every required
/// segment and heartbeated within the timeout is ACTIVE after evaluation
/// unless it was DEAD.
pub proof fn lemma_ready_node_becomes_active(
    node: CacheNode,
    eval: EvalParams,
    required: Set<(Seq<char>, Seq<char>, u64)>,
    now_ms: u64,
)
    requires
        node.state != CacheNodeState::Dead,
        !timed_out(node, eval, now_ms),
        node.health == Health::Good,
        !overloaded(node, eval),
        holds_all(node, required),
    ensures
        next_state(node, eval, required, now_ms) == CacheNodeState::Active,
{
}

/// An overloaded ACTIVE or DRAINING node that is within the timeout is
/// DRAINING after evaluation.
pub proof fn lemma_overloaded_node_drains(
    node: CacheNode,
    eval: EvalParams,
    required: Set<(Seq<char>, Seq<char>, u64)>,
    now_ms: u64,
)
    requires
        node.state == CacheNodeState::Active || node.state == CacheNodeState::Draining,
        !timed_out(node, eval, now_ms),
        overloaded(node, eval),
    ensures
        next_state(node, eval, required, now_ms) == CacheNodeState::Draining,
{
}

/// A DRAINING node that is within the timeout leaves DRAINING only for
/// ACTIVE, and only once it is below the threshold, healthy and holds every
/// required segment; it never falls back to COLD.
pub proof fn lemma_draining_leaves_only_for_active(
    node: CacheNode,
    eval: EvalParams,
    required: Set<(Seq<char>, Seq<char>, u64)>,
    now_ms: u64,
)
    requires
        node.state == CacheNodeState::Draining,
        !timed_out(node, eval, now_ms),
    ensures
        next_state(node, eval, required, now_ms) == CacheNodeState::Draining || next_state(
            node,
            eval,
            required,
            now_ms,
        ) == CacheNodeState::Active,
        next_state(node, eval, required, now_ms) == CacheNodeState::Active <==> (!overloaded(
            node,
            eval,
        ) && node.health == Health::Good && holds_all(node, required)),
{
}

/// A COLD node within the timeout never becomes DRAINING: it stays COLD
/// until it is ready, then becomes ACTIVE.
pub proof fn lemma_cold_never_drains(
    node: CacheNode,
    eval: EvalParams,
    required: Set<(Seq<char>, Seq<char>, u64)>,
    now_ms: u64,
)
    requires
        node.state == CacheNodeState::Cold,
        !timed_out(node, eval, now_ms),
    ensures
        next_state(node, eval, required, now_ms) == CacheNodeState::Cold || next_state(
            node,
            eval,
            required,
            now_ms,
        ) == CacheNodeState::Active,
{
}

/// An ACTIVE node within the timeout that is not overloaded but unhealthy
/// or missing a required segment goes back to COLD to prewarm again.
pub proof fn lemma_unready_active_node_cools(
    node: CacheNode,
    eval: EvalParams,
    required: Set<(Seq<char>, Seq<char>, u64)>,
    now_ms: u64,
)
    requires
        node.state == CacheNodeState::Active,
        !timed_out(node, eval, now_ms),
        !overloaded(node, eval),
        node.health == Health::Bad || !holds_all(node, required),
    ensures
        next_state(node, eval, required, now_ms) == CacheNodeState::Cold,
{
}

/// Moves a single node's state in one deterministic evaluation pass.
///
/// The clock is never read: `now_ms` is supplied, so the same
/// `(node, required, now)` always gives the same result.
pub fn evaluate_state(
    node: &mut CacheNode,
    eval: &EvalParams,
    required: &SortedSet<SegmentId>,
    now_ms: u64,
)
    requires
        old(node).wf(),
    ensures
        *final(node) == evaluated(*old(node), *eval, required.as_set(), now_ms),
{
    if now_ms.saturating_sub(node.last_heartbeat_ms) > eval.heartbeat_timeout_ms {
        node.state = CacheNodeState::Dead;
        return ;
    }
    let overloaded = node.load_score >= eval.overload_threshold;
    let healthy = match node.health {
        Health::Good => true,
        Health::Bad => false,
    };
    let has_all = node.has_all(required);
    node.state =
    match node.state {
        CacheNodeState::Cold => {
            if healthy && !overloaded && has_all {
                CacheNodeState::Active
            } else {
                CacheNodeState::Cold
            }
        },
        CacheNodeState::Active => {
            if overloaded {
                CacheNodeState::Draining
            } else if !has_all || !healthy {
                CacheNodeState::Cold
            } else {
                CacheNodeState::Active
            }
        },
        CacheNodeState::Draining => {
            if !overloaded && healthy && has_all {
                CacheNodeState::Active
            } else {
                CacheNodeState::Draining
            }
        },
        CacheNodeState::Dead => CacheNodeState::Dead,
    };
}

/// Whether `after` is `before` with a heartbeat report applied.
pub open spec fn heartbeat_applied(
    before: CacheNode,
    after: CacheNode,
    health: Health,
    load_score: u64,
    retained: SortedSet<SegmentId>,
    now_ms: u64,
) -> bool {
    &&& after.node_id == before.node_id
    &&& after.base_url == before.base_url
    &&& after.last_heartbeat_ms == now_ms
    &&& after.health == health
    &&& after.load_score == load_score
    &&& if before.state == CacheNodeState::Dead {
        after.state == CacheNodeState::Cold && after.retained.items().len() == 0
    } else {
        after.state == before.state && after.retained == retained
    }
}

impl Registry {
    /// Every node is well formed and stored under its own id.
    pub open spec fn wf(&self) -> bool {
        &&& self.nodes.wf()
        &&& forall|i: int|
            0 <= i < self.nodes.pairs().len() ==> (#[trigger] self.nodes.pairs()[i]).1.wf()
                && self.nodes.pairs()[i].1.node_id@ == self.nodes.pairs()[i].0
    }

    /// An empty registry.
    pub fn new() -> (r: Registry)
        ensures
            r.wf(),
            r.nodes.pairs().len() == 0,
            r.nodes.as_map() == Map::<Seq<char>, CacheNode>::empty(),
    {
        Registry { nodes: SortedMap::new() }
    }

    pub proof fn lemma_node_at(&self, k: Seq<char>)
        requires
            self.wf(),
            self.nodes.as_map().contains_key(k),
        ensures
            self.nodes.as_map()[k].wf(),
            self.nodes.as_map()[k].node_id@ == k,
    {
        let p = self.nodes.pairs();
        let j = choose|j: int| 0 <= j < p.len() && #[trigger] p[j].0 == k;
        lemma_pairs_map_at::<String, CacheNode>(p, j);
    }

    /// Registers a node or updates a known one; returns `true` for a new node.
    ///
    /// A new node starts COLD. A known node gets the new base URL and a
    /// fresh heartbeat time and keeps its state.
    pub fn register(&mut self, node_id: String, base_url: String, now_ms: u64) -> (created: bool)
        requires
            old(self).wf(),
        ensures
            final(self).wf(),
            created == !old(self).nodes.as_map().contains_key(node_id@),
            final(self).nodes.as_map() == old(self).nodes.as_map().insert(
                node_id@,
                final(self).nodes.as_map()[node_id@],
            ),
            created ==> {
                let n = final(self).nodes.as_map()[node_id@];
                &&& n.node_id == node_id
                &&& n.base_url == base_url
                &&& n.state == CacheNodeState::Cold
                &&& n.last_heartbeat_ms == now_ms
                &&& n.health == Health::Good
                &&& n.load_score == ZERO_LOAD_KEY
                &&& n.retained.items().len() == 0
            },
            !created ==> final(self).nodes.as_map()[node_id@] == (CacheNode {
                base_url,
                last_heartbeat_ms: now_ms,
                ..old(self).nodes.as_map()[node_id@]
            }),
    {
        let ghost before = self.nodes;
        match self.nodes.find(&node_id) {
            Some(i) => {
                proof {
                    lemma_pairs_map_at::<String, CacheNode>(before.pairs(), i as int);
                }
                let node = self.nodes.value_at_mut(i);
                node.base_url = base_url;
                node.last_heartbeat_ms = now_ms;
                let ghost updated = *node;
                proof {
                    lemma_update_value::<String, CacheNode>(before.pairs(), i as int, updated);
                    assert forall|j: int| 0 <= j < self.nodes.pairs().len() implies (
                    #[trigger] self.nodes.pairs()[j]).1.wf() && self.nodes.pairs()[j].1.node_id@
                        == self.nodes.pairs()[j].0 by {
                        if j != i {
                            assert(self.nodes.pairs()[j] == before.pairs()[j]);
                        }
                    }
                    assert(self.nodes.as_map() =~= before.as_map().insert(node_id@, updated));
                }
                false
            },
            None => {
                let key = node_id.clone();
                let node = CacheNode::new_cold(node_id, base_url, now_ms);
                let ghost fresh = node;
                self.nodes.insert(key, node);
                proof {
                    assert forall|j: int| 0 <= j < self.nodes.pairs().len() implies (
                    #[trigger] self.nodes.pairs()[j]).1.wf() && self.nodes.pairs()[j].1.node_id@
                        == self.nodes.pairs()[j].0 by {
                        let k = self.nodes.pairs()[j].0;
                        lemma_pairs_map_at::<String, CacheNode>(self.nodes.pairs(), j);
                        if k != fresh.node_id@ {
                            let r = Registry { nodes: before };
                            r.lemma_node_at(k);
                        }
                    }
                    assert(self.nodes.as_map() =~= before.as_map().insert(
                        node_id@,
                        self.nodes.as_map()[node_id@],
                    ));
                }
                true
            },
        }
    }

    /// Applies a heartbeat report.
    ///
    /// A DEAD node that resumes heartbeats returns to COLD with its retained
    /// set cleared, so it must complete prewarm again before becoming ACTIVE.
    pub fn heartbeat(
        &mut self,
        node_id: &str,
        health: Health,
        load_score: u64,
        retained: SortedSet<SegmentId>,
        now_ms: u64,
    ) -> (r: Result<(), EdamameError>)
        requires
            old(self).wf(),
            retained.wf(),
        ensures
            final(self).wf(),
            r is Ok <==> old(self).nodes.as_map().contains_key(node_id@),
            r is Err ==> (r matches Err(EdamameError::NotFound(m)) && m@ == "unknown node "@
                + node_id@ && *final(self) == *old(self)),
            r is Ok ==> final(self).nodes.as_map() == old(self).nodes.as_map().insert(
                node_id@,
                final(self).nodes.as_map()[node_id@],
            ),
            r is Ok ==> heartbeat_applied(
                old(self).nodes.as_map()[node_id@],
                final(self).nodes.as_map()[node_id@],
                health,
                load_score,
                retained,
                now_ms,
            ),
    {
        let ghost before = self.nodes;
        let key = crate::text::owned_text(node_id);
        let i = match self.nodes.find(&key) {
            Some(i) => i,
            None => {
                return Err(EdamameError::NotFound(prefixed("unknown node ", node_id)));
            },
        };
        proof {
            lemma_pairs_map_at::<String, CacheNode>(before.pairs(), i as int);
        }
        let node = self.nodes.value_at_mut(i);
        node.last_heartbeat_ms = now_ms;
        node.health = health;
        node.load_score = load_score;
        match node.state {
            CacheNodeState::Dead => {
                node.state = CacheNodeState::Cold;
                node.retained.clear();
            },
            _ => {
                node.retained = retained;
            },
        }
        let ghost updated = *node;
        proof {
            lemma_update_value::<String, CacheNode>(before.pairs(), i as int, updated);
            assert forall|j: int| 0 <= j < self.nodes.pairs().len() implies (
            #[trigger] self.nodes.pairs()[j]).1.wf() && self.nodes.pairs()[j].1.node_id@
                == self.nodes.pairs()[j].0 by {
                if j != i {
                    assert(self.nodes.pairs()[j] == before.pairs()[j]);
                }
            }
            assert(self.nodes.as_map() =~= before.as_map().insert(node_id@, updated));
        }
        Ok(())
    }

    /// Re-evaluates every node against the required segments and the time.
    pub fn evaluate_all(&mut self, eval: &EvalParams, required: &SortedSet<SegmentId>, now_ms: u64)
        requires
            old(self).wf(),
        ensures
            final(self).wf(),
            final(self).nodes.pairs() == evaluated_pairs(
                old(self).nodes.pairs(),
                *eval,
                required.as_set(),
                now_ms,
            ),
    {
        let ghost before = self.nodes.pairs();
        let ghost req = required.as_set();
        let n = self.nodes.len();
        let mut i: usize = 0;
        while i < n
            invariant
                n == before.len(),
                i <= n,
                req == required.as_set(),
                self.nodes.wf(),
                self.nodes.pairs().len() == n,
                forall|j: int|
                    0 <= j < n ==> (#[trigger] self.nodes.pairs()[j]).0 == before[j].0,
                forall|j: int|
                    0 <= j < i ==> (#[trigger] self.nodes.pairs()[j]).1 == evaluated(
                        before[j].1,
                        *eval,
                        req,
                        now_ms,
                    ),
                forall|j: int| i <= j < n ==> (#[trigger] self.nodes.pairs()[j]).1 == before[j].1,
                forall|j: int|
                    0 <= j < n ==> (#[trigger] before[j]).1.wf() && before[j].1.node_id@
                        == before[j].0,
            decreases n - i,
        {
            let ghost cur = self.nodes.pairs();
            let node = self.nodes.value_at_mut(i);
            evaluate_state(node, eval, required, now_ms);
            let ghost updated = *node;
            proof {
                lemma_update_value::<String, CacheNode>(cur, i as int, updated);
            }
            i = i + 1;
        }
        proof {
            assert(self.nodes.pairs() =~= evaluated_pairs(before, *eval, req, now_ms));
        }
    }
}

impl Default for Registry {
    fn default() -> (r: Registry)
        ensures
            r.wf(),
            r.nodes.pairs().len() == 0,
    {
        Registry::new()
    }
}

} // verus!
