//! Deterministic routing and prewarm planning over cache node states.
use vstd::prelude::*;

use crate::controller::registry::Registry;
use crate::domain::cache_node::{CacheNode, CacheNodeState};
use crate::domain::segment::SegmentId;
use crate::ordered::SortedSet;
use crate::text::{chars_lt, lemma_chars_lt_irreflexive, lemma_chars_lt_transitive};

verus! {

/// Routing order of nodes: lower load first, then lower node id.
pub open spec fn node_before(a: CacheNode, b: CacheNode) -> bool {
    ||| a.load_score < b.load_score
    ||| a.load_score == b.load_score && chars_lt(a.node_id@, b.node_id@)
}

pub proof fn lemma_node_before_transitive(a: CacheNode, b: CacheNode, c: CacheNode)
    requires
        node_before(a, b),
        node_before(b, c),
    ensures
        node_before(a, c),
{
    if a.load_score == b.load_score && b.load_score == c.load_score {
        lemma_chars_lt_transitive(a.node_id@, b.node_id@, c.node_id@);
    }
}

pub proof fn lemma_node_before_irreflexive(a: CacheNode)
    ensures
        !node_before(a, a),
{
    lemma_chars_lt_irreflexive(a.node_id@);
}

/// Whether `r` lists exactly the ACTIVE nodes of `pairs`, in routing order.
pub open spec fn is_active_ranking(r: Seq<CacheNode>, pairs: Seq<(Seq<char>, CacheNode)>) -> bool {
    &&& forall|i: int, j: int| 0 <= i < j < r.len() ==> node_before(#[trigger] r[i], #[trigger] r[j])
    &&& forall|i: int|
        0 <= i < r.len() ==> (#[trigger] r[i]).state == CacheNodeState::Active && exists|k: int|
            0 <= k < pairs.len() && pairs[k].1 == r[i]
    &&& forall|k: int|
        0 <= k < pairs.len() && (#[trigger] pairs[k]).1.state == CacheNodeState::Active ==> exists|
            i: int,
        |
            0 <= i < r.len() && r[i] == pairs[k].1
}

/// Whether the nodes of `s` are in routing order.
pub open spec fn ranked(s: Seq<&CacheNode>) -> bool {
    forall|a: int, b: int| 0 <= a < b < s.len() ==> node_before(*#[trigger] s[a], *#[trigger] s[b])
}

/// Inserts `node` into a ranked list whose node ids all precede its own.
fn insert_ranked<'a>(out: &mut Vec<&'a CacheNode>, node: &'a CacheNode) -> (p: usize)
    requires
        ranked(old(out)@),
        forall|q: int| 0 <= q < old(out)@.len() ==> chars_lt((*#[trigger] old(out)@[q]).node_id@, node.node_id@),
    ensures
        ranked(final(out)@),
        p <= old(out)@.len(),
        final(out)@ == old(out)@.insert(p as int, node),
{
    let mut p: usize = 0;
    while p < out.len() && out[p].load_score <= node.load_score
        invariant
            p <= out@.len(),
            forall|q: int| 0 <= q < p ==> (*#[trigger] out@[q]).load_score <= node.load_score,
        decreases out@.len() - p,
    {
        p = p + 1;
    }
    let ghost old_out = out@;
    proof {
        assert forall|q: int| 0 <= q < p implies node_before(*#[trigger] old_out[q], *node) by {}
        assert forall|q: int| p <= q < old_out.len() implies node_before(*node, *#[trigger] old_out[q]) by {
            if q > p {
                lemma_node_before_transitive(*node, *old_out[p as int], *old_out[q]);
            }
        }
    }
    out.insert(p, node);
    proof {
        assert forall|a: int, b: int| 0 <= a < b < out@.len() implies node_before(
            *#[trigger] out@[a],
            *#[trigger] out@[b],
        ) by {
            if b < p {
                assert(out@[a] == old_out[a] && out@[b] == old_out[b]);
            } else if b == p {
                assert(out@[a] == old_out[a]);
            } else if a < p {
                assert(out@[a] == old_out[a] && out@[b] == old_out[b - 1]);
                lemma_node_before_transitive(*old_out[a], *node, *old_out[b - 1]);
            } else if a == p {
                assert(out@[b] == old_out[b - 1]);
            } else {
                assert(out@[a] == old_out[a - 1] && out@[b] == old_out[b - 1]);
            }
        }
    }
    p
}

/// The ranking covers exactly the ACTIVE nodes among the first `i` entries.
spec fn covers(out: Seq<&CacheNode>, pairs: Seq<(Seq<char>, CacheNode)>, i: int) -> bool {
    &&& forall|a: int|
        0 <= a < out.len() ==> (*#[trigger] out[a]).state == CacheNodeState::Active && exists|k: int|
            0 <= k < i && pairs[k].1 == *out[a]
    &&& forall|k: int|
        0 <= k < i && (#[trigger] pairs[k]).1.state == CacheNodeState::Active ==> exists|a: int|
            0 <= a < out.len() && *out[a] == pairs[k].1
}

proof fn lemma_covers_insert(
    old_out: Seq<&CacheNode>,
    out: Seq<&CacheNode>,
    pairs: Seq<(Seq<char>, CacheNode)>,
    i: int,
    p: int,
)
    requires
        covers(old_out, pairs, i),
        0 <= i < pairs.len(),
        pairs[i].1.state == CacheNodeState::Active,
        0 <= p <= old_out.len(),
        out == old_out.insert(p, &pairs[i].1),
    ensures
        covers(out, pairs, i + 1),
{
    assert forall|a: int| 0 <= a < out.len() implies (*#[trigger] out[a]).state
        == CacheNodeState::Active && exists|k: int| 0 <= k < i + 1 && pairs[k].1 == *out[a] by {
        if a < p {
            assert(out[a] == old_out[a]);
            let k = choose|k: int| 0 <= k < i && pairs[k].1 == *old_out[a];
        } else if a == p {
            assert(pairs[i].1 == *out[a]);
        } else {
            assert(out[a] == old_out[a - 1]);
            let k = choose|k: int| 0 <= k < i && pairs[k].1 == *old_out[a - 1];
        }
    }
    assert forall|k: int| 0 <= k < i + 1 && (#[trigger] pairs[k]).1.state
        == CacheNodeState::Active implies exists|a: int| 0 <= a < out.len() && *out[a] == pairs[k].1 by {
        if k == i {
            assert(*out[p] == pairs[k].1);
        } else {
            let a = choose|a: int| 0 <= a < old_out.len() && *old_out[a] == pairs[k].1;
            if a < p {
                assert(out[a] == old_out[a]);
            } else {
                assert(out[a + 1] == old_out[a]);
            }
        }
    }
}

proof fn lemma_covers_skip(out: Seq<&CacheNode>, pairs: Seq<(Seq<char>, CacheNode)>, i: int)
    requires
        covers(out, pairs, i),
        0 <= i < pairs.len(),
        pairs[i].1.state != CacheNodeState::Active,
    ensures
        covers(out, pairs, i + 1),
{
    assert forall|a: int| 0 <= a < out.len() implies (*#[trigger] out[a]).state
        == CacheNodeState::Active && exists|k: int| 0 <= k < i + 1 && pairs[k].1 == *out[a] by {
        let k = choose|k: int| 0 <= k < i && pairs[k].1 == *out[a];
    }
}

/// All ACTIVE nodes, ordered by `(load_score, node_id)`.
pub fn active_nodes(registry: &Registry) -> (r: Vec<&CacheNode>)
    requires
        registry.wf(),
    ensures
        is_active_ranking(r@.map_values(|n: &CacheNode| *n), registry.nodes.pairs()),
{
    let ghost pairs = registry.nodes.pairs();
    let n = registry.nodes.len();
    let mut out: Vec<&CacheNode> = Vec::new();
    let mut i: usize = 0;
    while i < n
        invariant
            registry.wf(),
            pairs == registry.nodes.pairs(),
            n == pairs.len(),
            i <= n,
            ranked(out@),
            covers(out@, pairs, i as int),
        decreases n - i,
    {
        let node = registry.nodes.value_at(i);
        let active = match node.state {
            CacheNodeState::Active => true,
            _ => false,
        };
        if active {
            let ghost old_out = out@;
            proof {
                assert forall|q: int| 0 <= q < old_out.len() implies chars_lt(
                    (*#[trigger] old_out[q]).node_id@,
                    node.node_id@,
                ) by {
                    let k = choose|k: int| 0 <= k < i && pairs[k].1 == *old_out[q];
                    assert(pairs[k].0 == old_out[q].node_id@);
                    assert(pairs[i as int].0 == node.node_id@);
                }
            }
            let p = insert_ranked(&mut out, node);
            proof {
                lemma_covers_insert(old_out, out@, pairs, i as int, p as int);
            }
        } else {
            proof {
                lemma_covers_skip(out@, pairs, i as int);
            }
        }
        i = i + 1;
    }
    proof {
        let m = out@.map_values(|n: &CacheNode| *n);
        assert forall|a: int| 0 <= a < m.len() implies #[trigger] m[a] == *out@[a] by {}
        assert forall|k: int| 0 <= k < pairs.len() && (#[trigger] pairs[k]).1.state
            == CacheNodeState::Active implies exists|a: int| 0 <= a < m.len() && m[a] == pairs[k].1 by {
            let a = choose|a: int| 0 <= a < out@.len() && *out@[a] == pairs[k].1;
            assert(m[a] == pairs[k].1);
        }
        assert forall|a: int| 0 <= a < m.len() implies (#[trigger] m[a]).state == CacheNodeState::Active
            && exists|k: int| 0 <= k < pairs.len() && pairs[k].1 == m[a] by {
            let k = choose|k: int| 0 <= k < n && pairs[k].1 == *out@[a];
        }
    }
    out
}

/// Whether `n` is the ACTIVE node of `pairs` that comes first in routing order.
pub open spec fn is_first_active(n: CacheNode, pairs: Seq<(Seq<char>, CacheNode)>) -> bool {
    &&& n.state == CacheNodeState::Active
    &&& exists|k: int| 0 <= k < pairs.len() && pairs[k].1 == n
    &&& forall|k: int|
        0 <= k < pairs.len() && (#[trigger] pairs[k]).1.state == CacheNodeState::Active
            && pairs[k].1 != n ==> node_before(n, pairs[k].1)
}

/// Whether some node of `pairs` is ACTIVE.
pub open spec fn has_active(pairs: Seq<(Seq<char>, CacheNode)>) -> bool {
    exists|k: int| 0 <= k < pairs.len() && (#[trigger] pairs[k]).1.state == CacheNodeState::Active
}

/// Picks the single ACTIVE node that hosts generated media playlists.
///
/// `None` when no node is ACTIVE; callers map that to `503` rather than
/// exposing origin segment URLs.
pub fn select_active(registry: &Registry) -> (r: Option<&CacheNode>)
    requires
        registry.wf(),
    ensures
        r is None <==> !has_active(registry.nodes.pairs()),
        r matches Some(n) ==> is_first_active(*n, registry.nodes.pairs()),
{
    let ranked = active_nodes(registry);
    let ghost pairs = registry.nodes.pairs();
    let ghost m = ranked@.map_values(|n: &CacheNode| *n);
    if ranked.len() == 0 {
        proof {
            if has_active(pairs) {
                let k = choose|k: int| 0 <= k < pairs.len() && (#[trigger] pairs[k]).1.state
                    == CacheNodeState::Active;
                assert(exists|a: int| 0 <= a < m.len() && m[a] == pairs[k].1);
            }
        }
        None
    } else {
        let first = ranked[0];
        proof {
            assert(m[0] == *first);
            assert forall|k: int| 0 <= k < pairs.len() && (#[trigger] pairs[k]).1.state
                == CacheNodeState::Active && pairs[k].1 != *first implies node_before(*first, pairs[k].1) by {
                let a = choose|a: int| 0 <= a < m.len() && m[a] == pairs[k].1;
                assert(a != 0);
            }
            assert(has_active(pairs)) by {
                let k = choose|k: int| 0 <= k < pairs.len() && pairs[k].1 == m[0];
                assert(pairs[k].1.state == CacheNodeState::Active);
            }
        }
        Some(first)
    }
}

/// At most one node is the first ACTIVE node: selection is deterministic.
pub proof fn lemma_first_active_unique(a: CacheNode, b: CacheNode, pairs: Seq<(Seq<char>, CacheNode)>)
    requires
        is_first_active(a, pairs),
        is_first_active(b, pairs),
    ensures
        a == b,
{
    if a != b {
        let k = choose|k: int| 0 <= k < pairs.len() && pairs[k].1 == b;
        let j = choose|j: int| 0 <= j < pairs.len() && pairs[j].1 == a;
        assert(node_before(a, pairs[k].1));
        assert(node_before(b, pairs[j].1));
        lemma_node_before_transitive(a, b, a);
        lemma_node_before_irreflexive(a);
    }
}

/// A ranking of the ACTIVE nodes lists each of them exactly once, is empty
/// exactly when no node is ACTIVE, and starts with the node selection picks.
pub proof fn lemma_ranking_head_selected(r: Seq<CacheNode>, pairs: Seq<(Seq<char>, CacheNode)>)
    requires
        is_active_ranking(r, pairs),
    ensures
        forall|i: int, j: int| 0 <= i < j < r.len() ==> #[trigger] r[i] != #[trigger] r[j],
        r.len() == 0 <==> !has_active(pairs),
        r.len() > 0 ==> is_first_active(r[0], pairs),
{
    assert forall|i: int, j: int| 0 <= i < j < r.len() implies #[trigger] r[i] != #[trigger] r[j] by {
        lemma_node_before_irreflexive(r[i]);
    }
    if has_active(pairs) {
        let k = choose|k: int| 0 <= k < pairs.len() && (#[trigger] pairs[k]).1.state == CacheNodeState::Active;
        assert(exists|i: int| 0 <= i < r.len() && r[i] == pairs[k].1);
    }
    if r.len() > 0 {
        assert(r[0].state == CacheNodeState::Active);
        let k = choose|k: int| 0 <= k < pairs.len() && pairs[k].1 == r[0];
        assert(pairs[k].1.state == CacheNodeState::Active);
        assert forall|k: int|
            0 <= k < pairs.len() && (#[trigger] pairs[k]).1.state == CacheNodeState::Active
                && pairs[k].1 != r[0] implies node_before(r[0], pairs[k].1) by {
            let i = choose|i: int| 0 <= i < r.len() && r[i] == pairs[k].1;
            assert(i != 0);
        }
    }
}

/// Live-window segments a node still has to fetch before it can serve.
///
/// DEAD and DRAINING nodes get no prewarm work; COLD and ACTIVE nodes are
/// brought to the full live window.
pub fn prewarm_plan(node: &CacheNode, required: &SortedSet<SegmentId>) -> (r: Vec<SegmentId>)
    requires
        node.wf(),
    ensures
        node.state == CacheNodeState::Dead || node.state == CacheNodeState::Draining ==> r@.len()
            == 0,
        !(node.state == CacheNodeState::Dead || node.state == CacheNodeState::Draining) ==> r@.map_values(
            |k: SegmentId| k@,
        ) == required.items().filter(
            |k: (Seq<char>, Seq<char>, u64)| !node.retained.as_set().contains(k),
        ),
{
    match node.state {
        CacheNodeState::Dead | CacheNodeState::Draining => Vec::new(),
        _ => required.difference(&node.retained),
    }
}

} // verus!
