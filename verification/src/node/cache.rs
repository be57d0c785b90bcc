//! The node-local set of retained segments and its eviction rule.
//!
//! Retained segments live at `{dir}/{channel}/{rendition}/{sequence}.{ext}`;
//! the file operations themselves are done by the caller.
use vstd::prelude::*;

use std::path::PathBuf;

use crate::domain::segment::{SegmentId, SegmentPath, filename_text, render_filename};
use crate::domain::window::{LiveWindow, WindowConfig, retention_floor};
use crate::ordered::{SortKey, SortedMap, lemma_pick_filter, lemma_pairs_map_at, pick};
use crate::text::{owned_text, same_text};

verus! {

/// Retention window used when the node binary sets none.
pub const DEFAULT_RETENTION_WINDOW: u64 = 12;

/// Identity view of a segment: `(channel, rendition, sequence)`.
pub type SegmentView = (Seq<char>, Seq<char>, u64);

/// The highest retained sequence of rendition `(c, r)`: its live edge.
pub open spec fn group_edge(entries: Seq<(SegmentView, String)>, c: Seq<char>, r: Seq<char>) -> Option<
    u64,
>
    decreases entries.len(),
{
    if entries.len() == 0 {
        None
    } else {
        let rest = group_edge(entries.drop_last(), c, r);
        let k = entries.last().0;
        if k.0 == c && k.1 == r {
            match rest {
                Some(e) => Some(if e >= k.2 {
                    e
                } else {
                    k.2
                }),
                None => Some(k.2),
            }
        } else {
            rest
        }
    }
}

/// Whether a retained segment is older than its rendition's live edge minus
/// the retention window.
pub open spec fn is_stale(entries: Seq<(SegmentView, String)>, retention: u64, id: SegmentView) -> bool {
    match group_edge(entries, id.0, id.1) {
        Some(e) => id.2 < retention_floor(e, retention),
        None => false,
    }
}

/// Retained segments that survive eviction.
pub open spec fn fresh_pred(entries: Seq<(SegmentView, String)>, retention: u64) -> spec_fn(
    (SegmentView, String),
) -> bool {
    |p: (SegmentView, String)| !is_stale(entries, retention, p.0)
}

/// Retained segments that eviction removes.
pub open spec fn stale_pred(entries: Seq<(SegmentView, String)>, retention: u64) -> spec_fn(
    (SegmentView, String),
) -> bool {
    |p: (SegmentView, String)| is_stale(entries, retention, p.0)
}

/// The store of retained segments rooted at a local directory.
#[derive(Debug)]
pub struct NodeCache {
    dir: PathBuf,
    retention_window: u64,
    retained: SortedMap<SegmentId, String>,
}

impl NodeCache {
    /// The retained segments and their extensions, in identity order.
    pub closed spec fn entries(&self) -> Seq<(SegmentView, String)> {
        self.retained.pairs()
    }

    pub closed spec fn retention(&self) -> u64 {
        self.retention_window
    }

    pub closed spec fn dir_spec(&self) -> PathBuf {
        self.dir
    }

    pub closed spec fn wf(&self) -> bool {
        self.retained.wf()
    }

    /// The retained segments as a map from identity to extension.
    pub open spec fn retained_map(&self) -> Map<SegmentView, String> {
        crate::ordered::pairs_map(self.entries())
    }

    /// A cache rooted at `dir` with the given retention window.
    pub fn new(dir: PathBuf, retention_window: u64) -> (c: NodeCache)
        ensures
            c.wf(),
            c.entries() == Seq::<(SegmentView, String)>::empty(),
            c.retention() == retention_window,
            c.dir_spec() == dir,
    {
        NodeCache { dir, retention_window, retained: SortedMap::new() }
    }

    /// The directory retained segments are stored below.
    pub fn dir(&self) -> (d: &PathBuf)
        ensures
            *d == self.dir_spec(),
    {
        &self.dir
    }

    /// Where a retained segment's bytes live below the cache directory.
    pub fn path_for(&self, id: &SegmentId, ext: &str) -> (p: SegmentPath)
        ensures
            p.channel@ == id.channel@,
            p.rendition@ == id.rendition@,
            p.file_name@ == filename_text(id.sequence, ext@),
    {
        SegmentPath {
            channel: owned_text(id.channel.as_str()),
            rendition: owned_text(id.rendition.as_str()),
            file_name: render_filename(id.sequence, ext),
        }
    }

    /// Records that the bytes of `id` are stored with extension `ext`.
    pub fn retain(&mut self, id: SegmentId, ext: &str)
        requires
            old(self).wf(),
        ensures
            final(self).wf(),
            final(self).retained_map() == old(self).retained_map().insert(
                id@,
                final(self).retained_map()[id@],
            ),
            final(self).retained_map()[id@]@ == ext@,
            final(self).retention() == old(self).retention(),
            final(self).dir_spec() == old(self).dir_spec(),
    {
        let ghost key = id@;
        let value = owned_text(ext);
        let ghost v = value;
        self.retained.insert(id, value);
        assert(self.retained_map() == old(self).retained_map().insert(key, v));
    }

    /// Where the retained bytes of `(channel, rendition, sequence)` live, if
    /// the segment is retained.
    pub fn locate(&self, channel: &str, rendition: &str, sequence: u64) -> (r: Option<SegmentPath>)
        requires
            self.wf(),
        ensures
            r is Some <==> self.retained_map().contains_key((channel@, rendition@, sequence)),
            r matches Some(p) ==> p.channel@ == channel@ && p.rendition@ == rendition@
                && p.file_name@ == filename_text(
                sequence,
                self.retained_map()[(channel@, rendition@, sequence)]@,
            ),
    {
        let id = SegmentId {
            channel: owned_text(channel),
            rendition: owned_text(rendition),
            sequence,
        };
        match self.retained.get(&id) {
            Some(ext) => Some(self.path_for(&id, ext.as_str())),
            None => None,
        }
    }

    /// The identities this node currently retains, in identity order.
    pub fn retained_ids(&self) -> (ids: Vec<SegmentId>)
        ensures
            ids@.map_values(|id: SegmentId| id@) == self.entries().map_values(
                |p: (SegmentView, String)| p.0,
            ),
    {
        let n = self.retained.len();
        let mut ids: Vec<SegmentId> = Vec::new();
        let mut i: usize = 0;
        while i < n
            invariant
                n == self.entries().len(),
                i <= n,
                ids@.len() == i,
                forall|k: int| 0 <= k < i ==> (#[trigger] ids@[k])@ == self.entries()[k].0,
            decreases n - i,
        {
            ids.push(self.retained.key_at(i).duplicate());
            i = i + 1;
        }
        assert(ids@.map_values(|id: SegmentId| id@) =~= self.entries().map_values(
            |p: (SegmentView, String)| p.0,
        ));
        ids
    }

    /// The live edge of rendition `(channel, rendition)` among the retained
    /// segments.
    fn edge_of_group(&self, channel: &String, rendition: &String) -> (e: Option<u64>)
        ensures
            e == group_edge(self.entries(), channel@, rendition@),
    {
        let n = self.retained.len();
        let mut edge: Option<u64> = None;
        let mut i: usize = 0;
        while i < n
            invariant
                n == self.entries().len(),
                i <= n,
                edge == group_edge(self.entries().take(i as int), channel@, rendition@),
            decreases n - i,
        {
            let id = self.retained.key_at(i);
            assert(self.entries().take(i + 1).drop_last() =~= self.entries().take(i as int));
            assert(self.entries().take(i + 1).last() == self.entries()[i as int]);
            if same_text(id.channel.as_str(), channel.as_str()) && same_text(
                id.rendition.as_str(),
                rendition.as_str(),
            ) {
                edge =
                match edge {
                    Some(e) => Some(
                        if e >= id.sequence {
                            e
                        } else {
                            id.sequence
                        },
                    ),
                    None => Some(id.sequence),
                };
            }
            i = i + 1;
        }
        assert(self.entries().take(n as int) =~= self.entries());
        edge
    }

    /// Evicts, per rendition, the retained segments older than
    /// `live_edge - retention_window` and returns them with their extensions.
    pub fn evict(&mut self) -> (evicted: Vec<(SegmentId, String)>)
        requires
            old(self).wf(),
        ensures
            final(self).wf(),
            final(self).entries() == old(self).entries().filter(
                fresh_pred(old(self).entries(), old(self).retention()),
            ),
            evicted@.map_values(|e: (SegmentId, String)| (e.0@, e.1)) == old(self).entries().filter(
                stale_pred(old(self).entries(), old(self).retention()),
            ),
            final(self).retention() == old(self).retention(),
            final(self).dir_spec() == old(self).dir_spec(),
    {
        let ghost before = self.entries();
        let ghost retention = self.retention_window;
        let ghost fresh = fresh_pred(before, retention);
        let n = self.retained.len();
        let mut keep: Vec<bool> = Vec::new();
        let mut i: usize = 0;
        while i < n
            invariant
                n == before.len(),
                before == self.entries(),
                retention == self.retention(),
                i <= n,
                keep@.len() == i,
                fresh == fresh_pred(before, retention),
                forall|j: int| 0 <= j < i ==> keep@[j] == fresh(#[trigger] before[j]),
            decreases n - i,
        {
            let id = self.retained.key_at(i);
            let edge = self.edge_of_group(&id.channel, &id.rendition);
            let stale_here = match edge {
                Some(e) => {
                    let live = LiveWindow {
                        live_edge: e,
                        config: WindowConfig { window_size: 1, retention_window: self.retention_window },
                    };
                    live.is_evictable(id.sequence)
                },
                None => false,
            };
            assert(stale_here == is_stale(before, retention, before[i as int].0));
            keep.push(!stale_here);
            i = i + 1;
        }
        let removed = self.retained.partition_by(&keep);
        proof {
            lemma_pick_filter(before, keep@, fresh);
            assert((|x: (SegmentView, String)| !fresh(x)) =~= stale_pred(before, retention));
        }
        removed
    }
}

/// After eviction no retained segment is older than its rendition's live
/// edge minus the retention window, and eviction never removes a live edge.
pub proof fn lemma_evict_keeps_recent(entries: Seq<(SegmentView, String)>, retention: u64, i: int)
    requires
        0 <= i < entries.len(),
        group_edge(entries, entries[i].0.0, entries[i].0.1) == Some(entries[i].0.2),
    ensures
        !is_stale(entries, retention, entries[i].0),
{
}

/// The live edge of a rendition is its highest retained sequence.
proof fn lemma_group_edge_max(entries: Seq<(SegmentView, String)>, c: Seq<char>, r: Seq<char>)
    ensures
        group_edge(entries, c, r) is None <==> !exists|i: int|
            0 <= i < entries.len() && (#[trigger] entries[i]).0.0 == c && entries[i].0.1 == r,
        group_edge(entries, c, r) matches Some(e) ==> exists|i: int|
            0 <= i < entries.len() && (#[trigger] entries[i]).0 == (c, r, e),
        group_edge(entries, c, r) matches Some(e) ==> forall|i: int|
            0 <= i < entries.len() && (#[trigger] entries[i]).0.0 == c && entries[i].0.1 == r
                ==> entries[i].0.2 <= e,
    decreases entries.len(),
{
    if entries.len() > 0 {
        let d = entries.drop_last();
        lemma_group_edge_max(d, c, r);
        assert forall|i: int| 0 <= i < d.len() implies #[trigger] d[i] == entries[i] by {}
        let n = entries.len() - 1;
        if exists|i: int| 0 <= i < d.len() && (#[trigger] d[i]).0.0 == c && d[i].0.1 == r {
            let i = choose|i: int| 0 <= i < d.len() && (#[trigger] d[i]).0.0 == c && d[i].0.1 == r;
            assert(entries[i] == d[i]);
        }
        if group_edge(d, c, r) is Some {
            let e = group_edge(d, c, r)->0;
            let i = choose|i: int| 0 <= i < d.len() && (#[trigger] d[i]).0 == (c, r, e);
            assert(entries[i] == d[i]);
        }
        assert(entries[n] == entries.last());
        if group_edge(entries, c, r) is Some {
            let e = group_edge(entries, c, r)->0;
            assert forall|i: int|
                0 <= i < entries.len() && (#[trigger] entries[i]).0.0 == c && entries[i].0.1 == r
                    implies entries[i].0.2 <= e by {
                if i < n {
                    assert(d[i] == entries[i]);
                }
            }
        }
        if group_edge(entries, c, r) is None {
            assert forall|i: int| 0 <= i < entries.len() implies !((#[trigger] entries[i]).0.0 == c
                && entries[i].0.1 == r) by {
                if i < n {
                    assert(d[i] == entries[i]);
                }
            }
        }
    }
}

/// Every element a filter keeps comes from the filtered sequence.
proof fn lemma_filter_from<T>(s: Seq<T>, pred: spec_fn(T) -> bool)
    ensures
        forall|i: int|
            0 <= i < s.filter(pred).len() ==> exists|k: int|
                0 <= k < s.len() && s[k] == #[trigger] s.filter(pred)[i],
    decreases s.len(),
{
    reveal_with_fuel(Seq::<_>::filter, 1);
    if s.len() > 0 {
        let d = s.drop_last();
        lemma_filter_from(d, pred);
        let f = s.filter(pred);
        assert forall|i: int| 0 <= i < f.len() implies exists|k: int|
            0 <= k < s.len() && s[k] == #[trigger] f[i] by {
            if i < d.filter(pred).len() {
                assert(f[i] == d.filter(pred)[i]);
                let k = choose|k: int| 0 <= k < d.len() && d[k] == d.filter(pred)[i];
                assert(s[k] == d[k]);
            } else {
                assert(f[i] == s.last());
                assert(s[s.len() - 1] == s.last());
            }
        }
    }
}

/// A filter that keeps every element changes nothing.
proof fn lemma_filter_keeps_all<T>(s: Seq<T>, pred: spec_fn(T) -> bool)
    requires
        forall|i: int| 0 <= i < s.len() ==> pred(#[trigger] s[i]),
    ensures
        s.filter(pred) == s,
    decreases s.len(),
{
    reveal_with_fuel(Seq::<_>::filter, 1);
    if s.len() > 0 {
        let d = s.drop_last();
        assert forall|i: int| 0 <= i < d.len() implies pred(#[trigger] d[i]) by {
            assert(d[i] == s[i]);
        }
        lemma_filter_keeps_all(d, pred);
        assert(pred(s[s.len() - 1]));
        assert(s =~= d.push(s.last()));
    } else {
        assert(s.filter(pred) =~= s);
    }
}

/// Evicting again right after an eviction removes nothing: every rendition
/// keeps its live edge, so no kept segment becomes stale.
pub proof fn lemma_evict_settles(entries: Seq<(SegmentView, String)>, retention: u64)
    ensures
        entries.filter(fresh_pred(entries, retention)).filter(
            stale_pred(entries.filter(fresh_pred(entries, retention)), retention),
        ).len() == 0,
        entries.filter(fresh_pred(entries, retention)).filter(
            fresh_pred(entries.filter(fresh_pred(entries, retention)), retention),
        ) == entries.filter(fresh_pred(entries, retention)),
{
    let fresh = fresh_pred(entries, retention);
    let kept = entries.filter(fresh);
    lemma_filter_from(entries, fresh);
    assert forall|i: int| 0 <= i < kept.len() implies !is_stale(
        kept,
        retention,
        (#[trigger] kept[i]).0,
    ) by {
        let x = kept[i];
        let (c, r) = (x.0.0, x.0.1);
        entries.lemma_filter_pred(fresh, i);
        let k = choose|k: int| 0 <= k < entries.len() && entries[k] == kept[i];
        lemma_group_edge_max(entries, c, r);
        lemma_group_edge_max(kept, c, r);
        assert(entries[k].0.0 == c && entries[k].0.1 == r);
        let e = group_edge(entries, c, r)->0;
        let m = choose|m: int| 0 <= m < entries.len() && (#[trigger] entries[m]).0 == (c, r, e);
        assert(!is_stale(entries, retention, entries[m].0));
        assert(fresh(entries[m]));
        entries.lemma_filter_contains(fresh, m);
        let j = choose|j: int| 0 <= j < kept.len() && kept[j] == entries[m];
        assert(kept[j].0.0 == c && kept[j].0.1 == r);
        assert(kept[i].0.0 == c && kept[i].0.1 == r);
        let e2 = group_edge(kept, c, r)->0;
        let q = choose|q: int| 0 <= q < kept.len() && (#[trigger] kept[q]).0 == (c, r, e2);
        let kq = choose|kq: int| 0 <= kq < entries.len() && entries[kq] == kept[q];
        assert(entries[kq].0.0 == c && entries[kq].0.1 == r);
        assert(kept[j].0.2 <= e2);
        assert(entries[kq].0.2 <= e);
        assert(e2 == e);
    }
    let stale = stale_pred(kept, retention);
    assert(kept.all(|x: (SegmentView, String)| !stale(x)));
    kept.lemma_all_neg_filter_empty(stale);
    lemma_filter_keeps_all(kept, fresh_pred(kept, retention));
}

} // verus!
