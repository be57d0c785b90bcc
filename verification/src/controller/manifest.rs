//! Generated playlist validation, atomic snapshot replacement and manifest
//! rendering.
use vstd::prelude::*;

use crate::controller::ingest::{ChannelState, RenditionState, SegmentRecord, edge_of};
use crate::domain::playlist::{
    ChannelSnapshot, MasterPlaylist, MediaPlaylist, RenditionEntry, SegmentRef, refs_range,
};
use crate::domain::rendition::RenditionMetadata;
use crate::domain::window::{LiveWindow, WindowConfig, live_start_of};
use crate::error::{EdamameError, prefixed};
use crate::ordered::{SortedMap, lemma_pairs_map_at};
use crate::text::{
    decimal, owned_text, push_decimal, push_text, push_without_trailing_slashes,
    trim_trailing_slashes,
};

verus! {

/// Whether a committed segment lies in the window that ends at `edge`.
pub open spec fn in_window(edge: u64, size: u64) -> spec_fn((u64, SegmentRecord)) -> bool {
    |p: (u64, SegmentRecord)| live_start_of(edge, size) <= p.0 && p.0 <= edge
}

/// The committed segments of the live window, in increasing sequence order.
pub open spec fn window_entries(rs: RenditionState, window: WindowConfig) -> Seq<(u64, SegmentRecord)> {
    match edge_of(rs) {
        Some(e) => rs.segments.pairs().filter(in_window(e, window.window_size)),
        None => Seq::empty(),
    }
}

/// Why no media playlist can be generated for a rendition.
#[derive(Debug, Clone, Copy, PartialEq, Eq)]
pub enum MediaFault {
    /// Nothing is committed yet.
    NoSegments,
    /// The live window holds no committed segment.
    EmptyWindow,
    /// A sequence is missing between the first window segment and the live edge.
    Gap,
}

/// The fault that keeps `rs` from having a media playlist, if any.
pub open spec fn media_fault(rs: RenditionState, window: WindowConfig) -> Option<MediaFault> {
    match edge_of(rs) {
        None => Some(MediaFault::NoSegments),
        Some(e) => {
            let w = window_entries(rs, window);
            if w.len() == 0 {
                Some(MediaFault::EmptyWindow)
            } else if w.len() != e - w[0].0 + 1 {
                Some(MediaFault::Gap)
            } else {
                None
            }
        },
    }
}

/// The message a media fault is reported with.
pub open spec fn media_fault_message(fault: MediaFault, c: Seq<char>, r: Seq<char>) -> Seq<char> {
    match fault {
        MediaFault::NoSegments => c + "/"@ + r + " has no committed segments"@,
        MediaFault::EmptyWindow => c + "/"@ + r + " live window is empty"@,
        MediaFault::Gap => c + "/"@ + r + " live window has a gap before the live edge"@,
    }
}

/// Whether `p` is the media playlist of rendition `r` of channel `c`: it
/// lists the live-window segments in order.
pub open spec fn is_media_playlist(
    p: MediaPlaylist,
    c: Seq<char>,
    r: Seq<char>,
    rs: RenditionState,
    window: WindowConfig,
) -> bool {
    let w = window_entries(rs, window);
    &&& p.channel@ == c
    &&& p.rendition@ == r
    &&& w.len() > 0
    &&& p.media_sequence == w[0].0
    &&& p.segments@.len() == w.len()
    &&& forall|i: int|
        0 <= i < w.len() ==> (#[trigger] p.segments@[i]).sequence == w[i].0
            && p.segments@[i].ext == w[i].1.ext
}

proof fn lemma_filter_increasing(s: Seq<(u64, SegmentRecord)>, pred: spec_fn((u64, SegmentRecord)) -> bool)
    requires
        forall|i: int, j: int| 0 <= i < j < s.len() ==> #[trigger] s[i].0 < #[trigger] s[j].0,
    ensures
        forall|i: int, j: int|
            0 <= i < j < s.filter(pred).len() ==> #[trigger] s.filter(pred)[i].0 < #[trigger] s.filter(
                pred,
            )[j].0,
        forall|i: int|
            0 <= i < s.filter(pred).len() ==> pred(#[trigger] s.filter(pred)[i]) && exists|k: int|
                0 <= k < s.len() && s[k] == s.filter(pred)[i],
    decreases s.len(),
{
    reveal_with_fuel(Seq::<_>::filter, 1);
    if s.len() > 0 {
        let d = s.drop_last();
        lemma_filter_increasing(d, pred);
        let f = d.filter(pred);
        assert forall|i: int| 0 <= i < f.len() implies #[trigger] f[i].0 < s.last().0 by {
            let k = choose|k: int| 0 <= k < d.len() && d[k] == f[i];
            assert(s[k] == f[i]);
        }
        let g = s.filter(pred);
        assert forall|i: int, j: int| 0 <= i < j < g.len() implies #[trigger] g[i].0 < #[trigger] g[j].0 by {
            assert(g[i] == f[i]);
            if j < f.len() {
                assert(g[j] == f[j]);
            }
        }
        assert forall|i: int| 0 <= i < g.len() implies pred(#[trigger] g[i]) && exists|k: int|
                0 <= k < s.len() && s[k] == g[i] by {
            if i < f.len() {
                assert(g[i] == f[i]);
                let k = choose|k: int| 0 <= k < d.len() && d[k] == f[i];
                assert(s[k] == g[i]);
            } else {
                assert(s[s.len() - 1] == g[i]);
            }
        }
    }
}

/// A media playlist only lists committed segments of its rendition, each
/// under the extension it was committed with.
pub proof fn lemma_playlist_segments_committed(
    p: MediaPlaylist,
    c: Seq<char>,
    r: Seq<char>,
    rs: RenditionState,
    window: WindowConfig,
    i: int,
)
    requires
        rs.wf(),
        is_media_playlist(p, c, r, rs, window),
        0 <= i < p.segments@.len(),
    ensures
        rs.segments.as_map().contains_key(p.segments@[i].sequence),
        rs.segments.as_map()[p.segments@[i].sequence].ext == p.segments@[i].ext,
{
    let s = rs.segments.pairs();
    let e = edge_of(rs)->0;
    let w = window_entries(rs, window);
    assert(forall|a: int, b: int| 0 <= a < b < s.len() ==> #[trigger] s[a].0 < #[trigger] s[b].0);
    lemma_filter_increasing(s, in_window(e, window.window_size));
    assert(p.segments@[i].sequence == w[i].0);
    let k = choose|k: int| 0 <= k < s.len() && s[k] == w[i];
    lemma_pairs_map_at::<u64, SegmentRecord>(s, k);
}

/// The segments of a valid live window are consecutive and end at the live edge.
pub proof fn lemma_window_consecutive(rs: RenditionState, window: WindowConfig)
    requires
        rs.wf(),
        media_fault(rs, window) is None,
    ensures
        edge_of(rs) matches Some(e) && window_entries(rs, window).last().0 == e,
        forall|i: int|
            0 <= i < window_entries(rs, window).len() ==> #[trigger] window_entries(rs, window)[i].0
                == window_entries(rs, window)[0].0 + i,
{
    let e = edge_of(rs)->0;
    let s = rs.segments.pairs();
    let pred = in_window(e, window.window_size);
    let w = window_entries(rs, window);
    assert(forall|i: int, j: int| 0 <= i < j < s.len() ==> #[trigger] s[i].0 < #[trigger] s[j].0);
    lemma_filter_increasing(s, pred);
    assert(pred(s.last()));
    reveal_with_fuel(Seq::<_>::filter, 1);
    assert(w == s.drop_last().filter(pred).push(s.last()));
    let n = w.len() as int;
    assert forall|i: int| 0 <= i < n implies #[trigger] w[i].0 >= w[0].0 + i by {
        lemma_increasing_lower(w, i);
    }
    assert forall|i: int| 0 <= i < n implies #[trigger] w[i].0 <= w[n - 1].0 - (n - 1 - i) by {
        lemma_increasing_upper(w, i);
    }
}

/// A rendition has a media playlist exactly when its live window holds a
/// committed segment and every sequence from the first one up to the live
/// edge is committed: a playlist with a missing segment is never generated.
pub proof fn lemma_playlist_iff_window_complete(rs: RenditionState, window: WindowConfig)
    requires
        rs.wf(),
    ensures
        media_fault(rs, window) is None <==> (edge_of(rs) is Some && window_entries(
            rs,
            window,
        ).len() > 0 && forall|q: u64|
            window_entries(rs, window)[0].0 <= q <= edge_of(rs)->0 ==> #[trigger] rs.segments.as_map().contains_key(
                q,
            )),
{
    if edge_of(rs) is Some {
        let e = edge_of(rs)->0;
        let s = rs.segments.pairs();
        let pred = in_window(e, window.window_size);
        let w = window_entries(rs, window);
        assert(forall|i: int, j: int| 0 <= i < j < s.len() ==> #[trigger] s[i].0 < #[trigger] s[j].0);
        lemma_filter_increasing(s, pred);
        if w.len() > 0 {
            let w0 = w[0].0;
            if media_fault(rs, window) is None {
                lemma_window_consecutive(rs, window);
                assert forall|q: u64| w0 <= q <= e implies #[trigger] rs.segments.as_map().contains_key(q) by {
                    let i = q - w0;
                    assert(w[i].0 == w0 + i);
                    let k = choose|k: int| 0 <= k < s.len() && s[k] == w[i];
                    lemma_pairs_map_at::<u64, SegmentRecord>(s, k);
                }
            }
            if forall|q: u64| w0 <= q <= e ==> #[trigger] rs.segments.as_map().contains_key(q) {
                assert forall|q: int| w0 <= q <= e implies #[trigger] occurs_at(w, q) by {
                    let qq = q as u64;
                    assert(rs.segments.as_map().contains_key(qq));
                    let k = choose|k: int| 0 <= k < s.len() && #[trigger] s[k].0 == qq;
                    let k0 = choose|k: int| 0 <= k < s.len() && s[k] == w[0];
                    assert(live_start_of(e, window.window_size) <= w0);
                    assert(s[k].0 <= e) by {
                        if s[k].0 > e {
                            assert(k < s.len() - 1 ==> s[k].0 < s[s.len() - 1].0);
                        }
                    }
                    assert(pred(s[k]));
                    s.lemma_filter_contains(pred, k);
                    let i = choose|i: int| 0 <= i < w.len() && w[i] == s[k];
                    assert(w[i].0 == q);
                }
                lemma_cover_len(w, w0 as int, e - w0);
                let n = w.len() as int;
                lemma_increasing_lower(w, n - 1);
                assert(w[n - 1].0 <= e) by {
                    let k = choose|k: int| 0 <= k < s.len() && s[k] == w[n - 1];
                    if k < s.len() - 1 {
                        assert(s[k].0 < s[s.len() - 1].0);
                    }
                }
            }
        }
    }
}

/// Whether sequence `q` occurs in `w`.
spec fn occurs_at(w: Seq<(u64, SegmentRecord)>, q: int) -> bool {
    exists|i: int| 0 <= i < w.len() && w[i].0 == q
}

/// Each sequence of `lo..=lo + j` lies at an index of at least its distance
/// from `lo`, when all of them occur in the increasing `w`.
proof fn lemma_cover_len(w: Seq<(u64, SegmentRecord)>, lo: int, j: int)
    requires
        j >= 0,
        forall|a: int, b: int| 0 <= a < b < w.len() ==> #[trigger] w[a].0 < #[trigger] w[b].0,
        forall|q: int| lo <= q <= lo + j ==> #[trigger] occurs_at(w, q),
    ensures
        exists|i: int| 0 <= i < w.len() && w[i].0 == lo + j && i >= j,
    decreases j,
{
    let q = lo + j;
    assert(occurs_at(w, q));
    let i = choose|i: int| 0 <= i < w.len() && w[i].0 == q;
    if j > 0 {
        lemma_cover_len(w, lo, j - 1);
        let p = choose|p: int| 0 <= p < w.len() && w[p].0 == lo + j - 1 && p >= j - 1;
        if i <= p {
            if i < p {
                assert(w[i].0 < w[p].0);
            }
        }
    }
}

proof fn lemma_increasing_lower(w: Seq<(u64, SegmentRecord)>, i: int)
    requires
        0 <= i < w.len(),
        forall|a: int, b: int| 0 <= a < b < w.len() ==> #[trigger] w[a].0 < #[trigger] w[b].0,
    ensures
        w[i].0 >= w[0].0 + i,
    decreases i,
{
    if i > 0 {
        lemma_increasing_lower(w, i - 1);
        assert(w[i - 1].0 < w[i].0);
    }
}

proof fn lemma_increasing_upper(w: Seq<(u64, SegmentRecord)>, i: int)
    requires
        0 <= i < w.len(),
        forall|a: int, b: int| 0 <= a < b < w.len() ==> #[trigger] w[a].0 < #[trigger] w[b].0,
    ensures
        w[i].0 <= w[w.len() - 1].0 - (w.len() - 1 - i),
    decreases w.len() - i,
{
    if i < w.len() - 1 {
        lemma_increasing_upper(w, i + 1);
        assert(w[i].0 < w[i + 1].0);
    }
}

fn copy_metadata(m: &RenditionMetadata) -> (c: RenditionMetadata)
    ensures
        c == *m,
{
    RenditionMetadata {
        bandwidth: m.bandwidth,
        resolution: match &m.resolution {
            Some(s) => Some(s.clone()),
            None => None,
        },
    }
}

/// Generates and validates the media playlist of one rendition.
///
/// A playlist that would reference a missing or uncommitted segment of the
/// live window is withheld (`422`).
pub fn generate_media_playlist(
    channel: &str,
    rendition: &str,
    rstate: &RenditionState,
    window: WindowConfig,
) -> (r: Result<MediaPlaylist, EdamameError>)
    requires
        rstate.wf(),
    ensures
        match media_fault(*rstate, window) {
            Some(fault) => r matches Err(EdamameError::Unprocessable(m)) && m@ == media_fault_message(
                fault,
                channel@,
                rendition@,
            ),
            None => r matches Ok(p) && is_media_playlist(p, channel@, rendition@, *rstate, window),
        },
{
    let edge = match rstate.live_edge() {
        Some(e) => e,
        None => {
            let mut m = prefixed(channel, "/");
            push_text(&mut m, rendition);
            push_text(&mut m, " has no committed segments");
            assert(m@ =~= media_fault_message(MediaFault::NoSegments, channel@, rendition@));
            return Err(EdamameError::Unprocessable(m));
        },
    };
    let live = LiveWindow { live_edge: edge, config: window };
    let start = live.live_start();
    let ghost pred = in_window(edge, window.window_size);
    let ghost sp = rstate.segments.pairs();
    let n = rstate.segments.len();
    let mut segments: Vec<SegmentRef> = Vec::new();
    let mut k: usize = 0;
    while k < n
        invariant
            rstate.wf(),
            sp == rstate.segments.pairs(),
            n == sp.len(),
            k <= n,
            start == live_start_of(edge, window.window_size),
            pred == in_window(edge, window.window_size),
            segments@.len() == sp.take(k as int).filter(pred).len(),
            forall|i: int|
                0 <= i < segments@.len() ==> (#[trigger] segments@[i]).sequence == sp.take(
                    k as int,
                ).filter(pred)[i].0 && segments@[i].ext == sp.take(k as int).filter(pred)[i].1.ext,
        decreases n - k,
    {
        let s = *rstate.segments.key_at(k);
        assert(sp.take(k + 1).drop_last() =~= sp.take(k as int));
        assert(sp.take(k + 1).last() == sp[k as int]);
        reveal_with_fuel(Seq::<_>::filter, 1);
        if start <= s && s <= edge {
            let record = rstate.segments.value_at(k);
            segments.push(SegmentRef { sequence: s, ext: record.ext.clone() });
        }
        k = k + 1;
    }
    assert(sp.take(n as int) =~= sp);
    if segments.len() == 0 {
        let mut m = prefixed(channel, "/");
        push_text(&mut m, rendition);
        push_text(&mut m, " live window is empty");
        assert(m@ =~= media_fault_message(MediaFault::EmptyWindow, channel@, rendition@));
        return Err(EdamameError::Unprocessable(m));
    }
    let media_sequence = segments[0].sequence;
    proof {
        let w = window_entries(*rstate, window);
        assert(forall|i: int, j: int| 0 <= i < j < sp.len() ==> #[trigger] sp[i].0 < #[trigger] sp[j].0);
        lemma_filter_increasing(sp, pred);
        assert(w.len() > 0 ==> w[0].0 <= w[w.len() - 1].0) by {
            if w.len() > 1 {
                assert(w[0].0 < w[w.len() - 1].0);
            }
        }
        assert(pred(w[0]));
    }
    if (segments.len() as u128) != ((edge - media_sequence) as u128) + 1 {
        let mut m = prefixed(channel, "/");
        push_text(&mut m, rendition);
        push_text(&mut m, " live window has a gap before the live edge");
        assert(m@ =~= media_fault_message(MediaFault::Gap, channel@, rendition@));
        return Err(EdamameError::Unprocessable(m));
    }
    Ok(
        MediaPlaylist {
            channel: owned_text(channel),
            rendition: owned_text(rendition),
            media_sequence,
            segments,
        },
    )
}

/// Whether rendition `k` of `pairs` has a media playlist whose live range
/// matches that of the first rendition.
pub open spec fn rendition_fits(
    pairs: Seq<(Seq<char>, RenditionState)>,
    window: WindowConfig,
    k: int,
) -> bool {
    &&& media_fault(pairs[k].1, window) is None
    &&& refs_range_of(pairs[k].1, window) == refs_range_of(pairs[0].1, window)
}

/// The `(first, last)` sequences of the live window of `rs`.
pub open spec fn refs_range_of(rs: RenditionState, window: WindowConfig) -> (u64, u64) {
    (window_entries(rs, window)[0].0, window_entries(rs, window).last().0)
}

/// Whether every rendition fits.
pub open spec fn all_fit(pairs: Seq<(Seq<char>, RenditionState)>, window: WindowConfig) -> bool {
    forall|k: int| 0 <= k < pairs.len() ==> #[trigger] rendition_fits(pairs, window, k)
}

/// The first rendition that does not fit.
pub open spec fn first_misfit(pairs: Seq<(Seq<char>, RenditionState)>, window: WindowConfig) -> int {
    choose|k: int|
        0 <= k < pairs.len() && !rendition_fits(pairs, window, k) && forall|j: int|
            0 <= j < k ==> #[trigger] rendition_fits(pairs, window, j)
}

proof fn lemma_first_misfit(pairs: Seq<(Seq<char>, RenditionState)>, window: WindowConfig, k: int)
    requires
        0 <= k < pairs.len(),
        !rendition_fits(pairs, window, k),
        forall|j: int| 0 <= j < k ==> #[trigger] rendition_fits(pairs, window, j),
    ensures
        first_misfit(pairs, window) == k,
{
    let f = first_misfit(pairs, window);
    assert(0 <= f < pairs.len() && !rendition_fits(pairs, window, f) && forall|j: int|
        0 <= j < f ==> #[trigger] rendition_fits(pairs, window, j));
    if f < k {
        assert(rendition_fits(pairs, window, f));
    }
    if k < f {
        assert(rendition_fits(pairs, window, k));
    }
}

/// Whether `snap` is the snapshot of channel `c` whose renditions are `pairs`:
/// one master entry and one media playlist per rendition, in rendition order.
pub open spec fn is_snapshot_of(
    snap: ChannelSnapshot,
    c: Seq<char>,
    pairs: Seq<(Seq<char>, RenditionState)>,
    window: WindowConfig,
) -> bool {
    &&& snap.master.channel@ == c
    &&& snap.master.renditions@.len() == pairs.len()
    &&& snap.media@.len() == pairs.len()
    &&& forall|k: int|
        0 <= k < pairs.len() ==> (#[trigger] snap.master.renditions@[k]).rendition@ == pairs[k].0
            && snap.master.renditions@[k].metadata == pairs[k].1.metadata && is_media_playlist(
            snap.media@[k],
            c,
            pairs[k].0,
            pairs[k].1,
            window,
        )
}

/// In a validated snapshot every media playlist covers the same live-window
/// range, so the master playlist never mixes misaligned renditions.
pub proof fn lemma_snapshot_ranges_align(
    snap: ChannelSnapshot,
    c: Seq<char>,
    pairs: Seq<(Seq<char>, RenditionState)>,
    window: WindowConfig,
    k: int,
)
    requires
        is_snapshot_of(snap, c, pairs, window),
        all_fit(pairs, window),
        0 <= k < pairs.len(),
    ensures
        refs_range(snap.media@[k].segments@) is Some,
        refs_range(snap.media@[k].segments@) == refs_range(snap.media@[0].segments@),
{
    assert(rendition_fits(pairs, window, k));
    assert(rendition_fits(pairs, window, 0));
    let pk = snap.media@[k];
    let p0 = snap.media@[0];
    assert(snap.master.renditions@[k].rendition@ == pairs[k].0);
    assert(snap.master.renditions@[0].rendition@ == pairs[0].0);
    assert(is_media_playlist(pk, c, pairs[k].0, pairs[k].1, window));
    assert(is_media_playlist(p0, c, pairs[0].0, pairs[0].1, window));
    let wk = window_entries(pairs[k].1, window);
    let w0 = window_entries(pairs[0].1, window);
    assert(pk.segments@[0].sequence == wk[0].0);
    assert(pk.segments@[pk.segments@.len() - 1].sequence == wk[wk.len() - 1].0);
    assert(p0.segments@[0].sequence == w0[0].0);
    assert(p0.segments@[p0.segments@.len() - 1].sequence == w0[w0.len() - 1].0);
}

/// Whether `e` is the error regenerating channel `c` with renditions `pairs` gives.
pub open spec fn is_regen_error(
    e: EdamameError,
    c: Seq<char>,
    pairs: Seq<(Seq<char>, RenditionState)>,
    window: WindowConfig,
) -> bool {
    if pairs.len() == 0 {
        e matches EdamameError::NotFound(m) && m@ == "channel "@ + c + " has no renditions"@
    } else {
        let k = first_misfit(pairs, window);
        match media_fault(pairs[k].1, window) {
            Some(f) => e matches EdamameError::Unprocessable(m) && m@ == media_fault_message(
                f,
                c,
                pairs[k].0,
            ),
            None => e matches EdamameError::Unprocessable(m) && m@
                == "renditions expose different live-window ranges"@,
        }
    }
}

/// Regenerates and validates the snapshot of a whole channel.
///
/// The master playlist is only served when every rendition has a valid media
/// playlist and all renditions expose the same live-window range.
pub fn regenerate(channel: &str, cstate: &ChannelState, window: WindowConfig) -> (r: Result<
    ChannelSnapshot,
    EdamameError,
>)
    requires
        cstate.wf(),
    ensures
        cstate.renditions.pairs().len() > 0 && all_fit(cstate.renditions.pairs(), window) ==> (
        r matches Ok(snap) && is_snapshot_of(snap, channel@, cstate.renditions.pairs(), window)),
        !(cstate.renditions.pairs().len() > 0 && all_fit(cstate.renditions.pairs(), window)) ==> (
        r matches Err(e) && is_regen_error(e, channel@, cstate.renditions.pairs(), window)),
{
    let ghost pairs = cstate.renditions.pairs();
    let n = cstate.renditions.len();
    if n == 0 {
        let mut m = prefixed("channel ", channel);
        push_text(&mut m, " has no renditions");
        assert(m@ =~= "channel "@ + channel@ + " has no renditions"@);
        return Err(EdamameError::NotFound(m));
    }
    let mut media: Vec<MediaPlaylist> = Vec::new();
    let mut entries: Vec<RenditionEntry> = Vec::new();
    let mut range: Option<(u64, u64)> = None;
    let mut k: usize = 0;
    while k < n
        invariant
            cstate.wf(),
            pairs == cstate.renditions.pairs(),
            n == pairs.len(),
            n > 0,
            k <= n,
            k == 0 <==> range is None,
            k > 0 ==> range == Some(refs_range_of(pairs[0].1, window)),
            forall|j: int| 0 <= j < k ==> #[trigger] rendition_fits(pairs, window, j),
            entries@.len() == k,
            media@.len() == k,
            forall|j: int|
                0 <= j < k ==> (#[trigger] entries@[j]).rendition@ == pairs[j].0
                    && entries@[j].metadata == pairs[j].1.metadata && is_media_playlist(
                    media@[j],
                    channel@,
                    pairs[j].0,
                    pairs[j].1,
                    window,
                ),
        decreases n - k,
    {
        let rendition = cstate.renditions.key_at(k);
        let rstate = cstate.renditions.value_at(k);
        assert(pairs[k as int].1.wf());
        let playlist = match generate_media_playlist(channel, rendition.as_str(), rstate, window) {
            Ok(p) => p,
            Err(e) => {
                proof {
                    lemma_first_misfit(pairs, window, k as int);
                }
                return Err(e);
            },
        };
        let playlist_range = match playlist.live_range() {
            Some(x) => x,
            None => {
                let mut m = prefixed(channel, "/");
                push_text(&mut m, rendition.as_str());
                push_text(&mut m, " live window is empty");
                return Err(EdamameError::Unprocessable(m));
            },
        };
        assert(playlist_range == refs_range_of(pairs[k as int].1, window));
        match range {
            None => {
                range = Some(playlist_range);
            },
            Some(existing) => {
                if existing.0 != playlist_range.0 || existing.1 != playlist_range.1 {
                    proof {
                        lemma_first_misfit(pairs, window, k as int);
                    }
                    return Err(
                        EdamameError::Unprocessable(
                            "renditions expose different live-window ranges".to_owned(),
                        ),
                    );
                }
            },
        }
        assert(rendition_fits(pairs, window, k as int));
        entries.push(
            RenditionEntry { rendition: rendition.clone(), metadata: copy_metadata(&rstate.metadata) },
        );
        media.push(playlist);
        k = k + 1;
    }
    Ok(
        ChannelSnapshot {
            master: MasterPlaylist { channel: owned_text(channel), renditions: entries },
            media,
        },
    )
}

/// Regenerates a channel snapshot and, on success, atomically replaces the
/// stored one.
///
/// When validation fails the stored snapshot is left unchanged and returned if
/// there is one; only a channel that never produced a valid snapshot reports
/// the error.
pub fn refresh_snapshot<'a>(
    snapshots: &'a mut SortedMap<String, ChannelSnapshot>,
    channel: &str,
    cstate: &ChannelState,
    window: WindowConfig,
) -> (r: Result<&'a ChannelSnapshot, EdamameError>)
    requires
        old(snapshots).wf(),
        cstate.wf(),
    ensures
        final(snapshots).wf(),
        cstate.renditions.pairs().len() > 0 && all_fit(cstate.renditions.pairs(), window) ==> {
            &&& final(snapshots).as_map() == old(snapshots).as_map().insert(
                channel@,
                final(snapshots).as_map()[channel@],
            )
            &&& is_snapshot_of(
                final(snapshots).as_map()[channel@],
                channel@,
                cstate.renditions.pairs(),
                window,
            )
            &&& r matches Ok(s) && *s == final(snapshots).as_map()[channel@]
        },
        !(cstate.renditions.pairs().len() > 0 && all_fit(cstate.renditions.pairs(), window)) ==> {
            &&& *final(snapshots) == *old(snapshots)
            &&& old(snapshots).as_map().contains_key(channel@) ==> (r matches Ok(s) && *s == old(
                snapshots,
            ).as_map()[channel@])
            &&& !old(snapshots).as_map().contains_key(channel@) ==> (r matches Err(e)
                && is_regen_error(e, channel@, cstate.renditions.pairs(), window))
        },
{
    let key = owned_text(channel);
    match regenerate(channel, cstate, window) {
        Ok(snapshot) => {
            snapshots.insert(owned_text(channel), snapshot);
            match snapshots.get(&key) {
                Some(s) => Ok(s),
                None => Err(EdamameError::Internal("snapshot was just inserted for channel".to_owned())),
            }
        },
        Err(err) => match snapshots.get(&key) {
            Some(existing) => Ok(existing),
            None => Err(err),
        },
    }
}

/// One segment entry of a media playlist, its URL pointing at `base`.
pub open spec fn segment_line(base: Seq<char>, c: Seq<char>, r: Seq<char>, seg: SegmentRef) -> Seq<char> {
    "#EXTINF:6.0,\n"@ + base + "/segments/"@ + c + "/"@ + r + "/"@ + decimal(seg.sequence as nat)
        + "."@ + seg.ext@ + "\n"@
}

/// The segment entries of a media playlist, in order.
pub open spec fn segment_lines(base: Seq<char>, c: Seq<char>, r: Seq<char>, segs: Seq<SegmentRef>) -> Seq<
    char,
>
    decreases segs.len(),
{
    if segs.len() == 0 {
        Seq::empty()
    } else {
        segment_lines(base, c, r, segs.drop_last()) + segment_line(base, c, r, segs.last())
    }
}

/// The text of a media playlist whose segment URLs all point at the node
/// with base URL `node_base_url` (trailing slashes dropped).
pub open spec fn media_text(p: MediaPlaylist, node_base_url: Seq<char>) -> Seq<char> {
    "#EXTM3U\n#EXT-X-VERSION:3\n#EXT-X-TARGETDURATION:6\n"@ + "#EXT-X-MEDIA-SEQUENCE:"@ + decimal(
        p.media_sequence as nat,
    ) + "\n"@ + segment_lines(
        trim_trailing_slashes(node_base_url),
        p.channel@,
        p.rendition@,
        p.segments@,
    )
}

/// Renders a media playlist whose segment URLs all point at one ACTIVE node.
pub fn render_media_m3u8(playlist: &MediaPlaylist, node_base_url: &str) -> (s: String)
    ensures
        s@ == media_text(*playlist, node_base_url@),
{
    let mut base = String::new();
    push_without_trailing_slashes(&mut base, node_base_url);
    assert(base@ =~= trim_trailing_slashes(node_base_url@));
    let mut out = String::new();
    push_text(&mut out, "#EXTM3U\n#EXT-X-VERSION:3\n#EXT-X-TARGETDURATION:6\n");
    push_text(&mut out, "#EXT-X-MEDIA-SEQUENCE:");
    push_decimal(&mut out, playlist.media_sequence);
    push_text(&mut out, "\n");
    let ghost header = out@;
    let ghost segs = playlist.segments@;
    let ghost c = playlist.channel@;
    let ghost r = playlist.rendition@;
    assert(segs.take(0) =~= Seq::<SegmentRef>::empty());
    assert(out@ =~= header + segment_lines(base@, c, r, segs.take(0)));
    let n = playlist.segments.len();
    let mut i: usize = 0;
    while i < n
        invariant
            n == segs.len(),
            segs == playlist.segments@,
            c == playlist.channel@,
            r == playlist.rendition@,
            i <= n,
            out@ == header + segment_lines(base@, c, r, segs.take(i as int)),
        decreases n - i,
    {
        let segment = &playlist.segments[i];
        push_text(&mut out, "#EXTINF:6.0,\n");
        push_text(&mut out, base.as_str());
        push_text(&mut out, "/segments/");
        push_text(&mut out, playlist.channel.as_str());
        push_text(&mut out, "/");
        push_text(&mut out, playlist.rendition.as_str());
        push_text(&mut out, "/");
        push_decimal(&mut out, segment.sequence);
        push_text(&mut out, ".");
        push_text(&mut out, segment.ext.as_str());
        push_text(&mut out, "\n");
        assert(segs.take(i + 1).drop_last() =~= segs.take(i as int));
        assert(segs.take(i + 1).last() == segs[i as int]);
        assert(out@ =~= header + segment_lines(base@, c, r, segs.take(i + 1)));
        i = i + 1;
    }
    assert(segs.take(n as int) =~= segs);
    assert(out@ =~= media_text(*playlist, node_base_url@));
    out
}

/// The segment entries of `segs` hold the entry of each segment at some
/// position.
proof fn lemma_lines_hold(base: Seq<char>, c: Seq<char>, r: Seq<char>, segs: Seq<SegmentRef>, i: int) -> (k: int)
    requires
        0 <= i < segs.len(),
    ensures
        0 <= k,
        k + segment_line(base, c, r, segs[i]).len() <= segment_lines(base, c, r, segs).len(),
        segment_lines(base, c, r, segs).subrange(k, k + segment_line(base, c, r, segs[i]).len())
            == segment_line(base, c, r, segs[i]),
    decreases segs.len(),
{
    let d = segs.drop_last();
    let a = segment_lines(base, c, r, d);
    let b = segment_line(base, c, r, segs.last());
    let whole = segment_lines(base, c, r, segs);
    assert(whole == a + b);
    if i == segs.len() - 1 {
        assert(whole.subrange(a.len() as int, (a.len() + b.len()) as int) =~= b);
        a.len() as int
    } else {
        assert(d[i] == segs[i]);
        let k = lemma_lines_hold(base, c, r, d, i);
        let l = segment_line(base, c, r, segs[i]).len();
        assert(whole.subrange(k, k + l) =~= a.subrange(k, k + l));
        k
    }
}

/// Every segment of a rendered media playlist is served from the chosen
/// node: the text holds `#EXTINF:6.0,` and then
/// `{base}/segments/{channel}/{rendition}/{sequence}.{ext}` for it, with the
/// node's base URL (trailing slashes dropped) and the extension the segment
/// was stored with.
pub proof fn lemma_media_segment_urls(p: MediaPlaylist, node_base_url: Seq<char>, i: int) -> (k: int)
    requires
        0 <= i < p.segments@.len(),
    ensures
        ({
            let line = "#EXTINF:6.0,\n"@ + trim_trailing_slashes(node_base_url) + "/segments/"@
                + p.channel@ + "/"@ + p.rendition@ + "/"@ + decimal(p.segments@[i].sequence as nat)
                + "."@ + p.segments@[i].ext@ + "\n"@;
            &&& 0 <= k
            &&& k + line.len() <= media_text(p, node_base_url).len()
            &&& media_text(p, node_base_url).subrange(k, k + line.len()) == line
        }),
{
    let base = trim_trailing_slashes(node_base_url);
    let head = "#EXTM3U\n#EXT-X-VERSION:3\n#EXT-X-TARGETDURATION:6\n"@ + "#EXT-X-MEDIA-SEQUENCE:"@
        + decimal(p.media_sequence as nat) + "\n"@;
    let lines = segment_lines(base, p.channel@, p.rendition@, p.segments@);
    let j = lemma_lines_hold(base, p.channel@, p.rendition@, p.segments@, i);
    let line = segment_line(base, p.channel@, p.rendition@, p.segments@[i]);
    assert(line =~= "#EXTINF:6.0,\n"@ + base + "/segments/"@ + p.channel@ + "/"@ + p.rendition@ + "/"@
        + decimal(p.segments@[i].sequence as nat) + "."@ + p.segments@[i].ext@ + "\n"@);
    assert(media_text(p, node_base_url) == head + lines);
    assert((head + lines).subrange(head.len() + j, head.len() + j + line.len()) =~= lines.subrange(
        j,
        j + line.len(),
    ));
    head.len() + j
}

/// The master playlist entry of one rendition.
pub open spec fn stream_line(e: RenditionEntry) -> Seq<char> {
    "#EXT-X-STREAM-INF:BANDWIDTH="@ + decimal(
        (match e.metadata.bandwidth {
            Some(b) => b,
            None => 1,
        }) as nat,
    ) + (match e.metadata.resolution {
        Some(x) => ",RESOLUTION="@ + x@,
        None => Seq::empty(),
    }) + "\n"@ + e.rendition@ + ".m3u8\n"@
}

/// The master playlist entries, in order.
pub open spec fn stream_lines(entries: Seq<RenditionEntry>) -> Seq<char>
    decreases entries.len(),
{
    if entries.len() == 0 {
        Seq::empty()
    } else {
        stream_lines(entries.drop_last()) + stream_line(entries.last())
    }
}

/// The text of a master playlist.
pub open spec fn master_text(m: MasterPlaylist) -> Seq<char> {
    "#EXTM3U\n#EXT-X-VERSION:3\n"@ + stream_lines(m.renditions@)
}

/// The entries of `es` hold the entry of each rendition at some position.
proof fn lemma_stream_lines_hold(es: Seq<RenditionEntry>, i: int) -> (k: int)
    requires
        0 <= i < es.len(),
    ensures
        0 <= k,
        k + stream_line(es[i]).len() <= stream_lines(es).len(),
        stream_lines(es).subrange(k, k + stream_line(es[i]).len()) == stream_line(es[i]),
    decreases es.len(),
{
    let d = es.drop_last();
    let a = stream_lines(d);
    let b = stream_line(es.last());
    let whole = stream_lines(es);
    assert(whole == a + b);
    if i == es.len() - 1 {
        assert(whole.subrange(a.len() as int, (a.len() + b.len()) as int) =~= b);
        a.len() as int
    } else {
        assert(d[i] == es[i]);
        let k = lemma_stream_lines_hold(d, i);
        let l = stream_line(es[i]).len();
        assert(whole.subrange(k, k + l) =~= a.subrange(k, k + l));
        k
    }
}

/// Every rendition of a rendered master playlist has its stream entry:
/// `BANDWIDTH` is the recorded bandwidth (`1` when none is recorded),
/// `RESOLUTION` is written exactly when a resolution is recorded, whatever
/// the bandwidth, and the entry points at `{rendition}.m3u8`.
pub proof fn lemma_master_stream_entries(m: MasterPlaylist, i: int) -> (k: int)
    requires
        0 <= i < m.renditions@.len(),
    ensures
        ({
            let e = m.renditions@[i];
            let bandwidth: u64 = match e.metadata.bandwidth {
                Some(b) => b,
                None => 1,
            };
            let line = match e.metadata.resolution {
                Some(x) => "#EXT-X-STREAM-INF:BANDWIDTH="@ + decimal(bandwidth as nat)
                    + ",RESOLUTION="@ + x@ + "\n"@ + e.rendition@ + ".m3u8\n"@,
                None => "#EXT-X-STREAM-INF:BANDWIDTH="@ + decimal(bandwidth as nat) + "\n"@
                    + e.rendition@ + ".m3u8\n"@,
            };
            &&& 0 <= k
            &&& k + line.len() <= master_text(m).len()
            &&& master_text(m).subrange(k, k + line.len()) == line
        }),
{
    let head = "#EXTM3U\n#EXT-X-VERSION:3\n"@;
    let lines = stream_lines(m.renditions@);
    let e = m.renditions@[i];
    let j = lemma_stream_lines_hold(m.renditions@, i);
    let line = stream_line(e);
    let bandwidth: u64 = match e.metadata.bandwidth {
        Some(b) => b,
        None => 1,
    };
    match e.metadata.resolution {
        Some(x) => {
            assert(line =~= "#EXT-X-STREAM-INF:BANDWIDTH="@ + decimal(bandwidth as nat)
                + ",RESOLUTION="@ + x@ + "\n"@ + e.rendition@ + ".m3u8\n"@);
        },
        None => {
            assert(line =~= "#EXT-X-STREAM-INF:BANDWIDTH="@ + decimal(bandwidth as nat) + "\n"@
                + e.rendition@ + ".m3u8\n"@);
        },
    }
    assert(master_text(m) == head + lines);
    assert((head + lines).subrange(head.len() + j, head.len() + j + line.len()) =~= lines.subrange(
        j,
        j + line.len(),
    ));
    head.len() + j
}

/// Renders a master playlist referring to each rendition's media playlist;
/// a missing bandwidth is written as `1`.
pub fn render_master_m3u8(master: &MasterPlaylist) -> (s: String)
    ensures
        s@ == master_text(*master),
{
    let mut out = String::new();
    push_text(&mut out, "#EXTM3U\n#EXT-X-VERSION:3\n");
    let ghost header = out@;
    let ghost es = master.renditions@;
    assert(es.take(0) =~= Seq::<RenditionEntry>::empty());
    assert(out@ =~= header + stream_lines(es.take(0)));
    let n = master.renditions.len();
    let mut i: usize = 0;
    while i < n
        invariant
            n == es.len(),
            es == master.renditions@,
            i <= n,
            out@ == header + stream_lines(es.take(i as int)),
        decreases n - i,
    {
        let entry = &master.renditions[i];
        let bandwidth = match entry.metadata.bandwidth {
            Some(b) => b,
            None => 1,
        };
        push_text(&mut out, "#EXT-X-STREAM-INF:BANDWIDTH=");
        push_decimal(&mut out, bandwidth);
        let ghost before_res = out@;
        match &entry.metadata.resolution {
            Some(resolution) => {
                push_text(&mut out, ",RESOLUTION=");
                push_text(&mut out, resolution.as_str());
            },
            None => {},
        }
        push_text(&mut out, "\n");
        push_text(&mut out, entry.rendition.as_str());
        push_text(&mut out, ".m3u8\n");
        assert(es.take(i + 1).drop_last() =~= es.take(i as int));
        assert(es.take(i + 1).last() == es[i as int]);
        assert(out@ =~= header + stream_lines(es.take(i + 1)));
        i = i + 1;
    }
    assert(es.take(n as int) =~= es);
    out
}

} // verus!
