//! Segment ingest: identity, metadata and idempotence rules, commit events,
//! and the live-window segments a cache node must hold.
use vstd::prelude::*;

use std::collections::hash_map::DefaultHasher;
use std::hash::Hasher;
use vstd::bytes::{spec_u64_to_le_bytes, u64_to_le_bytes};
use vstd::std_specs::hash::DefaultHasherAdditionalSpecFns;

use crate::domain::rendition::{
    RenditionMetadata, lemma_merge_settles, merged_metadata, metadata_conflict,
    metadata_conflict_message,
};
use crate::domain::segment::{
    FilenameFault, SegmentId, filename_message, identifier_message, parse_filename,
    parse_filename_spec, valid_identifier, validate_identifier,
};
use crate::domain::window::{LiveWindow, WindowConfig, live_start_of};
use crate::error::{EdamameError, prefixed};
use crate::ordered::{
    SortedMap, SortedSet, keys_increase, lemma_pairs_map_at, lemma_update_value, pairs_map,
};
use crate::text::{decimal, owned_text, push_decimal, push_text, same_text};

verus! {

/// Committed segments, metadata and commit log of one rendition.
#[derive(Debug, Clone)]
pub struct RenditionState {
    pub metadata: RenditionMetadata,
    pub segments: SortedMap<u64, SegmentRecord>,
    pub commits: Vec<SegmentCommitEvent>,
}

/// The stored extension and content fingerprint of a committed segment.
#[derive(Debug, Clone)]
pub struct SegmentRecord {
    pub ext: String,
    pub hash: u64,
}

/// Records that a segment became eligible for playlists.
#[derive(Debug, Clone, Copy, PartialEq, Eq, Structural)]
pub struct SegmentCommitEvent {
    pub sequence: u64,
    pub committed_at_ms: u64,
}

/// The result of an ingest attempt.
#[derive(Debug, Clone, Copy, PartialEq, Eq, Structural)]
pub enum IngestOutcome {
    /// A new segment was stored and committed.
    Created,
    /// The same identity with the same bytes already exists (idempotent).
    AlreadyExists,
}

/// Per-channel ingest state.
#[derive(Debug, Clone)]
pub struct ChannelState {
    pub renditions: SortedMap<String, RenditionState>,
}

/// The highest committed sequence of a rendition: its live edge.
pub open spec fn edge_of(rs: RenditionState) -> Option<u64> {
    if rs.segments.pairs().len() > 0 {
        Some(rs.segments.pairs().last().0)
    } else {
        None
    }
}

impl RenditionState {
    pub open spec fn wf(&self) -> bool {
        self.segments.wf()
    }

    /// An empty rendition: no metadata, segments or commits.
    pub fn new() -> (rs: RenditionState)
        ensures
            rs.wf(),
            rs.metadata.bandwidth is None,
            rs.metadata.resolution is None,
            rs.segments.pairs().len() == 0,
            rs.segments.as_map() == Map::<u64, SegmentRecord>::empty(),
            rs.commits@.len() == 0,
    {
        RenditionState {
            metadata: RenditionMetadata { bandwidth: None, resolution: None },
            segments: SortedMap::new(),
            commits: Vec::new(),
        }
    }

    /// The highest committed sequence, i.e. the current live edge.
    pub fn live_edge(&self) -> (e: Option<u64>)
        requires
            self.wf(),
        ensures
            e == edge_of(*self),
            e matches Some(x) ==> self.segments.as_map().contains_key(x) && forall|s: u64|
                #[trigger] self.segments.as_map().contains_key(s) ==> s <= x,
            e is None ==> self.segments.as_map() == Map::<u64, SegmentRecord>::empty(),
    {
        let n = self.segments.len();
        if n == 0 {
            assert(self.segments.as_map() =~= Map::<u64, SegmentRecord>::empty());
            None
        } else {
            let e = *self.segments.key_at(n - 1);
            proof {
                let p = self.segments.pairs();
                lemma_pairs_map_at::<u64, SegmentRecord>(p, n - 1);
                assert forall|s: u64| #[trigger] self.segments.as_map().contains_key(s) implies s
                    <= e by {
                    let j = choose|j: int| 0 <= j < p.len() && #[trigger] p[j].0 == s;
                    if j < n - 1 {
                        assert(p[j].0 < p[n - 1].0);
                    }
                }
            }
            Some(e)
        }
    }
}

impl Default for RenditionState {
    fn default() -> (rs: RenditionState)
        ensures
            rs.wf(),
            rs.metadata.bandwidth is None,
            rs.metadata.resolution is None,
            rs.segments.pairs().len() == 0,
            rs.commits@.len() == 0,
    {
        RenditionState::new()
    }
}

impl ChannelState {
    pub open spec fn wf(&self) -> bool {
        &&& self.renditions.wf()
        &&& forall|i: int|
            0 <= i < self.renditions.pairs().len() ==> (#[trigger] self.renditions.pairs()[i]).1.wf()
    }

    /// A channel without renditions.
    pub fn new() -> (cs: ChannelState)
        ensures
            cs.wf(),
            cs.renditions.pairs().len() == 0,
            cs.renditions.as_map() == Map::<Seq<char>, RenditionState>::empty(),
    {
        ChannelState { renditions: SortedMap::new() }
    }
}

impl Default for ChannelState {
    fn default() -> (cs: ChannelState)
        ensures
            cs.wf(),
            cs.renditions.pairs().len() == 0,
    {
        ChannelState::new()
    }
}

/// Whether every channel and rendition of the table is well formed.
pub open spec fn channels_wf(channels: SortedMap<String, ChannelState>) -> bool {
    &&& channels.wf()
    &&& forall|i: int|
        0 <= i < channels.pairs().len() ==> (#[trigger] channels.pairs()[i]).1.wf()
}

pub proof fn lemma_channels_wf_map(channels: SortedMap<String, ChannelState>, c: Seq<char>)
    requires
        channels_wf(channels),
        channels.as_map().contains_key(c),
    ensures
        channels.as_map()[c].wf(),
{
    let p = channels.pairs();
    let j = choose|j: int| 0 <= j < p.len() && #[trigger] p[j].0 == c;
    lemma_pairs_map_at::<String, ChannelState>(p, j);
}

pub proof fn lemma_channel_wf_map(cs: ChannelState, r: Seq<char>)
    requires
        cs.wf(),
        cs.renditions.as_map().contains_key(r),
    ensures
        cs.renditions.as_map()[r].wf(),
{
    let p = cs.renditions.pairs();
    let j = choose|j: int| 0 <= j < p.len() && #[trigger] p[j].0 == r;
    lemma_pairs_map_at::<String, RenditionState>(p, j);
}

/// The renditions of channel `c`, or none when the channel is unknown.
pub open spec fn channel_renditions(channels: SortedMap<String, ChannelState>, c: Seq<char>) -> Map<
    Seq<char>,
    RenditionState,
> {
    if channels.as_map().contains_key(c) {
        channels.as_map()[c].renditions.as_map()
    } else {
        Map::empty()
    }
}

/// The state of rendition `r` of channel `c`, when both exist.
pub open spec fn rendition_at(channels: SortedMap<String, ChannelState>, c: Seq<char>, r: Seq<char>) -> Option<
    RenditionState,
> {
    if channel_renditions(channels, c).contains_key(r) {
        Some(channel_renditions(channels, c)[r])
    } else {
        None
    }
}

/// The established metadata of `(c, r)`; empty when the rendition is new.
pub open spec fn metadata_at(channels: SortedMap<String, ChannelState>, c: Seq<char>, r: Seq<char>) -> RenditionMetadata {
    match rendition_at(channels, c, r) {
        Some(rs) => rs.metadata,
        None => RenditionMetadata { bandwidth: None, resolution: None },
    }
}

/// The committed segments of `(c, r)`; none when the rendition is new.
pub open spec fn segments_at(channels: SortedMap<String, ChannelState>, c: Seq<char>, r: Seq<char>) -> Map<
    u64,
    SegmentRecord,
> {
    match rendition_at(channels, c, r) {
        Some(rs) => rs.segments.as_map(),
        None => Map::empty(),
    }
}

/// The commit log of `(c, r)`; empty when the rendition is new.
pub open spec fn commits_at(channels: SortedMap<String, ChannelState>, c: Seq<char>, r: Seq<char>) -> Seq<
    SegmentCommitEvent,
> {
    match rendition_at(channels, c, r) {
        Some(rs) => rs.commits@,
        None => Seq::empty(),
    }
}

/// `after` is `before` with rendition `(c, r)` present, holding `rs`, and
/// every other channel and rendition as it was.
pub open spec fn with_rendition(
    before: SortedMap<String, ChannelState>,
    after: SortedMap<String, ChannelState>,
    c: Seq<char>,
    r: Seq<char>,
    rs: RenditionState,
) -> bool {
    &&& after.as_map() == before.as_map().insert(c, after.as_map()[c])
    &&& after.as_map()[c].renditions.as_map() == channel_renditions(before, c).insert(r, rs)
}

/// Makes sure `(channel, rendition)` exists, adding empty entries as needed,
/// and returns the positions of the channel and of the rendition.
fn rendition_slot(
    channels: &mut SortedMap<String, ChannelState>,
    channel: &str,
    rendition: &str,
) -> (pos: (usize, usize))
    requires
        channels_wf(*old(channels)),
    ensures
        channels_wf(*final(channels)),
        pos.0 < final(channels).pairs().len(),
        final(channels).pairs()[pos.0 as int].0 == channel@,
        pos.1 < final(channels).pairs()[pos.0 as int].1.renditions.pairs().len(),
        final(channels).pairs()[pos.0 as int].1.renditions.pairs()[pos.1 as int].0 == rendition@,
        with_rendition(
            *old(channels),
            *final(channels),
            channel@,
            rendition@,
            final(channels).pairs()[pos.0 as int].1.renditions.pairs()[pos.1 as int].1,
        ),
        match rendition_at(*old(channels), channel@, rendition@) {
            Some(rs) => final(channels).pairs()[pos.0 as int].1.renditions.pairs()[pos.1 as int].1
                == rs,
            None => {
                let rs = final(channels).pairs()[pos.0 as int].1.renditions.pairs()[pos.1 as int].1;
                &&& rs.metadata.bandwidth is None
                &&& rs.metadata.resolution is None
                &&& rs.segments.as_map() == Map::<u64, SegmentRecord>::empty()
                &&& rs.commits@.len() == 0
            },
        },
{
    let ghost before = *channels;
    let ckey = owned_text(channel);
    if !channels.contains_key(&ckey) {
        channels.insert(owned_text(channel), ChannelState::new());
        proof {
            assert forall|i: int| 0 <= i < channels.pairs().len() implies (
            #[trigger] channels.pairs()[i]).1.wf() by {
                let k = channels.pairs()[i].0;
                lemma_pairs_map_at::<String, ChannelState>(channels.pairs(), i);
                if k != channel@ {
                    lemma_channels_wf_map(before, k);
                }
            }
        }
    }
    let ghost mid = *channels;
    let ci = channels.find(&ckey).unwrap();
    proof {
        lemma_pairs_map_at::<String, ChannelState>(channels.pairs(), ci as int);
        lemma_channels_wf_map(mid, channel@);
        assert(mid.as_map() =~= before.as_map().insert(channel@, mid.as_map()[channel@]));
        if before.as_map().contains_key(channel@) {
            assert(mid.as_map()[channel@] == before.as_map()[channel@]);
        }
    }
    let rkey = owned_text(rendition);
    let cs = channels.value_at_mut(ci);
    let ghost cs_before = *cs;
    if !cs.renditions.contains_key(&rkey) {
        cs.renditions.insert(owned_text(rendition), RenditionState::new());
        proof {
            assert forall|i: int| 0 <= i < cs.renditions.pairs().len() implies (
            #[trigger] cs.renditions.pairs()[i]).1.wf() by {
                let k = cs.renditions.pairs()[i].0;
                lemma_pairs_map_at::<String, RenditionState>(cs.renditions.pairs(), i);
                if k != rendition@ {
                    lemma_channel_wf_map(cs_before, k);
                }
            }
        }
    }
    let ri = cs.renditions.find(&rkey).unwrap();
    proof {
        lemma_pairs_map_at::<String, RenditionState>(cs.renditions.pairs(), ri as int);
        assert(cs.renditions.as_map() =~= cs_before.renditions.as_map().insert(
            rendition@,
            cs.renditions.as_map()[rendition@],
        ));
        if cs_before.renditions.as_map().contains_key(rendition@) {
            assert(cs.renditions.as_map()[rendition@] == cs_before.renditions.as_map()[rendition@]);
        }
    }
    let ghost cs_after = *cs;
    proof {
        lemma_update_value::<String, ChannelState>(mid.pairs(), ci as int, cs_after);
        assert(channels.pairs() == mid.pairs().update(ci as int, (channel@, cs_after)));
        lemma_pairs_map_at::<String, ChannelState>(channels.pairs(), ci as int);
        assert forall|i: int| 0 <= i < channels.pairs().len() implies (
        #[trigger] channels.pairs()[i]).1.wf() by {
            if i != ci {
                assert(channels.pairs()[i] == mid.pairs()[i]);
            }
        }
        assert(channels.as_map() =~= before.as_map().insert(channel@, cs_after));
        assert(channel_renditions(before, channel@) == cs_before.renditions.as_map());
    }
    (ci, ri)
}

/// The content fingerprint of segment bytes: what a fresh `DefaultHasher`
/// finishes with after being fed the slice as `Hash for [u8]` feeds it, the
/// length (as eight little-endian bytes) and then the bytes.
pub open spec fn content_hash(bytes: Seq<u8>) -> u64 {
    DefaultHasher::spec_finish(seq![spec_u64_to_le_bytes(bytes.len() as u64), bytes])
}

/// Hashes segment bytes with a fresh `DefaultHasher`, so equal bytes always
/// give equal fingerprints.
///
/// `Hash for [u8]` writes the length as a `usize` in native byte order and
/// then the bytes; on the 64-bit little-endian targets the service is built
/// for, that prefix is the eight bytes written here.
pub fn hash_bytes(bytes: &[u8]) -> (h: u64)
    ensures
        h == content_hash(bytes@),
{
    let mut hasher = DefaultHasher::new();
    let n = bytes.len() as u64;
    assert(n == bytes@.len());
    let prefix = u64_to_le_bytes(n);
    let head = prefix.as_slice();
    assert(head@ == spec_u64_to_le_bytes(n));
    hasher.write(head);
    hasher.write(bytes);
    assert(hasher@ =~= seq![spec_u64_to_le_bytes(bytes@.len() as u64), bytes@]);
    hasher.finish()
}

/// What an accepted ingest still has to do.
#[derive(Debug, Clone, PartialEq, Eq)]
pub enum IngestStep {
    /// A segment with the same sequence, extension and fingerprint is
    /// stored: its bytes must be read and compared with the incoming ones
    /// ([`settle_repeat`]) to tell a repeat from a conflict.
    Compare { sequence: u64, ext: String },
    /// The bytes must be written to canonical storage and then committed.
    Store { sequence: u64, ext: String, hash: u64 },
}

/// The message a segment stored with other bytes is reported with.
pub open spec fn segment_conflict_message(c: Seq<char>, r: Seq<char>, sequence: u64) -> Seq<char> {
    "segment "@ + c + "/"@ + r + "/"@ + decimal(sequence as nat)
        + " already exists with different bytes"@
}

/// The error a segment stored with other bytes is rejected with.
fn segment_conflict(channel: &str, rendition: &str, sequence: u64) -> (e: EdamameError)
    ensures
        e matches EdamameError::Conflict(m) && m@ == segment_conflict_message(
            channel@,
            rendition@,
            sequence,
        ),
{
    let mut m = prefixed("segment ", channel);
    push_text(&mut m, "/");
    push_text(&mut m, rendition);
    push_text(&mut m, "/");
    push_decimal(&mut m, sequence);
    push_text(&mut m, " already exists with different bytes");
    assert(m@ =~= segment_conflict_message(channel@, rendition@, sequence));
    EdamameError::Conflict(m)
}

/// What a repeated ingest answers once the stored bytes are compared with
/// the incoming ones: the same bytes are idempotent, other bytes conflict.
pub open spec fn repeat_answer(
    channel: Seq<char>,
    rendition: Seq<char>,
    sequence: u64,
    stored: Seq<u8>,
    incoming: Seq<u8>,
    r: Result<IngestOutcome, EdamameError>,
) -> bool {
    if stored == incoming {
        r == Ok::<IngestOutcome, EdamameError>(IngestOutcome::AlreadyExists)
    } else {
        r matches Err(EdamameError::Conflict(m)) && m@ == segment_conflict_message(
            channel,
            rendition,
            sequence,
        )
    }
}

/// Settles an [`IngestStep::Compare`]: `stored` are the canonical bytes of
/// the segment, `incoming` the bytes of the new request.
///
/// When the canonical copy cannot be read (`None`), the matching fingerprint
/// and extension decide, and the repeat is taken as idempotent.
pub fn settle_repeat(
    channel: &str,
    rendition: &str,
    sequence: u64,
    stored: Option<&[u8]>,
    incoming: &[u8],
) -> (r: Result<IngestOutcome, EdamameError>)
    ensures
        match stored {
            Some(s) => repeat_answer(channel@, rendition@, sequence, s@, incoming@, r),
            None => r == Ok::<IngestOutcome, EdamameError>(IngestOutcome::AlreadyExists),
        },
{
    let canonical = match stored {
        Some(s) => s,
        None => {
            return Ok(IngestOutcome::AlreadyExists);
        },
    };
    if canonical.len() != incoming.len() {
        return Err(segment_conflict(channel, rendition, sequence));
    }
    let mut i: usize = 0;
    while i < canonical.len()
        invariant
            stored == Some(canonical),
            canonical@.len() == incoming@.len(),
            i <= canonical@.len(),
            forall|j: int| 0 <= j < i ==> canonical@[j] == incoming@[j],
        decreases canonical@.len() - i,
    {
        if canonical[i] != incoming[i] {
            return Err(segment_conflict(channel, rendition, sequence));
        }
        i = i + 1;
    }
    assert(canonical@ =~= incoming@);
    Ok(IngestOutcome::AlreadyExists)
}

/// How an ingest attempt of `filename` whose bytes fingerprint to `hash`
/// changes the channel table and what it answers.
pub open spec fn ingest_answer(
    before: SortedMap<String, ChannelState>,
    after: SortedMap<String, ChannelState>,
    channel: Seq<char>,
    rendition: Seq<char>,
    filename: Seq<char>,
    metadata: RenditionMetadata,
    hash: u64,
    r: Result<IngestStep, EdamameError>,
) -> bool {
    if !valid_identifier(channel) {
        r matches Err(EdamameError::BadRequest(m)) && m@ == identifier_message("channel"@, channel)
            && after == before
    } else if !valid_identifier(rendition) {
        r matches Err(EdamameError::BadRequest(m)) && m@ == identifier_message("rendition"@, rendition)
            && after == before
    } else {
        match parse_filename_spec(filename) {
            Err(fault) => r matches Err(EdamameError::BadRequest(m)) && m@ == filename_message(
                fault,
                filename,
            ) && after == before,
            Ok((sequence, ext)) => {
                let established = metadata_at(before, channel, rendition);
                let segments = segments_at(before, channel, rendition);
                &&& rendition_at(after, channel, rendition) matches Some(rs)
                &&& with_rendition(before, after, channel, rendition, rs)
                &&& rs.segments.as_map() =~= segments
                &&& rs.commits@ =~= commits_at(before, channel, rendition)
                &&& if metadata_conflict(established, metadata) {
                    &&& rs.metadata == established
                    &&& r matches Err(EdamameError::Conflict(m)) && m@ == metadata_conflict_message()
                } else {
                    &&& rs.metadata == merged_metadata(established, metadata)
                    &&& if segments.contains_key(sequence) {
                        if segments[sequence].hash == hash && segments[sequence].ext@ == ext {
                            r matches Ok(IngestStep::Compare { sequence: s, ext: x }) && s
                                == sequence && x@ == ext
                        } else {
                            r matches Err(EdamameError::Conflict(m)) && m@
                                == segment_conflict_message(channel, rendition, sequence)
                        }
                    } else {
                        r matches Ok(IngestStep::Store { sequence: s, ext: x, hash: h }) && s
                            == sequence && x@ == ext && h == hash
                    }
                }
            },
        }
    }
}

/// How committing segment `sequence` changes the channel table.
pub open spec fn committed(
    before: SortedMap<String, ChannelState>,
    after: SortedMap<String, ChannelState>,
    channel: Seq<char>,
    rendition: Seq<char>,
    sequence: u64,
    ext: String,
    hash: u64,
    now_ms: u64,
) -> bool {
    rendition_at(after, channel, rendition) matches Some(rs) && {
        &&& with_rendition(before, after, channel, rendition, rs)
        &&& rs.metadata == metadata_at(before, channel, rendition)
        &&& rs.segments.as_map() =~= segments_at(before, channel, rendition).insert(
            sequence,
            SegmentRecord { ext, hash },
        )
        &&& rs.commits@ =~= commits_at(before, channel, rendition).push(
            SegmentCommitEvent { sequence, committed_at_ms: now_ms },
        )
    }
}

/// Checks a segment against the identity, metadata and idempotence rules and
/// records its rendition and metadata.
///
/// * Channel, rendition and filename must be valid; otherwise nothing changes.
/// * The rendition entry is created if needed; metadata that conflicts with
///   the established values is rejected, otherwise empty fields are filled.
/// * The same identity with the same bytes is idempotent; other bytes under
///   the same identity are a conflict.
/// * A new segment yields [`IngestStep::Store`]; [`commit_segment`] commits it
///   once its bytes are stored.
pub fn ingest_segment(
    channels: &mut SortedMap<String, ChannelState>,
    channel: &str,
    rendition: &str,
    filename: &str,
    metadata: &RenditionMetadata,
    bytes: &[u8],
) -> (r: Result<IngestStep, EdamameError>)
    requires
        channels_wf(*old(channels)),
    ensures
        channels_wf(*final(channels)),
        ingest_answer(
            *old(channels),
            *final(channels),
            channel@,
            rendition@,
            filename@,
            *metadata,
            content_hash(bytes@),
            r,
        ),
{
    validate_identifier("channel", channel)?;
    validate_identifier("rendition", rendition)?;
    let (sequence, ext) = parse_filename(filename)?;
    let ghost before = *channels;
    let (ci, ri) = rendition_slot(channels, channel, rendition);
    let ghost slotted = *channels;
    let hash = hash_bytes(bytes);
    let cs = channels.value_at_mut(ci);
    let ghost cs_slotted = *cs;
    let rs = cs.renditions.value_at_mut(ri);
    let result = admit_segment(rs, channel, rendition, sequence, ext, metadata, hash);
    let ghost rs_after = *rs;
    proof {
        let rp = cs_slotted.renditions.pairs();
        lemma_update_value::<String, RenditionState>(rp, ri as int, rs_after);
        assert(cs.renditions.pairs() == rp.update(ri as int, (rendition@, rs_after)));
        assert forall|i: int| 0 <= i < cs.renditions.pairs().len() implies (
        #[trigger] cs.renditions.pairs()[i]).1.wf() by {
            if i != ri {
                assert(cs.renditions.pairs()[i] == rp[i]);
            }
        }
    }
    let ghost cs_after = *cs;
    proof {
        let cp = slotted.pairs();
        lemma_update_value::<String, ChannelState>(cp, ci as int, cs_after);
        assert(channels.pairs() == cp.update(ci as int, (channel@, cs_after)));
        assert forall|i: int| 0 <= i < channels.pairs().len() implies (
        #[trigger] channels.pairs()[i]).1.wf() by {
            if i != ci {
                assert(channels.pairs()[i] == cp[i]);
            }
        }
        lemma_pairs_map_at::<String, ChannelState>(cp, ci as int);
        lemma_pairs_map_at::<String, RenditionState>(cs_slotted.renditions.pairs(), ri as int);
        assert(channels.as_map() =~= before.as_map().insert(channel@, cs_after));
        assert(cs_after.renditions.as_map() =~= channel_renditions(before, channel@).insert(
            rendition@,
            rs_after,
        ));
        assert(channels.as_map()[channel@] == cs_after);
        assert(rendition_at(*channels, channel@, rendition@) == Some(rs_after));
    }
    result
}

/// Commits a segment whose bytes are stored: records it under its sequence
/// and appends a commit event stamped `now_ms`.
pub fn commit_segment(
    channels: &mut SortedMap<String, ChannelState>,
    channel: &str,
    rendition: &str,
    sequence: u64,
    ext: String,
    hash: u64,
    now_ms: u64,
) -> (r: IngestOutcome)
    requires
        channels_wf(*old(channels)),
    ensures
        channels_wf(*final(channels)),
        r == IngestOutcome::Created,
        committed(*old(channels), *final(channels), channel@, rendition@, sequence, ext, hash, now_ms),
{
    let ghost before = *channels;
    let ghost ext_v = ext;
    let (ci, ri) = rendition_slot(channels, channel, rendition);
    let ghost slotted = *channels;
    let cs = channels.value_at_mut(ci);
    let ghost cs_slotted = *cs;
    let rs = cs.renditions.value_at_mut(ri);
    let ghost rs_slotted = *rs;
    rs.segments.insert(sequence, SegmentRecord { ext, hash });
    rs.commits.push(SegmentCommitEvent { sequence, committed_at_ms: now_ms });
    let ghost rs_after = *rs;
    proof {
        let rp = cs_slotted.renditions.pairs();
        lemma_update_value::<String, RenditionState>(rp, ri as int, rs_after);
        assert(cs.renditions.pairs() == rp.update(ri as int, (rendition@, rs_after)));
        assert forall|i: int| 0 <= i < cs.renditions.pairs().len() implies (
        #[trigger] cs.renditions.pairs()[i]).1.wf() by {
            if i != ri {
                assert(cs.renditions.pairs()[i] == rp[i]);
            }
        }
    }
    let ghost cs_after = *cs;
    proof {
        let cp = slotted.pairs();
        lemma_update_value::<String, ChannelState>(cp, ci as int, cs_after);
        assert(channels.pairs() == cp.update(ci as int, (channel@, cs_after)));
        assert forall|i: int| 0 <= i < channels.pairs().len() implies (
        #[trigger] channels.pairs()[i]).1.wf() by {
            if i != ci {
                assert(channels.pairs()[i] == cp[i]);
            }
        }
        lemma_pairs_map_at::<String, ChannelState>(cp, ci as int);
        lemma_pairs_map_at::<String, RenditionState>(cs_slotted.renditions.pairs(), ri as int);
        assert(channels.as_map() =~= before.as_map().insert(channel@, cs_after));
        assert(cs_after.renditions.as_map() =~= channel_renditions(before, channel@).insert(
            rendition@,
            rs_after,
        ));
        assert(channels.as_map()[channel@] == cs_after);
        assert(rendition_at(*channels, channel@, rendition@) == Some(rs_after));
        if rendition_at(before, channel@, rendition@) is None {
            assert(rs_slotted.segments.as_map() =~= segments_at(before, channel@, rendition@));
            assert(rs_slotted.commits@ =~= commits_at(before, channel@, rendition@));
            assert(rs_slotted.metadata == metadata_at(before, channel@, rendition@));
        }
    }
    IngestOutcome::Created
}

/// Ingesting a committed segment again with the same filename, metadata and
/// bytes is idempotent: the stored bytes are compared, the answer is
/// `AlreadyExists`, and the rendition keeps its metadata, segments and commit
/// log.
pub proof fn lemma_repeat_ingest_idempotent(
    s0: SortedMap<String, ChannelState>,
    s1: SortedMap<String, ChannelState>,
    s2: SortedMap<String, ChannelState>,
    s3: SortedMap<String, ChannelState>,
    channel: Seq<char>,
    rendition: Seq<char>,
    filename: Seq<char>,
    metadata: RenditionMetadata,
    bytes: Seq<u8>,
    sequence: u64,
    ext: String,
    now_ms: u64,
    r3: Result<IngestStep, EdamameError>,
    r4: Result<IngestOutcome, EdamameError>,
)
    requires
        ingest_answer(
            s0,
            s1,
            channel,
            rendition,
            filename,
            metadata,
            content_hash(bytes),
            Ok(IngestStep::Store { sequence, ext, hash: content_hash(bytes) }),
        ),
        committed(s1, s2, channel, rendition, sequence, ext, content_hash(bytes), now_ms),
        ingest_answer(s2, s3, channel, rendition, filename, metadata, content_hash(bytes), r3),
        repeat_answer(channel, rendition, sequence, bytes, bytes, r4),
    ensures
        r3 matches Ok(IngestStep::Compare { sequence: s, ext: x }) && s == sequence && x@ == ext@,
        r4 == Ok::<IngestOutcome, EdamameError>(IngestOutcome::AlreadyExists),
        metadata_at(s3, channel, rendition) == metadata_at(s2, channel, rendition),
        segments_at(s3, channel, rendition) == segments_at(s2, channel, rendition),
        commits_at(s3, channel, rendition) == commits_at(s2, channel, rendition),
{
    lemma_merge_settles(metadata_at(s0, channel, rendition), metadata);
}

/// Ingesting other bytes under the identity of a committed segment is a
/// conflict, whether the fingerprints already differ or the stored bytes
/// are compared; the segment and its commit log stay as they were.
pub proof fn lemma_other_bytes_conflict(
    s0: SortedMap<String, ChannelState>,
    s1: SortedMap<String, ChannelState>,
    s2: SortedMap<String, ChannelState>,
    s3: SortedMap<String, ChannelState>,
    channel: Seq<char>,
    rendition: Seq<char>,
    filename: Seq<char>,
    metadata: RenditionMetadata,
    bytes: Seq<u8>,
    sequence: u64,
    ext: String,
    now_ms: u64,
    other: Seq<u8>,
    r3: Result<IngestStep, EdamameError>,
    r4: Result<IngestOutcome, EdamameError>,
)
    requires
        ingest_answer(
            s0,
            s1,
            channel,
            rendition,
            filename,
            metadata,
            content_hash(bytes),
            Ok(IngestStep::Store { sequence, ext, hash: content_hash(bytes) }),
        ),
        committed(s1, s2, channel, rendition, sequence, ext, content_hash(bytes), now_ms),
        other != bytes,
        ingest_answer(s2, s3, channel, rendition, filename, metadata, content_hash(other), r3),
        repeat_answer(channel, rendition, sequence, bytes, other, r4),
    ensures
        (r3 matches Err(EdamameError::Conflict(m)) && m@ == segment_conflict_message(
            channel,
            rendition,
            sequence,
        )) || (r3 is Ok && (r4 matches Err(EdamameError::Conflict(m)) && m@
            == segment_conflict_message(channel, rendition, sequence))),
        segments_at(s3, channel, rendition) == segments_at(s2, channel, rendition),
        commits_at(s3, channel, rendition) == commits_at(s2, channel, rendition),
{
    lemma_merge_settles(metadata_at(s0, channel, rendition), metadata);
}

/// Whether a commit log names each committed segment exactly once and
/// nothing else.
pub open spec fn log_matches(segments: Map<u64, SegmentRecord>, commits: Seq<SegmentCommitEvent>) -> bool {
    &&& forall|i: int, j: int|
        #![trigger commits[i], commits[j]]
        0 <= i < j < commits.len() ==> commits[i].sequence != commits[j].sequence
    &&& forall|i: int| 0 <= i < commits.len() ==> segments.contains_key(#[trigger] commits[i].sequence)
    &&& forall|k: u64|
        #[trigger] segments.contains_key(k) ==> exists|i: int|
            0 <= i < commits.len() && commits[i].sequence == k
}

/// Renditions other than `(c, r)` are untouched by a change to `(c, r)`.
proof fn lemma_other_renditions(
    before: SortedMap<String, ChannelState>,
    after: SortedMap<String, ChannelState>,
    c: Seq<char>,
    r: Seq<char>,
    rs: RenditionState,
    c2: Seq<char>,
    r2: Seq<char>,
)
    requires
        with_rendition(before, after, c, r, rs),
        c2 != c || r2 != r,
    ensures
        rendition_at(after, c2, r2) == rendition_at(before, c2, r2),
{
    assert(after.as_map().contains_key(c));
    if c2 != c {
        assert(after.as_map().contains_key(c2) == before.as_map().contains_key(c2));
        if before.as_map().contains_key(c2) {
            assert(after.as_map()[c2] == before.as_map()[c2]);
        }
    } else {
        assert(channel_renditions(after, c) == channel_renditions(before, c).insert(r, rs));
    }
}

/// An ingest attempt keeps every rendition's commit log in step with its
/// committed segments.
pub proof fn lemma_ingest_keeps_logs(
    s0: SortedMap<String, ChannelState>,
    s1: SortedMap<String, ChannelState>,
    channel: Seq<char>,
    rendition: Seq<char>,
    filename: Seq<char>,
    metadata: RenditionMetadata,
    hash: u64,
    r1: Result<IngestStep, EdamameError>,
    c2: Seq<char>,
    r2: Seq<char>,
)
    requires
        log_matches(segments_at(s0, c2, r2), commits_at(s0, c2, r2)),
        ingest_answer(s0, s1, channel, rendition, filename, metadata, hash, r1),
    ensures
        segments_at(s1, c2, r2) == segments_at(s0, c2, r2),
        commits_at(s1, c2, r2) == commits_at(s0, c2, r2),
        log_matches(segments_at(s1, c2, r2), commits_at(s1, c2, r2)),
{
    if valid_identifier(channel) && valid_identifier(rendition) && parse_filename_spec(filename) is Ok {
        let rs = rendition_at(s1, channel, rendition)->0;
        if c2 != channel || r2 != rendition {
            lemma_other_renditions(s0, s1, channel, rendition, rs, c2, r2);
        }
    }
}

/// Committing a sequence that is not yet committed keeps every rendition's
/// commit log in step with its committed segments: the log gains exactly the
/// new sequence.
pub proof fn lemma_commit_keeps_logs(
    s1: SortedMap<String, ChannelState>,
    s2: SortedMap<String, ChannelState>,
    channel: Seq<char>,
    rendition: Seq<char>,
    sequence: u64,
    ext: String,
    hash: u64,
    now_ms: u64,
    c2: Seq<char>,
    r2: Seq<char>,
)
    requires
        log_matches(segments_at(s1, c2, r2), commits_at(s1, c2, r2)),
        !segments_at(s1, channel, rendition).contains_key(sequence),
        committed(s1, s2, channel, rendition, sequence, ext, hash, now_ms),
    ensures
        log_matches(segments_at(s2, c2, r2), commits_at(s2, c2, r2)),
{
    let rs = rendition_at(s2, channel, rendition)->0;
    if c2 != channel || r2 != rendition {
        lemma_other_renditions(s1, s2, channel, rendition, rs, c2, r2);
    } else {
        let old_segs = segments_at(s1, channel, rendition);
        let old_log = commits_at(s1, channel, rendition);
        let segs = segments_at(s2, channel, rendition);
        let log = commits_at(s2, channel, rendition);
        assert(log.len() == old_log.len() + 1);
        assert forall|i: int, j: int| #![trigger log[i], log[j]] 0 <= i < j < log.len() implies log[i].sequence
            != log[j].sequence by {
            assert(log[i] == old_log[i]);
            if j < old_log.len() {
                assert(log[j] == old_log[j]);
            } else {
                assert(old_segs.contains_key(old_log[i].sequence));
            }
        }
        assert forall|i: int| 0 <= i < log.len() implies segs.contains_key(#[trigger] log[i].sequence) by {
            if i < old_log.len() {
                assert(log[i] == old_log[i]);
                assert(old_segs.contains_key(old_log[i].sequence));
            }
        }
        assert forall|k: u64| #[trigger] segs.contains_key(k) implies exists|i: int|
            0 <= i < log.len() && log[i].sequence == k by {
            if k == sequence {
                assert(log[log.len() - 1].sequence == k);
            } else {
                assert(old_segs.contains_key(k));
                let i = choose|i: int| 0 <= i < old_log.len() && old_log[i].sequence == k;
                assert(log[i] == old_log[i]);
            }
        }
    }
}

/// A store step followed by its commit keeps every rendition's commit log
/// in step with its committed segments: commit sequences stay distinct and
/// are exactly the committed sequences.
pub proof fn lemma_store_commit_keeps_logs(
    s0: SortedMap<String, ChannelState>,
    s1: SortedMap<String, ChannelState>,
    s2: SortedMap<String, ChannelState>,
    channel: Seq<char>,
    rendition: Seq<char>,
    filename: Seq<char>,
    metadata: RenditionMetadata,
    sequence: u64,
    ext: String,
    hash: u64,
    now_ms: u64,
    c2: Seq<char>,
    r2: Seq<char>,
)
    requires
        log_matches(segments_at(s0, c2, r2), commits_at(s0, c2, r2)),
        ingest_answer(
            s0,
            s1,
            channel,
            rendition,
            filename,
            metadata,
            hash,
            Ok(IngestStep::Store { sequence, ext, hash }),
        ),
        committed(s1, s2, channel, rendition, sequence, ext, hash, now_ms),
    ensures
        log_matches(segments_at(s2, c2, r2), commits_at(s2, c2, r2)),
{
    lemma_ingest_keeps_logs(
        s0,
        s1,
        channel,
        rendition,
        filename,
        metadata,
        hash,
        Ok(IngestStep::Store { sequence, ext, hash }),
        c2,
        r2,
    );
    lemma_commit_keeps_logs(s1, s2, channel, rendition, sequence, ext, hash, now_ms, c2, r2);
}

/// Whether sequence `s` lies in the live window of `rs` and is committed.
pub open spec fn in_live_window(rs: RenditionState, window: WindowConfig, s: u64) -> bool {
    match edge_of(rs) {
        Some(e) => live_start_of(e, window.window_size) <= s <= e && rs.segments.as_map().contains_key(
            s,
        ),
        None => false,
    }
}

/// Whether a cache node must hold segment `id` to become ACTIVE.
pub open spec fn is_required(
    channels: SortedMap<String, ChannelState>,
    window: WindowConfig,
    id: (Seq<char>, Seq<char>, u64),
) -> bool {
    rendition_at(channels, id.0, id.1) matches Some(rs) && in_live_window(rs, window, id.2)
}

/// The live edge of a rendition is its highest committed sequence.
proof fn lemma_edge_is_max(rs: RenditionState)
    requires
        rs.wf(),
    ensures
        edge_of(rs) is Some <==> exists|q: u64| rs.segments.as_map().contains_key(q),
        edge_of(rs) matches Some(e) ==> rs.segments.as_map().contains_key(e) && forall|k: u64|
            #[trigger] rs.segments.as_map().contains_key(k) ==> k <= e,
{
    let p = rs.segments.pairs();
    if p.len() > 0 {
        let n = p.len() - 1;
        lemma_pairs_map_at::<u64, SegmentRecord>(p, n);
        assert(rs.segments.as_map().contains_key(p[n].0));
        assert(edge_of(rs) == Some(p[n].0));
        assert forall|k: u64| #[trigger] rs.segments.as_map().contains_key(k) implies k <= p[n].0 by {
            let j = choose|j: int| 0 <= j < p.len() && #[trigger] p[j].0 == k;
            if j < n {
                assert(p[j].0 < p[n].0);
            }
        }
    } else {
        assert forall|q: u64| !rs.segments.as_map().contains_key(q) by {
            if rs.segments.as_map().contains_key(q) {
                let j = choose|j: int| 0 <= j < p.len() && #[trigger] p[j].0 == q;
            }
        }
    }
}

/// A cache node must hold segment `(c, r, s)` exactly when channel `c` has
/// rendition `r`, sequence `s` is committed there, and no committed sequence
/// of that rendition lies `window_size` or more past `s`: every channel and
/// every rendition contributes its live window.
pub proof fn lemma_required_iff(
    channels: SortedMap<String, ChannelState>,
    window: WindowConfig,
    id: (Seq<char>, Seq<char>, u64),
)
    requires
        channels_wf(channels),
        window.window_size > 0,
    ensures
        is_required(channels, window, id) <==> (channels.as_map().contains_key(id.0)
            && channels.as_map()[id.0].renditions.as_map().contains_key(id.1) && {
            let segs = channels.as_map()[id.0].renditions.as_map()[id.1].segments.as_map();
            &&& segs.contains_key(id.2)
            &&& forall|k: u64| #[trigger] segs.contains_key(k) ==> k < id.2 + window.window_size
        }),
{
    if channels.as_map().contains_key(id.0) {
        lemma_channels_wf_map(channels, id.0);
        let cs = channels.as_map()[id.0];
        if cs.renditions.as_map().contains_key(id.1) {
            lemma_channel_wf_map(cs, id.1);
            let rs = cs.renditions.as_map()[id.1];
            assert(rendition_at(channels, id.0, id.1) == Some(rs));
            lemma_edge_is_max(rs);
            let segs = rs.segments.as_map();
            if segs.contains_key(id.2) {
                let e = edge_of(rs)->0;
                assert(id.2 <= e);
                if forall|k: u64| #[trigger] segs.contains_key(k) ==> k < id.2 + window.window_size {
                    assert(segs.contains_key(e));
                    assert(e < id.2 + window.window_size);
                    assert(live_start_of(e, window.window_size) <= id.2);
                }
                if in_live_window(rs, window, id.2) {
                    assert forall|k: u64| #[trigger] segs.contains_key(k) implies k < id.2
                        + window.window_size by {
                        assert(k <= e);
                    }
                }
            }
        }
    }
}

fn add_rendition_required(
    req: &mut SortedSet<SegmentId>,
    channel: &String,
    rendition: &String,
    rs: &RenditionState,
    window: WindowConfig,
)
    requires
        old(req).wf(),
        rs.wf(),
    ensures
        final(req).wf(),
        forall|id: (Seq<char>, Seq<char>, u64)|
            #[trigger] final(req).as_set().contains(id) == (old(req).as_set().contains(id) || (
            id.0 == channel@ && id.1 == rendition@ && in_live_window(*rs, window, id.2))),
{
    let edge = match rs.live_edge() {
        Some(e) => e,
        None => {
            return ;
        },
    };
    let live = LiveWindow { live_edge: edge, config: window };
    let start = live.live_start();
    let n = rs.segments.len();
    let ghost sp = rs.segments.pairs();
    let mut k: usize = 0;
    while k < n
        invariant
            req.wf(),
            rs.wf(),
            sp == rs.segments.pairs(),
            n == sp.len(),
            k <= n,
            edge_of(*rs) == Some(edge),
            start == live_start_of(edge, window.window_size),
            forall|id: (Seq<char>, Seq<char>, u64)|
                #[trigger] req.as_set().contains(id) == (old(req).as_set().contains(id) || (id.0
                    == channel@ && id.1 == rendition@ && start <= id.2 <= edge && exists|x: int|
                    0 <= x < k && #[trigger] sp[x].0 == id.2)),
        decreases n - k,
    {
        let s = *rs.segments.key_at(k);
        if start <= s && s <= edge {
            let ghost prev = *req;
            req.insert(SegmentId { channel: channel.clone(), rendition: rendition.clone(), sequence: s });
            proof {
                assert forall|id: (Seq<char>, Seq<char>, u64)| #[trigger] req.as_set().contains(id)
                    == (old(req).as_set().contains(id) || (id.0 == channel@ && id.1 == rendition@
                    && start <= id.2 <= edge && exists|x: int| 0 <= x < k + 1 && #[trigger] sp[x].0
                    == id.2)) by {
                    if id.0 == channel@ && id.1 == rendition@ && id.2 == s {
                        assert(sp[k as int].0 == id.2);
                    }
                    if exists|x: int| 0 <= x < k + 1 && #[trigger] sp[x].0 == id.2 {
                        let x = choose|x: int| 0 <= x < k + 1 && #[trigger] sp[x].0 == id.2;
                        if x < k {
                            assert(exists|x: int| 0 <= x < k && #[trigger] sp[x].0 == id.2);
                        }
                    }
                }
            }
        } else {
            proof {
                assert forall|id: (Seq<char>, Seq<char>, u64)| #[trigger] req.as_set().contains(id)
                    == (old(req).as_set().contains(id) || (id.0 == channel@ && id.1 == rendition@
                    && start <= id.2 <= edge && exists|x: int| 0 <= x < k + 1 && #[trigger] sp[x].0
                    == id.2)) by {
                    if exists|x: int| 0 <= x < k + 1 && #[trigger] sp[x].0 == id.2 {
                        let x = choose|x: int| 0 <= x < k + 1 && #[trigger] sp[x].0 == id.2;
                        if x < k {
                            assert(exists|x: int| 0 <= x < k && #[trigger] sp[x].0 == id.2);
                        }
                    }
                }
            }
        }
        k = k + 1;
    }
    proof {
        assert forall|id: (Seq<char>, Seq<char>, u64)| #[trigger] req.as_set().contains(id) == (old(
            req,
        ).as_set().contains(id) || (id.0 == channel@ && id.1 == rendition@ && in_live_window(
            *rs,
            window,
            id.2,
        ))) by {
            if exists|x: int| 0 <= x < n && #[trigger] sp[x].0 == id.2 {
                let x = choose|x: int| 0 <= x < n && #[trigger] sp[x].0 == id.2;
                lemma_pairs_map_at::<u64, SegmentRecord>(sp, x);
            }
            if rs.segments.as_map().contains_key(id.2) {
                let x = choose|x: int| 0 <= x < sp.len() && #[trigger] sp[x].0 == id.2;
            }
        }
    }
}

fn add_channel_required(
    req: &mut SortedSet<SegmentId>,
    channel: &String,
    cs: &ChannelState,
    window: WindowConfig,
)
    requires
        old(req).wf(),
        cs.wf(),
    ensures
        final(req).wf(),
        forall|id: (Seq<char>, Seq<char>, u64)|
            #[trigger] final(req).as_set().contains(id) == (old(req).as_set().contains(id) || (
            id.0 == channel@ && cs.renditions.as_map().contains_key(id.1) && in_live_window(
                cs.renditions.as_map()[id.1],
                window,
                id.2,
            ))),
{
    let n = cs.renditions.len();
    let ghost rp = cs.renditions.pairs();
    let mut j: usize = 0;
    while j < n
        invariant
            req.wf(),
            cs.wf(),
            rp == cs.renditions.pairs(),
            n == rp.len(),
            j <= n,
            forall|id: (Seq<char>, Seq<char>, u64)|
                #[trigger] req.as_set().contains(id) == (old(req).as_set().contains(id) || (id.0
                    == channel@ && exists|y: int|
                    0 <= y < j && #[trigger] rp[y].0 == id.1 && in_live_window(rp[y].1, window, id.2))),
        decreases n - j,
    {
        let ghost prev = *req;
        assert(rp[j as int].1.wf());
        add_rendition_required(req, channel, cs.renditions.key_at(j), cs.renditions.value_at(j), window);
        proof {
            assert forall|id: (Seq<char>, Seq<char>, u64)| #[trigger] req.as_set().contains(id)
                == (old(req).as_set().contains(id) || (id.0 == channel@ && exists|y: int|
                0 <= y < j + 1 && #[trigger] rp[y].0 == id.1 && in_live_window(rp[y].1, window, id.2))) by {
                if id.0 == channel@ && id.1 == rp[j as int].0 && in_live_window(rp[j as int].1, window, id.2) {
                    assert(rp[j as int].0 == id.1);
                }
                if exists|y: int| 0 <= y < j + 1 && #[trigger] rp[y].0 == id.1 && in_live_window(rp[y].1, window, id.2) {
                    let y = choose|y: int| 0 <= y < j + 1 && #[trigger] rp[y].0 == id.1 && in_live_window(rp[y].1, window, id.2);
                    if y < j {
                        assert(exists|y: int| 0 <= y < j && #[trigger] rp[y].0 == id.1 && in_live_window(rp[y].1, window, id.2));
                    }
                }
            }
        }
        j = j + 1;
    }
    proof {
        assert forall|id: (Seq<char>, Seq<char>, u64)| #[trigger] req.as_set().contains(id) == (old(
            req,
        ).as_set().contains(id) || (id.0 == channel@ && cs.renditions.as_map().contains_key(id.1)
            && in_live_window(cs.renditions.as_map()[id.1], window, id.2))) by {
            if exists|y: int| 0 <= y < n && #[trigger] rp[y].0 == id.1 && in_live_window(rp[y].1, window, id.2) {
                let y = choose|y: int| 0 <= y < n && #[trigger] rp[y].0 == id.1 && in_live_window(rp[y].1, window, id.2);
                lemma_pairs_map_at::<String, RenditionState>(rp, y);
            }
            if cs.renditions.as_map().contains_key(id.1) {
                let y = choose|y: int| 0 <= y < rp.len() && #[trigger] rp[y].0 == id.1;
                lemma_pairs_map_at::<String, RenditionState>(rp, y);
            }
        }
    }
}

/// The live-window segments of every rendition of every channel: what a
/// cache node must retain to become ACTIVE.
pub fn required_segments(channels: &SortedMap<String, ChannelState>, window: WindowConfig) -> (req:
    SortedSet<SegmentId>)
    requires
        channels_wf(*channels),
    ensures
        req.wf(),
        forall|id: (Seq<char>, Seq<char>, u64)| #[trigger]
            req.as_set().contains(id) == is_required(*channels, window, id),
{
    let mut req: SortedSet<SegmentId> = SortedSet::new();
    let n = channels.len();
    let ghost cp = channels.pairs();
    let mut i: usize = 0;
    while i < n
        invariant
            req.wf(),
            channels_wf(*channels),
            cp == channels.pairs(),
            n == cp.len(),
            i <= n,
            forall|id: (Seq<char>, Seq<char>, u64)|
                #[trigger] req.as_set().contains(id) == exists|x: int|
                    0 <= x < i && #[trigger] cp[x].0 == id.0 && cp[x].1.renditions.as_map().contains_key(id.1)
                        && in_live_window(cp[x].1.renditions.as_map()[id.1], window, id.2),
        decreases n - i,
    {
        assert(cp[i as int].1.wf());
        add_channel_required(&mut req, channels.key_at(i), channels.value_at(i), window);
        proof {
            assert forall|id: (Seq<char>, Seq<char>, u64)| #[trigger] req.as_set().contains(id) == exists|x: int|
                    0 <= x < i + 1 && #[trigger] cp[x].0 == id.0 && cp[x].1.renditions.as_map().contains_key(id.1)
                        && in_live_window(cp[x].1.renditions.as_map()[id.1], window, id.2) by {
                if id.0 == cp[i as int].0 && cp[i as int].1.renditions.as_map().contains_key(id.1)
                        && in_live_window(cp[i as int].1.renditions.as_map()[id.1], window, id.2) {
                    assert(cp[i as int].0 == id.0);
                }
                if exists|x: int| 0 <= x < i + 1 && #[trigger] cp[x].0 == id.0 && cp[x].1.renditions.as_map().contains_key(id.1)
                        && in_live_window(cp[x].1.renditions.as_map()[id.1], window, id.2) {
                    let x = choose|x: int| 0 <= x < i + 1 && #[trigger] cp[x].0 == id.0 && cp[x].1.renditions.as_map().contains_key(id.1)
                        && in_live_window(cp[x].1.renditions.as_map()[id.1], window, id.2);
                    if x < i {
                        assert(exists|x: int| 0 <= x < i && #[trigger] cp[x].0 == id.0 && cp[x].1.renditions.as_map().contains_key(id.1)
                        && in_live_window(cp[x].1.renditions.as_map()[id.1], window, id.2));
                    }
                }
            }
        }
        i = i + 1;
    }
    proof {
        assert forall|id: (Seq<char>, Seq<char>, u64)| #[trigger] req.as_set().contains(id) == is_required(*channels, window, id) by {
            if exists|x: int| 0 <= x < n && #[trigger] cp[x].0 == id.0 && cp[x].1.renditions.as_map().contains_key(id.1)
                        && in_live_window(cp[x].1.renditions.as_map()[id.1], window, id.2) {
                let x = choose|x: int| 0 <= x < n && #[trigger] cp[x].0 == id.0 && cp[x].1.renditions.as_map().contains_key(id.1)
                        && in_live_window(cp[x].1.renditions.as_map()[id.1], window, id.2);
                lemma_pairs_map_at::<String, ChannelState>(cp, x);
            }
            if channels.as_map().contains_key(id.0) {
                let x = choose|x: int| 0 <= x < cp.len() && #[trigger] cp[x].0 == id.0;
                lemma_pairs_map_at::<String, ChannelState>(cp, x);
            }
        }
    }
    req
}

/// The rendition-level part of [`ingest_segment`].
fn admit_segment(
    rs: &mut RenditionState,
    channel: &str,
    rendition: &str,
    sequence: u64,
    ext: String,
    metadata: &RenditionMetadata,
    hash: u64,
) -> (r: Result<IngestStep, EdamameError>)
    requires
        old(rs).wf(),
    ensures
        final(rs).wf(),
        final(rs).segments == old(rs).segments,
        final(rs).commits == old(rs).commits,
        if metadata_conflict(old(rs).metadata, *metadata) {
            &&& final(rs).metadata == old(rs).metadata
            &&& r matches Err(EdamameError::Conflict(m)) && m@ == metadata_conflict_message()
        } else {
            let segments = old(rs).segments.as_map();
            &&& final(rs).metadata == merged_metadata(old(rs).metadata, *metadata)
            &&& if segments.contains_key(sequence) {
                if segments[sequence].hash == hash && segments[sequence].ext@ == ext@ {
                    r matches Ok(IngestStep::Compare { sequence: s, ext: x }) && s == sequence
                        && x@ == ext@
                } else {
                    r matches Err(EdamameError::Conflict(m)) && m@ == segment_conflict_message(
                        channel@,
                        rendition@,
                        sequence,
                    )
                }
            } else {
                r matches Ok(IngestStep::Store { sequence: s, ext: x, hash: h }) && s == sequence
                    && x@ == ext@ && h == hash
            }
        },
{
    rs.metadata.merge(metadata)?;
    match rs.segments.get(&sequence) {
        Some(existing) => {
            if existing.hash == hash && same_text(existing.ext.as_str(), ext.as_str()) {
                Ok(IngestStep::Compare { sequence, ext })
            } else {
                Err(segment_conflict(channel, rendition, sequence))
            }
        },
        None => Ok(IngestStep::Store { sequence, ext, hash }),
    }
}

} // verus!
