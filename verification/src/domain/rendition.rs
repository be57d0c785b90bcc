//! Rendition metadata and conflict detection.
//!
//! A rendition is identified by its path segment; the optional `bandwidth`
//! and `resolution` are metadata for the generated master playlist and never
//! define identity. Once established, conflicting metadata is rejected.
use vstd::prelude::*;

use crate::error::EdamameError;

verus! {

/// Optional bitrate/resolution metadata of a rendition.
#[derive(Debug, Clone, PartialEq, Eq)]
pub struct RenditionMetadata {
    pub bandwidth: Option<u64>,
    pub resolution: Option<String>,
}

impl Default for RenditionMetadata {
    fn default() -> (m: RenditionMetadata)
        ensures
            m.bandwidth is None,
            m.resolution is None,
    {
        RenditionMetadata { bandwidth: None, resolution: None }
    }
}

/// Whether both records hold a value for the same field and the values differ.
pub open spec fn metadata_conflict(a: RenditionMetadata, b: RenditionMetadata) -> bool {
    ||| (a.bandwidth matches Some(x) && b.bandwidth matches Some(y) && x != y)
    ||| (a.resolution matches Some(x) && b.resolution matches Some(y) && x@ != y@)
}

/// The record `merge` leaves: fields that were empty take the incoming value.
pub open spec fn merged_metadata(
    established: RenditionMetadata,
    incoming: RenditionMetadata,
) -> RenditionMetadata {
    RenditionMetadata {
        bandwidth: if established.bandwidth is None {
            incoming.bandwidth
        } else {
            established.bandwidth
        },
        resolution: if established.resolution is None {
            incoming.resolution
        } else {
            established.resolution
        },
    }
}

/// The message a metadata conflict is reported with.
pub open spec fn metadata_conflict_message() -> Seq<char> {
    "rendition metadata conflicts with established values"@
}

fn copy_resolution(r: &Option<String>) -> (c: Option<String>)
    ensures
        c == *r,
{
    match r {
        Some(s) => Some(s.clone()),
        None => None,
    }
}

impl RenditionMetadata {
    /// True when both records hold a value for the same field and they differ.
    pub fn conflicts_with(&self, other: &RenditionMetadata) -> (b: bool)
        ensures
            b == metadata_conflict(*self, *other),
    {
        let bandwidth_conflict = match (self.bandwidth, other.bandwidth) {
            (Some(a), Some(b)) => a != b,
            _ => false,
        };
        let resolution_conflict = match (&self.resolution, &other.resolution) {
            (Some(a), Some(b)) => !a.eq(b),
            _ => false,
        };
        bandwidth_conflict || resolution_conflict
    }

    /// Merges newly supplied metadata into the established record.
    ///
    /// Fails when the incoming values conflict with the established ones;
    /// otherwise fills the fields that were empty.
    pub fn merge(&mut self, incoming: &RenditionMetadata) -> (r: Result<(), EdamameError>)
        ensures
            metadata_conflict(*old(self), *incoming) ==> (r matches Err(
                EdamameError::Conflict(m),
            ) && m@ == metadata_conflict_message() && *final(self) == *old(self)),
            !metadata_conflict(*old(self), *incoming) ==> r is Ok && *final(self)
                == merged_metadata(*old(self), *incoming),
    {
        if self.conflicts_with(incoming) {
            return Err(
                EdamameError::Conflict(
                    "rendition metadata conflicts with established values".to_owned(),
                ),
            );
        }
        if self.bandwidth.is_none() {
            self.bandwidth = incoming.bandwidth;
        }
        if self.resolution.is_none() {
            self.resolution = copy_resolution(&incoming.resolution);
        }
        Ok(())
    }
}

/// Merging never conflicts with what was merged in, and merging the same
/// metadata again changes nothing.
pub proof fn lemma_merge_settles(established: RenditionMetadata, incoming: RenditionMetadata)
    requires
        !metadata_conflict(established, incoming),
    ensures
        !metadata_conflict(merged_metadata(established, incoming), incoming),
        !metadata_conflict(merged_metadata(established, incoming), established),
        merged_metadata(merged_metadata(established, incoming), incoming) == merged_metadata(
            established,
            incoming,
        ),
{
}

} // verus!
