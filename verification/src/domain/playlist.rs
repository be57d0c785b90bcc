//! Generated master/media playlist models.
use vstd::prelude::*;

use crate::domain::rendition::RenditionMetadata;
use crate::text::same_text;

verus! {

/// A reference to one segment in a generated media playlist.
#[derive(Debug, Clone, PartialEq, Eq)]
pub struct SegmentRef {
    pub sequence: u64,
    pub ext: String,
}

/// The generated media playlist of one rendition.
#[derive(Debug, Clone, PartialEq, Eq)]
pub struct MediaPlaylist {
    pub channel: String,
    pub rendition: String,
    pub media_sequence: u64,
    pub segments: Vec<SegmentRef>,
}

/// The inclusive `(first, last)` sequence range of a list of segment references.
pub open spec fn refs_range(segments: Seq<SegmentRef>) -> Option<(u64, u64)> {
    if segments.len() > 0 {
        Some((segments[0].sequence, segments.last().sequence))
    } else {
        None
    }
}

impl MediaPlaylist {
    /// The inclusive `(first, last)` live-window sequence range, when not empty.
    pub fn live_range(&self) -> (r: Option<(u64, u64)>)
        ensures
            r == refs_range(self.segments@),
    {
        let n = self.segments.len();
        if n > 0 {
            Some((self.segments[0].sequence, self.segments[n - 1].sequence))
        } else {
            None
        }
    }
}

/// One rendition entry of a generated master playlist.
#[derive(Debug, Clone, PartialEq, Eq)]
pub struct RenditionEntry {
    pub rendition: String,
    pub metadata: RenditionMetadata,
}

/// A generated master playlist referring to one or more media playlists.
#[derive(Debug, Clone, PartialEq, Eq)]
pub struct MasterPlaylist {
    pub channel: String,
    pub renditions: Vec<RenditionEntry>,
}

/// A validated channel snapshot: the master playlist and each media playlist.
///
/// A snapshot is only replaced after full validation succeeds, so a failed
/// regeneration leaves the previously served snapshot as it was.
#[derive(Debug, Clone, PartialEq, Eq)]
pub struct ChannelSnapshot {
    pub master: MasterPlaylist,
    pub media: Vec<MediaPlaylist>,
}

/// Position of the first media playlist of `rendition`.
pub open spec fn first_media_of(media: Seq<MediaPlaylist>, rendition: Seq<char>) -> Option<int>
    decreases media.len(),
{
    if media.len() == 0 {
        None
    } else {
        match first_media_of(media.drop_last(), rendition) {
            Some(i) => Some(i),
            None => if media.last().rendition@ == rendition {
                Some(media.len() - 1)
            } else {
                None
            },
        }
    }
}

proof fn lemma_first_media_of(media: Seq<MediaPlaylist>, rendition: Seq<char>, i: int)
    requires
        0 <= i <= media.len(),
        forall|j: int| 0 <= j < i ==> media[j].rendition@ != rendition,
    ensures
        i < media.len() && media[i].rendition@ == rendition ==> first_media_of(media, rendition)
            == Some(i),
        i == media.len() ==> first_media_of(media, rendition) is None,
    decreases media.len(),
{
    if media.len() > 0 {
        if i < media.len() {
            if i < media.len() - 1 {
                lemma_first_media_of(media.drop_last(), rendition, i);
            } else {
                lemma_first_media_of(media.drop_last(), rendition, i);
            }
        } else {
            lemma_first_media_of(media.drop_last(), rendition, i - 1);
        }
    }
}

impl ChannelSnapshot {
    /// The generated media playlist of `rendition`.
    pub fn media_for(&self, rendition: &str) -> (r: Option<&MediaPlaylist>)
        ensures
            match first_media_of(self.media@, rendition@) {
                Some(i) => r == Some(&self.media@[i]),
                None => r is None,
            },
    {
        let mut i: usize = 0;
        while i < self.media.len()
            invariant
                i <= self.media@.len(),
                forall|j: int| 0 <= j < i ==> self.media@[j].rendition@ != rendition@,
            decreases self.media@.len() - i,
        {
            if same_text(self.media[i].rendition.as_str(), rendition) {
                proof {
                    lemma_first_media_of(self.media@, rendition@, i as int);
                }
                return Some(&self.media[i]);
            }
            i = i + 1;
        }
        proof {
            lemma_first_media_of(self.media@, rendition@, i as int);
        }
        None
    }
}

} // verus!
