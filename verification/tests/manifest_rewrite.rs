//! Media playlists rewritten to one ACTIVE node, and snapshot refresh that
//! keeps the previous snapshot when validation fails.

use edamame_alpha::controller::ingest::{ChannelState, RenditionState, SegmentRecord};
use edamame_alpha::controller::manifest::{
    generate_media_playlist, refresh_snapshot, regenerate, render_master_m3u8, render_media_m3u8,
};
use edamame_alpha::domain::playlist::ChannelSnapshot;
use edamame_alpha::domain::rendition::RenditionMetadata;
use edamame_alpha::domain::window::WindowConfig;
use edamame_alpha::error::EdamameError;
use edamame_alpha::ordered::SortedMap;

fn rendition_state(seqs: &[u64]) -> RenditionState {
    let mut segments = SortedMap::new();
    for s in seqs {
        segments.insert(
            *s,
            SegmentRecord {
                ext: "ts".to_owned(),
                hash: *s,
            },
        );
    }
    RenditionState {
        metadata: RenditionMetadata::default(),
        segments,
        commits: Vec::new(),
    }
}

fn window() -> WindowConfig {
    WindowConfig {
        window_size: 2,
        retention_window: 4,
    }
}

#[test]
fn media_playlist_rewrites_to_single_active_node() {
    let rstate = rendition_state(&[101, 102]);
    let playlist = generate_media_playlist("live", "720p", &rstate, window()).unwrap();
    let m3u8 = render_media_m3u8(&playlist, "http://127.0.0.1:9001/");
    assert!(m3u8.contains("#EXT-X-MEDIA-SEQUENCE:101"));
    assert!(m3u8.contains("http://127.0.0.1:9001/segments/live/720p/101.ts"));
    assert!(m3u8.contains("http://127.0.0.1:9001/segments/live/720p/102.ts"));
    // Every segment URL points at the same node.
    assert_eq!(m3u8.matches("http://127.0.0.1:9001/").count(), 2);
}

fn channel_with(renditions: &[(&str, &[u64])]) -> ChannelState {
    let mut cstate = ChannelState::default();
    for (name, seqs) in renditions {
        cstate.renditions.insert((*name).to_owned(), rendition_state(seqs));
    }
    cstate
}

#[test]
fn refresh_replaces_only_after_validation_succeeds() {
    let mut snapshots: SortedMap<String, ChannelSnapshot> = SortedMap::new();

    // First valid generation: both renditions show the same range (101..=102).
    let valid = channel_with(&[("720p", &[101, 102]), ("1080p", &[101, 102])]);
    let first = refresh_snapshot(&mut snapshots, "live", &valid, window()).unwrap().clone();
    assert_eq!(first.media.len(), 2);
    assert!(snapshots.contains_key(&"live".to_owned()));

    // Mismatched state: the renditions show different live-window ranges.
    let invalid = channel_with(&[("720p", &[101, 102, 103]), ("1080p", &[101, 102])]);
    let returned = refresh_snapshot(&mut snapshots, "live", &invalid, window()).unwrap();

    // The failed validation leaves the previously served snapshot unchanged.
    assert_eq!(returned, &first);
    assert_eq!(snapshots.get(&"live".to_owned()).unwrap(), &first);
}

#[test]
fn refresh_surfaces_error_when_no_previous_snapshot_exists() {
    let mut snapshots: SortedMap<String, ChannelSnapshot> = SortedMap::new();
    let invalid = channel_with(&[("720p", &[101, 102, 103]), ("1080p", &[101, 102])]);
    assert!(refresh_snapshot(&mut snapshots, "live", &invalid, window()).is_err());
    assert!(!snapshots.contains_key(&"live".to_owned()));
}

#[test]
fn media_playlist_text_is_exact() {
    let rstate = rendition_state(&[100, 101, 102]);
    let playlist = generate_media_playlist("live", "720p", &rstate, window()).unwrap();
    assert_eq!(playlist.media_sequence, 101);
    assert_eq!(playlist.live_range(), Some((101, 102)));
    let m3u8 = render_media_m3u8(&playlist, "http://node//");
    assert_eq!(
        m3u8,
        "#EXTM3U\n#EXT-X-VERSION:3\n#EXT-X-TARGETDURATION:6\n#EXT-X-MEDIA-SEQUENCE:101\n\
         #EXTINF:6.0,\nhttp://node/segments/live/720p/101.ts\n\
         #EXTINF:6.0,\nhttp://node/segments/live/720p/102.ts\n"
    );
}

#[test]
fn media_playlist_with_gap_is_unprocessable() {
    let rstate = rendition_state(&[100, 102]);
    let wide = WindowConfig { window_size: 3, retention_window: 4 };
    let err = generate_media_playlist("live", "720p", &rstate, wide).unwrap_err();
    assert_eq!(
        err,
        EdamameError::Unprocessable(
            "live/720p live window has a gap before the live edge".to_owned()
        )
    );
    assert_eq!(err.status(), 422);
}

#[test]
fn empty_rendition_has_no_playlist() {
    let rstate = rendition_state(&[]);
    let err = generate_media_playlist("live", "720p", &rstate, window()).unwrap_err();
    assert_eq!(
        err,
        EdamameError::Unprocessable("live/720p has no committed segments".to_owned())
    );
}

#[test]
fn master_playlist_lists_renditions_in_order() {
    let mut cstate = channel_with(&[("720p", &[101, 102]), ("1080p", &[101, 102])]);
    let mut rs = rendition_state(&[101, 102]);
    rs.metadata = RenditionMetadata {
        bandwidth: Some(3_000_000),
        resolution: Some("1280x720".to_owned()),
    };
    cstate.renditions.insert("720p".to_owned(), rs);
    let snapshot = regenerate("live", &cstate, window()).unwrap();
    let master = render_master_m3u8(&snapshot.master);
    assert!(master.starts_with("#EXTM3U\n#EXT-X-VERSION:3\n"));
    assert!(master.contains("1080p.m3u8"));
    assert!(master.contains("BANDWIDTH=3000000,RESOLUTION=1280x720\n720p.m3u8\n"));
    let p1080 = master.find("1080p.m3u8").unwrap();
    let p720 = master.find("720p.m3u8\n").unwrap();
    assert!(p1080 < p720);
    assert!(snapshot.media_for("720p").is_some());
    assert!(snapshot.media_for("480p").is_none());
}

#[test]
fn channel_without_renditions_cannot_be_regenerated() {
    let cstate = ChannelState::default();
    let err: EdamameError = regenerate("live", &cstate, window()).unwrap_err();
    assert_eq!(err, EdamameError::NotFound("channel live has no renditions".to_owned()));
    assert_eq!(err.status(), 404);
}
