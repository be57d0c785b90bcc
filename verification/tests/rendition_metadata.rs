//! Filename parsing, identifiers, extension keeping and rendition metadata
//! conflicts.

use edamame_alpha::domain::rendition::RenditionMetadata;
use edamame_alpha::domain::segment::{SegmentId, parse_filename, render_filename, validate_identifier};
use edamame_alpha::error::EdamameError;

#[test]
fn parses_sequence_and_extension() {
    assert_eq!(parse_filename("101.ts").unwrap(), (101, "ts".to_owned()));
    assert_eq!(parse_filename("102.m4s").unwrap(), (102, "m4s".to_owned()));
    assert_eq!(parse_filename("7.mp4").unwrap(), (7, "mp4".to_owned()));
}

#[test]
fn rejects_invalid_filenames() {
    assert!(parse_filename("noext").is_err());
    assert!(parse_filename("101.").is_err());
    assert!(parse_filename("abc.ts").is_err());
}

#[test]
fn renders_filename_from_sequence_and_extension() {
    assert_eq!(render_filename(101, "ts"), "101.ts");
}

#[test]
fn identity_uses_sequence_not_filename() {
    let id = SegmentId::new("live", "720p", 101).unwrap();
    assert_eq!(id.sequence, 101);
    assert_eq!(id.channel, "live");
    assert_eq!(id.rendition, "720p");
}

#[test]
fn rejects_identifiers_with_separators_or_empty() {
    assert!(validate_identifier("rendition", "").is_err());
    assert!(validate_identifier("rendition", "a/b").is_err());
    assert!(validate_identifier("channel", "live").is_ok());
    assert!(SegmentId::new("live", "bad/rendition", 1).is_err());
}

#[test]
fn detects_conflicting_metadata_and_merges_compatible() {
    let mut established = RenditionMetadata {
        bandwidth: Some(3_000_000),
        resolution: Some("1280x720".to_owned()),
    };

    // Identical metadata is compatible.
    assert!(established.merge(&established.clone()).is_ok());

    // A different bandwidth conflicts and is rejected.
    let conflicting = RenditionMetadata {
        bandwidth: Some(6_000_000),
        resolution: None,
    };
    assert!(established.merge(&conflicting).is_err());

    // Empty established fields take the incoming values.
    let mut fresh = RenditionMetadata::default();
    let incoming = RenditionMetadata {
        bandwidth: Some(6_000_000),
        resolution: None,
    };
    fresh.merge(&incoming).unwrap();
    assert_eq!(fresh.bandwidth, Some(6_000_000));
}

#[test]
fn filename_error_messages_name_the_fault() {
    assert_eq!(
        parse_filename("noext").unwrap_err(),
        EdamameError::BadRequest("filename must include an extension: noext".to_owned())
    );
    assert_eq!(
        parse_filename("101.").unwrap_err(),
        EdamameError::BadRequest("filename extension must not be empty: 101.".to_owned())
    );
    assert_eq!(
        parse_filename("abc.ts").unwrap_err(),
        EdamameError::BadRequest("filename sequence must be a number: abc.ts".to_owned())
    );
}

#[test]
fn filename_keeps_extension_after_last_dot() {
    assert_eq!(parse_filename("5.tar.gz").unwrap_err().status(), 400);
    assert_eq!(parse_filename("18446744073709551615.ts").unwrap(), (u64::MAX, "ts".to_owned()));
    assert!(parse_filename("18446744073709551616.ts").is_err());
    assert!(parse_filename("+7.ts").is_ok());
}

#[test]
fn rendered_filename_parses_back() {
    for (seq, ext) in [(0u64, "ts"), (101, "m4s"), (u64::MAX, "mp4")] {
        let name = render_filename(seq, ext);
        assert_eq!(parse_filename(&name).unwrap(), (seq, ext.to_owned()));
    }
}

#[test]
fn identifier_errors_name_the_kind() {
    assert_eq!(
        validate_identifier("rendition", "").unwrap_err(),
        EdamameError::BadRequest("rendition must not be empty".to_owned())
    );
    assert_eq!(
        validate_identifier("channel", "a\\b").unwrap_err(),
        EdamameError::BadRequest("channel must not contain path separators: a\\b".to_owned())
    );
}

#[test]
fn merge_fills_missing_resolution_and_rejects_other_resolution() {
    let mut m = RenditionMetadata { bandwidth: Some(1), resolution: None };
    m.merge(&RenditionMetadata { bandwidth: None, resolution: Some("640x360".to_owned()) }).unwrap();
    assert_eq!(m.resolution, Some("640x360".to_owned()));
    assert_eq!(m.bandwidth, Some(1));
    let err = m
        .merge(&RenditionMetadata { bandwidth: None, resolution: Some("1280x720".to_owned()) })
        .unwrap_err();
    assert_eq!(
        err,
        EdamameError::Conflict("rendition metadata conflicts with established values".to_owned())
    );
    assert_eq!(m.resolution, Some("640x360".to_owned()));
}
