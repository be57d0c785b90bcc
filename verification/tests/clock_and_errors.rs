//! The clock, error mapping and wire identities.

use edamame_alpha::clock::epoch_millis;
use edamame_alpha::domain::segment::{SegmentId, SegmentKey};
use edamame_alpha::error::EdamameError;
use edamame_alpha::now_ms;

#[test]
fn clock_reads_milliseconds_since_epoch() {
    let a = now_ms();
    // 2020-01-01T00:00:00Z in milliseconds.
    assert!(a > 1_577_836_800_000);
    let b = now_ms();
    assert!(b >= a);
}

#[test]
fn epoch_millis_saturates_and_defaults_to_zero() {
    assert_eq!(epoch_millis(Some(1_700_000_000_123)), 1_700_000_000_123);
    assert_eq!(epoch_millis(Some(u128::MAX)), u64::MAX);
    assert_eq!(epoch_millis(Some(u64::MAX as u128 + 1)), u64::MAX);
    assert_eq!(epoch_millis(None), 0);
}

#[test]
fn errors_map_to_documented_status_codes() {
    let cases = [
        (EdamameError::BadRequest("a".to_owned()), 400),
        (EdamameError::Conflict("b".to_owned()), 409),
        (EdamameError::NotFound("c".to_owned()), 404),
        (EdamameError::Unprocessable("d".to_owned()), 422),
        (EdamameError::Unavailable("e".to_owned()), 503),
        (EdamameError::BadGateway("f".to_owned()), 502),
        (EdamameError::Internal("g".to_owned()), 500),
    ];
    for (err, status) in cases {
        assert_eq!(err.status(), status);
    }
}

#[test]
fn error_text_is_message_then_status() {
    let err = EdamameError::Conflict("segment live/720p/101 already exists with different bytes".to_owned());
    assert_eq!(err.message(), "segment live/720p/101 already exists with different bytes");
    assert_eq!(err.describe(), "segment live/720p/101 already exists with different bytes (409)");
    assert_eq!(EdamameError::Internal(String::new()).describe(), " (500)");
}

#[test]
fn wire_keys_convert_to_identities() {
    let id = SegmentId::new("live", "720p", 101).unwrap();
    let key = SegmentKey::from(&id);
    assert_eq!(
        key,
        SegmentKey { channel_id: "live".to_owned(), rendition: "720p".to_owned(), sequence: 101 }
    );
    assert_eq!(key.into_id().unwrap(), id);
    let bad = SegmentKey { channel_id: "".to_owned(), rendition: "720p".to_owned(), sequence: 1 };
    assert_eq!(bad.into_id().unwrap_err(), EdamameError::BadRequest("channel must not be empty".to_owned()));
}
