//! ISO 8601 ↔ Apple-epoch conversions.

use plutil_rs::xplist::date::{apple_epoch_to_iso8601, iso8601_to_apple_epoch};

#[test]
fn apple_epoch_roundtrip() {
    // 0.0 Apple epoch = 2001-01-01T00:00:00Z
    assert_eq!(apple_epoch_to_iso8601(0.0f64.to_bits()), "2001-01-01T00:00:00Z");
    assert_eq!(f64::from_bits(iso8601_to_apple_epoch("2001-01-01T00:00:00Z").unwrap()), 0.0);
}

#[test]
fn known_dates() {
    // 2024-07-04T12:00:00Z  →  Apple epoch = ?
    let apple = iso8601_to_apple_epoch("2024-07-04T12:00:00Z").unwrap();
    let back = apple_epoch_to_iso8601(apple);
    assert_eq!(back, "2024-07-04T12:00:00Z");
}

#[test]
fn negative_apple_epoch() {
    // Dates before 2001 have negative Apple-epoch values.
    let apple = iso8601_to_apple_epoch("2000-01-01T00:00:00Z").unwrap();
    assert!(f64::from_bits(apple) < 0.0);
    let back = apple_epoch_to_iso8601(apple);
    assert_eq!(back, "2000-01-01T00:00:00Z");
}

#[test]
fn invalid_date_string() {
    assert!(iso8601_to_apple_epoch("not-a-date").is_err());
    assert!(iso8601_to_apple_epoch("").is_err());
}
