use rinha_fraud_rust::vectorizer::{clock_features, is_unknown_merchant, time_features, TimeFeatures};

#[test]
fn clock_of_a_utc_time() {
    // 2026-01-01 is a Thursday
    let f = time_features("2026-01-01T12:00:00Z", None);
    assert_eq!(f, TimeFeatures { hour: 12, day_of_week: 3, minutes_since_last: None });
}

#[test]
fn clock_is_read_in_utc() {
    let f = time_features("2026-01-04T23:30:00-03:00", None);
    // 2026-01-05T02:30:00Z, a Monday
    assert_eq!(f.hour, 2);
    assert_eq!(f.day_of_week, 0);
}

#[test]
fn minutes_since_the_last_transaction() {
    let f = time_features("2026-01-01T12:00:00Z", Some("2026-01-01T11:20:00Z"));
    assert_eq!(f.minutes_since_last, Some(40));
    let g = time_features("2026-01-02T12:00:30Z", Some("2026-01-01T12:00:00Z"));
    assert_eq!(g.minutes_since_last, Some(1440));
}

#[test]
fn a_later_last_transaction_counts_as_zero_minutes() {
    let f = time_features("2026-01-01T12:00:00Z", Some("2026-01-01T12:30:00Z"));
    assert_eq!(f.minutes_since_last, Some(0));
}

#[test]
fn unparsable_times() {
    let f = time_features("not a time", Some("2026-01-01T12:30:00Z"));
    assert_eq!(f, TimeFeatures { hour: 0, day_of_week: 0, minutes_since_last: Some(0) });
    let g = time_features("2026-01-01T12:00:00Z", Some("yesterday"));
    assert_eq!(g, TimeFeatures { hour: 12, day_of_week: 3, minutes_since_last: Some(0) });
}

#[test]
fn known_and_unknown_merchants() {
    let known = vec!["MERC-002".to_string(), "MERC-003".to_string()];
    assert!(is_unknown_merchant(&known, &"MERC-001".to_string()));
    assert!(!is_unknown_merchant(&known, &"MERC-003".to_string()));
    assert!(is_unknown_merchant(&Vec::new(), &"MERC-001".to_string()));
}

#[test]
fn clock_features_defaults() {
    assert_eq!(
        clock_features(Some((12, 3)), true, Some(-5)),
        TimeFeatures { hour: 12, day_of_week: 3, minutes_since_last: Some(0) }
    );
    assert_eq!(
        clock_features(Some((7, 6)), true, Some(95)),
        TimeFeatures { hour: 7, day_of_week: 6, minutes_since_last: Some(95) }
    );
    assert_eq!(
        clock_features(None, true, None),
        TimeFeatures { hour: 0, day_of_week: 0, minutes_since_last: Some(0) }
    );
    assert_eq!(
        clock_features(Some((1, 2)), false, Some(30)),
        TimeFeatures { hour: 1, day_of_week: 2, minutes_since_last: None }
    );
}
