use weight_tracker::date::Date;

#[test]
fn date_text_round_trip() {
    let d = Date::new(2024, 1, 7).unwrap();
    assert_eq!(d.to_text(), "2024-01-07");
    assert_eq!(Date::parse("2024-01-07"), Some(d));
}

#[test]
fn date_leap_days() {
    assert!(Date::new(2024, 2, 29).is_some());
    assert!(Date::new(2023, 2, 29).is_none());
    assert!(Date::new(1900, 2, 29).is_none());
    assert!(Date::new(2000, 2, 29).is_some());
    assert!(Date::new(2024, 4, 31).is_none());
    assert!(Date::new(2024, 13, 1).is_none());
    assert!(Date::new(2024, 0, 1).is_none());
    assert!(Date::new(10000, 1, 1).is_none());
}

#[test]
fn date_parse_rejects_malformed() {
    assert_eq!(Date::parse("2023-02-29"), None);
    assert_eq!(Date::parse("2024-1-07"), None);
    assert_eq!(Date::parse("2024/01/07"), None);
    assert_eq!(Date::parse("2024-01-07 "), None);
    assert_eq!(Date::parse("２024-01-07"), None);
    assert_eq!(Date::parse(""), None);
    assert_eq!(Date::parse("0000-01-01"), Date::new(0, 1, 1));
}

#[test]
fn date_sort_key_follows_calendar() {
    let a = Date::new(2023, 12, 31).unwrap();
    let b = Date::new(2024, 1, 1).unwrap();
    let c = Date::new(2024, 1, 2).unwrap();
    assert!(a.sort_key() < b.sort_key());
    assert!(b.sort_key() < c.sort_key());
    assert_eq!(b.sort_key(), 20240101);
}
