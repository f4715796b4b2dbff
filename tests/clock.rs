use weight_tracker::clock::{date_from_clock, now_seconds, seconds_from_unix, today};
use weight_tracker::date::Date;
use weight_tracker::error::Error;

#[test]
fn clock_gives_a_real_date() {
    let d = today().unwrap();
    assert!(d.year >= 2020);
    assert!(now_seconds() > 1_600_000_000);
    assert_eq!(d.to_text().len(), 10);
}

#[test]
fn clock_readings_convert() {
    assert_eq!(seconds_from_unix(-5), 0);
    assert_eq!(seconds_from_unix(0), 0);
    assert_eq!(seconds_from_unix(1_700_000_000), 1_700_000_000);
    assert_eq!(date_from_clock(2024, 2, 29), Ok(Date::new(2024, 2, 29).unwrap()));
    assert_eq!(date_from_clock(2023, 2, 29), Err(Error::TimeFormat));
    assert_eq!(date_from_clock(-1, 1, 1), Err(Error::TimeFormat));
    assert_eq!(date_from_clock(10000, 1, 1), Err(Error::TimeFormat));
    assert_eq!(date_from_clock(0, 1, 1), Ok(Date::new(0, 1, 1).unwrap()));
}
