use weight_tracker::date::Date;
use weight_tracker::error::Error;
use weight_tracker::series::{AveragedSeries, Database, Measurement, RawSeries, WINDOW};

fn day(d: u8) -> Date {
    Date::new(2024, 1, d).unwrap()
}

fn series(weights: &[i64]) -> RawSeries {
    let dates = (0..weights.len()).map(|i| day(i as u8 + 1)).collect();
    RawSeries { dates, weights: weights.to_vec() }
}

#[test]
fn upsert_twice_keeps_one_record() {
    let mut db = Database::new();
    db.upsert(day(3), 80);
    db.upsert(day(3), 79);
    let raw = db.raw_series();
    assert_eq!(raw.dates, vec![day(3)]);
    assert_eq!(raw.weights, vec![79]);
}

#[test]
fn upsert_keeps_dates_ascending() {
    let mut db = Database::new();
    db.upsert(day(5), 50);
    db.upsert(day(1), 10);
    db.upsert(day(3), 30);
    db.upsert(Date::new(2023, 12, 31).unwrap(), 0);
    db.upsert(day(3), 33);
    let raw = db.raw_series();
    assert_eq!(raw.dates, vec![Date::new(2023, 12, 31).unwrap(), day(1), day(3), day(5)]);
    assert_eq!(raw.weights, vec![0, 10, 33, 50]);
}

#[test]
fn current_on_empty_store_is_not_found() {
    let db = Database::new();
    assert_eq!(db.current(), Err(Error::NotFound));
    assert_eq!(Error::NotFound.status(), 404);
}

#[test]
fn current_is_latest_date() {
    let mut db = Database::new();
    db.upsert(day(2), 20);
    db.upsert(day(9), 90);
    db.upsert(day(4), 40);
    assert_eq!(db.current(), Ok(Measurement { date: day(9), value: 90 }));
}

#[test]
fn empty_store_lists_nothing() {
    let raw = Database::new().raw_series();
    assert!(raw.dates.is_empty());
    assert!(raw.weights.is_empty());
}

#[test]
fn average_shorter_than_window_is_empty() {
    for n in 0..WINDOW {
        let avg = AveragedSeries::from(&series(&vec![70; n]));
        assert!(avg.dates.is_empty());
        assert!(avg.sums.is_empty());
    }
}

#[test]
fn average_of_exactly_one_window() {
    let avg = AveragedSeries::from(&series(&[1, 2, 3, 4, 5, 6, 7]));
    assert_eq!(avg.sums, vec![28]);
    assert_eq!(avg.dates, vec![day(7)]);
}

#[test]
fn average_length_is_n_minus_six() {
    for n in WINDOW..20 {
        let w: Vec<i64> = (0..n as i64).collect();
        let avg = AveragedSeries::from(&series(&w));
        assert_eq!(avg.sums.len(), n - 6);
        assert_eq!(avg.dates.len(), n - 6);
        assert_eq!(avg.sums[0], 21);
    }
}

#[test]
fn average_scenario_eight_days() {
    let raw = series(&[80, 79, 79, 78, 78, 77, 77, 76]);
    let avg = AveragedSeries::from(&raw);
    assert_eq!(avg.dates, vec![day(7), day(8)]);
    assert_eq!(avg.sums, vec![548, 544]);
    assert_eq!(avg.dates[0].to_text(), "2024-01-07");
    assert_eq!(avg.dates[1].to_text(), "2024-01-08");
    let means: Vec<f64> = avg.sums.iter().map(|s| *s as f64 / WINDOW as f64).collect();
    assert!((means[0] - 78.285714).abs() < 1e-6);
    assert!((means[1] - 77.714286).abs() < 1e-6);
}

#[test]
fn average_extreme_values_do_not_overflow() {
    let avg = AveragedSeries::from(&series(&[i64::MAX; 7]));
    assert_eq!(avg.sums, vec![i64::MAX as i128 * 7]);
    let avg = AveragedSeries::from(&series(&[i64::MIN; 8]));
    assert_eq!(avg.sums, vec![i64::MIN as i128 * 7, i64::MIN as i128 * 7]);
}
