use weight_tracker::access::{get_current, get_series, login, post_current};
use weight_tracker::credentials::{hash_secret, Credentials};
use weight_tracker::date::Date;
use weight_tracker::error::Error;
use weight_tracker::series::{Database, Measurement};
use weight_tracker::token::{Keys, Token};

fn keys() -> Keys {
    Keys::from_secret(b"gate test secret")
}

#[test]
fn login_with_empty_secret_is_missing_credentials() {
    let store = Credentials::new();
    let r = login(&store, &keys(), "alice", "");
    assert!(matches!(r, Err(Error::MissingCredentials)));
    let r = login(&store, &keys(), "", "secret");
    assert!(matches!(r, Err(Error::MissingCredentials)));
    assert_eq!(Error::MissingCredentials.status(), 400);
}

#[test]
fn login_checks_credentials() {
    let mut store = Credentials::new();
    store.insert_hash("alice", &hash_secret("pw").unwrap());
    let k = keys();
    assert!(matches!(login(&store, &k, "alice", "nope"), Err(Error::WrongCredentials)));
    let t = login(&store, &k, "alice", "pw").unwrap();
    assert_eq!(k.verify(t.as_str(), 0), Ok("alice".to_string()));
}

#[test]
fn gated_reads_need_a_valid_token() {
    let db = Database::new();
    let k = keys();
    assert_eq!(get_current(&db, &k, "garbage", 0), Err(Error::InvalidToken));
    assert!(matches!(get_series(&db, &k, "garbage", 0), Err(Error::InvalidToken)));
    let t = Token::new("alice", &k).unwrap();
    assert_eq!(get_current(&db, &k, t.as_str(), 0), Err(Error::NotFound));
    assert_eq!(Error::InvalidToken.status(), 401);
}

#[test]
fn gated_write_leaves_store_alone_on_bad_token() {
    let mut db = Database::new();
    let k = keys();
    let today = Date::new(2024, 3, 1).unwrap();
    assert_eq!(post_current(&mut db, &k, "garbage", 0, today, 80), Err(Error::InvalidToken));
    assert!(db.raw_series().dates.is_empty());
    let foreign = Token::new("alice", &Keys::from_secret(b"other")).unwrap();
    assert_eq!(post_current(&mut db, &k, foreign.as_str(), 0, today, 80), Err(Error::InvalidToken));
    assert_eq!(db.current(), Err(Error::NotFound));
}

#[test]
fn gated_write_then_read() {
    let mut db = Database::new();
    let k = keys();
    let t = Token::new("alice", &k).unwrap();
    let today = Date::new(2024, 3, 1).unwrap();
    assert_eq!(post_current(&mut db, &k, t.as_str(), 0, today, 80), Ok(()));
    assert_eq!(post_current(&mut db, &k, t.as_str(), 0, today, 81), Ok(()));
    assert_eq!(get_current(&db, &k, t.as_str(), 0), Ok(Measurement { date: today, value: 81 }));
    let s = get_series(&db, &k, t.as_str(), 0).unwrap();
    assert_eq!(s.raw.weights, vec![81]);
    assert!(s.average.sums.is_empty());
}

#[test]
fn series_through_gate_has_average() {
    let mut db = Database::new();
    let k = keys();
    let t = Token::new("alice", &k).unwrap();
    for (i, w) in [80, 79, 79, 78, 78, 77, 77, 76].iter().enumerate() {
        let d = Date::new(2024, 1, i as u8 + 1).unwrap();
        post_current(&mut db, &k, t.as_str(), 0, d, *w).unwrap();
    }
    let s = get_series(&db, &k, t.as_str(), 0).unwrap();
    assert_eq!(s.raw.weights.len(), 8);
    assert_eq!(s.average.sums, vec![548, 544]);
    assert_eq!(s.average.dates[0], Date::new(2024, 1, 7).unwrap());
}

#[test]
fn expired_session_is_refused() {
    let db = Database::new();
    let k = keys();
    let t = Token::new("alice", &k).unwrap();
    assert_eq!(get_current(&db, &k, t.as_str(), 2_000_000_000), Err(Error::InvalidToken));
}
