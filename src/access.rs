//! The session-gated operations: every read or write of the series first
//! checks the caller's token, and touches nothing when the check fails.

use vstd::prelude::*;
use crate::credentials::{credential_ok, Credentials};
use crate::date::Date;
use crate::error::Error;
use crate::series::{averages, latest, lists, upserted, AveragedSeries, Database, Measurement, RawAndAveragedSeries};
use crate::token::{issued, session_check, Keys, Token};

verus! {

/// Logs `user` in with `secret`: a token when the credentials match;
/// `MissingCredentials` when a field is empty, before any lookup or hashing;
/// `WrongCredentials` otherwise.
pub fn login(credentials: &Credentials, keys: &Keys, user: &str, secret: &str) -> (r: Result<Token, Error>)
    ensures
        user@.len() == 0 || secret@.len() == 0 ==> r == Err::<Token, Error>(Error::MissingCredentials),
        user@.len() > 0 && secret@.len() > 0 && !credential_ok(credentials@, user@, secret@) ==> r == Err::<
            Token,
            Error,
        >(Error::WrongCredentials),
        user@.len() > 0 && secret@.len() > 0 && credential_ok(credentials@, user@, secret@) ==> (r matches Ok(t)
            && issued(keys, user@, t@)),
{
    if user.is_empty() || secret.is_empty() {
        return Err(Error::MissingCredentials);
    }
    if !credentials.verify(user, secret) {
        return Err(Error::WrongCredentials);
    }
    Token::new(user, keys)
}

/// The latest value, for a caller whose token checks out at `now`.
pub fn get_current(db: &Database, keys: &Keys, token: &str, now: u64) -> (r: Result<Measurement, Error>)
    requires
        db.wf(),
    ensures
        r == (match session_check(keys, token@, now) {
            Err(e) => Err(e),
            Ok(_) => latest(db@),
        }),
{
    match keys.verify(token, now) {
        Err(e) => Err(e),
        Ok(_) => db.current(),
    }
}

/// Records `value` under `today`, for a caller whose token checks out at
/// `now`; the store is left as it was when the check fails.
pub fn post_current(db: &mut Database, keys: &Keys, token: &str, now: u64, today: Date, value: i64) -> (r: Result<
    (),
    Error,
>)
    requires
        old(db).wf(),
        today.wf(),
    ensures
        match session_check(keys, token@, now) {
            Err(e) => r == Err::<(), Error>(e) && final(db)@ == old(db)@,
            Ok(_) => r == Ok::<(), Error>(()) && upserted(old(db)@, final(db)@, today, value),
        },
        final(db).wf(),
{
    match keys.verify(token, now) {
        Err(e) => Err(e),
        Ok(_) => {
            db.upsert(today, value);
            Ok(())
        },
    }
}

/// The whole series and its moving average, for a caller whose token checks
/// out at `now`.
pub fn get_series(db: &Database, keys: &Keys, token: &str, now: u64) -> (r: Result<RawAndAveragedSeries, Error>)
    requires
        db.wf(),
    ensures
        match session_check(keys, token@, now) {
            Err(e) => r matches Err(f) && f == e,
            Ok(_) => r matches Ok(s) && lists(db@, s.raw) && averages(s.raw, s.average),
        },
{
    match keys.verify(token, now) {
        Err(e) => Err(e),
        Ok(_) => {
            let raw = db.raw_series();
            let average = AveragedSeries::from(&raw);
            Ok(RawAndAveragedSeries { raw, average })
        },
    }
}

} // verus!
