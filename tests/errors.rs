use weight_tracker::error::{Error, UNAUTHORIZED_TEXT};

#[test]
fn error_statuses() {
    assert_eq!(Error::MissingCredentials.status(), 400);
    assert_eq!(Error::WrongCredentials.status(), 401);
    assert_eq!(Error::InvalidToken.status(), 401);
    assert_eq!(Error::NotFound.status(), 404);
    assert_eq!(Error::Database.status(), 500);
    assert_eq!(Error::TaskJoin.status(), 500);
    assert_eq!(Error::TimeFormat.status(), 500);
    assert_eq!(Error::TokenGeneration.status(), 500);
}

#[test]
fn error_texts_tell_only_the_status() {
    assert_eq!(Error::WrongCredentials.message(), Error::InvalidToken.message());
    assert_eq!(Error::InvalidToken.message(), UNAUTHORIZED_TEXT);
    assert_eq!(Error::MissingCredentials.message(), "Bad request");
    assert_eq!(Error::NotFound.message(), "Not found");
    assert_eq!(Error::Database.message(), "Internal server error");
    assert_eq!(Error::TaskJoin.message(), Error::TimeFormat.message());
}
