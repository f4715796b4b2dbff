use base64::Engine;
use weight_tracker::claims::{claims_json_bytes, parse_claims};
use weight_tracker::error::Error;
use weight_tracker::token::{Keys, Token, EXPIRY, ISSUER};

fn keys() -> Keys {
    Keys::from_secret(b"a secret that only the server knows")
}

fn b64(b: &[u8]) -> String {
    base64::engine::general_purpose::URL_SAFE_NO_PAD.encode(b)
}

/// A token signed under `secret` over the given claims JSON.
fn hand_made(secret: &[u8], claims: &str) -> String {
    let body = format!("{}.{}", b64(br#"{"typ":"JWT","alg":"HS256"}"#), b64(claims.as_bytes()));
    let key = jsonwebtoken::EncodingKey::from_secret(secret);
    let sig = jsonwebtoken::crypto::sign(body.as_bytes(), &key, jsonwebtoken::Algorithm::HS256).unwrap();
    format!("{}.{}", body, sig)
}

#[test]
fn issue_then_verify_round_trips() {
    let k = keys();
    let t = Token::new("alice", &k).unwrap();
    assert_eq!(k.verify(t.as_str(), 1_700_000_000), Ok("alice".to_string()));
    assert_eq!(k.verify(t.as_str(), EXPIRY - 1), Ok("alice".to_string()));
}

#[test]
fn token_is_standard_jws() {
    let k = keys();
    let t = Token::new("alice", &k).unwrap();
    let parts: Vec<&str> = t.as_str().split('.').collect();
    assert_eq!(parts.len(), 3);
    assert_eq!(parts[0], "eyJ0eXAiOiJKV1QiLCJhbGciOiJIUzI1NiJ9");
    let payload = base64::engine::general_purpose::URL_SAFE_NO_PAD.decode(parts[1]).unwrap();
    assert_eq!(payload, br#"{"exp":2000000000,"iss":"foo.com","sub":"alice"}"#.to_vec());
    assert_eq!(t.as_str(), hand_made(b"a secret that only the server knows", r#"{"exp":2000000000,"iss":"foo.com","sub":"alice"}"#));
}

#[test]
fn odd_identifiers_round_trip() {
    let k = keys();
    for user in ["say \"hi\"", "back\\slash", "tab\there\n", "ünïcödé ✓", "", "a.b.c"] {
        let t = Token::new(user, &k).unwrap();
        assert_eq!(k.verify(t.as_str(), 0), Ok(user.to_string()));
    }
}

#[test]
fn expired_token_is_invalid() {
    let k = keys();
    let t = Token::new("alice", &k).unwrap();
    assert_eq!(k.verify(t.as_str(), EXPIRY), Err(Error::InvalidToken));
    assert_eq!(k.verify(t.as_str(), u64::MAX), Err(Error::InvalidToken));
}

#[test]
fn token_under_other_secret_is_invalid() {
    let t = Token::new("alice", &keys()).unwrap();
    let other = Keys::from_secret(b"another secret");
    assert_eq!(other.verify(t.as_str(), 0), Err(Error::InvalidToken));
    let fresh = Keys::generate();
    assert_eq!(fresh.verify(t.as_str(), 0), Err(Error::InvalidToken));
}

#[test]
fn tampered_payload_is_invalid() {
    let k = keys();
    let t = Token::new("alice", &k).unwrap();
    let parts: Vec<&str> = t.as_str().split('.').collect();
    let forged_payload = b64(br#"{"exp":2000000000,"iss":"foo.com","sub":"mallory"}"#);
    let forged = format!("{}.{}.{}", parts[0], forged_payload, parts[2]);
    assert_eq!(k.verify(&forged, 0), Err(Error::InvalidToken));
    let mut flipped = t.as_str().to_string();
    let last = flipped.pop().unwrap();
    flipped.push(if last == 'A' { 'B' } else { 'A' });
    assert_eq!(k.verify(&flipped, 0), Err(Error::InvalidToken));
}

#[test]
fn malformed_tokens_are_invalid() {
    let k = keys();
    for text in ["", "abc", "a.b", "a.b.c", "..", "é.é.é", "eyJ0eXAiOiJKV1QiLCJhbGciOiJIUzI1NiJ9.!!.x"] {
        assert_eq!(k.verify(text, 0), Err(Error::InvalidToken));
    }
}

#[test]
fn foreign_issuer_is_wrong_credentials() {
    let secret = b"a secret that only the server knows";
    let t = hand_made(secret, r#"{"exp":2000000000,"iss":"evil.org","sub":"alice"}"#);
    assert_eq!(keys().verify(&t, 0), Err(Error::WrongCredentials));
    let expired = hand_made(secret, r#"{"exp":5,"iss":"evil.org","sub":"alice"}"#);
    assert_eq!(keys().verify(&expired, 10), Err(Error::InvalidToken));
    let ok = hand_made(secret, r#"{"exp":5,"iss":"foo.com","sub":"bob"}"#);
    assert_eq!(keys().verify(&ok, 4), Ok("bob".to_string()));
    assert_eq!(ISSUER, "foo.com");
}

#[test]
fn other_json_spellings_are_refused() {
    let secret = b"a secret that only the server knows";
    let t = hand_made(secret, r#"{"exp": 2000000000,"iss":"foo.com","sub":"alice"}"#);
    assert_eq!(keys().verify(&t, 0), Err(Error::InvalidToken));
    let t = hand_made(secret, r#"{"exp":2000000000,"iss":"foo.com","sub":"\u0041"}"#);
    assert_eq!(keys().verify(&t, 0), Err(Error::InvalidToken));
}

#[test]
fn claims_json_escapes_and_parses_back() {
    let json = claims_json_bytes(42, b"i\"s", b"s\\u\x01b");
    assert_eq!(json, br#"{"exp":42,"iss":"i\"s","sub":"s\\u\u0001b"}"#.to_vec());
    let (exp, iss, sub) = parse_claims(&json).unwrap();
    assert_eq!(exp, 42);
    assert_eq!(iss, b"i\"s".to_vec());
    assert_eq!(sub, b"s\\u\x01b".to_vec());
    assert_eq!(claims_json_bytes(0, b"", b""), br#"{"exp":0,"iss":"","sub":""}"#.to_vec());
    let big = claims_json_bytes(u64::MAX, b"x", b"y");
    assert_eq!(parse_claims(&big).unwrap().0, u64::MAX);
    assert!(parse_claims(br#"{"exp":18446744073709551616,"iss":"x","sub":"y"}"#).is_none());
    assert!(parse_claims(br#"{"exp":1,"iss":"x","sub":"y"} "#).is_none());
    assert!(parse_claims(br#"{"exp":,"iss":"x","sub":"y"}"#).is_none());
}

#[test]
fn jsonwebtoken_accepts_issued_tokens() {
    let t = Token::new("alice", &keys()).unwrap();
    let key = jsonwebtoken::DecodingKey::from_secret(b"a secret that only the server knows");
    let decoded = jsonwebtoken::decode::<std::collections::HashMap<String, serde::de::IgnoredAny>>(
        t.as_str(),
        &key,
        &jsonwebtoken::Validation::default(),
    );
    assert!(decoded.is_ok());
    let wrong = jsonwebtoken::DecodingKey::from_secret(b"not it");
    let decoded = jsonwebtoken::decode::<std::collections::HashMap<String, serde::de::IgnoredAny>>(
        t.as_str(),
        &wrong,
        &jsonwebtoken::Validation::default(),
    );
    assert!(decoded.is_err());
}

#[test]
fn claims_json_uses_short_escapes() {
    let json = claims_json_bytes(1, b"a\nb\r", b"\t\x08\x0c\x1f");
    assert_eq!(json, br#"{"exp":1,"iss":"a\nb\r","sub":"\t\b\f\u001f"}"#.to_vec());
    let (_, iss, sub) = parse_claims(&json).unwrap();
    assert_eq!(iss, b"a\nb\r".to_vec());
    assert_eq!(sub, b"\t\x08\x0c\x1f".to_vec());
    let k = keys();
    let t = Token::new("line\nbreak", &k).unwrap();
    let t2 = hand_made(b"a secret that only the server knows", r#"{"exp":2000000000,"iss":"foo.com","sub":"line\nbreak"}"#);
    assert_eq!(t.as_str(), t2);
    assert_eq!(k.verify(&t2, 0), Ok("line\nbreak".to_string()));
}
