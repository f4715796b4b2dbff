//! Session tokens: signed, time-bounded claims in the compact JWS form
//! `header.payload.signature`, each part base64url-encoded without padding,
//! signed with HMAC-SHA256 under a server-held secret.

use vstd::prelude::*;
use vstd::string::StringSliceAdditionalSpecFns;
use vstd::utf8::{encode_utf8, is_ascii_chars};
use base64::Engine;
use vstd::utf8::{decode_utf8, valid_utf8};
use crate::claims::{claims_json, claims_json_bytes, lemma_parse_claims_json, parse_claims};
use crate::error::Error;
use crate::text::{ascii_bytes, string_from_utf8};

verus! {

/// The issuer tag that this server writes into its tokens and asks of them.
pub const ISSUER: &'static str = "foo.com";

/// The expiration instant, in seconds since the Unix epoch, of the tokens
/// that this server issues.
pub const EXPIRY: u64 = 2_000_000_000;

/// `{"typ":"JWT","alg":"HS256"}`: the header of every token.
pub const HEADER_JSON: [u8; 27] = [
    123u8, 34, 116, 121, 112, 34, 58, 34, 74, 87, 84, 34, 44, 34, 97, 108, 103, 34, 58, 34, 72, 83, 50, 53, 54, 34, 125,
];

pub open spec fn is_b64url_char(c: char) -> bool {
    ('A' <= c <= 'Z') || ('a' <= c <= 'z') || ('0' <= c <= '9') || c == '-' || c == '_'
}

pub open spec fn is_b64url_text(t: Seq<char>) -> bool {
    forall|i: int| 0 <= i < t.len() ==> is_b64url_char(#[trigger] t[i])
}

/// The unpadded base64url text of some bytes.
pub uninterp spec fn b64url_encoded(b: Seq<u8>) -> Seq<char>;

/// The bytes that an unpadded base64url text stands for, if it is one.
pub uninterp spec fn b64url_decoded(t: Seq<char>) -> Option<Seq<u8>>;

/// The base64url text of the HMAC-SHA256 of `message` under `secret`.
pub uninterp spec fn hs256_signature(secret: Seq<u8>, message: Seq<u8>) -> Seq<char>;

/// Relies on base64's `URL_SAFE_NO_PAD.encode`: the text depends on the
/// bytes alone, holds only the URL-safe alphabet (no padding), and
/// `URL_SAFE_NO_PAD.decode` gives the bytes back from it.
#[verifier::external_body]
fn b64url_encode(b: &[u8]) -> (r: String)
    ensures
        r@ == b64url_encoded(b@),
        is_b64url_text(r@),
        b64url_decoded(r@) == Some(b@),
{
    base64::engine::general_purpose::URL_SAFE_NO_PAD.encode(b)
}

/// Relies on base64's `URL_SAFE_NO_PAD.decode`: the result depends on the
/// text alone; an error where it is no unpadded base64url text.
#[verifier::external_body]
fn b64url_decode(t: &str) -> (r: Option<Vec<u8>>)
    ensures
        match r {
            Some(v) => b64url_decoded(t@) == Some(v@),
            None => b64url_decoded(t@) is None,
        },
{
    base64::engine::general_purpose::URL_SAFE_NO_PAD.decode(t).ok()
}

/// Relies on jsonwebtoken's `crypto::sign` with `Algorithm::HS256` and a key
/// from `EncodingKey::from_secret`: the HMAC-SHA256 of the message, encoded
/// as unpadded base64url. For the HMAC algorithms the source always returns
/// `Ok`.
#[verifier::external_body]
fn hs256_sign(secret: &[u8], message: &[u8]) -> (r: Option<String>)
    ensures
        r is Some,
        r matches Some(s) ==> s@ == hs256_signature(secret@, message@),
        r matches Some(s) ==> is_b64url_text(s@),
{
    let key = jsonwebtoken::EncodingKey::from_secret(secret);
    jsonwebtoken::crypto::sign(message, &key, jsonwebtoken::Algorithm::HS256).ok()
}

/// Relies on jsonwebtoken's `crypto::verify` with `Algorithm::HS256` and a
/// key from `DecodingKey::from_secret`: for the HMAC algorithms it signs the
/// message again and compares the two texts in constant time, and never
/// fails.
#[verifier::external_body]
fn hs256_check(signature: &str, secret: &[u8], message: &[u8]) -> (r: bool)
    ensures
        r == (signature@ == hs256_signature(secret@, message@)),
        r ==> is_b64url_text(signature@),
{
    let key = jsonwebtoken::DecodingKey::from_secret(secret);
    jsonwebtoken::crypto::verify(signature, message, &key, jsonwebtoken::Algorithm::HS256).unwrap_or(false)
}

/// Relies on `rand_core::OsRng::fill_bytes`: the buffer is overwritten with
/// bytes from the operating system's random source.
#[verifier::external_body]
fn fill_random(buf: &mut Vec<u8>)
    ensures
        final(buf)@.len() == old(buf)@.len(),
{
    rand_core::RngCore::fill_bytes(&mut rand_core::OsRng, buf.as_mut_slice())
}

/// The first part of every token.
pub open spec fn header_part() -> Seq<char> {
    b64url_encoded(HEADER_JSON@)
}

/// The second part of a token: its claims.
pub open spec fn payload_part(exp: u64, iss: Seq<char>, sub: Seq<char>) -> Seq<char> {
    b64url_encoded(claims_json(exp, encode_utf8(iss), encode_utf8(sub)))
}

/// What the signature covers: the first two parts.
pub open spec fn signed_part(exp: u64, iss: Seq<char>, sub: Seq<char>) -> Seq<char> {
    header_part() + seq!['.'] + payload_part(exp, iss, sub)
}

/// The token that carries these claims, signed under `secret`.
pub open spec fn token_text(secret: Seq<u8>, exp: u64, iss: Seq<char>, sub: Seq<char>) -> Seq<char> {
    signed_part(exp, iss, sub) + seq!['.'] + hs256_signature(secret, ascii_bytes(signed_part(exp, iss, sub)))
}

/// What verification at `now` makes of a genuine token with these claims:
/// expired is invalid; a foreign issuer is a wrong credential; otherwise
/// the subject.
pub open spec fn verdict(exp: u64, iss: Seq<char>, sub: Seq<char>, now: u64) -> Result<Seq<char>, Error> {
    if exp <= now {
        Err(Error::InvalidToken)
    } else if iss != ISSUER@ {
        Err(Error::WrongCredentials)
    } else {
        Ok(sub)
    }
}

pub open spec fn result_view(r: Result<String, Error>) -> Result<Seq<char>, Error> {
    match r {
        Ok(s) => Ok(s@),
        Err(e) => Err(e),
    }
}

proof fn lemma_b64_ascii(t: Seq<char>)
    requires
        is_b64url_text(t),
    ensures
        is_ascii_chars(t),
        forall|i: int| 0 <= i < t.len() ==> #[trigger] t[i] != '.',
{
}

/// The bytes of ASCII text are its characters' bytes.
proof fn lemma_ascii_encode(s: Seq<char>)
    requires
        is_ascii_chars(s),
    ensures
        encode_utf8(s) == ascii_bytes(s),
{
    vstd::utf8::is_ascii_chars_encode_utf8(s);
    assert(encode_utf8(s) =~= ascii_bytes(s));
}

/// What the encoders promise of the parts of a token with these claims:
/// each part is base64url text, and the payload decodes to the claims.
pub open spec fn genuine(secret: Seq<u8>, exp: u64, iss: Seq<char>, sub: Seq<char>) -> bool {
    &&& is_b64url_text(header_part())
    &&& is_b64url_text(payload_part(exp, iss, sub))
    &&& b64url_decoded(payload_part(exp, iss, sub)) == Some(claims_json(exp, encode_utf8(iss), encode_utf8(sub)))
    &&& is_b64url_text(hs256_signature(secret, ascii_bytes(signed_part(exp, iss, sub))))
}

pub open spec fn no_dot(t: Seq<char>) -> bool {
    forall|i: int| 0 <= i < t.len() ==> #[trigger] t[i] != '.'
}

/// A text of two dot-free parts and a third, joined by dots, splits at its
/// first two dots into them.
proof fn lemma_split(t: Seq<char>, h: Seq<char>, p: Seq<char>, s: Seq<char>)
    requires
        t == h + seq!['.'] + p + seq!['.'] + s,
        no_dot(h),
        no_dot(p),
    ensures
        t[h.len() as int] == '.',
        forall|k: int| 0 <= k < h.len() ==> #[trigger] t[k] != '.',
        t[h.len() as int + 1 + p.len()] == '.',
        forall|k: int| h.len() < k < h.len() as int + 1 + p.len() ==> #[trigger] t[k] != '.',
        t.subrange(0, h.len() as int) == h,
        t.subrange(h.len() as int + 1, h.len() as int + 1 + p.len()) == p,
        t.subrange(0, h.len() as int + 1 + p.len()) == h + seq!['.'] + p,
        t.subrange(h.len() as int + 1 + p.len() + 1, t.len() as int) == s,
{
    assert forall|k: int| 0 <= k < h.len() implies #[trigger] t[k] != '.' by {
        assert(t[k] == h[k]);
    }
    assert forall|k: int| h.len() < k < h.len() as int + 1 + p.len() implies #[trigger] t[k] != '.' by {
        assert(t[k] == p[k - h.len() - 1]);
    }
    assert(t.subrange(0, h.len() as int) =~= h);
    assert(t.subrange(h.len() as int + 1, h.len() as int + 1 + p.len()) =~= p);
    assert(t.subrange(0, h.len() as int + 1 + p.len()) =~= h + seq!['.'] + p);
    assert(t.subrange(h.len() as int + 1 + p.len() + 1, t.len() as int) =~= s);
}

/// The facts about a genuine token that reading it back rests on.
pub open spec fn token_facts(secret: Seq<u8>, exp: u64, iss: Seq<char>, sub: Seq<char>) -> bool {
    {
        let t = token_text(secret, exp, iss, sub);
        let h = header_part();
        let p = payload_part(exp, iss, sub);
        &&& is_ascii_chars(t)
        &&& t[h.len() as int] == '.'
        &&& (forall|k: int| 0 <= k < h.len() ==> #[trigger] t[k] != '.')
        &&& t[h.len() as int + 1 + p.len()] == '.'
        &&& (forall|k: int| h.len() < k < h.len() as int + 1 + p.len() ==> #[trigger] t[k] != '.')
        &&& t.subrange(0, h.len() as int) == h
        &&& t.subrange(h.len() as int + 1, h.len() as int + 1 + p.len()) == p
        &&& t.subrange(0, h.len() as int + 1 + p.len()) == signed_part(exp, iss, sub)
        &&& t.subrange(h.len() as int + 1 + p.len() + 1, t.len() as int) == hs256_signature(
            secret,
            ascii_bytes(signed_part(exp, iss, sub)),
        )
    }
}

proof fn lemma_genuine_token(secret: Seq<u8>, exp: u64, iss: Seq<char>, sub: Seq<char>)
    requires
        genuine(secret, exp, iss, sub),
    ensures
        token_facts(secret, exp, iss, sub),
{
    let t = token_text(secret, exp, iss, sub);
    let h = header_part();
    let p = payload_part(exp, iss, sub);
    let s = hs256_signature(secret, ascii_bytes(signed_part(exp, iss, sub)));
    lemma_b64_ascii(h);
    lemma_b64_ascii(p);
    lemma_b64_ascii(s);
    assert(t =~= h + seq!['.'] + p + seq!['.'] + s);
    lemma_split(t, h, p, s);
    assert forall|k: int| 0 <= k < t.len() implies '\0' <= #[trigger] t[k] <= '\u{7f}' by {
        if k < h.len() {
            assert(t[k] == h[k]);
        } else if k == h.len() {
        } else if k < h.len() as int + 1 + p.len() {
            assert(t[k] == p[k - h.len() - 1]);
        } else if k == h.len() as int + 1 + p.len() {
        } else {
            assert(t[k] == s[k - h.len() - 2 - p.len()]);
        }
    }
}

/// What every genuine token that a text is under some keys satisfies.
proof fn lemma_carried(keys: &Keys, text: Seq<char>)
    ensures
        forall|e: u64, i: Seq<char>, s: Seq<char>| #[trigger] keys.carries(text, e, i, s) ==> token_facts(
            keys.secret(),
            e,
            i,
            s,
        ),
{
    assert forall|e: u64, i: Seq<char>, s: Seq<char>| #[trigger] keys.carries(text, e, i, s) implies token_facts(
        keys.secret(),
        e,
        i,
        s,
    ) by {
        lemma_genuine_token(keys.secret(), e, i, s);
    }
}

/// The claims that a payload part holds in the fixed form: whenever the
/// part decodes to the JSON of some claims, those claims.
fn claims_of(p: &str) -> (r: Option<(u64, String, String)>)
    ensures
        forall|e: u64, i: Seq<char>, s: Seq<char>|
            b64url_decoded(p@) == Some(#[trigger] claims_json(e, encode_utf8(i), encode_utf8(s))) ==> (r matches Some(
                (e2, i2, s2),
            ) && e2 == e && i2@ == i && s2@ == s),
{
    let bytes = match b64url_decode(p) {
        Some(v) => v,
        None => {
            return None;
        },
    };
    let (exp, ib, sb) = match parse_claims(bytes.as_slice()) {
        Some(x) => x,
        None => {
            proof {
                assert forall|e: u64, i: Seq<char>, s: Seq<char>|
                    b64url_decoded(p@) != Some(#[trigger] claims_json(e, encode_utf8(i), encode_utf8(s))) by {
                    lemma_parse_claims_json(e, encode_utf8(i), encode_utf8(s));
                }
            }
            return None;
        },
    };
    proof {
        assert forall|e: u64, i: Seq<char>, s: Seq<char>|
            b64url_decoded(p@) == Some(#[trigger] claims_json(e, encode_utf8(i), encode_utf8(s))) implies e == exp
            && ib@ == encode_utf8(i) && sb@ == encode_utf8(s) by {
            lemma_parse_claims_json(e, encode_utf8(i), encode_utf8(s));
        }
    }
    let iss = match string_from_utf8(ib) {
        Some(x) => x,
        None => {
            proof {
                assert forall|e: u64, i: Seq<char>, s: Seq<char>|
                    b64url_decoded(p@) != Some(#[trigger] claims_json(e, encode_utf8(i), encode_utf8(s))) by {
                    lemma_parse_claims_json(e, encode_utf8(i), encode_utf8(s));
                    vstd::utf8::encode_utf8_valid_utf8(i);
                }
            }
            return None;
        },
    };
    let sub = match string_from_utf8(sb) {
        Some(x) => x,
        None => {
            proof {
                assert forall|e: u64, i: Seq<char>, s: Seq<char>|
                    b64url_decoded(p@) != Some(#[trigger] claims_json(e, encode_utf8(i), encode_utf8(s))) by {
                    lemma_parse_claims_json(e, encode_utf8(i), encode_utf8(s));
                    vstd::utf8::encode_utf8_valid_utf8(s);
                }
            }
            return None;
        },
    };
    proof {
        assert forall|e: u64, i: Seq<char>, s: Seq<char>|
            b64url_decoded(p@) == Some(#[trigger] claims_json(e, encode_utf8(i), encode_utf8(s))) implies iss@ == i
            && sub@ == s by {
            lemma_parse_claims_json(e, encode_utf8(i), encode_utf8(s));
            vstd::utf8::encode_utf8_decode_utf8(i);
            vstd::utf8::encode_utf8_decode_utf8(s);
        }
    }
    Some((exp, iss, sub))
}

/// The first dot at or after `from`.
fn find_dot(text: &str, b: &[u8], from: usize) -> (r: Option<usize>)
    requires
        is_ascii_chars(text@),
        b@ == ascii_bytes(text@),
        from <= b@.len(),
    ensures
        match r {
            Some(d) => from <= d < text@.len() && text@[d as int] == '.' && forall|k: int|
                from <= k < d ==> #[trigger] text@[k] != '.',
            None => forall|k: int| from <= k < text@.len() ==> #[trigger] text@[k] != '.',
        },
{
    let n = b.len();
    let mut i: usize = from;
    while i < n
        invariant
            n == b@.len(),
            n == text@.len(),
            b@ == ascii_bytes(text@),
            is_ascii_chars(text@),
            from <= i <= n,
            forall|k: int| from <= k < i ==> #[trigger] text@[k] != '.',
        decreases n - i,
    {
        proof {
            crate::text::lemma_ascii_char_byte(text@[i as int]);
        }
        if b[i] == 46 {
            return Some(i);
        }
        i = i + 1;
    }
    None
}

fn same_text(a: &str, b: &str) -> (r: bool)
    ensures
        r == (a@ == b@),
{
    String::from_str(a) == String::from_str(b)
}

/// The secret under which tokens are signed and checked.
pub struct Keys {
    secret: Vec<u8>,
}

/// A session token: the signed text that a client hands back.
pub struct Token(String);

impl View for Token {
    type V = Seq<char>;

    closed spec fn view(&self) -> Seq<char> {
        self.0@
    }
}

impl Keys {
    pub closed spec fn secret(&self) -> Seq<u8> {
        self.secret@
    }

    /// Whether `text` is the token with these claims under these keys, as
    /// the encoders make it.
    pub open spec fn carries(&self, text: Seq<char>, exp: u64, iss: Seq<char>, sub: Seq<char>) -> bool {
        token_text(self.secret(), exp, iss, sub) == text && genuine(self.secret(), exp, iss, sub)
    }

    /// Where the two dots of a token stand, once its header is checked.
    #[verifier::rlimit(40)]
    fn locate_parts(&self, text: &str) -> (r: Option<(usize, usize)>)
        ensures
            match r {
                Some((d1, d2)) => {
                    &&& is_ascii_chars(text@)
                    &&& d1 < d2 < text@.len()
                    &&& text@[d1 as int] == '.'
                    &&& text@[d2 as int] == '.'
                    &&& text@.subrange(0, d1 as int) == header_part()
                    &&& is_b64url_text(header_part())
                    &&& forall|e: u64, i: Seq<char>, s: Seq<char>| #[trigger] self.carries(text@, e, i, s) ==> d1
                        == header_part().len() && d2 == header_part().len() as int + 1 + payload_part(e, i, s).len()
                },
                None => forall|e: u64, i: Seq<char>, s: Seq<char>| !#[trigger] self.carries(text@, e, i, s),
            },
    {
        proof {
            lemma_carried(self, text@);
        }
        let header = b64url_encode(HEADER_JSON.as_slice());
        if !text.is_ascii() {
            return None;
        }
        let b = text.as_bytes();
        let n = b.len();
        proof {
            vstd::string::is_ascii_spec_bytes(text);
            assert(b@ =~= ascii_bytes(text@));
        }
        let d1 = match find_dot(text, b, 0) {
            Some(d) => d,
            None => {
                return None;
            },
        };
        proof {
            assert forall|e: u64, i: Seq<char>, s: Seq<char>| #[trigger] self.carries(text@, e, i, s) implies d1
                == header_part().len() by {
                lemma_genuine_token(self.secret(), e, i, s);
                if d1 < header_part().len() {
                } else if d1 > header_part().len() {
                    assert(text@[header_part().len() as int] == '.');
                }
            }
        }
        let d2 = match find_dot(text, b, d1 + 1) {
            Some(d) => d,
            None => {
                proof {
                    assert forall|e: u64, i: Seq<char>, s: Seq<char>| !#[trigger] self.carries(text@, e, i, s) by {
                        if self.carries(text@, e, i, s) {
                            lemma_genuine_token(self.secret(), e, i, s);
                            let k = header_part().len() as int + 1 + payload_part(e, i, s).len();
                            assert(text@[k] == '.');
                        }
                    }
                }
                return None;
            },
        };
        proof {
            assert forall|e: u64, i: Seq<char>, s: Seq<char>| #[trigger] self.carries(text@, e, i, s) implies d2
                == header_part().len() as int + 1 + payload_part(e, i, s).len() by {
                lemma_genuine_token(self.secret(), e, i, s);
                let k = header_part().len() as int + 1 + payload_part(e, i, s).len();
                if d2 < k {
                } else if d2 > k {
                    assert(text@[k] == '.');
                }
            }
        }
        let h = text.substring_ascii(0, d1);
        if !same_text(h, header.as_str()) {
            return None;
        }
        Some((d1, d2))
    }

    /// The claims that a token signed under these keys carries.
    #[verifier::rlimit(100)]
    fn read_token(&self, text: &str) -> (r: Option<(u64, String, String)>)
        ensures
            match r {
                Some((exp, iss, sub)) => self.carries(text@, exp, iss@, sub@) && forall|e: u64, i: Seq<char>, s: Seq<char>|
                    #[trigger] self.carries(text@, e, i, s) ==> e == exp && i == iss@ && s == sub@,
                None => forall|e: u64, i: Seq<char>, s: Seq<char>| !#[trigger] self.carries(text@, e, i, s),
            },
    {
        let (d1, d2) = match self.locate_parts(text) {
            Some(x) => x,
            None => {
                return None;
            },
        };
        let n = text.as_bytes().len();
        proof {
            vstd::string::is_ascii_spec_bytes(text);
        }
        let h = text.substring_ascii(0, d1);
        let p = text.substring_ascii(d1 + 1, d2);
        let signed = text.substring_ascii(0, d2);
        let sig = text.substring_ascii(d2 + 1, n);
        proof {
            assert forall|e: u64, i: Seq<char>, s: Seq<char>| #[trigger] self.carries(text@, e, i, s) implies {
                &&& p@ == payload_part(e, i, s)
                &&& signed@ == signed_part(e, i, s)
                &&& sig@ == hs256_signature(self.secret(), ascii_bytes(signed_part(e, i, s)))
            } by {
                lemma_genuine_token(self.secret(), e, i, s);
            }
        }
        let (exp, iss, sub) = match claims_of(p) {
            Some(x) => x,
            None => {
                return None;
            },
        };
        let json = claims_json_bytes(exp, iss.as_str().as_bytes(), sub.as_str().as_bytes());
        let again = b64url_encode(json.as_slice());
        if !same_text(p, again.as_str()) {
            return None;
        }
        proof {
            vstd::string::is_ascii_spec_bytes(signed);
            assert(signed.spec_bytes() =~= ascii_bytes(signed@));
            assert(signed@ =~= h@ + seq!['.'] + p@);
        }
        if !hs256_check(sig, self.secret.as_slice(), signed.as_bytes()) {
            return None;
        }
        proof {
            assert(text@ =~= h@ + seq!['.'] + p@ + seq!['.'] + sig@);
            assert(signed@ == signed_part(exp, iss@, sub@));
            assert(text@ == token_text(self.secret(), exp, iss@, sub@));
        }
        Some((exp, iss, sub))
    }

    /// The subject of `text` when it is a token signed under these keys,
    /// from this server's issuer, and not expired at `now` (seconds since the
    /// Unix epoch). Expired or not genuine: `InvalidToken`; genuine but from
    /// another issuer: `WrongCredentials`.
    pub fn verify(&self, text: &str, now: u64) -> (r: Result<String, Error>)
        ensures
            result_view(r) == session_check(self, text@, now),
    {
        match self.read_token(text) {
            None => Err(Error::InvalidToken),
            Some((exp, iss, sub)) => {
                if exp <= now {
                    Err(Error::InvalidToken)
                } else if !same_text(iss.as_str(), ISSUER) {
                    Err(Error::WrongCredentials)
                } else {
                    Ok(sub)
                }
            },
        }
    }

    /// Keys over a configured secret, so that tokens outlive a restart.
    pub fn from_secret(secret: &[u8]) -> (r: Keys)
        ensures
            r.secret() == secret@,
    {
        Keys { secret: vstd::slice::slice_to_vec(secret) }
    }

    /// Keys over 256 fresh random bytes. Tokens signed with them become
    /// unverifiable when the process ends.
    pub fn generate() -> (r: Keys)
        ensures
            r.secret().len() == 256,
    {
        let mut secret: Vec<u8> = Vec::new();
        let mut i: usize = 0;
        while i < 256
            invariant
                i <= 256,
                secret@.len() == i,
            decreases 256 - i,
        {
            secret.push(0);
            i = i + 1;
        }
        fill_random(&mut secret);
        Keys { secret }
    }
}

impl Token {
    /// A token for `user`, from this server's issuer, valid until `EXPIRY`.
    pub fn new(user: &str, keys: &Keys) -> (r: Result<Token, Error>)
        ensures
            r matches Ok(t) && issued(keys, user@, t@),
    {
        let json = claims_json_bytes(EXPIRY, ISSUER.as_bytes(), user.as_bytes());
        let header = b64url_encode(HEADER_JSON.as_slice());
        let payload = b64url_encode(json.as_slice());
        let mut signed = header;
        signed.append(".");
        signed.append(payload.as_str());
        proof {
            reveal_strlit(".");
            lemma_b64_ascii(header@);
            lemma_b64_ascii(payload@);
            assert(signed@ =~= signed_part(EXPIRY, ISSUER@, user@));
            assert(is_ascii_chars(signed@));
            lemma_ascii_encode(signed@);
        }
        let sig = match hs256_sign(keys.secret.as_slice(), signed.as_str().as_bytes()) {
            Some(s) => s,
            None => {
                return Err(Error::TokenGeneration);
            },
        };
        let mut text = signed;
        text.append(".");
        text.append(sig.as_str());
        proof {
            assert(text@ =~= token_text(keys.secret(), EXPIRY, ISSUER@, user@));
            assert(genuine(keys.secret(), EXPIRY, ISSUER@, user@));
        }
        Ok(Token(text))
    }

    /// The token's text.
    pub fn as_str(&self) -> (r: &str)
        ensures
            r@ == self@,
    {
        self.0.as_str()
    }
}

/// What verifying `text` at `now` under `keys` gives: for a genuine token,
/// the verdict on its claims; for any other text, `InvalidToken`.
pub open spec fn session_check(keys: &Keys, text: Seq<char>, now: u64) -> Result<Seq<char>, Error> {
    if exists|e: u64, i: Seq<char>, s: Seq<char>| #[trigger] keys.carries(text, e, i, s) {
        let (e, i, s) = choose|e: u64, i: Seq<char>, s: Seq<char>| #[trigger] keys.carries(text, e, i, s);
        verdict(e, i, s, now)
    } else {
        Err(Error::InvalidToken)
    }
}

/// What issuing a token for `user` under `keys` gives.
pub open spec fn issued(keys: &Keys, user: Seq<char>, text: Seq<char>) -> bool {
    keys.carries(text, EXPIRY, ISSUER@, user)
}

/// Different claims have different JSON.
proof fn lemma_claims_json_injective(e1: u64, i1: Seq<char>, s1: Seq<char>, e2: u64, i2: Seq<char>, s2: Seq<char>)
    requires
        claims_json(e1, encode_utf8(i1), encode_utf8(s1)) == claims_json(e2, encode_utf8(i2), encode_utf8(s2)),
    ensures
        e1 == e2 && i1 == i2 && s1 == s2,
{
    lemma_parse_claims_json(e1, encode_utf8(i1), encode_utf8(s1));
    lemma_parse_claims_json(e2, encode_utf8(i2), encode_utf8(s2));
    vstd::utf8::encode_utf8_decode_utf8(i1);
    vstd::utf8::encode_utf8_decode_utf8(s1);
    vstd::utf8::encode_utf8_decode_utf8(i2);
    vstd::utf8::encode_utf8_decode_utf8(s2);
}

/// A genuine token carries one claim set only.
pub proof fn lemma_carries_unique(
    keys: &Keys,
    text: Seq<char>,
    e1: u64,
    i1: Seq<char>,
    s1: Seq<char>,
    e2: u64,
    i2: Seq<char>,
    s2: Seq<char>,
)
    requires
        keys.carries(text, e1, i1, s1),
        keys.carries(text, e2, i2, s2),
    ensures
        e1 == e2 && i1 == i2 && s1 == s2,
{
    lemma_genuine_token(keys.secret(), e1, i1, s1);
    lemma_genuine_token(keys.secret(), e2, i2, s2);
    let h = header_part();
    let k1 = h.len() as int + 1 + payload_part(e1, i1, s1).len();
    let k2 = h.len() as int + 1 + payload_part(e2, i2, s2).len();
    if k1 < k2 {
        assert(text[k1] == '.');
    } else if k2 < k1 {
        assert(text[k2] == '.');
    }
    assert(payload_part(e1, i1, s1) == payload_part(e2, i2, s2));
    lemma_claims_json_injective(e1, i1, s1, e2, i2, s2);
}

/// A token issued for a user passes verification under the same keys at
/// any instant before its expiry, and names that user.
pub proof fn lemma_issue_then_verify(keys: &Keys, user: Seq<char>, text: Seq<char>, now: u64)
    requires
        issued(keys, user, text),
        now < EXPIRY,
    ensures
        session_check(keys, text, now) == Ok::<Seq<char>, Error>(user),
{
    let (e, i, s) = choose|e: u64, i: Seq<char>, s: Seq<char>| #[trigger] keys.carries(text, e, i, s);
    lemma_carries_unique(keys, text, e, i, s, EXPIRY, ISSUER@, user);
}

/// A token whose signature was made under `secret` over the content of one
/// claim set, but which carries another claim set, is accepted under `keys`
/// only where the keys sign the carried content exactly as `secret` signed
/// the original: with another secret, or with altered claims, only through
/// an HMAC-SHA256 collision.
pub proof fn lemma_forgery_needs_collision(
    keys: &Keys,
    secret: Seq<u8>,
    exp: u64,
    iss: Seq<char>,
    sub: Seq<char>,
    exp2: u64,
    iss2: Seq<char>,
    sub2: Seq<char>,
    now: u64,
)
    requires
        is_b64url_text(header_part()),
        is_b64url_text(payload_part(exp2, iss2, sub2)),
        b64url_decoded(payload_part(exp2, iss2, sub2)) == Some(claims_json(exp2, encode_utf8(iss2), encode_utf8(sub2))),
        session_check(
            keys,
            signed_part(exp2, iss2, sub2) + seq!['.'] + hs256_signature(secret, ascii_bytes(signed_part(exp, iss, sub))),
            now,
        ) != Err::<Seq<char>, Error>(Error::InvalidToken),
    ensures
        hs256_signature(keys.secret(), ascii_bytes(signed_part(exp2, iss2, sub2))) == hs256_signature(
            secret,
            ascii_bytes(signed_part(exp, iss, sub)),
        ),
{
    let forged = hs256_signature(secret, ascii_bytes(signed_part(exp, iss, sub)));
    let t = signed_part(exp2, iss2, sub2) + seq!['.'] + forged;
    let (e, i, s) = choose|e: u64, i: Seq<char>, s: Seq<char>| #[trigger] keys.carries(t, e, i, s);
    lemma_genuine_token(keys.secret(), e, i, s);
    let h = header_part();
    let p = payload_part(e, i, s);
    let carried = payload_part(exp2, iss2, sub2);
    lemma_b64_ascii(h);
    lemma_b64_ascii(carried);
    assert(t =~= h + seq!['.'] + carried + seq!['.'] + forged);
    lemma_split(t, h, carried, forged);
    let k = h.len() as int + 1 + p.len();
    let k2 = h.len() as int + 1 + carried.len();
    if k < k2 {
        assert(t[k] == '.');
    } else if k2 < k {
        assert(t[k2] == '.');
    }
    assert(p == carried);
    lemma_claims_json_injective(e, i, s, exp2, iss2, sub2);
    assert(e == exp2 && i == iss2 && s == sub2);
}

} // verus!
