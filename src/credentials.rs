//! The credential store: one salted, memory-hard password hash per known
//! identifier.

use vstd::prelude::*;
use vstd::string::StringSliceAdditionalSpecFns;
use argon2::password_hash::{PasswordHash, PasswordHasher, PasswordVerifier, SaltString};
use rand_core::OsRng;

verus! {

/// Whether argon2 accepts `secret` against the PHC string `hash`.
pub uninterp spec fn argon2_accepts(hash: Seq<char>, secret: Seq<char>) -> bool;

/// Whether a text parses as a PHC password hash.
pub uninterp spec fn phc_parses(hash: Seq<char>) -> bool;

/// The PHC string of the Argon2id hash of `secret` under `salt`, with the
/// default parameters.
pub uninterp spec fn argon2_hash_of(secret: Seq<char>, salt: Seq<char>) -> Seq<char>;

/// Every hash this library makes starts with this text, then its salt and
/// a `$`: Argon2id, version 19, 19 MiB of memory, two passes, one lane.
pub const PHC_PREFIX: &'static str = "$argon2id$v=19$m=19456,t=2,p=1$";

pub open spec fn is_b64_char(c: char) -> bool {
    ('A' <= c <= 'Z') || ('a' <= c <= 'z') || ('0' <= c <= '9') || c == '+' || c == '/'
}

/// The B64 text of sixteen bytes, as a PHC salt: 22 characters of the
/// standard alphabet without padding, the last carrying no spare bits.
pub open spec fn is_phc_salt(s: Seq<char>) -> bool {
    &&& s.len() == 22
    &&& forall|i: int| 0 <= i < 22 ==> is_b64_char(#[trigger] s[i])
    &&& (s[21] == 'A' || s[21] == 'Q' || s[21] == 'g' || s[21] == 'w')
}

/// What a hash made under `salt` starts with.
pub open spec fn phc_prefix(salt: Seq<char>) -> Seq<char> {
    PHC_PREFIX@ + salt + seq!['$']
}

pub open spec fn has_prefix(s: Seq<char>, p: Seq<char>) -> bool {
    p.len() <= s.len() && s.subrange(0, p.len() as int) == p
}

/// `hash` is the hash of `secret` under `salt`: a PHC string that embeds
/// the salt, parses back, and verifies for the secret.
pub open spec fn hashed_with(hash: Seq<char>, secret: Seq<char>, salt: Seq<char>) -> bool {
    &&& is_phc_salt(salt)
    &&& hash == argon2_hash_of(secret, salt)
    &&& has_prefix(hash, phc_prefix(salt))
    &&& phc_parses(hash)
    &&& argon2_accepts(hash, secret)
}

/// Relies on `SaltString::generate` over `OsRng`: sixteen random bytes
/// encoded as unpadded standard B64, which is 22 characters whose last one
/// carries four zero bits.
#[verifier::external_body]
fn fresh_salt() -> (r: String)
    ensures
        is_phc_salt(r@),
{
    SaltString::generate(&mut OsRng).as_str().to_string()
}

/// Relies on `Salt::from_b64` and argon2's `PasswordHasher::hash_password`
/// with `Argon2::default()`: the PHC string of the hash, which depends on
/// the secret and the salt alone, starts with `PHC_PREFIX`, the salt and a
/// `$`, parses with `PasswordHash::new`, and passes `verify_password` for
/// the same secret. It fails only for a salt that is no canonical B64 text
/// of 8 to 48 bytes, or a secret longer than `MAX_PWD_LEN` (2^32 - 1)
/// bytes.
#[verifier::external_body]
fn argon2_hash(secret: &str, salt: &str) -> (r: Option<String>)
    ensures
        is_phc_salt(salt@) && secret.spec_bytes().len() <= 0xFFFF_FFFF ==> r is Some,
        r matches Some(h) ==> h@ == argon2_hash_of(secret@, salt@),
        r matches Some(h) ==> has_prefix(h@, phc_prefix(salt@)),
        r matches Some(h) ==> phc_parses(h@),
        r matches Some(h) ==> argon2_accepts(h@, secret@),
{
    let salt = argon2::password_hash::Salt::from_b64(salt).ok()?;
    argon2::Argon2::default().hash_password(secret.as_bytes(), salt).ok().map(|h| h.to_string())
}

/// A salted Argon2id hash of `secret` under a fresh random salt; `None` for
/// a secret longer than argon2 takes (2^32 - 1 bytes). CPU-heavy: keep it
/// off latency-sensitive paths.
pub fn hash_secret(secret: &str) -> (r: Option<String>)
    ensures
        r is Some <==> secret.spec_bytes().len() <= 0xFFFF_FFFF,
        r matches Some(h) ==> exists|salt: Seq<char>| hashed_with(h@, secret@, salt),
{
    if secret.as_bytes().len() > 0xFFFF_FFFF {
        return None;
    }
    let salt = fresh_salt();
    let r = argon2_hash(secret, salt.as_str());
    proof {
        if r is Some {
            assert(hashed_with(r->0@, secret@, salt@));
        }
    }
    r
}

/// Relies on `PasswordHash::new` and argon2's `verify_password`: the PHC
/// string is parsed and the secret re-hashed with its parameters and salt;
/// the answer depends on the two texts alone. A text that does not parse is
/// refused.
#[verifier::external_body]
pub fn verify_secret(hash: &str, secret: &str) -> (r: bool)
    ensures
        r == argon2_accepts(hash@, secret@),
        !phc_parses(hash@) ==> !r,
{
    match PasswordHash::new(hash) {
        Ok(parsed) => argon2::Argon2::default().verify_password(secret.as_bytes(), &parsed).is_ok(),
        Err(_) => false,
    }
}

/// Hashes of one secret under two different salts differ, and both verify
/// for the secret.
pub proof fn lemma_salts_give_different_hashes(
    h1: Seq<char>,
    h2: Seq<char>,
    secret: Seq<char>,
    salt1: Seq<char>,
    salt2: Seq<char>,
)
    requires
        hashed_with(h1, secret, salt1),
        hashed_with(h2, secret, salt2),
        salt1 != salt2,
    ensures
        h1 != h2,
        argon2_accepts(h1, secret),
        argon2_accepts(h2, secret),
{
    if h1 == h2 {
        assert(phc_prefix(salt1) == phc_prefix(salt2));
        let k = PHC_PREFIX@.len() as int;
        assert(salt1 =~= phc_prefix(salt1).subrange(k, k + 22));
        assert(salt2 =~= phc_prefix(salt2).subrange(k, k + 22));
    }
}

/// A well-formed Argon2id PHC string that matches no secret one would
/// pick: an unknown identifier is checked against it, so that refusing
/// one costs as much time as refusing a wrong secret.
pub const DECOY_HASH: &'static str = "$argon2id$v=19$m=19456,t=2,p=1$c29tZXNhbHRzb21lc2FsdA$AAAAAAAAAAAAAAAAAAAAAAAAAAAAAAAAAAAAAAAAAAA";

/// The identifier-to-hash map that a list of pairs stands for; a later pair
/// takes the place of an earlier one with the same identifier.
pub open spec fn pairs_map(s: Seq<(String, String)>) -> Map<Seq<char>, Seq<char>>
    decreases s.len(),
{
    if s.len() == 0 {
        Map::empty()
    } else {
        pairs_map(s.drop_last()).insert(s.last().0@, s.last().1@)
    }
}

/// Whether the store lets `identifier` in with `secret`.
pub open spec fn credential_ok(m: Map<Seq<char>, Seq<char>>, identifier: Seq<char>, secret: Seq<char>) -> bool {
    m.contains_key(identifier) && argon2_accepts(m[identifier], secret)
}

proof fn lemma_pairs_map_prefix(s: Seq<(String, String)>, i: int, id: Seq<char>)
    requires
        0 <= i <= s.len(),
        forall|k: int| i <= k < s.len() ==> (#[trigger] s[k]).0@ != id,
    ensures
        pairs_map(s).contains_key(id) == pairs_map(s.take(i)).contains_key(id),
        pairs_map(s).contains_key(id) ==> pairs_map(s)[id] == pairs_map(s.take(i))[id],
    decreases s.len() - i,
{
    if i < s.len() {
        assert(s.drop_last().take(i) =~= s.take(i));
        lemma_pairs_map_prefix(s.drop_last(), i, id);
    } else {
        assert(s.take(i) =~= s);
    }
}

/// The password hash of each known identifier.
pub struct Credentials {
    users: Vec<(String, String)>,
}

impl View for Credentials {
    type V = Map<Seq<char>, Seq<char>>;

    closed spec fn view(&self) -> Map<Seq<char>, Seq<char>> {
        pairs_map(self.users@)
    }
}

impl Credentials {
    /// A store that knows nobody.
    pub fn new() -> (r: Credentials)
        ensures
            r@ == Map::<Seq<char>, Seq<char>>::empty(),
    {
        Credentials { users: Vec::new() }
    }

    /// Stores `hash` for `identifier`, in place of any hash it had.
    pub fn insert_hash(&mut self, identifier: &str, hash: &str)
        ensures
            final(self)@ == old(self)@.insert(identifier@, hash@),
    {
        let pair = (String::from_str(identifier), String::from_str(hash));
        self.users.push(pair);
        proof {
            assert(self.users@.drop_last() =~= old(self).users@);
        }
    }

    /// Whether `secret` matches the hash stored for `identifier`. An unknown
    /// identifier is refused after the same work as a wrong secret.
    pub fn verify(&self, identifier: &str, secret: &str) -> (r: bool)
        ensures
            r == credential_ok(self@, identifier@, secret@),
    {
        let id = String::from_str(identifier);
        let n = self.users.len();
        let mut i: usize = n;
        while i > 0
            invariant
                i <= n,
                n == self.users@.len(),
                id@ == identifier@,
                forall|k: int| i <= k < n ==> (#[trigger] self.users@[k]).0@ != identifier@,
            decreases i,
        {
            if self.users[i - 1].0 == id {
                proof {
                    let s = self.users@;
                    lemma_pairs_map_prefix(s, i as int, identifier@);
                    assert(s.take(i as int).drop_last() =~= s.take(i - 1));
                }
                return verify_secret(self.users[i - 1].1.as_str(), secret);
            }
            i = i - 1;
        }
        proof {
            lemma_pairs_map_prefix(self.users@, 0, identifier@);
        }
        let _ = verify_secret(DECOY_HASH, secret);
        false
    }
}

/// A secret stored through `hash_secret` is accepted for its identifier,
/// and an identifier that was never stored is always refused.
pub proof fn lemma_stored_secret_verifies(
    before: Map<Seq<char>, Seq<char>>,
    identifier: Seq<char>,
    secret: Seq<char>,
    hash: Seq<char>,
    salt: Seq<char>,
    other: Seq<char>,
    any_secret: Seq<char>,
)
    requires
        hashed_with(hash, secret, salt),
        !before.insert(identifier, hash).contains_key(other),
    ensures
        credential_ok(before.insert(identifier, hash), identifier, secret),
        !credential_ok(before.insert(identifier, hash), other, any_secret),
{
}

} // verus!
