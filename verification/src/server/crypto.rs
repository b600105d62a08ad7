//! Access tokens: signed, time-bounded tokens over a shared secret.
use vstd::prelude::*;
use crate::err::Error;
use crate::text::{
    decimal_digits, decimal_text, find_value, lemma_decimal_round_trip, lowercase_of, pair_value, pairs_of,
    parse_decimal, parsed_u64,
};
use crate::util::{hex2byte_v, hex_bytes};

verus! {

/// How long a token is valid after it was issued, in seconds.
pub const TOKEN_WINDOW: u64 = 3600;

/// The subject that a valid token names.
#[derive(Debug)]
pub struct User {
    pub email: String,
}

/// What a caller presents to be issued a token. Nothing here checks the
/// password: that is left to whoever stands in front of it.
#[derive(Debug)]
pub struct Auth {
    pub email: String,
    pub password: String,
}

/// The token that `jwt`'s `sign_with_key` returns for a key and a claim set
/// under HMAC-SHA-512, and `None` where it returns an error.
pub uninterp spec fn signed_token(key: Seq<u8>, claims: Seq<(Seq<char>, Seq<char>)>) -> Option<Seq<char>>;

/// The claims that `jwt`'s `verify_with_key` returns for a key and a token
/// under HMAC-SHA-512, in the order of their names, and `None` where it
/// returns an error.
pub uninterp spec fn token_claims(key: Seq<u8>, token: Seq<char>) -> Option<Seq<(Seq<char>, Seq<char>)>>;

/// Whether a token is accepted and carries the given claims: under every
/// name the value that the given claims hold under it.
pub open spec fn carries(found: Option<Seq<(Seq<char>, Seq<char>)>>, given: Seq<(Seq<char>, Seq<char>)>) -> bool {
    found matches Some(claims) && forall|name: Seq<char>|
        #[trigger] pair_value(claims, name) == pair_value(given, name)
}

/// `Hmac::<Sha512>::new_from_slice` on the key, then `sign_with_key` of the
/// `jwt` crate on a map filled with the claims in order. An error would
/// come back as its text, but there is none: a key of any length makes an
/// HMAC, a map of strings always has a JSON text, and the header is made for
/// the key's own algorithm. The contract names the token, and says that the
/// same key verifies it and finds the claims that were signed.
#[verifier::external_body]
fn sign_claims(key: &[u8], claims: &Vec<(String, String)>) -> (res: Result<String, String>)
    ensures
        res is Ok,
        match res {
            Ok(token) => signed_token(key@, pairs_of(claims@)) == Some(token@) && carries(
                token_claims(key@, token@),
                pairs_of(claims@),
            ),
            Err(_) => signed_token(key@, pairs_of(claims@)) is None,
        },
{
    let made: Result<hmac::Hmac<sha2::Sha512>, _> = hmac::digest::KeyInit::new_from_slice(key);
    let mac = made.map_err(|e| e.to_string())?;
    let mut map: std::collections::BTreeMap<String, String> = std::collections::BTreeMap::new();
    for (name, value) in claims.iter() {
        map.insert(name.clone(), value.clone());
    }
    jwt::SignWithKey::sign_with_key(map, &mac).map_err(|e: jwt::Error| e.to_string())
}

/// `Hmac::<Sha512>::new_from_slice` on the key, then `verify_with_key` of the
/// `jwt` crate on the token, for claims that are strings. An error comes
/// back as its text. The contract names the claims found.
#[verifier::external_body]
fn verify_token(key: &[u8], token: &str) -> (res: Result<Vec<(String, String)>, String>)
    ensures
        match res {
            Ok(claims) => token_claims(key@, token@) == Some(pairs_of(claims@)),
            Err(_) => token_claims(key@, token@) is None,
        },
{
    let made: Result<hmac::Hmac<sha2::Sha512>, _> = hmac::digest::KeyInit::new_from_slice(key);
    let mac = made.map_err(|e| e.to_string())?;
    let found: Result<std::collections::BTreeMap<String, String>, jwt::Error> =
        jwt::VerifyWithKey::verify_with_key(token, &mac);
    found.map(|claims| claims.into_iter().collect()).map_err(|e| e.to_string())
}

/// `SystemTime::elapsed` on the Unix epoch, in whole seconds: the time now,
/// and `None` where the clock stands before the epoch. Nothing is promised
/// of the value.
#[verifier::external_body]
fn seconds_since_epoch() -> Option<u64> {
    std::time::UNIX_EPOCH.elapsed().ok().map(|d| d.as_secs())
}

/// The bytes of the shared secret, which is configured as hexadecimal text.
pub open spec fn secret_bytes(key: Seq<char>) -> Seq<u8> {
    hex_bytes(lowercase_of(key))
}

/// The claim set of a token: the subject under `email`, and the time at
/// which the token expires, in decimal, under `exp`.
pub open spec fn claims_for(email: Seq<char>, expiry: u64) -> Seq<(Seq<char>, Seq<char>)> {
    seq![("email"@, email), ("exp"@, decimal_digits(expiry as nat))]
}

/// The subject that a claim set names at the time `now`, if it names one:
/// the claim `exp` is there and reads as a number, `now` is not past it, and
/// the claim `email` is there.
pub open spec fn subject_of(claims: Seq<(Seq<char>, Seq<char>)>, now: u64) -> Option<Seq<char>> {
    match pair_value(claims, "exp"@) {
        Some(text) => match parsed_u64(text) {
            Some(expiry) => if now > expiry {
                None
            } else {
                pair_value(claims, "email"@)
            },
            None => None,
        },
        None => None,
    }
}

/// The subject for which a token is valid at the time `now` under the
/// shared secret, if it is valid.
pub open spec fn validated(key: Seq<char>, token: Seq<char>, now: u64) -> Option<Seq<char>> {
    match token_claims(secret_bytes(key), token) {
        Some(claims) => subject_of(claims, now),
        None => None,
    }
}

/// Whether `token` is what is issued to `email` at the time `now` under the
/// shared secret.
pub open spec fn issued(key: Seq<char>, email: Seq<char>, now: u64, token: Seq<char>) -> bool {
    now + TOKEN_WINDOW <= u64::MAX && signed_token(
        secret_bytes(key),
        claims_for(email, (now + TOKEN_WINDOW) as u64),
    ) == Some(token)
}

/// A token that carries the claims made for a subject names that subject
/// until it expires, and nobody after that.
pub proof fn lemma_carried_claims_validate(
    found: Option<Seq<(Seq<char>, Seq<char>)>>,
    email: Seq<char>,
    expiry: u64,
    now: u64,
)
    requires
        carries(found, claims_for(email, expiry)),
    ensures
        found matches Some(claims) && subject_of(claims, now) == (if now <= expiry {
            Some(email)
        } else {
            None
        }),
{
    let given = claims_for(email, expiry);
    let claims = found->Some_0;
    reveal_strlit("email");
    reveal_strlit("exp");
    assert("email"@.len() != "exp"@.len());
    assert(given.last() == (("exp"@, decimal_digits(expiry as nat))));
    assert(pair_value(given, "exp"@) == Some(decimal_digits(expiry as nat)));
    assert(given.drop_last().last() == (("email"@, email)));
    assert(pair_value(given.drop_last(), "email"@) == Some(email));
    assert(pair_value(given, "email"@) == Some(email));
    assert(pair_value(claims, "exp"@) == pair_value(given, "exp"@));
    assert(pair_value(claims, "email"@) == pair_value(given, "email"@));
    lemma_decimal_round_trip(expiry as nat);
}

/// Reads the subject out of the claims of a verified token: no subject
/// without the claims `exp` and `email`, nor once `now` is past the expiry.
pub fn user_from_claims(claims: &Vec<(String, String)>, now: u64) -> (res: Result<User, Error>)
    ensures
        match subject_of(pairs_of(claims@), now) {
            Some(email) => res matches Ok(user) && user.email@ == email,
            None => res matches Err(e) && e is NotLogin,
        },
        pair_value(pairs_of(claims@), "exp"@) is None ==> res is Err,
        pair_value(pairs_of(claims@), "email"@) is None ==> res is Err,
{
    let expiry_text = match find_value(claims, "exp") {
        Some(text) => text,
        None => {
            return Err(Error::NotLogin(String::from_str("no exp")));
        },
    };
    let expiry = match parse_decimal(expiry_text.as_str()) {
        Some(n) => n,
        None => {
            return Err(Error::NotLogin(String::from_str("invalid exp")));
        },
    };
    if now > expiry {
        return Err(Error::NotLogin(String::from_str("invalid token")));
    }
    match find_value(claims, "email") {
        Some(email) => Ok(User { email }),
        None => Err(Error::NotLogin(String::from_str("no email"))),
    }
}

/// Validates a token at the time `now`: the signature under the shared
/// secret, then the claims.
pub fn parse_token_at(key: &str, token_str: &str, now: u64) -> (res: Result<User, Error>)
    ensures
        match validated(key@, token_str@, now) {
            Some(email) => res matches Ok(user) && user.email@ == email,
            None => res matches Err(e) && e is NotLogin,
        },
{
    let secret = hex2byte_v(key);
    match verify_token(secret.as_slice(), token_str) {
        Ok(claims) => user_from_claims(&claims, now),
        Err(text) => Err(Error::NotLogin(text)),
    }
}

/// Validates a token at the present time.
pub fn parse_token(key: &str, token_str: &str) -> (res: Result<User, Error>)
    ensures
        match res {
            Ok(user) => exists|now: u64| validated(key@, token_str@, now) == Some(user.email@),
            Err(e) => e is NotLogin,
        },
{
    match seconds_since_epoch() {
        Some(now) => {
            let res = parse_token_at(key, token_str, now);
            proof {
                if res is Ok {
                    assert(validated(key@, token_str@, now) == Some(res->Ok_0.email@));
                }
            }
            res
        },
        None => Err(Error::NotLogin(String::from_str("can not get timestamp"))),
    }
}

/// Issues a token for the subject of `auth` at the time `now`, which it
/// does whenever the expiry, `TOKEN_WINDOW` seconds later, is a time that can
/// be written. Up to the expiry the token validates under the same secret to
/// that subject, and after it to nobody.
pub fn gen_token_at(key: &str, auth: &Auth, now: u64) -> (res: Result<String, Error>)
    ensures
        match res {
            Ok(token) => issued(key@, auth.email@, now, token@) && forall|later: u64|
                #[trigger] validated(key@, token@, later) == (if later <= now + TOKEN_WINDOW {
                    Some(auth.email@)
                } else {
                    None
                }),
            Err(e) => e is Other && now + TOKEN_WINDOW > u64::MAX,
        },
{
    if now > u64::MAX - TOKEN_WINDOW {
        return Err(Error::Other(String::from_str("timestamp out of range")));
    }
    let expiry: u64 = now + TOKEN_WINDOW;
    let secret = hex2byte_v(key);
    let mut claims: Vec<(String, String)> = Vec::new();
    claims.push((String::from_str("email"), auth.email.clone()));
    claims.push((String::from_str("exp"), decimal_text(expiry)));
    assert(pairs_of(claims@) =~= claims_for(auth.email@, expiry));
    match sign_claims(secret.as_slice(), &claims) {
        Ok(token) => {
            proof {
                assert forall|later: u64| #[trigger] validated(key@, token@, later) == (if later <= now
                    + TOKEN_WINDOW {
                    Some(auth.email@)
                } else {
                    None
                }) by {
                    lemma_carried_claims_validate(
                        token_claims(secret_bytes(key@), token@),
                        auth.email@,
                        expiry,
                        later,
                    );
                }
            }
            Ok(token)
        },
        Err(text) => Err(Error::Other(text)),
    }
}

/// Issues a token for the subject of `auth` at the present time. It fails
/// only where the clock gives no time from which an expiry can be reckoned.
pub fn gen_token(key: &str, auth: &Auth) -> (res: Result<String, Error>)
    ensures
        match res {
            Ok(token) => exists|now: u64| issued(key@, auth.email@, now, token@),
            Err(e) => e is Other,
        },
{
    match seconds_since_epoch() {
        Some(now) => {
            let res = gen_token_at(key, auth, now);
            proof {
                if res is Ok {
                    assert(issued(key@, auth.email@, now, res->Ok_0@));
                }
            }
            res
        },
        None => Err(Error::Other(String::from_str("can not get timestamp"))),
    }
}

} // verus!
