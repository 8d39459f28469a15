//! Bearer-token issue and verification, and password-hash checking.
//!
//! Tokens are JWT strings binding a user name, the auth revision at issue
//! time and an expiry; password hashes are PBKDF2 PHC strings checked in
//! constant time. The cryptography is done by outside crates behind the
//! trusted wrappers below.
//!
//! The manager signs with HS256 over a shared secret. A deployment that
//! needs the asymmetric form can hold RS256 PEM key material instead: an
//! RSASSA-PKCS1 signature is equally a deterministic function of the key
//! and the claims, so the same contracts would carry over; the shared
//! secret is kept here so that the trusted surface takes one plain byte
//! string and no key-format parsing.

use vstd::prelude::*;

verus! {

/// Whether `password` matches the PBKDF2 PHC hash string `phc`; a pure
/// function of the two byte strings.
pub uninterp spec fn pbkdf2_matches(password: Seq<u8>, phc: Seq<u8>) -> bool;

/// Whether `phc` parses as a PHC hash string; a pure function of the bytes.
pub uninterp spec fn phc_parses(phc: Seq<u8>) -> bool;

/// The signed token for the given secret and claims; HMAC signing makes it
/// a pure function of its arguments.
pub uninterp spec fn jwt_token(secret: Seq<u8>, name: Seq<u8>, revision: int, expiry: int) -> Seq<
    char,
>;

/// Relies on `pbkdf2::password_hash::PasswordHash::new` to parse the
/// stored PHC string and on `Pbkdf2::verify_password` (constant-time) to
/// check the password against it; both are pure functions of their inputs.
#[verifier::external_body]
pub(crate) fn pbkdf2_verify(password: &Vec<u8>, phc: &Vec<u8>) -> (r: Option<bool>)
    ensures
        r == if phc_parses(phc@) {
            Some(pbkdf2_matches(password@, phc@))
        } else {
            None::<bool>
        },
{
    let hash_str = String::from_utf8_lossy(phc).to_string();
    match pbkdf2::password_hash::PasswordHash::new(&hash_str) {
        Ok(h) => Some(
            pbkdf2::password_hash::PasswordVerifier::verify_password(
                &pbkdf2::Pbkdf2,
                password,
                &h,
            ).is_ok(),
        ),
        Err(_) => None,
    }
}

/// Relies on `jsonwebtoken::encode` with the default (HS256) header: the
/// token is a deterministic function of the secret and the claims.
#[verifier::external_body]
fn jwt_sign(secret: &Vec<u8>, name: &Vec<u8>, revision: i64, expiry: u64) -> (r: Option<String>)
    ensures
        r matches Some(t) ==> t@ == jwt_token(secret@, name@, revision as int, expiry as int),
{
    let mut claims = serde_json::Map::new();
    let _n = claims.insert(
        "name".to_owned(),
        serde_json::Value::from(String::from_utf8_lossy(name).to_string()),
    );
    let _r = claims.insert("revision".to_owned(), serde_json::Value::from(revision));
    let _e = claims.insert("exp".to_owned(), serde_json::Value::from(expiry));
    let key = jsonwebtoken::EncodingKey::from_secret(secret);
    jsonwebtoken::encode(
        &jsonwebtoken::Header::default(),
        &serde_json::Value::Object(claims),
        &key,
    ).ok()
}

/// Relies on `jsonwebtoken::decode` with HS256 validation: claims come
/// back only from a token whose signature verified under the secret and
/// whose expiry has not passed. The outcome depends on the clock, so
/// nothing is promised of it.
#[verifier::external_body]
fn jwt_verify(secret: &Vec<u8>, token: &String) -> (r: Option<(Vec<u8>, i64, u64)>) {
    let key = jsonwebtoken::DecodingKey::from_secret(secret);
    let validation = jsonwebtoken::Validation::new(jsonwebtoken::Algorithm::HS256);
    let data = jsonwebtoken::decode::<serde_json::Value>(token, &key, &validation).ok()?;
    let name = data.claims.get("name")?.as_str()?.as_bytes().to_vec();
    let revision = data.claims.get("revision")?.as_i64()?;
    let expiry = data.claims.get("exp")?.as_u64()?;
    Some((name, revision, expiry))
}

/// Relies on `std::time::SystemTime::now` (with `duration_since` from the
/// Unix epoch) for the wall clock; nothing is promised of the value.
#[verifier::external_body]
fn unix_now() -> u64 {
    match std::time::SystemTime::now().duration_since(std::time::UNIX_EPOCH) {
        Ok(d) => d.as_secs(),
        Err(_) => 0,
    }
}

/// Token lifetime in seconds.
pub const TOKEN_TTL_SECS: u64 = 300;

/// Claims carried by a bearer token.
#[derive(Debug)]
pub struct TokenClaims {
    /// The authenticated user name.
    pub username: Vec<u8>,
    /// The auth revision at issue time.
    pub revision: i64,
    /// Expiry as Unix seconds.
    pub expiry: u64,
}

/// Signer and verifier of bearer tokens over a shared secret.
pub struct JwtTokenManager {
    /// The signing secret.
    secret: Vec<u8>,
}

impl JwtTokenManager {
    /// The signing secret bytes.
    pub closed spec fn secret_view(self) -> Seq<u8> {
        self.secret@
    }

    /// Build a manager from its signing secret.
    pub fn new(secret: Vec<u8>) -> (r: JwtTokenManager)
        ensures
            r.secret_view() == secret@,
    {
        JwtTokenManager { secret }
    }

    /// Sign a token binding `username`, `revision` and an expiry of
    /// [`TOKEN_TTL_SECS`] from now; fails only when the signer does.
    pub fn assign(&self, username: &Vec<u8>, revision: i64) -> (r: Option<String>)
        ensures
            r matches Some(t) ==> exists|e: int|
                t@ == jwt_token(self.secret_view(), username@, revision as int, e),
    {
        let now = unix_now();
        let expiry = if now <= u64::MAX - TOKEN_TTL_SECS {
            now + TOKEN_TTL_SECS
        } else {
            u64::MAX
        };
        let r = jwt_sign(&self.secret, username, revision, expiry);
        proof {
            if r is Some {
                assert(r.unwrap()@ == jwt_token(
                    self.secret_view(),
                    username@,
                    revision as int,
                    expiry as int,
                ));
            }
        }
        r
    }

    /// Verify a token; on success the claims the token was signed over
    /// come back.
    pub fn verify(&self, token: &String) -> (r: Option<TokenClaims>) {
        match jwt_verify(&self.secret, token) {
            Some((username, revision, expiry)) => Some(
                TokenClaims { username, revision, expiry },
            ),
            None => None,
        }
    }
}

} // verus!
