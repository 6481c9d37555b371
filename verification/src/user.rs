//! A credential record: username, email, a stable content-derived
//! identifier, key material and a one-way password hash. Plaintext
//! passwords are never retained.

use vstd::prelude::*;
use vstd::utf8::encode_utf8;
use std::collections::hash_map::DefaultHasher;
use std::hash::Hasher;
use vstd::std_specs::hash::DefaultHasherAdditionalSpecFns;
use crate::errors::DatabaseError;
use crate::numfmt::{hex_u64_chars, u64_to_hex};

verus! {

#[verifier::external_type_specification]
#[verifier::external_body]
pub struct ExBcryptError(bcrypt::BcryptError);

/// What bcrypt::verify returns for a password and a stored hash: `Some(b)`
/// when the hash parses, with `b` saying whether the password matches;
/// `None` when the stored hash is malformed. The value depends on the two
/// arguments alone.
pub uninterp spec fn bcrypt_verify_of(password: Seq<u8>, hash: Seq<char>) -> Option<bool>;

/// Relies on bcrypt::hash with its default cost: a freshly salted, 60
/// character hash that bcrypt::verify accepts and matches against the same
/// password.
#[verifier::external_body]
fn bcrypt_hash(password: &str) -> (r: Result<String, bcrypt::BcryptError>)
    ensures
        r matches Ok(h) ==> h@.len() == 60 && bcrypt_verify_of(encode_utf8(password@), h@)
            == Some(true),
{
    bcrypt::hash(password, bcrypt::DEFAULT_COST)
}

/// Relies on bcrypt::verify: deterministic in the password and hash, and
/// failing exactly when the stored hash is malformed.
#[verifier::external_body]
fn bcrypt_check(password: &str, hash: &str) -> (r: Result<bool, bcrypt::BcryptError>)
    ensures
        r matches Ok(b) ==> bcrypt_verify_of(encode_utf8(password@), hash@) == Some(b),
        r is Err ==> bcrypt_verify_of(encode_utf8(password@), hash@) is None,
{
    bcrypt::verify(password, hash)
}

/// Hashes a password for storage, mapping a failure of the primitive to
/// the library's error type.
pub fn hash_password(password: &str) -> (r: Result<String, DatabaseError>)
    ensures
        r matches Ok(h) ==> h@.len() == 60 && bcrypt_verify_of(encode_utf8(password@), h@)
            == Some(true),
        r matches Err(e) ==> e is HashingError,
{
    match bcrypt_hash(password) {
        Ok(h) => Ok(h),
        Err(_) => {
            proof {
                reveal_strlit("password hashing failed");
            }
            Err(DatabaseError::HashingError(String::from_str("password hashing failed")))
        },
    }
}

/// Relies on std::time::SystemTime: the seconds since the Unix epoch, or
/// zero if the clock reads before it. Nothing is promised of the value.
#[verifier::external_body]
fn unix_time_secs() -> u64 {
    match std::time::SystemTime::now().duration_since(std::time::UNIX_EPOCH) {
        Ok(d) => d.as_secs(),
        Err(_) => 0,
    }
}

/// The stable identifier derived from a username, an email and a moment in
/// time: a fixed prefix followed by the hex digest of the three.
pub open spec fn beeid_chars(username: Seq<char>, email: Seq<char>, t: u64) -> Seq<char> {
    "seigr_bee"@ + hex_u64_chars(
        DefaultHasher::spec_finish(
            seq![
                encode_utf8(username),
                encode_utf8(email),
                vstd::bytes::spec_u64_to_le_bytes(t),
            ],
        ),
    )
}

/// The abstract value of a credential record.
pub ghost struct UserView {
    pub username: Seq<char>,
    pub email: Seq<char>,
    pub beeid: Seq<char>,
    pub authenticate: bool,
    pub key: Seq<u8>,
    pub password_hash: Seq<char>,
}

#[derive(Debug)]
pub struct User {
    pub username: String,
    pub email: String,
    pub beeid: String,
    pub authenticate: bool,
    pub key: [u8; 32],
    pub password_hash: String,
}

impl View for User {
    type V = UserView;

    open spec fn view(&self) -> UserView {
        UserView {
            username: self.username@,
            email: self.email@,
            beeid: self.beeid@,
            authenticate: self.authenticate,
            key: self.key@,
            password_hash: self.password_hash@,
        }
    }
}

impl User {
    /// Creates a record for a new user: derives the stable identifier and
    /// hashes the password; the plaintext is dropped.
    pub fn new(username: String, email: String, password: String) -> (r: Result<
        User,
        DatabaseError,
    >)
        ensures
            r matches Ok(u) ==> {
                &&& u@.username == username@
                &&& u@.email == email@
                &&& exists|t: u64| u@.beeid == beeid_chars(username@, email@, t)
                &&& !u@.authenticate
                &&& u@.key.len() == 32
                &&& bcrypt_verify_of(encode_utf8(password@), u@.password_hash) == Some(true)
            },
            r matches Err(e) ==> e is HashingError,
    {
        let beeid = Self::generate_beeid(username.as_str(), email.as_str());
        let password_hash = match bcrypt_hash(password.as_str()) {
            Ok(h) => h,
            Err(_) => {
                proof {
                    reveal_strlit("password hashing failed");
                }
                return Err(
                    DatabaseError::HashingError(String::from_str("password hashing failed")),
                );
            },
        };
        Ok(
            User {
                username,
                email,
                beeid,
                authenticate: false,
                key: [0u8; 32],
                password_hash,
            },
        )
    }

    /// Derives the stable per-user identifier from the username, the email
    /// and the current time.
    pub fn generate_beeid(username: &str, email: &str) -> (r: String)
        ensures
            exists|t: u64| r@ == beeid_chars(username@, email@, t),
            r@.len() > 9,
    {
        let mut hasher = DefaultHasher::new();
        hasher.write(username.as_bytes());
        hasher.write(email.as_bytes());
        let now = unix_time_secs();
        let now_bytes = vstd::bytes::u64_to_le_bytes(now);
        hasher.write(now_bytes.as_slice());
        let digest = hasher.finish();
        let suffix = u64_to_hex(digest);
        let mut beeid = String::from_str("seigr_bee");
        beeid.append(suffix.as_str());
        proof {
            reveal_strlit("seigr_bee");
            assert(hasher@ =~~= seq![
                encode_utf8(username@),
                encode_utf8(email@),
                vstd::bytes::spec_u64_to_le_bytes(now),
            ]);
            assert(beeid@ == beeid_chars(username@, email@, now));
        }
        beeid
    }

    /// Whether the password matches the stored one-way hash. The comparison
    /// goes through the hashing primitive; plaintext passwords are never
    /// compared.
    pub fn authenticate(&self, password: &str) -> (r: bool)
        ensures
            r == (bcrypt_verify_of(encode_utf8(password@), self@.password_hash) == Some(true)),
    {
        match bcrypt_check(password, self.password_hash.as_str()) {
            Ok(b) => b,
            Err(_) => false,
        }
    }

    /// The username.
    pub fn username(&self) -> (r: &str)
        ensures
            r@ == self@.username,
    {
        self.username.as_str()
    }

    /// The email address.
    pub fn email(&self) -> (r: &str)
        ensures
            r@ == self@.email,
    {
        self.email.as_str()
    }

    /// The stable per-user identifier.
    pub fn beeid(&self) -> (r: &str)
        ensures
            r@ == self@.beeid,
    {
        self.beeid.as_str()
    }

    /// Replaces the username.
    pub fn update_username(&mut self, new_username: String)
        ensures
            final(self)@ == (UserView { username: new_username@, ..old(self)@ }),
    {
        self.username = new_username;
    }

    /// Replaces the password by storing a fresh one-way hash of the new
    /// one; the record keeps its old hash if hashing fails.
    pub fn update_password(&mut self, new_password: String) -> (r: Result<(), DatabaseError>)
        ensures
            r matches Ok(()) ==> {
                &&& bcrypt_verify_of(encode_utf8(new_password@), final(self)@.password_hash)
                    == Some(true)
                &&& final(self)@ == (UserView {
                    password_hash: final(self)@.password_hash,
                    ..old(self)@
                })
            },
            r is Err ==> final(self)@ == old(self)@,
    {
        match bcrypt_hash(new_password.as_str()) {
            Ok(h) => {
                self.password_hash = h;
                Ok(())
            },
            Err(_) => {
                proof {
                    reveal_strlit("password hashing failed");
                }
                Err(DatabaseError::HashingError(String::from_str("password hashing failed")))
            },
        }
    }

    /// Replaces the email address.
    pub fn update_email(&mut self, new_email: String)
        ensures
            final(self)@ == (UserView { email: new_email@, ..old(self)@ }),
    {
        self.email = new_email;
    }

    /// The email address.
    pub fn get_email(&self) -> (r: &str)
        ensures
            r@ == self@.email,
    {
        self.email.as_str()
    }

    /// A copy of the record with the same abstract value.
    pub fn duplicate(&self) -> (r: User)
        ensures
            r@ == self@,
    {
        User {
            username: self.username.clone(),
            email: self.email.clone(),
            beeid: self.beeid.clone(),
            authenticate: self.authenticate,
            key: self.key,
            password_hash: self.password_hash.clone(),
        }
    }
}

} // verus!
