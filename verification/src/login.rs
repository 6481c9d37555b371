//! Registration and authentication against a configuration's vault.
//! Loading the configuration from disk before these calls, and saving it
//! afterwards, is the embedding program's job.

use vstd::prelude::*;
use vstd::utf8::encode_utf8;
use crate::errors::DatabaseError;
use crate::user::{User, bcrypt_verify_of};
use crate::seigrconfig::SeigrConfig;
use crate::database::lookup_user;

verus! {

/// Registers a new user in the configuration's vault. Fails with
/// `DuplicateUser` exactly when the username is taken.
pub fn register_user(config: &mut SeigrConfig, username: String, password: String, email: String)
    -> (r: Result<User, DatabaseError>)
    ensures
        r matches Err(DatabaseError::DuplicateUser) <==> lookup_user(
            old(config).users@,
            username@,
        ) is Some,
        r matches Err(e) ==> *final(config) == *old(config) && (e is DuplicateUser
            || e is HashingError),
        r matches Ok(u) ==> {
            &&& u@.username == username@
            &&& u@.email == email@
            &&& bcrypt_verify_of(encode_utf8(password@), u@.password_hash) == Some(true)
            &&& final(config).users@.len() == old(config).users@.len() + 1
            &&& final(config).users@.last()@ == u@
            &&& forall|x: Seq<char>|
                #[trigger] lookup_user(final(config).users@, x) == (if x == username@ {
                    Some(final(config).users@.last())
                } else {
                    lookup_user(old(config).users@, x)
                })
        },
{
    config.add_user(username, password, email)
}

/// Checks a password against the configuration's vault. Fails with
/// `UserNotFound` exactly when the username is absent; otherwise answers
/// whether the password matches the stored one-way hash.
pub fn authenticate_user(config: &SeigrConfig, username: String, password: String) -> (r: Result<
    bool,
    DatabaseError,
>)
    ensures
        r is Err <==> lookup_user(config.users@, username@) is None,
        r matches Err(e) ==> e is UserNotFound,
        r matches Ok(b) ==> b == (bcrypt_verify_of(
            encode_utf8(password@),
            lookup_user(config.users@, username@).unwrap()@.password_hash,
        ) == Some(true)),
{
    match config.get_user(username) {
        Ok(user) => Ok(user.authenticate(password.as_str())),
        Err(_) => Err(DatabaseError::UserNotFound),
    }
}

} // verus!
