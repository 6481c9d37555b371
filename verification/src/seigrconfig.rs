//! The application configuration: transient form fields plus the vault's
//! user records. Reading and writing the encrypted file that persists
//! this state is the embedding program's job, through the envelope.

use vstd::prelude::*;
use vstd::utf8::encode_utf8;
use crate::errors::DatabaseError;
use crate::user::{User, bcrypt_verify_of};
use crate::database::{lookup_user, lemma_lookup_user_found, lemma_lookup_user_iff,
    lemma_lookup_user_push};
use crate::codec::Snapshot;

verus! {

/// Configuration and vault state. The `username`, `password` and `email`
/// fields hold form input in flight; `users` is the credential vault.
pub struct SeigrConfig {
    pub username: String,
    pub password: String,
    pub email: String,
    pub beeid: String,
    pub from_file: bool,
    pub user: Option<User>,
    pub users: Vec<User>,
    pub save_to_file: bool,
    pub key: [u8; 32],
    pub nonce: [u8; 12],
    pub password_hash: Option<String>,
}

impl SeigrConfig {
    /// The transient username field.
    pub fn username(&self) -> (r: &str)
        ensures
            r@ == self.username@,
    {
        self.username.as_str()
    }

    /// The transient password field.
    pub fn password(&self) -> (r: &str)
        ensures
            r@ == self.password@,
    {
        self.password.as_str()
    }

    /// The transient email field.
    pub fn email(&self) -> (r: &str)
        ensures
            r@ == self.email@,
    {
        self.email.as_str()
    }

    /// The configured stable identifier.
    pub fn beeid(&self) -> (r: &str)
        ensures
            r@ == self.beeid@,
    {
        self.beeid.as_str()
    }

    /// An empty configuration with no users and zeroed key material.
    pub fn default() -> (r: SeigrConfig)
        ensures
            r.username@ == Seq::<char>::empty(),
            r.password@ == Seq::<char>::empty(),
            r.email@ == Seq::<char>::empty(),
            r.beeid@ == Seq::<char>::empty(),
            !r.from_file,
            r.user is None,
            r.users@ == Seq::<User>::empty(),
            !r.save_to_file,
            r.key@ =~= Seq::new(32, |i: int| 0u8),
            r.nonce@ =~= Seq::new(12, |i: int| 0u8),
            r.password_hash is None,
    {
        let r = SeigrConfig {
            username: String::new(),
            password: String::new(),
            email: String::new(),
            beeid: String::new(),
            from_file: false,
            user: None,
            users: Vec::new(),
            save_to_file: false,
            key: [0u8; 32],
            nonce: [0u8; 12],
            password_hash: None,
        };
        proof {
            assert(r.key@ =~= Seq::new(32, |i: int| 0u8));
            assert(r.nonce@ =~= Seq::new(12, |i: int| 0u8));
        }
        r
    }

    /// Whether any user is registered.
    pub fn has_users(&self) -> (r: bool)
        ensures
            r == (self.users@.len() > 0),
    {
        self.users.len() > 0
    }

    /// Finds the position of a username in the vault.
    fn find_user_index(&self, username: &str) -> (r: Option<usize>)
        ensures
            match r {
                Some(i) => i < self.users@.len() && self.users@[i as int]@.username == username@
                    && lookup_user(self.users@, username@) == Some(self.users@[i as int]),
                None => lookup_user(self.users@, username@) is None,
            },
    {
        let n = self.users.len();
        let mut i: usize = 0;
        while i < n
            invariant
                i <= n,
                n == self.users@.len(),
                forall|k: int| 0 <= k < i ==> (#[trigger] self.users@[k])@.username != username@,
            decreases n - i,
        {
            if crate::strbytes::str_eq(self.users[i].username.as_str(), username) {
                proof {
                    lemma_lookup_user_found(self.users@, i as int, username@);
                }
                return Some(i);
            }
            i += 1;
        }
        proof {
            lemma_lookup_user_iff(self.users@, username@);
        }
        None
    }

    /// Whether the username is registered.
    pub fn user_exists(&self, username: &str) -> (r: bool)
        ensures
            r == (lookup_user(self.users@, username@) is Some),
    {
        match self.find_user_index(username) {
            Some(_) => true,
            None => false,
        }
    }

    /// Replaces the transient username field. The caller persists the
    /// configuration afterwards.
    pub fn set_username(&mut self, username: String) -> (r: Result<(), DatabaseError>)
        ensures
            r is Ok,
            *final(self) == (SeigrConfig { username: final(self).username, ..*old(self) }),
            final(self).username@ == username@,
    {
        self.username = username;
        Ok(())
    }

    /// Replaces the transient password field. The caller persists the
    /// configuration afterwards.
    pub fn set_password(&mut self, password: String) -> (r: Result<(), DatabaseError>)
        ensures
            r is Ok,
            *final(self) == (SeigrConfig { password: final(self).password, ..*old(self) }),
            final(self).password@ == password@,
    {
        self.password = password;
        Ok(())
    }

    /// Replaces the transient email field. The caller persists the
    /// configuration afterwards.
    pub fn set_email(&mut self, email: String) -> (r: Result<(), DatabaseError>)
        ensures
            r is Ok,
            *final(self) == (SeigrConfig { email: final(self).email, ..*old(self) }),
            final(self).email@ == email@,
    {
        self.email = email;
        Ok(())
    }

    /// Replaces the configured stable identifier. The caller persists the
    /// configuration afterwards.
    pub fn set_beeid(&mut self, beeid: String) -> (r: Result<(), DatabaseError>)
        ensures
            r is Ok,
            *final(self) == (SeigrConfig { beeid: final(self).beeid, ..*old(self) }),
            final(self).beeid@ == beeid@,
    {
        self.beeid = beeid;
        Ok(())
    }

    /// Registers a new user in the vault: derives the stable identifier,
    /// hashes the password and appends the record. Fails with
    /// `DuplicateUser` exactly when the username is taken.
    pub fn add_user(&mut self, username: String, password: String, email: String) -> (r: Result<
        User,
        DatabaseError,
    >)
        ensures
            r matches Err(DatabaseError::DuplicateUser) <==> lookup_user(
                old(self).users@,
                username@,
            ) is Some,
            r matches Err(e) ==> *final(self) == *old(self) && (e is DuplicateUser
                || e is HashingError),
            r matches Ok(u) ==> {
                &&& u@.username == username@
                &&& u@.email == email@
                &&& bcrypt_verify_of(encode_utf8(password@), u@.password_hash) == Some(true)
                &&& final(self).users@.len() == old(self).users@.len() + 1
                &&& final(self).users@.last()@ == u@
                &&& forall|x: Seq<char>|
                    #[trigger] lookup_user(final(self).users@, x) == (if x == username@ {
                        Some(final(self).users@.last())
                    } else {
                        lookup_user(old(self).users@, x)
                    })
                &&& *final(self) == (SeigrConfig { users: final(self).users, ..*old(self) })
            },
    {
        if let Some(_) = self.find_user_index(username.as_str()) {
            return Err(DatabaseError::DuplicateUser);
        }
        let ghost uname = username@;
        let user = match User::new(username, email, password) {
            Ok(u) => u,
            Err(e) => {
                return Err(e);
            },
        };
        let copy = user.duplicate();
        self.users.push(user);
        proof {
            let pushed = self.users@.last();
            assert(self.users@ =~= old(self).users@.push(pushed));
            lemma_lookup_user_iff(old(self).users@, uname);
            assert forall|x: Seq<char>|
                #[trigger] lookup_user(self.users@, x) == (if x == uname {
                    Some(pushed)
                } else {
                    lookup_user(old(self).users@, x)
                }) by {
                lemma_lookup_user_push(old(self).users@, pushed, x);
            }
        }
        Ok(copy)
    }

    /// Looks a user up by name. Fails with `UserNotFound` exactly when
    /// the username is absent.
    pub fn get_user(&self, username: String) -> (r: Result<User, DatabaseError>)
        ensures
            r is Err <==> lookup_user(self.users@, username@) is None,
            r matches Err(e) ==> e is UserNotFound,
            r matches Ok(u) ==> u@ == lookup_user(self.users@, username@).unwrap()@,
    {
        match self.find_user_index(username.as_str()) {
            Some(i) => Ok(self.users[i].duplicate()),
            None => Err(DatabaseError::UserNotFound),
        }
    }

    /// The first registered user's name. Fails with `UserNotFound`
    /// exactly when the vault is empty.
    pub fn get_username(&self) -> (r: Result<String, DatabaseError>)
        ensures
            r is Err <==> self.users@.len() == 0,
            r matches Err(e) ==> e is UserNotFound,
            r matches Ok(s) ==> s@ == self.users@[0]@.username,
    {
        if self.users.len() > 0 {
            Ok(self.users[0].username.clone())
        } else {
            Err(DatabaseError::UserNotFound)
        }
    }

    /// The first registered user's email. Fails with `UserNotFound`
    /// exactly when the vault is empty.
    pub fn get_email(&self) -> (r: Result<String, DatabaseError>)
        ensures
            r is Err <==> self.users@.len() == 0,
            r matches Err(e) ==> e is UserNotFound,
            r matches Ok(s) ==> s@ == self.users@[0]@.email,
    {
        if self.users.len() > 0 {
            Ok(self.users[0].email.clone())
        } else {
            Err(DatabaseError::UserNotFound)
        }
    }

    /// The first registered user's stable identifier. Fails with
    /// `UserNotFound` exactly when the vault is empty.
    pub fn get_beeid(&self) -> (r: Result<String, DatabaseError>)
        ensures
            r is Err <==> self.users@.len() == 0,
            r matches Err(e) ==> e is UserNotFound,
            r matches Ok(s) ==> s@ == self.users@[0]@.beeid,
    {
        if self.users.len() > 0 {
            Ok(self.users[0].beeid.clone())
        } else {
            Err(DatabaseError::UserNotFound)
        }
    }

    /// The first registered user's key material. Fails with
    /// `UserNotFound` exactly when the vault is empty.
    pub fn get_key(&self) -> (r: Result<[u8; 32], DatabaseError>)
        ensures
            r is Err <==> self.users@.len() == 0,
            r matches Err(e) ==> e is UserNotFound,
            r matches Ok(k) ==> k@ == self.users@[0]@.key,
    {
        if self.users.len() > 0 {
            Ok(self.users[0].key)
        } else {
            Err(DatabaseError::UserNotFound)
        }
    }

    /// Copies the vault into a snapshot for the persistence envelope,
    /// together with the given file index entries.
    pub fn to_snapshot(&self, file_links: Vec<(String, Vec<String>)>) -> (r: Snapshot)
        ensures
            r@.users == self.users@.map_values(|u: User| u@),
            r@.links == file_links@.map_values(
                |l: (String, Vec<String>)| (l.0@, l.1@.map_values(|s: String| s@)),
            ),
    {
        let n = self.users.len();
        let mut users: Vec<User> = Vec::new();
        let mut i: usize = 0;
        while i < n
            invariant
                i <= n,
                n == self.users@.len(),
                users@.len() == i,
                forall|k: int| 0 <= k < i ==> (#[trigger] users@[k])@ == self.users@[k]@,
            decreases n - i,
        {
            users.push(self.users[i].duplicate());
            i += 1;
        }
        let r = Snapshot { users, file_links };
        proof {
            assert(r@.users =~= self.users@.map_values(|u: User| u@));
        }
        r
    }

    /// Replaces the vault's records with those of a loaded snapshot.
    pub fn load_users(&mut self, snapshot: Snapshot) -> (r: Result<(), DatabaseError>)
        ensures
            r is Ok,
            final(self).users@.map_values(|u: User| u@) == snapshot@.users,
            *final(self) == (SeigrConfig { users: final(self).users, ..*old(self) }),
    {
        self.users = snapshot.users;
        Ok(())
    }
}

} // verus!
