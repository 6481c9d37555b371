//! The application's interaction state: which form is shown, the
//! credentials typed into it, and whether the session should end.

use vstd::prelude::*;
use vstd::utf8::encode_utf8;
use crate::errors::DatabaseError;
use crate::user::{User, bcrypt_verify_of};

verus! {

/// Which form the interface currently shows.
#[derive(Debug, Clone, Copy, PartialEq, Eq, Structural)]
pub enum AppState {
    Login,
    Register,
}

impl Default for AppState {
    fn default() -> (r: Self)
        ensures
            r == AppState::Login,
    {
        AppState::Login
    }
}

/// The interaction state.
pub struct App {
    /// Whether the application should exit.
    pub should_quit: bool,
    /// The username last submitted.
    pub username: Option<String>,
    /// The password last submitted.
    pub password: Option<String>,
    /// The current user's record.
    pub user: Option<User>,
    /// Whether a login submission is pending with the vault.
    pub authenticated: bool,
    /// The form being shown.
    pub state: AppState,
}

impl Default for App {
    /// The same fresh state that `App::new` returns.
    fn default() -> (r: App)
        ensures
            !r.should_quit,
            r.username is None,
            r.password is None,
            r.user is None,
            !r.authenticated,
            r.state == AppState::Login,
    {
        App::new()
    }
}

impl App {
    /// A fresh state: login form shown, nothing submitted.
    pub fn new() -> (r: App)
        ensures
            !r.should_quit,
            r.username is None,
            r.password is None,
            r.user is None,
            !r.authenticated,
            r.state == AppState::Login,
    {
        App {
            should_quit: false,
            username: None,
            password: None,
            user: None,
            authenticated: false,
            state: AppState::Login,
        }
    }

    /// Handles the tick event of the terminal; the state does not change.
    pub fn tick(&self) {
    }

    /// Marks the application for exit.
    pub fn quit(&mut self)
        ensures
            *final(self) == (App { should_quit: true, ..*old(self) }),
    {
        self.should_quit = true;
    }

    /// Builds the record for a newly registered user and stores the
    /// submitted credentials in the state. Committing the record to the
    /// vault and persisting it is the caller's job.
    pub fn register_user(&mut self, username: String, password: String, email: String) -> (r:
        Result<(), DatabaseError>)
        ensures
            r matches Err(e) ==> e is HashingError && *final(self) == *old(self),
            r is Ok ==> {
                &&& final(self).username matches Some(u) && u@ == username@
                &&& final(self).password matches Some(p) && p@ == password@
                &&& final(self).user matches Some(u) && u@.username == username@ && u@.email
                    == email@ && bcrypt_verify_of(encode_utf8(password@), u@.password_hash)
                    == Some(true)
                &&& final(self).should_quit == old(self).should_quit
                &&& final(self).authenticated == old(self).authenticated
                &&& final(self).state == old(self).state
            },
    {
        let uname = username.clone();
        let pw = password.clone();
        let user = match User::new(username, email, password) {
            Ok(u) => u,
            Err(e) => {
                return Err(e);
            },
        };
        self.user = Some(user);
        self.username = Some(uname);
        self.password = Some(pw);
        Ok(())
    }

    /// Records a login submission: the credentials are stored and the
    /// submission marked pending. Checking them against the vault and
    /// applying its verdict through `apply_auth_verdict` is the caller's
    /// job.
    pub fn authenticate_user(&mut self, username: String, password: String) -> (r: Result<
        (),
        DatabaseError,
    >)
        ensures
            r is Ok,
            final(self).username matches Some(u) && u@ == username@,
            final(self).password matches Some(p) && p@ == password@,
            final(self).authenticated,
            final(self).should_quit == old(self).should_quit,
            final(self).user == old(self).user,
            final(self).state == old(self).state,
    {
        self.username = Some(username);
        self.password = Some(password);
        self.authenticated = true;
        Ok(())
    }

    /// Applies the vault's verdict on the last submitted login: the
    /// `authenticated` flag becomes exactly the verdict.
    pub fn apply_auth_verdict(&mut self, verdict: bool)
        ensures
            *final(self) == (App { authenticated: verdict, ..*old(self) }),
    {
        self.authenticated = verdict;
    }

    /// The form being shown.
    pub fn get_state(&self) -> (r: AppState)
        ensures
            r == self.state,
    {
        self.state
    }

    /// Shows the given form.
    pub fn set_state(&mut self, state: AppState)
        ensures
            *final(self) == (App { state, ..*old(self) }),
    {
        self.state = state;
    }

    /// A copy of the current user's record, if any.
    pub fn get_user(&self) -> (r: Option<User>)
        ensures
            r is Some <==> self.user is Some,
            r matches Some(u) ==> u@ == self.user.unwrap()@,
    {
        match &self.user {
            Some(u) => Some(u.duplicate()),
            None => None,
        }
    }

    /// Replaces the current user's record.
    pub fn set_user(&mut self, user: User)
        ensures
            final(self).user == Some(user),
            *final(self) == (App { user: final(self).user, ..*old(self) }),
    {
        self.user = Some(user);
    }

    /// The current user's email, if a user is set.
    pub fn get_email(&self) -> (r: Option<String>)
        ensures
            r is Some <==> self.user is Some,
            r matches Some(e) ==> e@ == self.user.unwrap()@.email,
    {
        match &self.user {
            Some(u) => Some(u.email.clone()),
            None => None,
        }
    }
}

} // verus!
