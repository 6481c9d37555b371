//! Key dispatch: what each keystroke does to the application state.
//! Reading raw terminal events and turning them into characters is the
//! embedding program's job.

use vstd::prelude::*;
use crate::app::{App, AppState};

verus! {

/// Dispatches keystrokes to state changes.
pub struct EventHandler;

impl EventHandler {
    /// A dispatcher.
    pub fn new() -> EventHandler {
        EventHandler
    }

    /// Applies one typed character: `q` quits, `r` shows the
    /// registration form, `l` shows the login form, and any other
    /// character leaves the state unchanged.
    pub fn handle_key_event(&mut self, app: &mut App, key: char)
        ensures
            key == 'q' ==> *final(app) == (App { should_quit: true, ..*old(app) }),
            key == 'r' ==> *final(app) == (App { state: AppState::Register, ..*old(app) }),
            key == 'l' ==> *final(app) == (App { state: AppState::Login, ..*old(app) }),
            key != 'q' && key != 'r' && key != 'l' ==> *final(app) == *old(app),
    {
        if key == 'q' {
            app.should_quit = true;
        } else if key == 'r' {
            app.state = AppState::Register;
        } else if key == 'l' {
            app.state = AppState::Login;
        }
    }
}

} // verus!
