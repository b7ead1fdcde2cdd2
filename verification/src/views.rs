use vstd::prelude::*;

verus! {

/// Identifies which screen of the application is active.
#[derive(Clone, Copy, Debug, PartialEq, Eq, Structural)]
pub enum Views {
    HomeView,
    SettingsView,
}

/// Owns the authoritative "current screen" state. Screens hand back a
/// navigation intent (`Views`) and the navigator applies it; no screen
/// mutates the active view directly.
pub struct Navigator {
    pub active: Views,
}

impl Navigator {
    /// A fresh navigator starts on the home screen.
    pub fn new() -> (r: Navigator)
        ensures
            r.active == Views::HomeView,
    {
        Navigator { active: Views::HomeView }
    }

    /// Applies a navigation intent emitted by a screen.
    pub fn navigate(&mut self, intent: Views)
        ensures
            final(self).active == intent,
    {
        self.active = intent;
    }
}

} // verus!
