//! Preferences of the desktop front end.

use vstd::prelude::*;

verus! {

/// What the desktop front end remembers besides the engine configuration.
#[derive(Debug, Clone, Copy, PartialEq, Eq, Structural)]
pub struct AppSettings {
    pub autostart: bool,
    pub start_on_launch: bool,
    pub close_to_tray: bool,
}

impl Default for AppSettings {
    /// Nothing starts by itself, and closing the window keeps the app in
    /// the tray.
    fn default() -> (s: Self)
        ensures
            !s.autostart,
            !s.start_on_launch,
            s.close_to_tray,
    {
        AppSettings { autostart: false, start_on_launch: false, close_to_tray: true }
    }
}

impl AppSettings {
    /// Whether the engine starts as soon as the app launches: only when the
    /// user asked for it and there is at least one output to play on.
    pub fn starts_on_launch(&self, configured_outputs: usize) -> (r: bool)
        ensures
            r == (self.start_on_launch && configured_outputs > 0),
    {
        self.start_on_launch && configured_outputs > 0
    }
}

} // verus!
