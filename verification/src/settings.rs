//! User-adjustable app settings, stored as JSON in the data dir. Reading and
//! writing the file is the caller's part; a missing or corrupt file means the
//! defaults, so a bad file never blocks the app.

use vstd::prelude::*;

verus! {

/// User-adjustable app settings. Defaults are the "fresh install" state.
#[derive(Clone, Copy, Debug, PartialEq, Eq, Structural)]
pub struct Settings {
    /// Write a debug log file to the data dir. Off by default; it is read at
    /// startup only, so a change takes effect on the next launch.
    pub file_logging: bool,
}

impl Default for Settings {
    fn default() -> (r: Self)
        ensures
            !r.file_logging,
    {
        Settings { file_logging: false }
    }
}

/// The settings in effect given what the settings file held: `parsed` is
/// `None` when the file is missing, unreadable or not valid settings.
pub fn loaded_or_default(parsed: Option<Settings>) -> (r: Settings)
    ensures
        match parsed {
            Some(s) => r == s,
            None => !r.file_logging,
        },
{
    match parsed {
        Some(s) => s,
        None => Settings::default(),
    }
}

} // verus!
