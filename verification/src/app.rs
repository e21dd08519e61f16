//! Window configuration.

use vstd::prelude::*;

verus! {

/// Title and inner size of the game window.
pub struct AppConfig {
    pub title: String,
    pub width: u32,
    pub height: u32,
}

impl Default for AppConfig {
    /// A 1280x720 window titled "umbra".
    fn default() -> (r: AppConfig)
        ensures
            r.title@ == "umbra"@,
            r.width == 1280,
            r.height == 720,
    {
        AppConfig { title: "umbra".to_owned(), width: 1280, height: 720 }
    }
}

} // verus!
