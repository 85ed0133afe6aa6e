//! Settings of a synchronisation.

use vstd::prelude::*;
use vstd::string::*;

verus! {

/// Configuration for Rust Paper.
#[derive(Debug)]
pub struct Config {
    /// Directory where wallpapers will be saved.
    pub save_location: String,
    /// Whether to enable integrity checks using SHA256.
    pub integrity: bool,
}

impl Clone for Config {
    fn clone(&self) -> (copy: Config)
        ensures
            copy == *self,
    {
        Config { save_location: self.save_location.clone(), integrity: self.integrity }
    }
}

impl Config {
    /// The settings used when none are stored: wallpapers go to
    /// `Pictures/wall` under `home`, and integrity checks are on.
    pub fn default_in(home: &str) -> (config: Config)
        ensures
            config.save_location@ == home@ + "/Pictures/wall"@,
            config.integrity,
    {
        let mut save_location = String::from_str(home);
        save_location.append("/Pictures/wall");
        Config { save_location, integrity: true }
    }
}

} // verus!
