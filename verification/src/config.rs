//! The loaded configuration: where the progress file lives and which
//! configuration file provided that location.
use vstd::prelude::*;

verus! {

/// The configuration file's contents: an optional progress-file location.
#[derive(Debug, Clone)]
pub struct ConfigFile {
    pub progress_path: Option<String>,
}

impl Default for ConfigFile {
    fn default() -> (r: Self)
        ensures
            r.progress_path is None,
    {
        ConfigFile { progress_path: None }
    }
}

/// The resolved configuration.
pub struct Config {
    pub progress_path: String,
    pub config_file_path: String,
}

impl Config {
    /// Builds a configuration from resolved paths.
    pub fn new(progress_path: String, config_file_path: String) -> (r: Self)
        ensures
            r.progress_path@ == progress_path@,
            r.config_file_path@ == config_file_path@,
    {
        Config { progress_path, config_file_path }
    }

    /// Returns the path to the config file that was loaded.
    pub fn config_file_path(&self) -> (r: &String)
        ensures
            r@ == self.config_file_path@,
    {
        &self.config_file_path
    }
}

} // verus!
