//! Where the shortpaths configuration lives.

use vstd::prelude::*;
use crate::paths::{join_paths, str_join_path};

verus! {

/// The configuration directory and the configuration file in it.
#[derive(Debug)]
pub struct Config {
    pub config_dir: String,
    pub file: String,
}

/// The configuration directory of the project named by `qualifier`,
/// `organization` and `application` (`directories::ProjectDirs::from`, then
/// `config_dir`).  It depends on the environment, so nothing is promised of
/// it.
#[verifier::external_body]
pub(crate) fn project_config_dir(qualifier: &str, organization: &str, application: &str) -> (r: Option<
    String,
>) {
    directories::ProjectDirs::from(qualifier, organization, application).map(
        |d| d.config_dir().to_string_lossy().into_owned(),
    )
}

/// The configuration directory of this program.
pub(crate) fn program_config_dir() -> (r: Option<String>) {
    project_config_dir(crate::consts::QUALIFIER, crate::consts::ORGANIZATION, crate::consts::APPLICATION)
}

impl Config {
    /// The configuration in the directory `config_dir`, with the file `file`
    /// there.
    pub fn in_dir(config_dir: String, file: &str) -> (r: Config)
        ensures
            r.config_dir@ == config_dir@,
            r.file@ == join_paths(config_dir@, file@),
    {
        let f = str_join_path(config_dir.as_str(), file);
        Config { config_dir, file: f }
    }

    /// The configuration with the file `file` in the project's configuration
    /// directory, when that directory can be found.
    pub fn new(file: &str) -> (r: Option<Config>)
        ensures
            r matches Some(c) ==> c.file@ == join_paths(c.config_dir@, file@),
    {
        match program_config_dir() {
            Some(d) => Some(Config::in_dir(d, file)),
            None => None,
        }
    }

    /// The path of `config` in the configuration directory.
    pub fn format_config_path(&self, config: &str) -> (r: String)
        ensures
            r@ == join_paths(self.config_dir@, config@),
    {
        str_join_path(self.config_dir.as_str(), config)
    }
}

} // verus!
