//! Names used for files and directories.

use vstd::prelude::*;

verus! {

/// The program's name, used in the names of exported files.
pub const PROGRAM_NAME: &'static str = "shortpaths";

/// The configuration file, inside the configuration directory.
pub const CONFIG_FILE_PATH: &'static str = "shortpaths.toml";

/// The parts of the project's directory names.
pub const QUALIFIER: &'static str = "com";

pub const ORGANIZATION: &'static str = "shortpaths";

pub const APPLICATION: &'static str = "shortpaths";

/// What the program does, for its help text.
pub const PROGRAM_DESCRIPTION: &'static str = "Better path aliases for files and directories";

} // verus!
