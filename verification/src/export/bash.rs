//! Completions for bash: `export NAME="PATH"` lines.

use vstd::prelude::*;
use crate::export::{Export, ShellExporter};
use crate::shortpaths::{SP, sp_wf, sp_entries, subst_env_entry};
use crate::strings::copy_str;

verus! {

/// Where bash completions are written by default.
pub const BASH_DEFAULT: &'static str = "completions/shortpaths.bash";

/// Where the system's bash completions live.
pub const BASH_SYSTEM: &'static str = "/usr/share/bash-completion/completions/shortpaths";

/// Exports shortpaths as bash variables.
#[derive(Default, Debug)]
pub struct BashExporter;

/// The user's data directory (`dirs::data_dir`).  It depends on the
/// environment, so nothing is promised of it.
#[verifier::external_body]
pub(crate) fn data_dir() -> (r: Option<String>) {
    dirs::data_dir().map(|p| p.to_string_lossy().into_owned())
}

/// Where bash completions for the user go, below the data directory `data`.
pub open spec fn bash_user_path(data: Seq<char>) -> Seq<char> {
    data + "/bash-completion/completions/"@ + "shortpaths"@
}

impl BashExporter {
    /// The user completions path below the data directory `data`.
    pub fn completions_user_path_in(&self, data: &str) -> (r: String)
        ensures
            r@ == bash_user_path(data@),
    {
        let mut s = copy_str(data);
        s.append("/bash-completion/completions/");
        s.append(crate::consts::PROGRAM_NAME);
        s
    }
}

impl ShellExporter for BashExporter {
    fn get_completions_sys_path(&self) -> (r: Option<String>)
        ensures
            r matches Some(p) && p@ == BASH_SYSTEM@,
    {
        Some(copy_str(BASH_SYSTEM))
    }

    fn get_completions_user_path(&self) -> (r: Option<String>)
        ensures
            r matches Some(p) ==> exists|d: Seq<char>| p@ == bash_user_path(d),
    {
        match data_dir() {
            Some(d) => Some(self.completions_user_path_in(d.as_str())),
            None => None,
        }
    }
}

impl Export for BashExporter {
    open spec fn init_text(&self) -> Seq<char> {
        "#!/bin/bash\n\n"@
    }

    open spec fn alias_text(&self, name: Seq<char>, path: Seq<char>) -> Seq<char> {
        "export "@ + name + "=\""@ + path + "\"\n"@
    }

    fn get_completions_path(&self) -> (r: String)
        ensures
            r@ == BASH_DEFAULT@,
    {
        copy_str(BASH_DEFAULT)
    }

    fn format_alias(&self, name: &str, path: &str) -> (r: String) {
        let mut s = copy_str("export ");
        s.append(name);
        s.append("=\"");
        s.append(path);
        s.append("\"\n");
        s
    }

    fn init_completions(&self) -> (r: String) {
        copy_str("#!/bin/bash\n\n")
    }
}

} // verus!
