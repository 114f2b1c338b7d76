//! Completions for PowerShell: `$Env:NAME = "PATH"` lines.

use vstd::prelude::*;
use crate::export::{Export, ShellExporter};
use crate::shortpaths::SP;
use crate::strings::{copy_str, chars_to_string};

verus! {

/// Where PowerShell completions are written by default.
pub const POWERSHELL_DEFAULT: &'static str = "completions/shortpaths.ps1";

/// Exports shortpaths as PowerShell environment variables.
#[derive(Default, Debug)]
pub struct PowershellExporter;

/// Where PowerShell completions go, below the configuration directory `dir`.
pub open spec fn powershell_user_path(dir: Seq<char>) -> Seq<char> {
    dir + "/completions/powershell/"@ + "shortpaths"@ + ".ps1"@
}

impl PowershellExporter {
    /// The completions path below the configuration directory `dir`.
    pub fn completions_user_path_in(&self, dir: &str) -> (r: String)
        ensures
            r@ == powershell_user_path(dir@),
    {
        let mut s = copy_str(dir);
        s.append("/completions/powershell/");
        s.append(crate::consts::PROGRAM_NAME);
        s.append(".ps1");
        s
    }
}

impl ShellExporter for PowershellExporter {
    fn get_completions_sys_path(&self) -> (r: Option<String>)
        ensures
            r matches Some(p) ==> exists|d: Seq<char>| p@ == powershell_user_path(d),
    {
        self.get_completions_user_path()
    }

    fn get_completions_user_path(&self) -> (r: Option<String>)
        ensures
            r matches Some(p) ==> exists|d: Seq<char>| p@ == powershell_user_path(d),
    {
        match crate::config::program_config_dir() {
            Some(d) => Some(self.completions_user_path_in(d.as_str())),
            None => None,
        }
    }
}

impl Export for PowershellExporter {
    open spec fn init_text(&self) -> Seq<char> {
        Seq::empty()
    }

    open spec fn alias_text(&self, name: Seq<char>, path: Seq<char>) -> Seq<char> {
        "$Env:"@ + name + " = \""@ + path + "\"\n"@
    }

    fn get_completions_path(&self) -> (r: String)
        ensures
            r@ == POWERSHELL_DEFAULT@,
    {
        copy_str(POWERSHELL_DEFAULT)
    }

    fn format_alias(&self, name: &str, path: &str) -> (r: String) {
        let mut s = copy_str("$Env:");
        s.append(name);
        s.append(" = \"");
        s.append(path);
        s.append("\"\n");
        s
    }

    fn init_completions(&self) -> (r: String) {
        let v: Vec<char> = Vec::new();
        chars_to_string(&v)
    }
}

} // verus!
