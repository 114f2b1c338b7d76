//! Exporting shortpaths as shell completions: one line per shortpath, in the
//! map's order, after a header, with `${env:NAME}` written as `$NAME`.

pub mod bash;
pub mod powershell;

use vstd::prelude::*;
use crate::app::ExportType;
use crate::export::bash::BashExporter;
use crate::export::powershell::PowershellExporter;
use crate::shortpaths::{
    SP, Entries, sp_entries, sp_wf, sp_len, sp_get_index, substitute_env_paths, subst_env_entry,
};

verus! {

/// The completions for `e` in a format: the header, then one line per entry.
pub open spec fn completions_text(
    init: Seq<char>,
    alias: spec_fn(Seq<char>, Seq<char>) -> Seq<char>,
    e: Entries,
) -> Seq<char>
    decreases e.len(),
{
    if e.len() == 0 {
        init
    } else {
        completions_text(init, alias, e.drop_last()) + alias(e.last().0, e.last().1.path)
    }
}

/// Where shell completions are installed for a user and for the system.
pub trait ShellExporter {
    /** Get the user shell completions file path, when the directory it lies
      * in can be found */
    fn get_completions_user_path(&self) -> Option<String>;

    /** Get the system shell completions file path, when it can be found */
    fn get_completions_sys_path(&self) -> Option<String>;
}

/**
  * Export to multiple applications with a single unified interface
  */
pub trait Export: Sized {
    /// The header of the completions file.
    spec fn init_text(&self) -> Seq<char>;

    /// The line that defines `name` as `path`.
    spec fn alias_text(&self, name: Seq<char>, path: Seq<char>) -> Seq<char>;

    /** Get the default local platform independent shell completions path */
    fn get_completions_path(&self) -> String;

    /// The line that defines `name` as `path`.
    fn format_alias(&self, name: &str, path: &str) -> (r: String)
        ensures
            r@ == self.alias_text(name@, path@),
    ;

    /// The header of the completions file.
    fn init_completions(&self) -> (r: String)
        ensures
            r@ == self.init_text(),
    ;

    /** Generate shell completions: the header, then one line per shortpath
      * with its `${env:NAME}` components written as `$NAME`. */
    fn gen_completions(&self, shortpaths: SP) -> (r: String)
        requires
            sp_wf(shortpaths),
        ensures
            r@ == completions_text(
                self.init_text(),
                |n: Seq<char>, p: Seq<char>| self.alias_text(n, p),
                sp_entries(shortpaths).map_values(|x| subst_env_entry(x)),
            ),
    {
        let mut output = self.init_completions();
        let shortpaths = substitute_env_paths(shortpaths);
        let ghost e = sp_entries(shortpaths);
        let n = sp_len(&shortpaths);
        let mut i: usize = 0;
        assert(e.take(0) =~= Seq::<(Seq<char>, crate::shortpaths::ShortpathView)>::empty());
        while i < n
            invariant
                n == e.len(),
                e == sp_entries(shortpaths),
                i <= n,
                output@ == completions_text(
                    self.init_text(),
                    |n: Seq<char>, p: Seq<char>| self.alias_text(n, p),
                    e.take(i as int),
                ),
            decreases n - i,
        {
            let (name, sp) = sp_get_index(&shortpaths, i);
            let line = self.format_alias(name.as_str(), sp.path.as_str());
            output.append(line.as_str());
            assert(e.take(i + 1).drop_last() =~= e.take(i as int));
            assert(e.take(i + 1).last() == e[i as int]);
            i = i + 1;
        }
        assert(e.take(n as int) =~= e);
        output
    }
}

/// An exporter of either kind.
pub enum Exporter {
    Bash(BashExporter),
    Powershell(PowershellExporter),
}

/** Returns the specific exporter */
pub fn get_exporter(export_type: ExportType) -> (r: Exporter)
    ensures
        export_type == ExportType::Bash ==> r is Bash,
        export_type == ExportType::Powershell ==> r is Powershell,
{
    match export_type {
        ExportType::Bash => Exporter::Bash(BashExporter),
        ExportType::Powershell => Exporter::Powershell(PowershellExporter),
    }
}

impl Export for Exporter {
    open spec fn init_text(&self) -> Seq<char> {
        match self {
            Exporter::Bash(b) => b.init_text(),
            Exporter::Powershell(p) => p.init_text(),
        }
    }

    open spec fn alias_text(&self, name: Seq<char>, path: Seq<char>) -> Seq<char> {
        match self {
            Exporter::Bash(b) => b.alias_text(name, path),
            Exporter::Powershell(p) => p.alias_text(name, path),
        }
    }

    fn get_completions_path(&self) -> (r: String)
        ensures
            self is Bash ==> r@ == crate::export::bash::BASH_DEFAULT@,
            self is Powershell ==> r@ == crate::export::powershell::POWERSHELL_DEFAULT@,
    {
        match self {
            Exporter::Bash(b) => b.get_completions_path(),
            Exporter::Powershell(p) => p.get_completions_path(),
        }
    }

    fn format_alias(&self, name: &str, path: &str) -> (r: String) {
        match self {
            Exporter::Bash(b) => b.format_alias(name, path),
            Exporter::Powershell(p) => p.format_alias(name, path),
        }
    }

    fn init_completions(&self) -> (r: String) {
        match self {
            Exporter::Bash(b) => b.init_completions(),
            Exporter::Powershell(p) => p.init_completions(),
        }
    }
}

} // verus!
