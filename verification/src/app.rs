//! The command line as values: the commands and their arguments, the export
//! formats, the resolve modes, and the width bookkeeping of the log format.

use vstd::prelude::*;

verus! {

/// The command line: a verbosity switch and an optional command.
#[derive(Debug)]
pub struct CLI {
    pub verbose: bool,
    pub command: Option<Commands>,
}

/// The commands, with their arguments (paths as strings).
#[allow(inconsistent_fields)]
#[derive(Debug)]
pub enum Commands {
    Add { name: String, path: String },
    Remove { name: String },
    List { names: Option<Vec<String>> },
    Check {},
    Resolve { resolve_type: ResolveType, mode: Mode, dry_run: bool },
    Export { export_type: ExportType, output_file: Option<String> },
    Update { current_name: String, name: Option<String>, path: Option<String> },
    Hook { hook: Option<Hooks> },
}

/// The shell hooks that keep shortpaths in step with files that are removed
/// or moved.
#[derive(Debug)]
pub enum Hooks {
    Remove { filepaths: Option<Vec<String>> },
    Move { src: String, dest: String },
}

/// The shells that completions can be exported for.
#[derive(Copy, Clone, Debug, PartialEq, Eq, PartialOrd, Ord, Structural)]
pub enum ExportType {
    Bash,
    Powershell,
}

/// Whether unreachable shortpaths are resolved automatically or by asking.
#[derive(Copy, Clone, Debug, PartialEq, Eq, PartialOrd, Ord, Structural)]
pub enum Mode {
    Automatic,
    Manual,
}

/// How replacements for unreachable shortpaths are searched for.
#[derive(Copy, Clone, Debug, PartialEq, Eq, PartialOrd, Ord, Structural)]
pub enum ResolveType {
    Matching,
}

/// The widest log target seen so far, updated with `target` (its width in
/// bytes); returns the new width.
pub fn max_target_width(max_width: &mut usize, target: &str) -> (r: usize)
    ensures
        r == (if *old(max_width) < crate::helpers::byte_len(target@) {
            crate::helpers::byte_len(target@)
        } else {
            *old(max_width)
        }),
        *final(max_width) == r,
{
    let len = target.len();
    if *max_width < len {
        *max_width = len;
        len
    } else {
        *max_width
    }
}

} // verus!
