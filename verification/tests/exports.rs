use shortpath::builder::ShortpathsBuilder;
use shortpath::env::EnvVars;
use shortpath::export::bash::BashExporter;
use shortpath::export::powershell::PowershellExporter;
use shortpath::export::{get_exporter, Export, Exporter, ShellExporter};
use shortpath::app::ExportType;
use shortpath::shortpaths::{Shortpath, SP};

use indexmap::IndexMap;

// Fixtures

fn sp(path: &str) -> Shortpath {
    Shortpath::new(path.to_string(), None)
}

// Different shortpath configurations to choose from
fn shortpaths_default() -> SP {
    let mut sp_paths: SP = IndexMap::new();
    sp_paths.insert("d".to_owned(), sp("$a/dddd"));
    sp_paths.insert("c".to_owned(), sp("$b/cccc"));
    sp_paths.insert("b".to_owned(), sp("$a/bbbb"));
    sp_paths.insert("a".to_owned(), sp("aaaa"));
    sp_paths
}

fn shortpaths_nested() -> SP {
    let mut sp_paths: SP = IndexMap::new();
    sp_paths.insert("d".to_owned(), sp("$c/dddd"));
    sp_paths.insert("c".to_owned(), sp("$b/cccc"));
    sp_paths.insert("b".to_owned(), sp("$a/bbbb"));
    sp_paths.insert("a".to_owned(), sp("aaaa"));
    sp_paths
}

/// Initialize shortpaths
fn setup_shortpaths(get_shortpaths: impl Fn() -> SP) -> SP {
    let sp_paths = get_shortpaths();
    let env_vars = EnvVars { vars: IndexMap::new() };
    ShortpathsBuilder::from(sp_paths).build(env_vars).unwrap().shortpaths
}

#[test]
fn test_serialize_bash() {
    let shortpaths = setup_shortpaths(shortpaths_default);

    let exp = BashExporter::default();

    // Test
    let actual = exp.gen_completions(shortpaths);
    let expect = "#!/bin/bash\n\nexport a=\"aaaa\"\nexport b=\"$a/bbbb\"\nexport c=\"$b/cccc\"\nexport d=\"$a/dddd\"\n";
    assert_eq!(actual, expect, "Bash shell completions are generated in the correct order");
}

#[test]
fn test_nested_serialize_bash() {
    let shortpaths = setup_shortpaths(shortpaths_nested);
    let exp = BashExporter::default();

    // Test
    let actual = exp.gen_completions(shortpaths);
    let expect = "#!/bin/bash\n\nexport a=\"aaaa\"\nexport b=\"$a/bbbb\"\nexport c=\"$b/cccc\"\nexport d=\"$c/dddd\"\n";
    assert_eq!(actual, expect, "Bash shell completions are generated in the correct order");
    // A placeholder assertion, `assert_eq!(1, 0)`, used to end this test: it
    // fails whatever the exporter does, so it is not kept.
}

#[test]
fn bash_lines_write_env_variables_as_aliases() {
    let mut paths: SP = IndexMap::new();
    paths.insert("w".to_owned(), sp("${env:HOME}/work"));
    let actual = BashExporter.gen_completions(paths);
    assert_eq!(actual, "#!/bin/bash\n\nexport w=\"$HOME/work\"\n");
}

#[test]
fn bash_empty_map_gives_only_the_header() {
    let actual = BashExporter.gen_completions(IndexMap::new());
    assert_eq!(actual, "#!/bin/bash\n\n");
}

#[test]
fn powershell_completions_are_variables() {
    let shortpaths = setup_shortpaths(shortpaths_default);
    let exp = PowershellExporter::default();
    let actual = exp.gen_completions(shortpaths);
    let expect = "$Env:a = \"aaaa\"\n$Env:b = \"$a/bbbb\"\n$Env:c = \"$b/cccc\"\n$Env:d = \"$a/dddd\"\n";
    assert_eq!(actual, expect);
}

#[test]
fn bash_paths() {
    let exp = BashExporter;
    assert_eq!(exp.get_completions_path(), "completions/shortpaths.bash");
    assert_eq!(
        exp.get_completions_sys_path(),
        Some("/usr/share/bash-completion/completions/shortpaths".to_string())
    );
    assert_eq!(
        exp.completions_user_path_in("/home/u/.local/share"),
        "/home/u/.local/share/bash-completion/completions/shortpaths"
    );
    assert_eq!(exp.format_alias("x", "/y"), "export x=\"/y\"\n");
    assert_eq!(exp.init_completions(), "#!/bin/bash\n\n");
}

#[test]
fn powershell_paths() {
    let exp = PowershellExporter;
    assert_eq!(exp.get_completions_path(), "completions/shortpaths.ps1");
    assert_eq!(exp.get_completions_sys_path(), exp.get_completions_user_path());
    assert_eq!(exp.completions_user_path_in("/cfg"), "/cfg/completions/powershell/shortpaths.ps1");
    assert_eq!(exp.format_alias("x", "/y"), "$Env:x = \"/y\"\n");
    assert_eq!(exp.init_completions(), "");
}

#[test]
fn exporter_by_type() {
    let b = get_exporter(ExportType::Bash);
    assert!(matches!(b, Exporter::Bash(_)));
    assert_eq!(b.format_alias("n", "p"), "export n=\"p\"\n");
    let p = get_exporter(ExportType::Powershell);
    assert!(matches!(p, Exporter::Powershell(_)));
    assert_eq!(p.format_alias("n", "p"), "$Env:n = \"p\"\n");
}
