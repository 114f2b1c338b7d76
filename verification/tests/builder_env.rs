use shortpath::builder::{
    align_config_text, expand_special_characters_with, populate_expanded, ShortpathOperationsExt,
    Shortpaths, ShortpathsAlignExt, ShortpathsBuilder,
};
use shortpath::config::Config;
use shortpath::env::{non_null_vars, unique_vars, EnvPathOperationsExt, EnvVars, EP};
use shortpath::shortpaths::{substitute_env_path, Shortpath, SP};

use indexmap::IndexMap;

fn sp(path: &str) -> Shortpath {
    Shortpath::new(path.to_string(), None)
}

fn names(m: &SP) -> Vec<String> {
    m.keys().cloned().collect()
}

fn no_vars() -> EnvVars {
    EnvVars { vars: IndexMap::new() }
}

fn shortpaths_nested() -> SP {
    let mut sp_paths: SP = IndexMap::new();
    sp_paths.insert("d".to_owned(), sp("$c/dddd"));
    sp_paths.insert("c".to_owned(), sp("$b/cccc"));
    sp_paths.insert("b".to_owned(), sp("$a/bbbb"));
    sp_paths.insert("a".to_owned(), sp("aaaa"));
    sp_paths
}

#[test]
fn building_expands_and_sorts() {
    let built = ShortpathsBuilder::from(shortpaths_nested()).build_with_home(no_vars(), None).unwrap();
    let m = &built.shortpaths;
    assert_eq!(names(m), vec!["a", "b", "c", "d"]);
    assert_eq!(m["d"].full_path, Some("aaaa/bbbb/cccc/dddd".to_string()));
    assert_eq!(m["d"].path, "$c/dddd");
    assert!(built.cfg.is_none());
    assert!(built.env_vars.is_some());
}

#[test]
fn building_expands_home() {
    let mut m: SP = IndexMap::new();
    m.insert("s".to_owned(), sp("~/src"));
    m.insert("t".to_owned(), sp("$s/t"));
    let home = Some("/home/u".to_string());
    let built = ShortpathsBuilder::from(m).build_with_home(no_vars(), home).unwrap();
    assert_eq!(built.shortpaths["s"].full_path, Some("/home/u/src".to_string()));
    assert_eq!(built.shortpaths["t"].full_path, Some("/home/u/src/t".to_string()));
}

#[test]
fn building_needs_a_home_for_tilde() {
    let mut m: SP = IndexMap::new();
    m.insert("s".to_owned(), sp("~/src"));
    assert!(ShortpathsBuilder::from(m).build_with_home(no_vars(), None).is_none());
    assert!(ShortpathsBuilder::new().build(no_vars()).is_none());
}

#[test]
fn builder_adds_shortpaths_and_configuration() {
    let b = ShortpathsBuilder::from(IndexMap::new())
        .shortpath("x".to_string(), "/x".to_string())
        .shortpath("y".to_string(), "$x/y".to_string())
        .with_config(Config::in_dir("/cfg".to_string(), "shortpaths.toml"));
    let built = b.build_with_home(no_vars(), None).unwrap();
    assert_eq!(names(&built.shortpaths), vec!["x", "y"]);
    assert_eq!(built.shortpaths["y"].full_path, Some("/x/y".to_string()));
    let cfg = built.cfg.unwrap();
    assert_eq!(cfg.config_dir, "/cfg");
    assert_eq!(cfg.file, "/cfg/shortpaths.toml");
    assert_eq!(cfg.format_config_path("other.toml"), "/cfg/other.toml");
}

#[test]
fn populating_and_expanding_separately() {
    let populated = populate_expanded(&shortpaths_nested());
    assert_eq!(populated["c"].full_path, Some("aaaa/bbbb/cccc".to_string()));
    assert_eq!(names(&populated), vec!["d", "c", "b", "a"]);
    let same = shortpaths_nested().populate_expanded_paths();
    assert_eq!(same["c"].full_path, populated["c"].full_path);

    let mut m: SP = IndexMap::new();
    m.insert("k".to_owned(), Shortpath::new("~/k".to_string(), Some("~/full".to_string())));
    m.insert("l".to_owned(), sp("~"));
    let e = expand_special_characters_with(&m, Some("/h".to_string())).unwrap();
    assert_eq!(e["k"].full_path, Some("/h/full".to_string()));
    assert_eq!(e["k"].path, "~/k");
    assert_eq!(e["l"].full_path, Some("/h".to_string()));
}

#[test]
fn sorting_operations() {
    let populated = populate_expanded(&shortpaths_nested());
    let sorted = populated.sort_paths();
    assert_eq!(names(&sorted), vec!["a", "b", "c", "d"]);
    let mut inplace = populated;
    let copy = inplace.sort_paths_inplace();
    assert_eq!(names(&inplace), vec!["a", "b", "c", "d"]);
    assert_eq!(names(&copy), vec!["a", "b", "c", "d"]);
}

#[test]
fn aligning_the_configuration() {
    let conts = "[shortpaths.a]\npath = \"aaaa\"\n\n[shortpaths.bbb]\npath = \"$a/b\"\n";
    assert_eq!(
        align_config_text(conts, 6),
        "[shortpaths.a]\npath   = \"aaaa\"\n\n[shortpaths.bbb]\npath   = \"$a/b\"\n"
    );
    assert_eq!(align_config_text("k = v", 3), "k   = v");

    let mut m: SP = IndexMap::new();
    m.insert("a".to_owned(), sp("aaaa"));
    m.insert("longer".to_owned(), sp("x"));
    let paths = Shortpaths { shortpaths: m, env_vars: None, cfg: None };
    assert_eq!(paths.tab_align_paths("a = 1\nlonger = 2"), "a      = 1\nlonger = 2");
}

#[test]
fn folding_environment_values() {
    let mut vars: EP = IndexMap::new();
    vars.insert("EMPTY".to_string(), "".to_string());
    vars.insert("HOME".to_string(), "/home/u".to_string());
    let mut m: SP = IndexMap::new();
    m.insert("w".to_owned(), Shortpath::new("/home/u/work".to_string(), Some("/f".to_string())));
    m.insert("o".to_owned(), sp("/opt"));
    let paths = Shortpaths { shortpaths: m, env_vars: Some(EnvVars { vars }), cfg: None };
    let folded = paths.fold_env_paths();
    assert_eq!(folded.shortpaths["w"].path, "${env:HOME}/work");
    assert_eq!(folded.shortpaths["w"].full_path, Some("/f".to_string()));
    assert_eq!(folded.shortpaths["o"].path, "/opt");
    assert_eq!(names(&folded.shortpaths), vec!["w", "o"]);
}

#[test]
fn environment_filters() {
    let mut vars: EP = IndexMap::new();
    vars.insert("a".to_string(), "/x".to_string());
    vars.insert("E".to_string(), "".to_string());
    vars.insert("HOME".to_string(), "/home/u".to_string());
    let mut m: SP = IndexMap::new();
    m.insert("a".to_owned(), sp("/a"));

    let unique = unique_vars(&m, &vars);
    assert_eq!(unique.keys().cloned().collect::<Vec<_>>(), vec!["E", "HOME"]);
    let non_null = non_null_vars(&vars);
    assert_eq!(non_null.keys().cloned().collect::<Vec<_>>(), vec!["a", "HOME"]);

    let both = vars.unique(&m).non_null();
    assert_eq!(both.keys().cloned().collect::<Vec<_>>(), vec!["HOME"]);
    assert_eq!(both["HOME"], "/home/u");
}

#[test]
fn unique_and_non_null_keep_order() {
    let mut vars: EP = IndexMap::new();
    vars.insert("Z".to_string(), "1".to_string());
    vars.insert("b".to_string(), "".to_string());
    vars.insert("A".to_string(), "2".to_string());
    let mut m: SP = IndexMap::new();
    m.insert("b".to_owned(), sp("/b"));
    let unique = unique_vars(&m, &vars);
    assert_eq!(unique.keys().cloned().collect::<Vec<_>>(), vec!["Z", "A"]);
    assert!(unique.keys().all(|k| !m.contains_key(k)));
    let non_null = non_null_vars(&vars);
    assert!(non_null.values().all(|v| !v.is_empty()));
}

#[test]
fn folded_environment_values_substitute_back() {
    let mut vars: EP = IndexMap::new();
    vars.insert("HOME".to_string(), "/home/u".to_string());
    let mut m: SP = IndexMap::new();
    m.insert("w".to_owned(), sp("/home/u/work/home/u"));
    let paths = Shortpaths { shortpaths: m, env_vars: Some(EnvVars { vars }), cfg: None };
    let folded = paths.fold_env_paths();
    let path = &folded.shortpaths["w"].path;
    assert_eq!(path, "${env:HOME}/work${env:HOME}");
    assert_eq!(substitute_env_path(path, "HOME", "/home/u"), "/home/u/work/home/u");
}
