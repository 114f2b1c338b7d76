use shortpath::builder::ShortpathsBuilder;
use shortpath::env::EnvVars;
use shortpath::helpers::{matching_file_names, parent_dirs, ResolveChoices, ScopeResults};
use shortpath::shortpaths::{
    add_shortpath, apply_resolve_updates, auto_resolve_updates, expand_path, expand_shortpath,
    finish_resolve, manual_resolve_updates, show_lines, ManualNext,
    find_unreachable, fold_path, move_shortpath, try_expand_shortpath, removed_shortpath_names, fold_shortpath, get_shortpath_type, get_sp_deps, parse_alias,
    parse_env_alias, remove_confirmed, remove_prompt_message, remove_shortpath, resolve,
    sort_shortpaths, substitute_env_alias_name, substitute_env_path, substitute_env_paths,
    update_shortpath, update_shortpath_name, update_shortpath_path, FindKeyIndexMapExt, Shortpath,
    ShortpathVariant, SP,
};

use indexmap::IndexMap;
use walkdir::WalkDir;
use std::cmp::Ordering;

fn sp(path: &str) -> Shortpath {
    Shortpath::new(path.to_string(), None)
}

fn full(path: &str, full_path: &str) -> Shortpath {
    Shortpath::new(path.to_string(), Some(full_path.to_string()))
}

fn shortpaths_default() -> SP {
    let mut sp_paths: SP = IndexMap::new();
    sp_paths.insert("d".to_owned(), sp("$a/dddd"));
    sp_paths.insert("c".to_owned(), sp("$b/cccc"));
    sp_paths.insert("b".to_owned(), sp("$a/bbbb"));
    sp_paths.insert("a".to_owned(), sp("aaaa"));
    sp_paths
}

fn setup_shortpaths(get_shortpaths: impl Fn() -> SP) -> SP {
    let sp_paths = get_shortpaths();
    let env_vars = EnvVars { vars: IndexMap::new() };
    ShortpathsBuilder::from(sp_paths).build(env_vars).unwrap().shortpaths
}

fn names(m: &SP) -> Vec<String> {
    m.keys().cloned().collect()
}

#[test]
fn test_shortpaths_find_key() {
    let sp_im = setup_shortpaths(shortpaths_default);
    sp_im.iter().for_each(|p| println!("{:?}", p));

    let key = sp_im.find_key_for_value("$a/bbbb");
    println!("{:?}", key);
    assert_ne!(None, key, "Can find keys from &str values");

    let key = sp_im.find_key_for_value("$a/bbbb".to_string());
    println!("{:?}", key);
    assert_ne!(None, key, "Can find keys from String values");
}

#[test]
fn find_keys_by_path_and_full_path() {
    let m = setup_shortpaths(shortpaths_default);
    assert_eq!(m.find_key_for_value("$a/bbbb"), Some(&"b".to_string()));
    assert_eq!(m.find_key_for_value("nowhere"), None);
    assert_eq!(m.find_key_for_full_path("aaaa/bbbb/cccc"), Some(&"c".to_string()));
    assert_eq!(m.find_key_for_full_path("$b/cccc"), None);

    let mut twice: SP = IndexMap::new();
    twice.insert("x".to_owned(), sp("/p"));
    twice.insert("y".to_owned(), sp("/q"));
    twice.insert("z".to_owned(), sp("/p"));
    let keys = twice.find_keys_for_value("/p");
    assert_eq!(keys, vec![&"x".to_string(), &"z".to_string()]);
    assert_eq!(twice.find_key_for_value("/p".to_string()), Some(&"x".to_string()));
}

#[test]
fn expand_and_fold_single_alias() {
    assert_eq!(expand_path("$a/x/$a", "a", "/r"), "/r/x//r");
    assert_eq!(expand_path("$ab/x", "a", "/r"), "/rb/x");
    assert_eq!(fold_path("/r/x", "a", "/r"), "$a/x");
    assert_eq!(fold_path("/s/x", "a", "/r"), "/s/x");
    // folding then expanding gives the text back
    let folded = fold_path("/home/u/src/x", "src", "/home/u/src");
    assert_eq!(folded, "$src/x");
    assert_eq!(expand_path(&folded, "src", "/home/u/src"), "/home/u/src/x");
}

#[test]
fn environment_substitution() {
    assert_eq!(substitute_env_path("${env:HOME}/x", "HOME", "/home/u"), "/home/u/x");
    assert_eq!(substitute_env_path("${env:HOMEX}/x", "HOME", "/home/u"), "${env:HOMEX}/x");
    assert_eq!(substitute_env_alias_name("${env:HOME}/x", "HOME"), "$HOME/x");
}

#[test]
fn shortpath_component_types() {
    assert_eq!(get_shortpath_type(&[]), None);
    assert_eq!(get_shortpath_type(&['$', 'a']), Some(ShortpathVariant::Alias));
    assert_eq!(get_shortpath_type(&['u', 's', 'r']), Some(ShortpathVariant::Independent));
    assert_eq!(get_shortpath_type(&['}']), Some(ShortpathVariant::Independent));
    assert_eq!(get_shortpath_type(&['{', 'x', '}']), Some(ShortpathVariant::Independent));
    assert_eq!(get_shortpath_type(&['$', 'a', '}']), Some(ShortpathVariant::Alias));
    let empty_env: Vec<char> = "${env:}".chars().collect();
    assert_eq!(get_shortpath_type(&empty_env), Some(ShortpathVariant::Environment));
    let env: Vec<char> = "${env:HOME}".chars().collect();
    assert_eq!(get_shortpath_type(&env), Some(ShortpathVariant::Environment));
}

#[test]
fn parsing_aliases() {
    assert_eq!(parse_alias("$abc".to_string()), Some("abc".to_string()));
    assert_eq!(parse_alias("$".to_string()), Some("".to_string()));
    assert_eq!(parse_alias("abc".to_string()), None);
    assert_eq!(parse_env_alias("${env:HOME}".to_string()), Some("HOME".to_string()));
    assert_eq!(parse_env_alias("${env:}".to_string()), Some("".to_string()));
    assert_eq!(parse_env_alias("${env:".to_string()), None);
    assert_eq!(parse_env_alias("${env:HOME".to_string()), None);
    assert_eq!(parse_env_alias("${env:HOME}/x".to_string()), None);
    assert_eq!(parse_env_alias("$HOME".to_string()), None);
}

#[test]
fn dependencies_of_an_alias() {
    let m = shortpaths_default();
    let (name, path) = get_sp_deps("$b".to_string(), &m);
    assert_eq!(name, "b");
    assert_eq!(path, "$a/bbbb");
}

#[test]
fn expanding_nested_shortpaths() {
    let m = shortpaths_default();
    assert_eq!(expand_shortpath(&sp("$a/dddd"), &m), "aaaa/dddd");
    assert_eq!(expand_shortpath(&sp("$b/cccc"), &m), "aaaa/bbbb/cccc");
    assert_eq!(expand_shortpath(&sp("aaaa"), &m), "aaaa");
    assert_eq!(expand_shortpath(&sp("/x/$a"), &m), "/x/$a");
}

#[test]
fn expanding_deeply_nested_shortpaths() {
    let mut m: SP = IndexMap::new();
    m.insert("e".to_owned(), sp("$d/eeee"));
    m.insert("d".to_owned(), sp("$c/dddd"));
    m.insert("c".to_owned(), sp("$b/cccc"));
    m.insert("b".to_owned(), sp("$a/bbbb"));
    m.insert("a".to_owned(), sp("aaaa"));
    assert_eq!(expand_shortpath(&sp("$e/f"), &m), "aaaa/bbbb/cccc/dddd/eeee/f");
    assert_eq!(expand_shortpath(&m["e"], &m), "aaaa/bbbb/cccc/dddd/eeee");
}

#[test]
fn folding_a_path_into_aliases() {
    let m = setup_shortpaths(shortpaths_default);
    assert_eq!(fold_shortpath("aaaa/bbbb/x".to_string(), &m), "$b/x");
    assert_eq!(fold_shortpath("aaaa/zzz".to_string(), &m), "$a/zzz");
    assert_eq!(fold_shortpath("elsewhere/zzz".to_string(), &m), "elsewhere/zzz");
}

#[test]
fn env_variables_become_aliases() {
    let mut m: SP = IndexMap::new();
    m.insert("w".to_owned(), full("${env:HOME}/work", "/home/u/work"));
    m.insert("v".to_owned(), sp("/plain"));
    let r = substitute_env_paths(m);
    assert_eq!(names(&r), vec!["w".to_string(), "v".to_string()]);
    assert_eq!(r["w"].path, "$HOME/work");
    assert_eq!(r["w"].full_path, Some("/home/u/work".to_string()));
    assert_eq!(r["v"].path, "/plain");
}

#[test]
fn sorting_by_full_path_is_stable() {
    let mut m: SP = IndexMap::new();
    m.insert("z".to_owned(), full("z", "/b"));
    m.insert("y".to_owned(), full("y", "/a/c"));
    m.insert("x".to_owned(), full("x", "/a"));
    m.insert("w".to_owned(), full("w", "/b"));
    m.insert("v".to_owned(), full("v", "/a-b"));
    let sorted = sort_shortpaths(m);
    // "/a" < "/a/c" < "/a-b" component by component; equal paths keep their order
    assert_eq!(names(&sorted), vec!["x", "y", "v", "z", "w"]);
}

#[test]
fn adding_a_shortpath() {
    let mut m: SP = IndexMap::new();
    add_shortpath(&mut m, "a".to_string(), "/x".to_string());
    add_shortpath(&mut m, "b".to_string(), "/y".to_string());
    add_shortpath(&mut m, "a".to_string(), "/z".to_string());
    assert_eq!(names(&m), vec!["a", "b"]);
    assert_eq!(m["a"].path, "/z");
    assert_eq!(m["a"].full_path, Some("/z".to_string()));
}

#[test]
fn removing_shortpaths() {
    let mut m = shortpaths_default();
    let removed = remove_shortpath(&mut m, &["d".to_string()], true, &[]);
    assert_eq!(removed.len(), 1);
    assert_eq!(removed[0].as_ref().unwrap().path, "$a/dddd");
    // the others keep their order
    assert_eq!(names(&m), vec!["c", "b", "a"]);

    let removed = remove_shortpath(&mut m, &["zz".to_string()], true, &[]);
    assert!(removed[0].is_none());
    assert_eq!(names(&m), vec!["c", "b", "a"]);

    let answers = vec!["no".to_string(), "yes".to_string()];
    let removed = remove_shortpath(&mut m, &["a".to_string(), "c".to_string()], false, &answers);
    assert_eq!(removed.len(), 1);
    assert_eq!(removed[0].as_ref().unwrap().path, "$b/cccc");
    assert_eq!(names(&m), vec!["b", "a"]);
}

#[test]
fn removal_questions_and_answers() {
    let mut m = shortpaths_default();
    assert_eq!(remove_prompt_message(&m, "b"), "Remove b : $a/bbbb? [yes/no]: ");
    assert!(remove_confirmed(&mut m, "b", "no\n").is_none());
    assert_eq!(m.len(), 4);
    assert!(remove_confirmed(&mut m, "b", " yes").is_none());
    assert_eq!(m.len(), 4);
    // the line read from the terminal still ends in its newline
    let r = remove_confirmed(&mut m, "b", "yes\n").unwrap();
    assert_eq!(r.unwrap().path, "$a/bbbb");
    assert_eq!(names(&m), vec!["d", "c", "a"]);
}

#[test]
fn interactive_removal_with_terminal_lines() {
    let mut m = shortpaths_default();
    let answers = vec!["yes\n".to_string(), "no\n".to_string()];
    let removed = remove_shortpath(&mut m, &["b".to_string(), "c".to_string()], false, &answers);
    assert_eq!(removed.len(), 1);
    assert_eq!(removed[0].as_ref().unwrap().path, "$a/bbbb");
    assert_eq!(names(&m), vec!["d", "c", "a"]);
}

#[test]
fn updating_shortpaths() {
    let mut m = shortpaths_default();
    // a new name keeps the shortpath's place
    assert!(update_shortpath(&mut m, "b", Some("bb".to_string()), None));
    assert_eq!(names(&m), vec!["d", "c", "bb", "a"]);
    assert_eq!(m["bb"].path, "$a/bbbb");

    assert!(update_shortpath(&mut m, "a", None, Some("/new".to_string())));
    assert_eq!(m["a"].path, "/new");
    assert_eq!(m["a"].full_path, Some("/new".to_string()));

    assert!(!update_shortpath(&mut m, "missing", Some("x".to_string()), None));
    // a name that is taken is not applied
    assert!(!update_shortpath(&mut m, "c", Some("bb".to_string()), None));
    assert_eq!(m["c"].path, "$b/cccc");
    assert_eq!(m["bb"].path, "$a/bbbb");
    assert!(!update_shortpath(&mut m, "a", None, None));
    assert_eq!(names(&m), vec!["d", "c", "bb", "a"]);

    update_shortpath_name("d", "dd".to_string(), &mut m);
    assert_eq!(names(&m), vec!["dd", "c", "bb", "a"]);
    update_shortpath_path("c", "/c".to_string(), None, &mut m);
    assert_eq!(m["c"].path, "/c");
    assert_eq!(m["c"].full_path, None);
}

#[test]
fn unreachable_shortpaths() {
    let mut m: SP = IndexMap::new();
    m.insert("a".to_owned(), full("a", "/a"));
    m.insert("b".to_owned(), sp("b"));
    m.insert("c".to_owned(), full("c", "/c"));
    let u = find_unreachable(&m, &[true, true, false]);
    assert_eq!(names(&u), vec!["b", "c"]);
    let u = find_unreachable(&m, &[true, true, true]);
    assert_eq!(names(&u), vec!["b"]);
}

fn results(dirs: Vec<(&str, Vec<&str>)>) -> ScopeResults {
    dirs.into_iter()
        .map(|(d, fs)| (d.to_string(), fs.into_iter().map(|f| f.to_string()).collect()))
        .collect()
}

#[test]
fn automatic_resolution() {
    let mut m: SP = IndexMap::new();
    m.insert("gone".to_owned(), full("~/old/f", "/home/u/old/f"));
    m.insert("here".to_owned(), full("/h", "/h"));
    let unreachable = find_unreachable(&m, &[false, true]);
    let found = vec![
        ("gone".to_string(), results(vec![("/home/u/old", vec![]), ("/home/u", vec!["/home/u/f"])])),
    ];
    let updates = auto_resolve_updates(&unreachable, &found);
    assert_eq!(
        updates,
        vec![("gone".to_string(), "/home/u/old/f".to_string(), "/home/u/f".to_string())]
    );
    let mut copy = m.clone();
    apply_resolve_updates(&mut copy, &updates);
    assert_eq!(copy["gone"].path, "/home/u/f");

    let mut dry = m.clone();
    assert_eq!(resolve(&mut dry, &unreachable, &found, true), updates);
    assert_eq!(dry["gone"].path, "~/old/f");

    resolve(&mut m, &unreachable, &found, false);
    assert_eq!(m["gone"].path, "/home/u/f");
    assert_eq!(m["gone"].full_path, Some("/home/u/f".to_string()));
    assert_eq!(m["here"].path, "/h");
}

#[test]
fn automatic_resolution_without_matches_changes_nothing() {
    let mut m: SP = IndexMap::new();
    m.insert("gone".to_owned(), full("/old/f", "/old/f"));
    let unreachable = find_unreachable(&m, &[false]);
    let found = vec![("gone".to_string(), results(vec![("/old", vec![]), ("/", vec![])]))];
    assert!(resolve(&mut m, &unreachable, &found, false).is_empty());
    assert_eq!(m["gone"].path, "/old/f");
}

#[test]
fn each_shortpath_is_resolved_from_its_own_search() {
    let mut m: SP = IndexMap::new();
    m.insert("n1".to_owned(), full("/old/f1", "/old/f1"));
    m.insert("n2".to_owned(), full("/old/f2", "/old/f2"));
    let unreachable = find_unreachable(&m, &[false, false]);
    let found = vec![
        ("n1".to_string(), results(vec![("/old", vec![]), ("/", vec!["/f1"])])),
        ("n2".to_string(), results(vec![("/old", vec![]), ("/", vec!["/f2"])])),
    ];
    resolve(&mut m, &unreachable, &found, false);
    assert_eq!(m["n1"].path, "/f1");
    assert_eq!(m["n2"].path, "/f2");
}

/// The files right inside `dir`, as (file name, path).
fn listing(dir: &str) -> Vec<(String, String)> {
    WalkDir::new(dir)
        .max_depth(1)
        .into_iter()
        .filter_map(Result::ok)
        .map(|f| (f.file_name().to_string_lossy().into_owned(), f.path().to_string_lossy().into_owned()))
        .collect()
}

#[test]
fn test_shortpaths_resolve() {
    let mut unreachable: SP = IndexMap::new();
    unreachable.insert("DNE".to_owned(), Shortpath::new("~/Workspace/test/DNE".to_string(), None));

    let builder = ShortpathsBuilder::from(unreachable);
    let paths = builder.build(EnvVars { vars: IndexMap::new() }).unwrap();
    let mut shortpaths = paths.shortpaths;

    // Automatic resolution of what is not on disk, searching the parent
    // directories for a file of the same name
    let exists: Vec<bool> = shortpaths
        .values()
        .map(|sp| std::path::Path::new(sp.full_path.as_ref().unwrap()).exists())
        .collect();
    let unreachable = find_unreachable(&shortpaths, &exists);
    let results: Vec<(String, ScopeResults)> = unreachable
        .iter()
        .map(|(name, sp)| {
            let found = parent_dirs(sp.full_path.as_ref().unwrap())
                .into_iter()
                .map(|dir| {
                    let matches = matching_file_names(sp, listing(&dir));
                    (dir, matches)
                })
                .collect();
            (name.clone(), found)
        })
        .collect();
    // a dry run: the changes are shown, not made
    let before = shortpaths["DNE"].path.clone();
    resolve(&mut shortpaths, &unreachable, &results, true);
    assert!(shortpaths.contains_key("DNE"));
    assert_eq!(shortpaths.len(), 1);
    assert_eq!(shortpaths["DNE"].path, before);
}

#[test]
fn shortpaths_compare_by_full_path() {

    let a = full("x", "/a/c");
    let b = full("y", "/a-b");
    assert_eq!(a.cmp(&b), Ordering::Less);
    assert_eq!(b.cmp(&a), Ordering::Greater);
    assert_eq!(a.partial_cmp(&full("z", "/a/./c")), Some(Ordering::Equal));
}

fn project_map() -> SP {
    let mut m: SP = IndexMap::new();
    m.insert("a".to_owned(), full("/home/u/src", "/home/u/src"));
    m.insert("b".to_owned(), full("$a/proj", "/home/u/src/proj"));
    m
}

#[test]
fn hooks_for_removed_files() {
    let m = project_map();
    let files = vec!["/home/u/src/proj".to_string(), "/home/u/src".to_string(), "/tmp/x".to_string()];
    assert_eq!(removed_shortpath_names(&m, &files), vec!["b".to_string()]);
}

#[test]
fn hooks_for_moved_files() {
    let mut m = project_map();
    assert!(move_shortpath(&mut m, "/home/u/src/proj", "/home/u/src/proj2"));
    assert_eq!(m["b"].path, "$a/proj2");
    assert_eq!(m["b"].full_path, Some("/home/u/src/proj2".to_string()));
    assert!(!move_shortpath(&mut m, "/elsewhere/f", "/elsewhere/g"));
    assert_eq!(names(&m), vec!["a", "b"]);
}

#[test]
fn bounded_expansion() {
    let m = shortpaths_default();
    assert_eq!(try_expand_shortpath(&sp("$b/x"), &m, 5), Some("aaaa/bbbb/x".to_string()));
    assert_eq!(try_expand_shortpath(&sp("$b/x"), &m, 1), None);
    assert_eq!(try_expand_shortpath(&sp("$zz/x"), &m, 5), None);
    assert_eq!(try_expand_shortpath(&sp(""), &m, 5), None);
    let mut cyc: SP = IndexMap::new();
    cyc.insert("p".to_owned(), sp("$q/1"));
    cyc.insert("q".to_owned(), sp("$p/2"));
    assert_eq!(try_expand_shortpath(&cyc["p"], &cyc, 3), None);
}

#[test]
fn listing_named_shortpaths() {
    let m = shortpaths_default();
    let lines = show_lines(&m, &["b".to_string(), "zz".to_string(), "a".to_string()]);
    assert_eq!(lines, vec!["b : $a/bbbb", "Could not find zz", "a : aaaa"]);
    assert!(show_lines(&m, &[]).is_empty());
}

fn question_of(next: ManualNext) -> (usize, String) {
    match next {
        ManualNext::Ask(k, q) => (k, q),
        ManualNext::Done(_) => panic!("no question was asked"),
    }
}

fn updates_of(next: ManualNext) -> Vec<(String, String, String)> {
    match next {
        ManualNext::Ask(_, q) => panic!("a question is still owed: {}", q),
        ManualNext::Done(updates) => updates,
    }
}

#[test]
fn manual_resolution() {
    let mut m: SP = IndexMap::new();
    m.insert("gone".to_owned(), full("~/old/f", "/home/u/old/f"));
    m.insert("here".to_owned(), full("/h", "/h"));
    let unreachable = find_unreachable(&m, &[false, true]);
    let found = vec![(
        "gone".to_string(),
        results(vec![("/home/u/old", vec!["/home/u/old/f2"]), ("/home/u", vec!["/home/u/f"])]),
    )];
    let ask = |answers: Vec<ResolveChoices>| manual_resolve_updates(&unreachable, &found, &vec![answers]);

    // one question for each candidate, until one is taken
    assert_eq!(
        question_of(ask(vec![])),
        (0, "Update gone from /home/u/old/f to /home/u/old/f2? [overwrite, overwrite_all, skip, skip_all]: ".to_string())
    );
    assert_eq!(
        question_of(ask(vec![ResolveChoices::Skip])),
        (0, "Update gone from /home/u/old/f to /home/u/f? [overwrite, overwrite_all, skip, skip_all]: ".to_string())
    );
    let moved = vec![("gone".to_string(), "/home/u/old/f".to_string(), "/home/u/f".to_string())];
    assert_eq!(updates_of(ask(vec![ResolveChoices::Skip, ResolveChoices::Overwrite])), moved);
    assert_eq!(
        updates_of(ask(vec![ResolveChoices::OverwriteAll])),
        vec![("gone".to_string(), "/home/u/old/f".to_string(), "/home/u/old/f2".to_string())]
    );
    // skip_all, or skipping every candidate, takes none
    assert!(updates_of(ask(vec![ResolveChoices::SkipAll])).is_empty());
    assert!(updates_of(ask(vec![ResolveChoices::Skip, ResolveChoices::Skip])).is_empty());

    let mut dry = m.clone();
    assert_eq!(finish_resolve(&mut dry, moved.clone(), true), moved);
    assert_eq!(dry["gone"].path, "~/old/f");
    assert_eq!(finish_resolve(&mut m, moved.clone(), false), moved);
    assert_eq!(m["gone"].path, "/home/u/f");
    assert_eq!(m["gone"].full_path, Some("/home/u/f".to_string()));
    assert_eq!(names(&m), vec!["gone", "here"]);
}

#[test]
fn chains_of_aliases_expand_link_by_link() {
    let mut m: SP = IndexMap::new();
    m.insert("e".to_owned(), sp("$d/eeee"));
    m.insert("d".to_owned(), sp("$c/dddd"));
    m.insert("c".to_owned(), sp("$b/cccc"));
    m.insert("b".to_owned(), sp("$a/bbbb"));
    m.insert("a".to_owned(), sp("aaaa"));
    assert_eq!(expand_shortpath(&m["e"], &m), "aaaa/bbbb/cccc/dddd/eeee");
    // each link is the expansion of the shortpath it names, then the rest
    assert_eq!(expand_shortpath(&m["d"], &m), "aaaa/bbbb/cccc/dddd");
    assert_eq!(expand_shortpath(&sp("$d/x/y"), &m), format!("{}/x/y", expand_shortpath(&m["d"], &m)));
}
