use shortpath::helpers::{manual_resolve_asks, manual_resolve_step};
use shortpath::helpers::matching_file_names;
use shortpath::helpers::{
    auto_resolve, choice_from_normalized, clone_scope_results, expand_tilde, expand_tilde_with_home,
    find_longest_keyname, get_choice, is_valid_remove_input, is_valid_resolve_input,
    manual_resolve_message, parent_dirs, tab_align, takes_candidate,
    ResolveChoices, ScopeResults,
};
use shortpath::shortpaths::{Shortpath, SP};

use indexmap::IndexMap;

fn map_of(names: &[&str]) -> SP {
    let mut m: SP = IndexMap::new();
    for n in names {
        m.insert(n.to_string(), Shortpath::new("p".to_string(), None));
    }
    m
}

#[test]
fn longest_name_is_the_last_of_the_longest() {
    assert_eq!(find_longest_keyname(&map_of(&["a", "bcd", "ef"])), "bcd");
    assert_eq!(find_longest_keyname(&map_of(&["ab", "cd", "e"])), "cd");
    assert_eq!(find_longest_keyname(&map_of(&["x"])), "x");
    // lengths are counted in bytes
    assert_eq!(find_longest_keyname(&map_of(&["éé", "abc"])), "éé");
}

#[test]
fn aligning_text() {
    assert_eq!(tab_align("ab", 5, Some(" = ")), "ab    = ");
    assert_eq!(tab_align("ab", 5, None), "ab    ");
    assert_eq!(tab_align("abcdef", 3, Some(":")), "abcdef:");
    assert_eq!(tab_align("", 0, None), " ");
}

#[test]
fn tilde_expansion_with_a_home() {
    let home = Some("/home/u".to_string());
    assert_eq!(expand_tilde_with_home("~", home.clone()), Some("/home/u".to_string()));
    assert_eq!(expand_tilde_with_home("~/src", home.clone()), Some("/home/u/src".to_string()));
    assert_eq!(expand_tilde_with_home("~/a/b", home.clone()), Some("/home/u/a/b".to_string()));
    assert_eq!(expand_tilde_with_home("/etc/~", home.clone()), Some("/etc/~".to_string()));
    assert_eq!(expand_tilde_with_home("~x/y", home.clone()), Some("~x/y".to_string()));
    assert_eq!(expand_tilde_with_home("", home), Some("".to_string()));
    assert_eq!(expand_tilde_with_home("~/src", Some("/".to_string())), Some("src".to_string()));
    // a home directory that ends in a separator
    assert_eq!(expand_tilde_with_home("~/a/b", Some("/home/u/".to_string())), Some("/home/u/a/b".to_string()));
}

#[test]
fn tilde_expansion_without_a_home() {
    assert_eq!(expand_tilde_with_home("~/src", None), None);
    assert_eq!(expand_tilde_with_home("~", None), None);
    assert_eq!(expand_tilde_with_home("/abs", None), Some("/abs".to_string()));
    // without a leading `~` the path comes back as it was
    assert_eq!(expand_tilde("rel/path"), Some("rel/path".to_string()));
}

#[test]
fn answers_are_lowercased_and_trimmed() {
    assert_eq!(get_choice("OverWrite".to_string()), Some(ResolveChoices::Overwrite));
    assert_eq!(get_choice("skip \t\n".to_string()), Some(ResolveChoices::Skip));
    assert_eq!(get_choice("  skip ".to_string()), None);
    assert!(is_valid_remove_input("no \t\r\n".to_string()));
}

#[test]
fn resolve_choices() {
    assert_eq!(get_choice("overwrite".to_string()), Some(ResolveChoices::Overwrite));
    assert_eq!(get_choice("OVERWRITE_ALL\n".to_string()), Some(ResolveChoices::OverwriteAll));
    assert_eq!(get_choice("Skip ".to_string()), Some(ResolveChoices::Skip));
    assert_eq!(get_choice("skip_all".to_string()), Some(ResolveChoices::SkipAll));
    assert_eq!(get_choice(" skip".to_string()), None);
    assert_eq!(get_choice("yes".to_string()), None);
    assert_eq!(choice_from_normalized("skip"), Some(ResolveChoices::Skip));
    assert_eq!(choice_from_normalized("Skip"), None);
    assert!(is_valid_resolve_input("Skip_All\r\n".to_string()));
    assert!(!is_valid_resolve_input("maybe".to_string()));
    assert!(takes_candidate(ResolveChoices::Overwrite));
    assert!(takes_candidate(ResolveChoices::OverwriteAll));
    assert!(!takes_candidate(ResolveChoices::Skip));
    assert!(!takes_candidate(ResolveChoices::SkipAll));
}

#[test]
fn remove_answers() {
    assert!(is_valid_remove_input("yes".to_string()));
    assert!(is_valid_remove_input("no\n".to_string()));
    assert!(!is_valid_remove_input("Yes".to_string()));
    assert!(!is_valid_remove_input("y".to_string()));
}

#[test]
fn manual_question() {
    assert_eq!(
        manual_resolve_message("a", "/old/a", "/new/a"),
        "Update a from /old/a to /new/a? [overwrite, overwrite_all, skip, skip_all]: "
    );
}

fn results(dirs: Vec<(&str, Vec<&str>)>) -> ScopeResults {
    dirs.into_iter()
        .map(|(d, fs)| (d.to_string(), fs.into_iter().map(|f| f.to_string()).collect()))
        .collect()
}

#[test]
fn automatic_choice_is_the_first_file_found() {
    let r = results(vec![("/a/b", vec![]), ("/a", vec!["/a/x", "/a/y"]), ("/", vec!["/z"])]);
    assert_eq!(auto_resolve("n".to_string(), r), Some(("n".to_string(), "/a/x".to_string())));
    let none = results(vec![("/a", vec![]), ("/", vec![])]);
    assert_eq!(auto_resolve("n".to_string(), none), None);
    assert_eq!(auto_resolve("n".to_string(), Vec::new()), None);
}

#[test]
fn copies_of_search_results() {
    let r = results(vec![("/a", vec!["/a/x"]), ("/", vec![])]);
    assert_eq!(clone_scope_results(&r), r);
}

#[test]
fn parent_directories_nearest_first() {
    assert_eq!(parent_dirs("/home/u/old/f"), vec!["/home/u/old", "/home/u", "/home", "/"]);
    assert_eq!(parent_dirs("a/b"), vec!["a", ""]);
    assert_eq!(parent_dirs("/"), Vec::<String>::new());
    assert_eq!(parent_dirs(""), Vec::<String>::new());
}

#[test]
fn manual_resolution_steps() {
    assert!(manual_resolve_asks(None));
    assert!(manual_resolve_asks(Some(ResolveChoices::Skip)));
    assert!(!manual_resolve_asks(Some(ResolveChoices::OverwriteAll)));
    assert!(!manual_resolve_asks(Some(ResolveChoices::SkipAll)));
    assert_eq!(
        manual_resolve_step(Some(ResolveChoices::OverwriteAll), None),
        (Some(ResolveChoices::OverwriteAll), true)
    );
    let skip = get_choice("skip\n".to_string());
    assert_eq!(manual_resolve_step(None, skip), (Some(ResolveChoices::Skip), false));
    let skip_all = get_choice("Skip_all\n".to_string());
    assert_eq!(manual_resolve_step(skip, skip_all), (Some(ResolveChoices::SkipAll), false));
    // after skip_all, candidates are passed by without a question
    assert_eq!(manual_resolve_step(skip_all, None), (Some(ResolveChoices::SkipAll), false));
    let overwrite = get_choice("overwrite\n".to_string());
    assert_eq!(manual_resolve_step(skip, overwrite), (Some(ResolveChoices::Overwrite), true));
    let all = get_choice("OVERWRITE_ALL".to_string());
    assert_eq!(manual_resolve_step(None, all), (Some(ResolveChoices::OverwriteAll), true));
}

#[test]
fn matching_files_by_name() {
    let sp = Shortpath::new("/old/dir/notes.txt".to_string(), None);
    let listing = vec![
        ("a.txt".to_string(), "/new/a.txt".to_string()),
        ("notes.txt".to_string(), "/new/notes.txt".to_string()),
        ("notes.txt.bak".to_string(), "/new/notes.txt.bak".to_string()),
    ];
    assert_eq!(matching_file_names(&sp, listing), vec!["/new/notes.txt".to_string()]);
    assert_eq!(matching_file_names(&sp, Vec::new()), Vec::<String>::new());
}
