use shortpath::sp::{find_by_matching_path, find_longest_keyname, find_paths, find_unreachable, resolve};
use shortpath::sp::{
    add_shortpath, expand_shortpath, find_deps, fmt_expand, fmt_fold, get_shortpath_name,
    get_shortpath_path, get_shortpath_type, parse_alias, remove_shortpath, sort_shortpaths,
    sp_pop_deps, sp_pop_full_path, update_shortpath, FindKeyIndexMapExt, Shortpath,
    ShortpathType, ShortpathsBuilder, SP,
};

use indexmap::IndexMap;

fn chars(s: &str) -> Vec<char> {
    s.chars().collect()
}

fn names(m: &SP) -> Vec<String> {
    m.keys().cloned().collect()
}

fn kind(t: &ShortpathType) -> (&'static str, String, String) {
    match t {
        ShortpathType::Path(n, p) => ("path", n.clone(), p.clone()),
        ShortpathType::AliasPath(n, p) => ("alias", n.clone(), p.clone()),
        ShortpathType::EnvPath(n, p) => ("env", n.clone(), p.clone()),
    }
}

fn typed(name: &str, path: &str) -> Shortpath {
    Shortpath::new(ShortpathType::new_path(name.to_string(), path.to_string()), None, None)
}

#[test]
fn test_shortpaths() {
    let sp_paths = vec![
        typed("d", "$a/dddd"),
        typed("c", "$b/cccc"),
        typed("b", "$a/bbbb"),
        typed("a", "aaaa"),
    ];
    println!("{:?}", sp_paths);

    let mut sp_builder = ShortpathsBuilder::new(sp_paths);

    let sp_im = sp_builder.build().unwrap();
    sp_im.iter().for_each(|p| println!("{:?}", p));

    // Test find_key
    let key = sp_im.find_key_for_value("$a/bbbb");
    println!("{:?}", key);
    assert_eq!(key, Some(&"b".to_string()));

    let key = sp_im.find_key_for_value("$a/bbbb".to_string());
    println!("{:?}", key);
    assert_eq!(key, Some(&"b".to_string()));

    // Test sort_shortpaths
    println!("Sorted list of shortpaths");
    let sorted = sort_shortpaths(sp_im);
    sorted.iter().for_each(|p| println!("{:?}", p));
    assert_eq!(names(&sorted), vec!["c", "d", "b", "a"]);
}

#[test]
fn typed_parts() {
    let t = ShortpathType::new_alias_path("n".to_string(), "$m/x".to_string());
    assert_eq!(get_shortpath_name(&t), "n");
    assert_eq!(get_shortpath_path(&t), "$m/x");
    let s = Shortpath::new(t, Some("/f".to_string()), None);
    assert_eq!(s.name(), "n");
    assert_eq!(s.path(), "$m/x");
    assert_eq!(kind(&s.path.copy()), ("alias", "n".to_string(), "$m/x".to_string()));
}

#[test]
fn parsing_typed_components() {
    assert_eq!(kind(&parse_alias(&chars("$abc")).unwrap()), ("alias", "abc".to_string(), "$abc".to_string()));
    assert_eq!(
        kind(&parse_alias(&chars("${env:HOME}")).unwrap()),
        ("env", "HOME".to_string(), "${env:HOME}".to_string())
    );
    assert!(parse_alias(&chars("{$env:HOME}")).is_none());
    assert_eq!(kind(&parse_alias(&chars("${env:}")).unwrap()), ("env", "".to_string(), "${env:}".to_string()));
    assert_eq!(kind(&parse_alias(&chars("${env:")).unwrap()), ("alias", "{env:".to_string(), "${env:".to_string()));
    assert!(parse_alias(&chars("plain")).is_none());
    assert!(parse_alias(&chars("")).is_none());
    assert_eq!(kind(&get_shortpath_type("n".to_string(), &"$a/b".to_string())).0, "alias");
    assert_eq!(kind(&get_shortpath_type("n".to_string(), &"/a/b".to_string())).0, "path");
    assert_eq!(
        kind(&get_shortpath_type("h".to_string(), &"${env:HOME}/x".to_string())),
        ("env", "h".to_string(), "${env:HOME}/x".to_string())
    );
}

#[test]
fn dependencies_and_expansion() {
    let deps = find_deps(&"$a/x/${env:H}/y".to_string()).unwrap();
    let kinds: Vec<_> = deps.iter().map(kind).collect();
    assert_eq!(
        kinds,
        vec![
            ("alias", "a".to_string(), "$a".to_string()),
            ("env", "H".to_string(), "${env:H}".to_string()),
        ]
    );
    let dep = vec![ShortpathType::new_path("a".to_string(), "/root".to_string())];
    let s = Shortpath::new(ShortpathType::new_path("n".to_string(), "$a/x".to_string()), None, Some(dep));
    assert_eq!(expand_shortpath(&s), "/root/x");
    assert_eq!(expand_shortpath(&typed("n", "$a/x")), "$a/x");
    assert_eq!(fmt_expand("$a/x", "a", "/r"), "/r/x");
    assert_eq!(fmt_fold("/r/x", "a", "/r"), "$a/x");

    let mut p = typed("n", "$a/x");
    sp_pop_deps(&mut p);
    assert_eq!(p.deps.as_ref().unwrap().len(), 1);
    sp_pop_full_path(&mut p);
    assert_eq!(p.full_path, Some("$a/x".to_string()));
}

#[test]
fn builder_keeps_the_first_place_of_a_repeated_name() {
    let m = ShortpathsBuilder::from_vec(vec![typed("a", "/1"), typed("b", "/2"), typed("a", "/3")]);
    assert_eq!(names(&m), vec!["a", "b"]);
    assert_eq!(m["a"].path(), "/3");
}

#[test]
fn typed_edits() {
    let mut m: SP = IndexMap::new();
    add_shortpath(&mut m, "a".to_string(), "/x".to_string());
    add_shortpath(&mut m, "b".to_string(), "$a/y".to_string());
    add_shortpath(&mut m, "c".to_string(), "/z".to_string());
    assert_eq!(kind(&m["a"].path), ("path", "a".to_string(), "/x".to_string()));
    // a path that parses as an alias is saved as an alias named by its key
    assert_eq!(kind(&m["b"].path), ("alias", "b".to_string(), "$a/y".to_string()));
    add_shortpath(&mut m, "h".to_string(), "${env:HOME}".to_string());
    assert_eq!(kind(&m["h"].path), ("env", "h".to_string(), "${env:HOME}".to_string()));
    let removed_h = remove_shortpath(&mut m, "h").unwrap();
    assert_eq!(removed_h.name(), "h");

    update_shortpath(&mut m, "a", None, Some(&"/w".to_string()));
    assert_eq!(m["a"].path(), "/w");
    update_shortpath(&mut m, "a", Some(&"aa".to_string()), None);
    assert_eq!(names(&m), vec!["aa", "b", "c"]);

    let removed = remove_shortpath(&mut m, "b").unwrap();
    assert_eq!(removed.path(), "$a/y");
    assert_eq!(names(&m), vec!["aa", "c"]);
    assert!(remove_shortpath(&mut m, "b").is_none());
}

#[test]
fn environment_paths() {
    let t = ShortpathType::new_env_path("HOME".to_string(), Some("/home/u".to_string()));
    assert_eq!(kind(&t), ("env", "HOME".to_string(), "/home/u".to_string()));
    let t = ShortpathType::new_env_path("NOPE".to_string(), None);
    assert_eq!(kind(&t), ("env", "NOPE".to_string(), "".to_string()));
}

fn listing(entries: &[(&str, &str)]) -> Vec<(String, String)> {
    entries.iter().map(|(n, p)| (n.to_string(), p.to_string())).collect()
}

#[test]
fn looking_for_moved_files() {
    let dir = listing(&[("f", "/a/f"), ("g", "/a/g"), ("f", "/a/f2")]);
    assert_eq!(find_by_matching_path("f", &dir), vec!["/a/f".to_string(), "/a/f2".to_string()]);
    assert!(find_by_matching_path("h", &dir).is_empty());

    let s = typed("f", "/a/b/f");
    let parents = vec![listing(&[("x", "/a/b/x")]), listing(&[("f", "/a/f")]), listing(&[("f", "/f")])];
    assert_eq!(find_paths(&s, &parents), Some(vec!["/a/f".to_string()]));
    assert_eq!(find_paths(&s, &[listing(&[]), listing(&[("y", "/y")])]), None);

    let m = ShortpathsBuilder::from_vec(vec![typed("a", "/a"), typed("b", "/b"), typed("c", "/c")]);
    let u = find_unreachable(&m, &[true, false, false]);
    assert_eq!(names(&u), vec!["b", "c"]);
}

#[test]
fn resolving_typed_shortpaths() {
    let listings = vec![
        vec![listing(&[("f", "/new/f")])],
        vec![listing(&[("x", "/x")])],
    ];
    let mut m = ShortpathsBuilder::from_vec(vec![typed("f", "/old/f"), typed("g", "/old/g")]);
    let updates = resolve(&mut m, "matching", true, &listings);
    assert_eq!(updates, vec![("f".to_string(), "/old/f".to_string(), "/new/f".to_string())]);
    assert_eq!(m["f"].path(), "/new/f");
    assert_eq!(m["g"].path(), "/old/g");

    let mut m = ShortpathsBuilder::from_vec(vec![typed("f", "/old/f"), typed("g", "/old/g")]);
    let updates = resolve(&mut m, "matching", false, &listings);
    assert_eq!(updates, vec![("f".to_string(), "/old/f".to_string(), "/old/f".to_string())]);
    assert_eq!(m["f"].path(), "/old/f");
    assert_eq!(names(&m), vec!["f", "g"]);
}

#[test]
fn longest_typed_name() {
    let m = ShortpathsBuilder::from_vec(vec![typed("ab", "/1"), typed("xyz", "/2"), typed("uvw", "/3")]);
    assert_eq!(find_longest_keyname(m), "uvw");
}
