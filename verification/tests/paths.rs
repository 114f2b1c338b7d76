use shortpath::helpers::parent_dirs;
use shortpath::paths::file_name;
use shortpath::paths::{
    compare_chars, compare_paths, components, first_component, path_order_value, str_join_path,
    to_string, PathComponent,
};

use std::cmp::Ordering;
use std::path::{Component, Path};

const SAMPLES: &[&str] = &[
    "", "/", "//", "a", "a/", "/a", "/a/", "a/b", "a//b", "./a", ".", "..", "../a", "a/./b",
    "a/../b", "/a/b/c", "./", "a/.", "/.", "~/x", "$a/bbbb", "${env:HOME}/w", "a-b", "/a/c",
    "/a-b", "/b", "é/ü",
];

fn std_components(p: &str) -> Vec<String> {
    Path::new(p)
        .components()
        .map(|c| match c {
            Component::RootDir => "/".to_string(),
            Component::CurDir => ".".to_string(),
            Component::ParentDir => "..".to_string(),
            Component::Normal(s) => s.to_string_lossy().into_owned(),
            Component::Prefix(_) => unreachable!(),
        })
        .collect()
}

#[test]
fn components_agree_with_std() {
    for p in SAMPLES {
        let ours: Vec<String> = components(p).iter().map(to_string).collect();
        assert_eq!(ours, std_components(p), "components of {:?}", p);
        assert_eq!(first_component(p), std_components(p).first().cloned(), "first of {:?}", p);
    }
}

#[test]
fn component_kinds() {
    let c = components("/./a/../b");
    assert!(matches!(c[0], PathComponent::RootDir));
    assert!(matches!(&c[1], PathComponent::Normal(s) if s == "a"));
    assert!(matches!(c[2], PathComponent::ParentDir));
    assert!(matches!(&c[3], PathComponent::Normal(s) if s == "b"));
    assert_eq!(c.len(), 4);
    assert!(matches!(components("./x")[0], PathComponent::CurDir));
}

#[test]
fn ordering_agrees_with_std() {
    for a in SAMPLES {
        for b in SAMPLES {
            let want = Path::new(a).cmp(Path::new(b));
            assert_eq!(compare_paths(a, b), want, "{:?} vs {:?}", a, b);
            let v = path_order_value(a, b);
            let w = match want {
                Ordering::Less => -1,
                Ordering::Equal => 0,
                Ordering::Greater => 1,
            };
            assert_eq!(v, w);
        }
    }
}

#[test]
fn char_order() {
    let a: Vec<char> = "abc".chars().collect();
    let b: Vec<char> = "abd".chars().collect();
    let c: Vec<char> = "ab".chars().collect();
    assert_eq!(compare_chars(&a, &b), -1);
    assert_eq!(compare_chars(&b, &a), 1);
    assert_eq!(compare_chars(&c, &a), -1);
    assert_eq!(compare_chars(&a, &a), 0);
}

#[test]
fn joining_agrees_with_std() {
    for a in SAMPLES {
        for b in SAMPLES {
            let want = Path::new(a).join(b).to_string_lossy().into_owned();
            assert_eq!(str_join_path(a, b), want, "{:?} joined with {:?}", a, b);
        }
    }
}

#[test]
fn parents_agree_with_std() {
    for p in SAMPLES {
        let mut want: Vec<String> = Vec::new();
        let mut next = Path::new(p).parent();
        while let Some(q) = next {
            want.push(q.to_string_lossy().into_owned());
            next = q.parent();
        }
        assert_eq!(parent_dirs(p), want, "parents of {:?}", p);
    }
}

#[test]
fn file_names_agree_with_std() {
    for p in SAMPLES {
        let want = Path::new(p).file_name().map(|s| s.to_string_lossy().into_owned());
        assert_eq!(file_name(p), want, "file name of {:?}", p);
    }
}
