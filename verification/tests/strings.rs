use shortpath::app::max_target_width;
use shortpath::config::Config;
use shortpath::strings::{
    chars_to_string, concat_str, contains_chars, copy_str, find_first, matches_at, replace_chars,
    replace_str, slice_chars, starts_with_chars, str_eq, to_str_slice,
};

fn chars(s: &str) -> Vec<char> {
    s.chars().collect()
}

#[test]
fn replacing_agrees_with_std() {
    let cases = [
        ("aaaa", "aa", "b"),
        ("abcabc", "bc", ""),
        ("ab", "", "-"),
        ("", "", "x"),
        ("xyz", "q", "r"),
        ("$a/$ab", "$a", "/r"),
        ("ééé", "é", "e"),
    ];
    for (s, p, w) in cases {
        assert_eq!(replace_str(s, p, w), s.replace(p, w), "{:?}.replace({:?}, {:?})", s, p, w);
        assert_eq!(chars_to_string(&replace_chars(&chars(s), &chars(p), &chars(w))), s.replace(p, w));
    }
}

#[test]
fn searching() {
    assert_eq!(find_first(&chars("a = b = c"), &chars(" = ")), Some(1));
    assert_eq!(find_first(&chars("abc"), &chars("x")), None);
    assert_eq!(find_first(&chars("abc"), &chars("")), Some(0));
    assert!(contains_chars(&chars("/home/u/x"), &chars("/u/")));
    assert!(!contains_chars(&chars("/home"), &chars("/u/")));
    assert!(starts_with_chars(&chars("${env:X}"), &chars("${env:")));
    assert!(!starts_with_chars(&chars("$"), &chars("${")));
    assert!(matches_at(&chars("abcd"), &chars("cd"), 2));
    assert!(!matches_at(&chars("abcd"), &chars("cd"), 3));
}

#[test]
fn small_string_helpers() {
    assert_eq!(to_str_slice("hé"), vec!['h', 'é']);
    assert_eq!(concat_str("a", "bc"), "abc");
    assert_eq!(copy_str("x"), "x");
    assert!(str_eq("a", "a"));
    assert!(!str_eq("a", "b"));
    assert_eq!(slice_chars(&chars("abcdef"), 1, 4), chars("bcd"));
}

#[test]
fn log_target_width() {
    let mut w: usize = 0;
    assert_eq!(max_target_width(&mut w, "src/a.rs:1"), 10);
    assert_eq!(w, 10);
    assert_eq!(max_target_width(&mut w, "b:2"), 10);
    assert_eq!(w, 10);
    assert_eq!(max_target_width(&mut w, "ü"), 10);
}

#[test]
fn configuration_in_a_directory() {
    let c = Config::in_dir("/etc/sp/".to_string(), "shortpaths.toml");
    assert_eq!(c.file, "/etc/sp/shortpaths.toml");
    if let Some(c) = Config::new("shortpaths.toml") {
        assert!(c.file.ends_with("shortpaths.toml"));
    }
}
