use vfs::path::{
    absolute_path, join, parent_of_absolute_path, split_off_first_item, split_off_last_item,
    strip_separator_prefix, strip_separator_suffix, unchecked_abs_path, AbsPath,
};
use vfs::relative::path_relative_to;
use vfs::PathCaps;

fn posix() -> PathCaps {
    PathCaps { separator: '/', accepts_slash: false, case_sensitive: true }
}

#[test]
fn test_path_relative_to() {
    let abs = AbsPath::new("/foo/bar/baz");
    let check = |s: &str| path_relative_to(&abs, s, '/');
    assert_eq!(check("/foo/bar"), Some("baz".into()));
    assert_eq!(check("/foo/bar/"), Some("baz".into()));
    assert_eq!(check("/foo/"), Some("bar/baz".into()));
    assert_eq!(check("/foo"), Some("bar/baz".into()));
    assert_eq!(check("/"), Some("foo/bar/baz".into()));

    assert_eq!(check("/bar"), Some("../foo/bar/baz".into()));
    assert_eq!(check("/baz"), Some("../foo/bar/baz".into()));
    assert_eq!(check("/foo/other"), Some("../bar/baz".into()));
    assert_eq!(check("/foo/other/other2"), Some("../../bar/baz".into()));
    assert_eq!(check("/foo/bar/other"), Some("../baz".into()));
    assert_eq!(check("/foo/bar/other/other2"), Some("../../baz".into()));

    // Edge cases
    let root = AbsPath::new("/");
    assert_eq!(path_relative_to(&root, "", '/'), None);
    assert_eq!(path_relative_to(&root, "/", '/'), Some("".into()));
    assert_eq!(path_relative_to(&root, "/foo", '/'), Some("../".into()));
}

#[test]
fn unchecked_abs_path_strips_one_trailing_separator() {
    let caps = posix();
    assert_eq!(unchecked_abs_path(&caps, "/a/b/").as_str(), "/a/b");
    assert_eq!(unchecked_abs_path(&caps, "/a/b").as_str(), "/a/b");
    assert_eq!(unchecked_abs_path(&caps, "/").as_str(), "");
    // only one separator comes off
    assert_eq!(unchecked_abs_path(&caps, "/a//").as_str(), "/a/");
}

#[test]
fn join_appends_with_native_separator() {
    let caps = posix();
    let d = AbsPath::new("/a/b");
    assert_eq!(join(&caps, &d, "c").as_str(), "/a/b/c");
    assert_eq!(join(&caps, &d, "c/d").as_str(), "/a/b/c/d");
    // a directory already ending in a separator gets no second one
    let root_dir = AbsPath::new("/");
    assert_eq!(join(&caps, &root_dir, "b").as_str(), "/b");
    // an absolute name replaces the directory outright
    assert_eq!(join(&caps, &d, "/x").as_str(), "/x");
}

#[test]
fn join_empty_name_is_identity() {
    let caps = posix();
    let d = AbsPath::new("/a/b");
    assert_eq!(join(&caps, &d, "").as_str(), "/a/b");
}

#[test]
fn parent_walks_up_one_component() {
    let caps = posix();
    let p = AbsPath::new("/a/b/c");
    let q = parent_of_absolute_path(&caps, &p).unwrap();
    assert_eq!(q.as_str(), "/a/b");
    let top = AbsPath::new("/a");
    assert_eq!(parent_of_absolute_path(&caps, &top).unwrap().as_str(), "/");
    let root = AbsPath::new("/");
    assert!(parent_of_absolute_path(&caps, &root).is_none());
}

#[test]
fn parent_and_join_round_trip() {
    let caps = posix();
    for raw in ["/a", "/a/b", "/a/b/c", "/deep/ly/nest/ed"] {
        let p = AbsPath::new(raw);
        let parent = parent_of_absolute_path(&caps, &p).unwrap();
        let (_, last) = split_off_last_item(&caps, raw);
        assert_eq!(join(&caps, &parent, last).as_str(), raw);
    }
}

#[test]
fn absolute_path_wraps_or_joins() {
    let caps = posix();
    let cwd = AbsPath::new("/home/user");
    assert_eq!(absolute_path(&caps, &cwd, "/etc/conf").as_str(), "/etc/conf");
    assert_eq!(absolute_path(&caps, &cwd, "notes.txt").as_str(), "/home/user/notes.txt");
}

#[test]
fn split_off_first_item_at_first_separator() {
    let caps = posix();
    assert_eq!(split_off_first_item(&caps, "a/b/c"), ("a", Some("b/c")));
    assert_eq!(split_off_first_item(&caps, "abc"), ("abc", None));
    assert_eq!(split_off_first_item(&caps, "a/"), ("a", Some("")));
}

#[test]
fn split_off_last_item_at_last_separator() {
    let caps = posix();
    assert_eq!(split_off_last_item(&caps, "a/b/c"), (Some("a/b"), "c"));
    assert_eq!(split_off_last_item(&caps, "abc"), (None, "abc"));
}

#[test]
fn split_honors_mixed_separators() {
    let caps = PathCaps { separator: '\\', accepts_slash: true, case_sensitive: false };
    assert_eq!(split_off_first_item(&caps, "a\\b/c"), ("a", Some("b/c")));
    assert_eq!(split_off_first_item(&caps, "a/b\\c"), ("a", Some("b\\c")));
    assert_eq!(split_off_last_item(&caps, "a\\b/c"), (Some("a\\b"), "c"));
}

#[test]
fn strip_separator_prefix_and_suffix() {
    let caps = posix();
    assert_eq!(strip_separator_prefix(&caps, "/a/b"), Some("a/b"));
    assert_eq!(strip_separator_prefix(&caps, "a/b"), None);
    assert_eq!(strip_separator_suffix(&caps, "a/b/"), Some("a/b"));
    assert_eq!(strip_separator_suffix(&caps, "a/b"), None);
}
