use std::sync::Arc;
use vfs::normalized_path::{normalize_path, normalize_rc_path, normalize_unchecked_abs_path};
use vfs::path::{join, AbsPath};
use vfs::relative::path_relative_to;
use vfs::PathCaps;

fn posix() -> PathCaps {
    PathCaps { separator: '/', accepts_slash: false, case_sensitive: true }
}

fn windowsish() -> PathCaps {
    PathCaps { separator: '/', accepts_slash: false, case_sensitive: false }
}

#[test]
fn normalize_collapses_redundant_separators() {
    let caps = posix();
    let p = AbsPath::new("/a//b///c");
    assert_eq!(normalize_path(&caps, &p).as_str(), "/a/b/c");
}

#[test]
fn normalize_drops_dot_and_resolves_dotdot() {
    let caps = posix();
    assert_eq!(normalize_path(&caps, &AbsPath::new("/a/./b")).as_str(), "/a/b");
    assert_eq!(normalize_path(&caps, &AbsPath::new("/a/b/../c")).as_str(), "/a/c");
    // a parent step at the root stays at the root
    assert_eq!(normalize_path(&caps, &AbsPath::new("/../a")).as_str(), "/a");
    assert_eq!(normalize_path(&caps, &AbsPath::new("/a/..")).as_str(), "/");
}

#[test]
fn normalize_folds_case_only_when_insensitive() {
    let p = AbsPath::new("/Alpha/Beta");
    assert_eq!(normalize_path(&posix(), &p).as_str(), "/Alpha/Beta");
    assert_eq!(normalize_path(&windowsish(), &p).as_str(), "/alpha/beta");
}

#[test]
fn normalize_is_idempotent_on_samples() {
    let caps = windowsish();
    for raw in ["/a//B/./c/../D", "/", "", "/x", "/..", "/A/a/A"] {
        let once = normalize_path(&caps, &AbsPath::new(raw));
        let twice = normalize_path(&caps, &AbsPath::new(once.as_str()));
        assert_eq!(once.as_str(), twice.as_str());
    }
}

#[test]
fn normalize_rc_reuses_the_allocation_when_nothing_changes() {
    let caps = posix();
    let p: Arc<AbsPath> = Arc::new(AbsPath::new("/a/b"));
    let n = normalize_rc_path(&caps, Arc::clone(&p));
    // representational identity, not just equality
    assert!(Arc::ptr_eq(n.as_arc(), &p));

    let q: Arc<AbsPath> = Arc::new(AbsPath::new("/a//b"));
    let m = normalize_rc_path(&caps, Arc::clone(&q));
    assert!(!Arc::ptr_eq(m.as_arc(), &q));
    assert_eq!(m.as_str(), "/a/b");
}

#[test]
fn normalize_unchecked_trims_then_normalizes() {
    let caps = posix();
    assert_eq!(normalize_unchecked_abs_path(&caps, "/a/b/").as_str(), "/a/b");
    assert_eq!(normalize_unchecked_abs_path(&caps, "/a//b/").as_str(), "/a/b");
}

#[test]
fn relative_round_trip_normalizes_back() {
    let caps = posix();
    let cases = [
        ("/foo/bar/baz", "/foo/other"),
        ("/foo/bar/baz", "/foo/bar"),
        ("/foo/bar/baz", "/"),
        ("/a/b", "/a/b"),
        ("/x", "/a/b/c"),
    ];
    for (from, to) in cases {
        let from_p = AbsPath::new(from);
        let rel = path_relative_to(&from_p, to, '/').unwrap();
        let joined = join(&caps, &AbsPath::new(to), &rel);
        let lhs = normalize_path(&caps, &joined);
        let rhs = normalize_path(&caps, &from_p);
        assert_eq!(lhs.as_str(), rhs.as_str());
    }
}
