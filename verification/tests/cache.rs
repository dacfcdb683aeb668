use vfs::glob_abs_path::GlobAbsPath;
use vfs::handler::{MemoryFs, PathWithScheme};
use vfs::normalized_path::normalize_unchecked_abs_path;
use vfs::path::AbsPath;
use vfs::tree::{DirectoryEntry, Entries, FileEntry, FileIndex};
use vfs::vfs::{ChangeEvent, ChangeKind, Vfs};
use vfs::workspaces::{Workspace, WorkspaceKind, Workspaces};
use vfs::PathCaps;

fn posix() -> PathCaps {
    PathCaps { separator: '/', accepts_slash: false, case_sensitive: true }
}

fn file_entry(name: &str, index: usize) -> DirectoryEntry {
    DirectoryEntry::File(FileEntry { name: name.to_owned(), index: FileIndex { index } })
}

fn memory_backend() -> MemoryFs {
    let mut m = MemoryFs::new();
    m.put_file("/proj/x.py".to_owned(), "x = 1".to_owned());
    m.put_file("/proj/y.py".to_owned(), "y = 2".to_owned());
    m.put_file("/proj/z.py".to_owned(), "z = 3".to_owned());
    m.put_dir_entry("/proj", file_entry("x.py", 0));
    m.put_dir_entry("/proj", file_entry("y.py", 1));
    m.put_dir_entry("/proj", file_entry("z.py", 2));
    m
}

fn workspace_set(caps: &PathCaps, roots: &[(&str, WorkspaceKind)]) -> Workspaces {
    let mut ws = Workspaces::new();
    for (root, kind) in roots {
        ws.add(Workspace::new(normalize_unchecked_abs_path(caps, root), *kind));
    }
    ws
}

fn scheme_path(caps: &PathCaps, p: &str) -> PathWithScheme {
    PathWithScheme::new("file".to_owned(), normalize_unchecked_abs_path(caps, p))
}

#[test]
fn directory_reads_are_cached() {
    let caps = posix();
    let ws = workspace_set(&caps, &[("/proj", WorkspaceKind::FirstParty)]);
    let mut v = Vfs::new(caps, memory_backend(), ws);
    let dir = AbsPath::new("/proj");
    let key = normalize_unchecked_abs_path(&caps, "/proj");
    assert_eq!(v.probe_dir(&key), None);
    let es = v.read_directory(&dir);
    assert_eq!(es.len(), 3);
    assert_eq!(v.probe_dir(&key), Some(true));
}

#[test]
fn removal_invalidates_file_and_parent_but_not_siblings() {
    let caps = posix();
    let ws = workspace_set(&caps, &[("/proj", WorkspaceKind::FirstParty)]);
    let mut v = Vfs::new(caps, memory_backend(), ws);
    let _ = v.read_directory(&AbsPath::new("/proj"));
    let (fx, _) = v.read_file(&scheme_path(&caps, "/proj/x.py")).unwrap();
    let (fy, _) = v.read_file(&scheme_path(&caps, "/proj/y.py")).unwrap();

    let ev = ChangeEvent { kind: ChangeKind::Removed, path: AbsPath::new("/proj/x.py") };
    let r = v.apply_change_event(&ev);

    let reported: Vec<&str> = r.paths.iter().map(|p| p.as_str()).collect();
    assert!(reported.contains(&"/proj/x.py"));
    assert!(reported.contains(&"/proj"));
    assert!(!reported.contains(&"/proj/y.py"));
    assert!(!reported.contains(&"/proj/z.py"));

    // the parent listing is stale, the removed identity is retired
    let key = normalize_unchecked_abs_path(&caps, "/proj");
    assert_eq!(v.probe_dir(&key), Some(false));
    assert!(!v.file_alive(fx));
    assert!(v.file_alive(fy));
    assert_eq!(r.file_indices.len(), 1);
    assert_eq!(r.file_indices[0], fx);
}

#[test]
fn modification_keeps_the_file_identity() {
    let caps = posix();
    let ws = workspace_set(&caps, &[("/proj", WorkspaceKind::FirstParty)]);
    let mut v = Vfs::new(caps, memory_backend(), ws);
    let (fx, _) = v.read_file(&scheme_path(&caps, "/proj/x.py")).unwrap();
    let ev = ChangeEvent { kind: ChangeKind::Modified, path: AbsPath::new("/proj/x.py") };
    let r = v.apply_change_event(&ev);
    assert_eq!(r.paths.len(), 1);
    assert_eq!(r.paths[0].as_str(), "/proj/x.py");
    assert!(r.file_indices.is_empty());
    assert!(v.file_alive(fx));
    let (fx2, _) = v.read_file(&scheme_path(&caps, "/proj/x.py")).unwrap();
    assert_eq!(fx, fx2);
}

#[test]
fn unknown_change_invalidates_the_subtree() {
    let caps = posix();
    let mut m = memory_backend();
    m.put_dir_entry("/proj/sub", file_entry("inner.py", 7));
    m.put_dir_entry("/other", file_entry("o.py", 8));
    let ws = workspace_set(
        &caps,
        &[("/proj", WorkspaceKind::FirstParty), ("/other", WorkspaceKind::Library)],
    );
    let mut v = Vfs::new(caps, m, ws);
    let _ = v.read_directory(&AbsPath::new("/proj"));
    let _ = v.read_directory(&AbsPath::new("/proj/sub"));
    let _ = v.read_directory(&AbsPath::new("/other"));

    let ev = ChangeEvent { kind: ChangeKind::Unknown, path: AbsPath::new("/proj") };
    let r = v.apply_change_event(&ev);
    let reported: Vec<&str> = r.paths.iter().map(|p| p.as_str()).collect();
    assert!(reported.contains(&"/proj"));
    assert!(reported.contains(&"/proj/sub"));
    assert!(!reported.contains(&"/other"));

    assert_eq!(v.probe_dir(&normalize_unchecked_abs_path(&caps, "/proj")), Some(false));
    assert_eq!(v.probe_dir(&normalize_unchecked_abs_path(&caps, "/proj/sub")), Some(false));
    assert_eq!(v.probe_dir(&normalize_unchecked_abs_path(&caps, "/other")), Some(true));
}

#[test]
fn reconfiguration_drops_uncovered_and_keeps_recovered() {
    let caps = posix();
    let mut m = memory_backend();
    m.put_dir_entry("/lib", file_entry("l.py", 9));
    m.put_file("/lib/l.py".to_owned(), "l = 9".to_owned());
    let ws = workspace_set(
        &caps,
        &[("/proj", WorkspaceKind::FirstParty), ("/lib", WorkspaceKind::FirstParty)],
    );
    let mut v = Vfs::new(caps, m, ws);
    let _ = v.read_directory(&AbsPath::new("/proj"));
    let _ = v.read_directory(&AbsPath::new("/lib"));
    let (fp, _) = v.read_file(&scheme_path(&caps, "/proj/x.py")).unwrap();
    let (fl, _) = v.read_file(&scheme_path(&caps, "/lib/l.py")).unwrap();

    // `/proj` is gone; `/lib` stays, though its kind changed
    let new_ws = workspace_set(&caps, &[("/lib", WorkspaceKind::Library)]);
    v.reconfigure(new_ws);

    assert_eq!(v.probe_dir(&normalize_unchecked_abs_path(&caps, "/proj")), None);
    assert_eq!(v.probe_dir(&normalize_unchecked_abs_path(&caps, "/lib")), Some(true));
    assert!(!v.file_alive(fp));
    assert!(v.file_alive(fl));
}

#[test]
fn resolve_entry_finds_one_child() {
    let caps = posix();
    let ws = workspace_set(&caps, &[("/proj", WorkspaceKind::FirstParty)]);
    let mut v = Vfs::new(caps, memory_backend(), ws);
    let e = v.resolve_entry(&AbsPath::new("/proj"), "y.py").unwrap();
    assert_eq!(e.name(), "y.py");
    assert!(v.resolve_entry(&AbsPath::new("/proj"), "w.py").is_none());
}

#[test]
fn in_memory_invalidation_reports_the_path() {
    let caps = posix();
    let ws = workspace_set(&caps, &[("/proj", WorkspaceKind::FirstParty)]);
    let mut v = Vfs::new(caps, memory_backend(), ws);
    let p = scheme_path(&caps, "/proj/x.py");
    let r = v.invalidate_in_memory_file(&p);
    assert_eq!(r.paths.len(), 1);
    assert_eq!(r.paths[0].as_str(), "/proj/x.py");
    // the overlay is gone afterwards
    assert!(v.read_file(&p).is_none());
}

#[test]
fn entries_keep_names_unique() {
    let mut es = Entries::new();
    es.insert(file_entry("a.py", 0));
    es.insert(file_entry("b.py", 1));
    es.insert(file_entry("a.py", 2));
    assert_eq!(es.len(), 2);
    let pos = es.position_of("a.py").unwrap();
    match es.get(pos) {
        DirectoryEntry::File(f) => assert_eq!(f.index, FileIndex { index: 2 }),
        _ => panic!("expected a file entry"),
    }
}

#[test]
fn entries_stand_in_name_order() {
    let mut es = Entries::new();
    es.insert(file_entry("zeta.py", 0));
    es.insert(file_entry("alpha.py", 1));
    es.insert(DirectoryEntry::Subdir { name: "mid".to_owned() });
    let names: Vec<&str> = (0..es.len()).map(|i| es.get(i).name()).collect();
    assert_eq!(names, vec!["alpha.py", "mid", "zeta.py"]);
}

#[test]
fn glob_patterns_cover_workspace_members() {
    let g = GlobAbsPath::new("/proj/*.py");
    assert!(g.matches("/proj/a.py"));
    assert!(g.matches("/proj/sub/a.py"));
    assert!(!g.matches("/proj/a.txt"));

    let caps = posix();
    let root = normalize_unchecked_abs_path(&caps, "/w");
    let w = Workspace::with_glob(root, WorkspaceKind::FirstParty, GlobAbsPath::new("/gen/*.py"));
    assert!(w.covers(&caps, "/w/inner/f.py"));
    assert!(w.covers(&caps, "/gen/f.py"));
    assert!(!w.covers(&caps, "/wider/f.py"));
    assert!(!w.covers(&caps, "/gen/f.txt"));
}

#[test]
fn put_file_replaces_earlier_content() {
    let caps = posix();
    let mut m = MemoryFs::new();
    m.put_file("/proj/x.py".to_owned(), "old".to_owned());
    m.put_file("/proj/x.py".to_owned(), "new".to_owned());
    let ws = workspace_set(&caps, &[("/proj", WorkspaceKind::FirstParty)]);
    let mut v = Vfs::new(caps, m, ws);
    let (_, content) = v.read_file(&scheme_path(&caps, "/proj/x.py")).unwrap();
    assert_eq!(content, "new");
}
