use vstd::prelude::*;
use crate::PathCaps;
use crate::normalized_path::NormalizedPath;
use crate::path::AbsPath;
use crate::tree::{DirectoryEntry, Entries, EntryV, Parent};
use crate::workspaces::Workspaces;

verus! {

/// An absolute path together with the scheme it was opened under (a real
/// file, an editor buffer without a file, and so on).
pub struct PathWithScheme {
    pub scheme: String,
    pub path: NormalizedPath,
}

impl PathWithScheme {
    pub fn new(scheme: String, path: NormalizedPath) -> (r: PathWithScheme)
        ensures
            r.scheme@ == scheme@,
            r.path@ == path@,
    {
        PathWithScheme { scheme, path }
    }

    pub fn clone_path_with_scheme(&self) -> (r: PathWithScheme)
        ensures
            r.scheme@ == self.scheme@,
            r.path@ == self.path@,
    {
        PathWithScheme { scheme: self.scheme.clone(), path: self.path.clone_normalized() }
    }
}

/// The capability interface a concrete backend supplies: reading and
/// watching one file, one directory, or one directory entry, reacting to the
/// eviction of an in-memory overlay, and vetoing invalidations it can prove
/// unnecessary. All path algebra is backend-independent and lives in the
/// free functions of this crate; delivery of watch events is the hosting
/// process's concern and reaches the orchestrator as plain change events.
pub trait VfsHandler: Sized {
    /// The current content of the file, or nothing when it does not exist;
    /// also arranges to watch it (idempotently).
    fn read_and_watch_file(&mut self, path: &PathWithScheme) -> Option<String>;

    /// The current entry listing of the directory, scoped to the given
    /// workspaces, with ignore rules already applied; also arranges to watch
    /// the directory.
    fn read_and_watch_dir(
        &mut self,
        caps: &PathCaps,
        workspaces: &Workspaces,
        path: &str,
        parent: Parent,
    ) -> Entries;

    /// Resolves the one child named `replace_name` without listing the whole
    /// directory.
    fn read_and_watch_entry(
        &mut self,
        caps: &PathCaps,
        workspaces: &Workspaces,
        path: &str,
        parent: Parent,
        replace_name: &str,
    ) -> (r: Option<DirectoryEntry>)
        ensures
            r matches Some(e) ==> e.spec_name() == replace_name@,
    ;

    /// Fired when an editor overlay for the file is cleared or replaced.
    fn on_invalidated_in_memory_file(&mut self, path: &PathWithScheme);

    /// Which invalidations this backend suppresses; the default suppresses
    /// none, the conservative choice.
    open spec fn spec_suppresses(
        &self,
        path: Seq<char>,
        current_entry: Option<crate::tree::EntryV>,
    ) -> bool {
        false
    }

    /// A backend may suppress an invalidation it can prove changes nothing;
    /// answering `false` is always safe, and the answer is fixed by the
    /// backend's own suppression policy.
    fn is_unnecessary_invalidation(
        &self,
        path: &AbsPath,
        current_entry: Option<&DirectoryEntry>,
    ) -> (r: bool)
        ensures
            r == self.spec_suppresses(
                path@,
                match current_entry {
                    Some(e) => Some(e.entry_v()),
                    None => None,
                },
            ),
    ;
}

/// A pure in-memory backend: files and directory listings are whatever the
/// host put there, nothing is watched, and no invalidation is ever
/// suppressed.
pub struct MemFile {
    pub path: String,
    pub content: String,
}

pub struct MemDir {
    pub path: String,
    pub entries: Entries,
}

pub struct MemoryFs {
    files: Vec<MemFile>,
    dirs: Vec<MemDir>,
}

/// The slot of the first stored pair keyed `path`.
pub open spec fn spec_slot_of(s: Seq<(Seq<char>, Seq<char>)>, path: Seq<char>) -> Option<int>
    decreases s.len(),
{
    if s.len() == 0 {
        None
    } else if s[0].0 == path {
        Some(0int)
    } else {
        match spec_slot_of(s.drop_first(), path) {
            Some(i) => Some(i + 1),
            None => None,
        }
    }
}

/// The slot is pinned down by its characteristic properties.
pub proof fn lemma_spec_slot_char(s: Seq<(Seq<char>, Seq<char>)>, path: Seq<char>, i: int)
    requires
        0 <= i < s.len(),
        s[i].0 == path,
        forall|k: int| 0 <= k < i ==> (#[trigger] s[k]).0 != path,
    ensures
        spec_slot_of(s, path) == Some(i),
    decreases i,
{
    if i > 0 {
        let t = s.drop_first();
        assert(forall|k: int| 0 <= k < t.len() ==> t[k] == s[k + 1]);
        lemma_spec_slot_char(t, path, i - 1);
    }
}

pub proof fn lemma_spec_slot_none(s: Seq<(Seq<char>, Seq<char>)>, path: Seq<char>)
    requires
        forall|k: int| 0 <= k < s.len() ==> (#[trigger] s[k]).0 != path,
    ensures
        spec_slot_of(s, path) is None,
    decreases s.len(),
{
    if s.len() > 0 {
        let t = s.drop_first();
        assert(forall|k: int| 0 <= k < t.len() ==> t[k] == s[k + 1]);
        lemma_spec_slot_none(t, path);
    }
}

impl MemoryFs {
    pub closed spec fn spec_files(&self) -> Seq<(Seq<char>, Seq<char>)> {
        Seq::new(self.files@.len(), |i: int| (self.files@[i].path@, self.files@[i].content@))
    }

    /// The stored listings, path by path.
    pub closed spec fn spec_dirs(&self) -> Seq<(Seq<char>, Seq<EntryV>)> {
        Seq::new(self.dirs@.len(), |i: int| (self.dirs@[i].path@, self.dirs@[i].entries@))
    }

    pub closed spec fn wf(&self) -> bool {
        forall|i: int| 0 <= i < self.dirs@.len() ==> (#[trigger] self.dirs@[i].entries).wf()
    }

    pub fn new() -> (r: MemoryFs)
        ensures
            r.wf(),
            r.spec_files().len() == 0,
            r.spec_dirs().len() == 0,
    {
        let r = MemoryFs { files: Vec::new(), dirs: Vec::new() };
        proof {
            assert(r.spec_files() =~= Seq::<(Seq<char>, Seq<char>)>::empty());
            assert(r.spec_dirs() =~= Seq::<(Seq<char>, Seq<EntryV>)>::empty());
        }
        r
    }

    /// Puts file content at a path: the first slot stored for that path is
    /// replaced, and a fresh slot is appended when none exists.
    pub fn put_file(&mut self, path: String, content: String)
        requires
            old(self).wf(),
        ensures
            final(self).wf(),
            final(self).spec_dirs() == old(self).spec_dirs(),
            (match spec_slot_of(old(self).spec_files(), path@) {
                Some(i) => final(self).spec_files() == old(self).spec_files().update(
                    i,
                    (path@, content@),
                ),
                None => final(self).spec_files() == old(self).spec_files().push(
                    (path@, content@),
                ),
            }),
    {
        let ghost pre = self.spec_files();
        let pv = crate::path::str_to_chars(path.as_str());
        let n = self.files.len();
        let mut i: usize = 0;
        while i < n
            invariant
                i <= n,
                n == self.files@.len(),
                pv@ == path@,
                pre == self.spec_files(),
                pre == old(self).spec_files(),
                self.wf(),
                self.spec_dirs() == old(self).spec_dirs(),
                forall|k: int| 0 <= k < i ==> (#[trigger] pre[k]).0 != path@,
            decreases n - i,
        {
            let fv = crate::path::str_to_chars(self.files[i].path.as_str());
            if crate::components::vec_char_eq(&fv, &pv) {
                proof {
                    lemma_spec_slot_char(pre, path@, i as int);
                }
                let ghost predirs = self.spec_dirs();
                self.files.set(i, MemFile { path, content });
                proof {
                    assert(self.spec_files() =~= pre.update(i as int, (path@, content@)));
                    assert(self.spec_dirs() =~= predirs);
                }
                return ;
            }
            i = i + 1;
        }
        proof {
            lemma_spec_slot_none(pre, path@);
        }
        let ghost predirs = self.spec_dirs();
        self.files.push(MemFile { path, content });
        proof {
            assert(self.spec_files() =~= pre.push(
                (self.files@.last().path@, self.files@.last().content@),
            ));
            assert(self.spec_dirs() =~= predirs);
        }
    }

    /// Puts one directory entry under a directory path: the entry joins that
    /// path's listing in name order (replacing a namesake), and a fresh
    /// listing is appended when the path has none yet.
    pub fn put_dir_entry(&mut self, path: &str, entry: DirectoryEntry)
        requires
            old(self).wf(),
        ensures
            final(self).wf(),
            final(self).spec_files() == old(self).spec_files(),
            final(self).spec_dirs().len() >= old(self).spec_dirs().len(),
            forall|k: int|
                0 <= k < old(self).spec_dirs().len() ==> #[trigger] final(self).spec_dirs()[k]
                    == (if old(self).spec_dirs()[k].0 == path@ && (forall|m: int|
                    0 <= m < k ==> (#[trigger] old(self).spec_dirs()[m]).0 != path@) {
                    (path@, crate::tree::spec_insert_entry(old(self).spec_dirs()[k].1, entry.entry_v()))
                } else {
                    old(self).spec_dirs()[k]
                }),
            (forall|k: int|
                0 <= k < old(self).spec_dirs().len() ==> (#[trigger] old(self).spec_dirs()[k]).0
                    != path@) ==> final(self).spec_dirs() == old(self).spec_dirs().push(
                (path@, crate::tree::spec_insert_entry(Seq::empty(), entry.entry_v())),
            ),
    {
        let ghost predirs = self.spec_dirs();
        let n = self.dirs.len();
        let pv = crate::path::str_to_chars(path);
        let mut i: usize = 0;
        while i < n
            invariant
                i <= n,
                n == self.dirs@.len(),
                self.wf(),
                pv@ == path@,
                predirs == self.spec_dirs(),
                predirs == old(self).spec_dirs(),
                old(self).spec_files() == self.spec_files(),
                forall|k: int| 0 <= k < i ==> (#[trigger] predirs[k]).0 != path@,
            decreases n - i,
        {
            let dv = crate::path::str_to_chars(self.dirs[i].path.as_str());
            if crate::components::vec_char_eq(&dv, &pv) {
                let ghost prevec = self.dirs@;
                let removed = self.dirs.remove(i);
                let name = removed.path;
                let mut es = removed.entries;
                proof {
                    assert(es.wf()) by {
                        assert(removed == prevec[i as int]);
                    }
                    assert(self.wf()) by {
                        assert(forall|k: int|
                            0 <= k < self.dirs@.len() ==> self.dirs@[k] == prevec[
                            if k < i { k } else { k + 1 }]);
                    }
                }
                es.insert(entry);
                self.dirs.insert(i, MemDir { path: name, entries: es });
                proof {
                    assert(forall|k: int|
                        0 <= k < self.dirs@.len() && k != i ==> self.dirs@[k] == prevec[k]);
                    assert(self.spec_dirs() =~~= predirs.update(
                        i as int,
                        (path@, crate::tree::spec_insert_entry(predirs[i as int].1, entry.entry_v())),
                    ));
                    assert(self.spec_files() =~= old(self).spec_files());
                    assert(self.wf()) by {
                        assert(forall|k: int|
                            0 <= k < self.dirs@.len() && k != i ==> (
                            #[trigger] self.dirs@[k].entries).wf());
                    }
                }
                return ;
            }
            i = i + 1;
        }
        let mut es = Entries::new();
        es.insert(entry);
        self.dirs.push(MemDir { path: path.to_owned(), entries: es });
        proof {
            assert(forall|k: int|
                0 <= k < self.dirs@.len() - 1 ==> (#[trigger] self.dirs@[k].entries).wf());
            assert(self.spec_dirs() =~~= predirs.push(
                (path@, crate::tree::spec_insert_entry(Seq::empty(), entry.entry_v())),
            ));
            assert(self.spec_files() =~= old(self).spec_files());
        }
    }
}

impl VfsHandler for MemoryFs {
    fn read_and_watch_file(&mut self, path: &PathWithScheme) -> Option<String> {
        let n = self.files.len();
        let pv = crate::path::str_to_chars(path.path.as_str());
        let mut i: usize = 0;
        while i < n
            invariant
                i <= n,
                n == self.files@.len(),
            decreases n - i,
        {
            let fv = crate::path::str_to_chars(self.files[i].path.as_str());
            if crate::components::vec_char_eq(&fv, &pv) {
                return Some(self.files[i].content.clone());
            }
            i = i + 1;
        }
        None
    }

    fn read_and_watch_dir(
        &mut self,
        caps: &PathCaps,
        workspaces: &Workspaces,
        path: &str,
        parent: Parent,
    ) -> Entries {
        let n = self.dirs.len();
        let pv = crate::path::str_to_chars(path);
        let mut i: usize = 0;
        while i < n
            invariant
                i <= n,
                n == self.dirs@.len(),
            decreases n - i,
        {
            let dv = crate::path::str_to_chars(self.dirs[i].path.as_str());
            if crate::components::vec_char_eq(&dv, &pv) {
                return self.dirs[i].entries.clone_entries();
            }
            i = i + 1;
        }
        Entries::new()
    }

    fn read_and_watch_entry(
        &mut self,
        caps: &PathCaps,
        workspaces: &Workspaces,
        path: &str,
        parent: Parent,
        replace_name: &str,
    ) -> (r: Option<DirectoryEntry>) {
        let n = self.dirs.len();
        let pv = crate::path::str_to_chars(path);
        let mut i: usize = 0;
        while i < n
            invariant
                i <= n,
                n == self.dirs@.len(),
                pv@ == path@,
            decreases n - i,
        {
            let dv = crate::path::str_to_chars(self.dirs[i].path.as_str());
            if crate::components::vec_char_eq(&dv, &pv) {
                match self.dirs[i].entries.position_of(replace_name) {
                    Some(j) => {
                        let e = self.dirs[i].entries.get(j).clone_entry();
                        proof {
                            assert(e.spec_name() == replace_name@);
                        }
                        return Some(e);
                    },
                    None => {
                        return None;
                    },
                }
            }
            i = i + 1;
        }
        None
    }

    fn on_invalidated_in_memory_file(&mut self, path: &PathWithScheme) {
        let n = self.files.len();
        let pv = crate::path::str_to_chars(path.path.as_str());
        let mut i: usize = 0;
        while i < n
            invariant
                i <= n,
                n == self.files@.len(),
            decreases n - i,
        {
            let fv = crate::path::str_to_chars(self.files[i].path.as_str());
            if crate::components::vec_char_eq(&fv, &pv) {
                let _ = self.files.remove(i);
                return ;
            }
            i = i + 1;
        }
    }

    fn is_unnecessary_invalidation(
        &self,
        path: &AbsPath,
        current_entry: Option<&DirectoryEntry>,
    ) -> (r: bool) {
        false
    }
}

} // verus!
