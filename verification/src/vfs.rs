use vstd::prelude::*;
use crate::PathCaps;
use crate::handler::{PathWithScheme, VfsHandler};
use crate::normalize::norm_spec;
use crate::normalized_path::{normalize_path, NormalizedPath};
use crate::path::{parent_of_absolute_path, parent_spec, AbsPath};
use crate::tree::{Directory, DirectoryV, DirState, DirStateV, FileIndex};
use crate::workspaces::{spec_any_covers, spec_is_under, Workspaces};

verus! {

/// One change the backend observed on the underlying world.
#[derive(Clone, Copy, PartialEq, Eq, Structural)]
pub enum ChangeKind {
    Created,
    Modified,
    Removed,
    Renamed,
    Unknown,
}

/// A change notification, already translated to plain values: the path it
/// concerns and what kind of change it was (`Unknown` stands for "something
/// under this subtree changed").
pub struct ChangeEvent {
    pub kind: ChangeKind,
    pub path: AbsPath,
}

/// A cached file identity: the normalized path a [`FileIndex`] was assigned
/// for, and whether that identity is still alive. A retired slot is never
/// reused, so an index stays stable across content edits and is replaced
/// only when a different file later appears at the path.
pub struct VfsFile {
    pub path: NormalizedPath,
    pub alive: bool,
}

/// The ghost shape of one file identity.
pub struct VfsFileV {
    pub path: Seq<char>,
    pub alive: bool,
}

impl VfsFile {
    pub open spec fn file_v(&self) -> VfsFileV {
        VfsFileV { path: self.path@, alive: self.alive }
    }
}

/// What one applied notification invalidated: the normalized paths that must
/// be re-read before next use, and the file identities that were retired.
pub struct InvalidationResult {
    pub paths: Vec<NormalizedPath>,
    pub file_indices: Vec<FileIndex>,
}

impl InvalidationResult {
    pub open spec fn paths_v(&self) -> Seq<Seq<char>> {
        Seq::new(self.paths@.len(), |i: int| self.paths@[i]@)
    }

    pub open spec fn has_path(&self, p: Seq<char>) -> bool {
        exists|j: int| 0 <= j < self.paths_v().len() && self.paths_v()[j] == p
    }

    pub open spec fn has_index(&self, k: int) -> bool {
        exists|j: int| 0 <= j < self.file_indices@.len() && self.file_indices@[j].index == k
    }

    pub fn empty() -> (r: InvalidationResult)
        ensures
            r.paths_v() == Seq::<Seq<char>>::empty(),
            r.file_indices@ == Seq::<FileIndex>::empty(),
    {
        let r = InvalidationResult { paths: Vec::new(), file_indices: Vec::new() };
        proof {
            assert(r.paths_v() =~= Seq::<Seq<char>>::empty());
        }
        r
    }
}

/// The cached directories that some configured workspace still covers, in
/// their original order.
pub open spec fn keep_covered(
    caps: PathCaps,
    ws: Seq<crate::workspaces::Workspace>,
    s: Seq<DirectoryV>,
) -> Seq<DirectoryV>
    decreases s.len(),
{
    if s.len() == 0 {
        Seq::empty()
    } else if spec_any_covers(caps, ws, s[0].path) {
        seq![s[0]] + keep_covered(caps, ws, s.drop_first())
    } else {
        keep_covered(caps, ws, s.drop_first())
    }
}

pub proof fn lemma_keep_covered_snoc(
    caps: PathCaps,
    ws: Seq<crate::workspaces::Workspace>,
    s: Seq<DirectoryV>,
    x: DirectoryV,
)
    ensures
        keep_covered(caps, ws, s.push(x)) == if spec_any_covers(caps, ws, x.path) {
            keep_covered(caps, ws, s) + seq![x]
        } else {
            keep_covered(caps, ws, s)
        },
    decreases s.len(),
{
    reveal_with_fuel(keep_covered, 3);
    let full = s.push(x);
    if s.len() == 0 {
        assert(full[0] == x);
        assert(full.drop_first() =~= Seq::<DirectoryV>::empty());
        if spec_any_covers(caps, ws, x.path) {
            assert(keep_covered(caps, ws, full) =~= keep_covered(caps, ws, s) + seq![x]);
        }
    } else {
        assert(full[0] == s[0]);
        assert(full.drop_first() =~= s.drop_first().push(x));
        lemma_keep_covered_snoc(caps, ws, s.drop_first(), x);
        if spec_any_covers(caps, ws, x.path) {
            assert(keep_covered(caps, ws, full) =~= keep_covered(caps, ws, s) + seq![x]);
        } else {
            assert(keep_covered(caps, ws, full) =~= keep_covered(caps, ws, s));
        }
    }
}

/// A directory node with its cached listing evicted.
pub open spec fn evicted(d: DirectoryV) -> DirectoryV {
    DirectoryV { path: d.path, workspace: d.workspace, state: DirStateV::NotRead }
}

/// Exactly the nodes at `key` (and at its parent directory, when it has one)
/// lose their cached listing; every other node is untouched.
pub open spec fn dirs_evicted_at(
    pre: Seq<DirectoryV>,
    post: Seq<DirectoryV>,
    key: Seq<char>,
    pkey: Option<Seq<char>>,
) -> bool {
    &&& post.len() == pre.len()
    &&& forall|k: int|
        0 <= k < pre.len() ==> #[trigger] post[k] == (if pre[k].path == key || (pkey matches Some(p)
            && pre[k].path == p) {
            evicted(pre[k])
        } else {
            pre[k]
        })
}

/// Exactly the nodes under the subtree at `key` lose their cached listing.
pub open spec fn dirs_subtree_evicted(
    caps: PathCaps,
    pre: Seq<DirectoryV>,
    post: Seq<DirectoryV>,
    key: Seq<char>,
) -> bool {
    &&& post.len() == pre.len()
    &&& forall|k: int|
        0 <= k < pre.len() ==> #[trigger] post[k] == (if spec_is_under(caps, key, pre[k].path) {
            evicted(pre[k])
        } else {
            pre[k]
        })
}

/// Exactly the alive identities at `key` are retired; paths, positions and
/// every other identity stay as they were.
pub open spec fn files_retired_at(
    pre: Seq<VfsFileV>,
    post: Seq<VfsFileV>,
    key: Seq<char>,
) -> bool {
    &&& post.len() == pre.len()
    &&& forall|k: int|
        0 <= k < pre.len() ==> #[trigger] post[k] == (if pre[k].path == key && pre[k].alive {
            VfsFileV { path: pre[k].path, alive: false }
        } else {
            pre[k]
        })
}

/// The stateful heart of the layer: it owns the cached directory tree and
/// the file identities, populates them through the backend, and applies
/// invalidations when the world changes.
pub struct Vfs<H: VfsHandler> {
    caps: PathCaps,
    handler: H,
    workspaces: Workspaces,
    dirs: Vec<Directory>,
    files: Vec<VfsFile>,
}

impl<H: VfsHandler> Vfs<H> {
    pub closed spec fn spec_caps(&self) -> PathCaps {
        self.caps
    }

    /// Whether the backend's suppression policy vetoes an invalidation for
    /// `path` (with no cached entry handed over); the conservative policy,
    /// and the in-memory backend's, vetoes none.
    pub closed spec fn spec_suppresses_change(&self, path: Seq<char>) -> bool {
        self.handler.spec_suppresses(path, Option::<crate::tree::EntryV>::None)
    }

    pub closed spec fn workspaces_v(&self) -> Seq<crate::workspaces::Workspace> {
        self.workspaces@
    }

    pub fn caps(&self) -> (r: PathCaps)
        ensures
            r == self.spec_caps(),
    {
        self.caps
    }

    pub closed spec fn dirs_v(&self) -> Seq<DirectoryV> {
        Seq::new(self.dirs@.len(), |i: int| self.dirs@[i].dir_v())
    }

    pub closed spec fn files_v(&self) -> Seq<VfsFileV> {
        Seq::new(self.files@.len(), |i: int| self.files@[i].file_v())
    }

    /// Cached directory paths are unique: the cache is a map keyed by the
    /// normalized path.
    pub open spec fn wf(&self) -> bool {
        &&& forall|i: int, j: int|
            0 <= i < j < self.dirs_v().len() ==> (#[trigger] self.dirs_v()[i]).path != (
            #[trigger] self.dirs_v()[j]).path
        &&& forall|i: int, j: int|
            0 <= i < j < self.files_v().len() ==> !((#[trigger] self.files_v()[i]).alive && (
            #[trigger] self.files_v()[j]).alive && self.files_v()[i].path == self.files_v()[j].path)
    }

    pub fn new(caps: PathCaps, handler: H, workspaces: Workspaces) -> (r: Vfs<H>)
        ensures
            r.wf(),
            r.spec_caps() == caps,
            r.dirs_v() == Seq::<DirectoryV>::empty(),
            r.files_v() == Seq::<VfsFileV>::empty(),
            r.workspaces_v() == workspaces@,
    {
        let r = Vfs { caps, handler, workspaces, dirs: Vec::new(), files: Vec::new() };
        proof {
            assert(r.dirs_v() =~= Seq::<DirectoryV>::empty());
            assert(r.files_v() =~= Seq::<VfsFileV>::empty());
        }
        r
    }

    /// The position of the cached directory keyed `key`, if one is cached.
    fn dir_position(&self, key: &NormalizedPath) -> (r: Option<usize>)
        ensures
            match r {
                Some(i) => i < self.dirs_v().len() && self.dirs_v()[i as int].path == key@,
                None => forall|k: int|
                    0 <= k < self.dirs_v().len() ==> (#[trigger] self.dirs_v()[k]).path != key@,
            },
    {
        let n = self.dirs.len();
        let kv = crate::path::str_to_chars(key.as_str());
        let mut i: usize = 0;
        while i < n
            invariant
                i <= n,
                n == self.dirs@.len(),
                kv@ == key@,
                forall|k: int| 0 <= k < i ==> (#[trigger] self.dirs_v()[k]).path != key@,
            decreases n - i,
        {
            let dv = crate::path::str_to_chars(self.dirs[i].path.as_str());
            if crate::components::vec_char_eq(&dv, &kv) {
                return Some(i);
            }
            i = i + 1;
        }
        None
    }

    /// How the cache currently holds `key`: absent, known but not read, or
    /// read.
    pub fn probe_dir(&self, key: &NormalizedPath) -> (r: Option<bool>)
        ensures
            match r {
                Some(read) => exists|k: int|
                    0 <= k < self.dirs_v().len() && (#[trigger] self.dirs_v()[k]).path == key@ && (
                    read <==> self.dirs_v()[k].state is Read),
                None => forall|k: int|
                    0 <= k < self.dirs_v().len() ==> (#[trigger] self.dirs_v()[k]).path != key@,
            },
    {
        match self.dir_position(key) {
            None => None,
            Some(i) => {
                match &self.dirs[i].state {
                    DirState::NotRead => Some(false),
                    DirState::Read(_) => Some(true),
                }
            },
        }
    }

    /// Whether the file identity is still alive.
    pub fn file_alive(&self, index: FileIndex) -> (r: bool)
        requires
            index.index < self.files_v().len(),
        ensures
            r == self.files_v()[index.index as int].alive,
    {
        self.files[index.index].alive
    }

    /// The alive file identity assigned for `key`, if one exists.
    pub fn file_index_of(&self, key: &NormalizedPath) -> (r: Option<FileIndex>)
        ensures
            match r {
                Some(fi) => fi.index < self.files_v().len() && self.files_v()[fi.index as int].path
                    == key@ && self.files_v()[fi.index as int].alive,
                None => forall|k: int|
                    0 <= k < self.files_v().len() ==> !((#[trigger] self.files_v()[k]).path == key@
                        && self.files_v()[k].alive),
            },
    {
        let n = self.files.len();
        let kv = crate::path::str_to_chars(key.as_str());
        let mut i: usize = 0;
        while i < n
            invariant
                i <= n,
                n == self.files@.len(),
                kv@ == key@,
                forall|k: int|
                    0 <= k < i ==> !((#[trigger] self.files_v()[k]).path == key@ && self.files_v()[
                    k].alive),
            decreases n - i,
        {
            if self.files[i].alive {
                let fv = crate::path::str_to_chars(self.files[i].path.as_str());
                if crate::components::vec_char_eq(&fv, &kv) {
                    return Some(FileIndex { index: i });
                }
            }
            i = i + 1;
        }
        None
    }

    /// The identity for `key`: the alive one if it exists, else a fresh one.
    /// An existing identity is never disturbed, so an index stays stable
    /// across repeated reads and content edits.
    pub fn ensure_file_index(&mut self, key: &NormalizedPath) -> (r: FileIndex)
        requires
            old(self).wf(),
        ensures
            final(self).wf(),
            final(self).spec_caps() == old(self).spec_caps(),
            final(self).dirs_v() == old(self).dirs_v(),
            final(self).workspaces_v() == old(self).workspaces_v(),
            r.index < final(self).files_v().len(),
            final(self).files_v()[r.index as int].path == key@,
            final(self).files_v()[r.index as int].alive,
            (match old(self).spec_file_index_of(key@) {
                Some(k) => r.index == k && final(self).files_v() == old(self).files_v(),
                None => final(self).files_v() == old(self).files_v().push(
                    VfsFileV { path: key@, alive: true },
                ) && r.index == old(self).files_v().len(),
            }),
    {
        let found = self.file_index_of(key);
        proof {
            self.lemma_spec_file_index_of(key@);
        }
        match found {
            Some(fi) => fi,
            None => {
                let ghost pre = self.files_v();
                let i = self.files.len();
                self.files.push(VfsFile { path: key.clone_normalized(), alive: true });
                proof {
                    assert(self.files_v() =~= pre.push(VfsFileV { path: key@, alive: true }));
                    assert(self.dirs_v() =~= old(self).dirs_v());
                }
                FileIndex { index: i }
            },
        }
    }

    /// The first alive identity for `key`, as the specification sees it.
    pub closed spec fn spec_file_index_of(&self, key: Seq<char>) -> Option<int> {
        if exists|k: int|
            0 <= k < self.files_v().len() && (#[trigger] self.files_v()[k]).path == key
                && self.files_v()[k].alive {
            Some(
                choose|k: int|
                    0 <= k < self.files_v().len() && (#[trigger] self.files_v()[k]).path == key
                        && self.files_v()[k].alive,
            )
        } else {
            None
        }
    }

    proof fn lemma_spec_file_index_of(&self, key: Seq<char>)
        ensures
            match self.spec_file_index_of(key) {
                Some(k) => 0 <= k < self.files_v().len() && self.files_v()[k].path == key
                    && self.files_v()[k].alive,
                None => forall|k: int|
                    0 <= k < self.files_v().len() ==> !((#[trigger] self.files_v()[k]).path == key
                        && self.files_v()[k].alive),
            },
    {
    }

    /// The listing of the directory at `path`, from the cache when it was
    /// already read, and freshly from the backend otherwise; in that case the
    /// returned listing is exactly what the cache holds afterwards.
    pub fn read_directory(&mut self, path: &AbsPath) -> (r: crate::tree::Entries)
        requires
            old(self).wf(),
        ensures
            final(self).wf(),
            final(self).spec_caps() == old(self).spec_caps(),
            final(self).workspaces_v() == old(self).workspaces_v(),
            final(self).files_v() == old(self).files_v(),
            ({
                let key = norm_spec(old(self).spec_caps(), path@);
                let pre = old(self).dirs_v();
                let post = final(self).dirs_v();
                &&& post.len() >= pre.len()
                &&& post.len() <= pre.len() + 1
                &&& forall|k: int|
                    0 <= k < pre.len() && (#[trigger] pre[k]).path != key ==> post[k] == pre[k]
                &&& forall|k: int|
                    0 <= k < post.len() && (#[trigger] post[k]).path == key ==> post[k].state
                        == DirStateV::Read(r@)
                &&& exists|k: int| 0 <= k < post.len() && (#[trigger] post[k]).path == key
                &&& forall|k: int|
                    pre.len() <= k < post.len() ==> (#[trigger] post[k]).path == key
                &&& forall|k: int|
                    0 <= k < pre.len() && (#[trigger] pre[k]).path == key && pre[k].state is Read
                        ==> post == pre && pre[k].state == DirStateV::Read(r@)
            }),
    {
        let norm = normalize_path(&self.caps, path);
        let pos = self.dir_position(&norm);
        if let Some(i) = pos {
            let cached = match &self.dirs[i].state {
                DirState::Read(es) => Some(es.clone_entries()),
                DirState::NotRead => None,
            };
            if let Some(es) = cached {
                proof {
                    assert(final(self).dirs_v() =~= old(self).dirs_v());
                    assert(final(self).files_v() =~= old(self).files_v());
                    let pre = old(self).dirs_v();
                    assert forall|k: int|
                        0 <= k < pre.len() && (#[trigger] pre[k]).path == norm@
                            && pre[k].state is Read implies pre[k].state == DirStateV::Read(
                        es@,
                    ) by {
                        if k != i {
                            assert(pre[k].path == norm@ && pre[i as int].path == norm@);
                        }
                    }
                }
                return es;
            }
            proof {
                // the node at the key is cached but not read
                assert(old(self).dirs_v()[i as int].state is NotRead);
            }
        }
        proof {
            let pre = old(self).dirs_v();
            assert forall|k: int|
                0 <= k < pre.len() && (#[trigger] pre[k]).path == norm@ implies !(
            pre[k].state is Read) by {
                match pos {
                    Some(i) => {
                        if k != i {
                            assert(pre[k].path == norm@ && pre[i as int].path == norm@);
                        }
                    },
                    None => {},
                }
            }
        }
        let ws = match self.workspaces.covering_index(&self.caps, norm.as_str()) {
            Some(w) => w,
            None => 0,
        };
        let parent = crate::tree::Parent::new(ws, norm.clone_normalized());
        let es = self.handler.read_and_watch_dir(
            &self.caps,
            &self.workspaces,
            norm.as_str(),
            parent,
        );
        let stored = Directory {
            path: norm.clone_normalized(),
            workspace: ws,
            state: DirState::Read(es.clone_entries()),
        };
        let ghost pre = self.dirs_v();
        let ghost stored_v = stored.dir_v();
        match pos {
            Some(i) => {
                self.dirs.set(i, stored);
                proof {
                    assert(self.dirs_v() =~= pre.update(i as int, stored_v));
                    assert(forall|k: int|
                        0 <= k < self.dirs_v().len() ==> (#[trigger] self.dirs_v()[k]).path
                            == pre[k].path);
                }
            },
            None => {
                self.dirs.push(stored);
                proof {
                    assert(self.dirs_v() =~= pre.push(stored_v));
                }
            },
        }
        proof {
            assert(self.files_v() =~= old(self).files_v());
            let key = norm_spec(old(self).spec_caps(), path@);
            let pre = old(self).dirs_v();
            let post = self.dirs_v();
            assert(norm@ == key);
            assert(stored_v.path == key && stored_v.state == DirStateV::Read(es@));
            match pos {
                Some(i) => {
                    assert(post[i as int] == stored_v);
                    assert forall|k: int|
                        0 <= k < post.len() && (#[trigger] post[k]).path == key implies post[k].state
                        == DirStateV::Read(es@) by {
                        if k != i {
                            assert(pre[k].path == key && pre[i as int].path == key);
                        }
                    }
                },
                None => {
                    assert(post[pre.len() as int] == stored_v);
                    assert forall|k: int|
                        0 <= k < post.len() && (#[trigger] post[k]).path == key implies post[k].state
                        == DirStateV::Read(es@) by {
                        if k < pre.len() {
                            assert(pre[k].path != key);
                        }
                    }
                },
            }
        }
        es
    }

    /// One child of `dir_path` by name, from the cached listing when there is
    /// one, and through the backend's point lookup otherwise. A returned
    /// entry always carries the requested name.
    pub fn resolve_entry(&mut self, dir_path: &AbsPath, name: &str) -> (r: Option<
        crate::tree::DirectoryEntry,
    >)
        requires
            old(self).wf(),
        ensures
            final(self).wf(),
            final(self).spec_caps() == old(self).spec_caps(),
            final(self).workspaces_v() == old(self).workspaces_v(),
            final(self).files_v() == old(self).files_v(),
            final(self).dirs_v() == old(self).dirs_v(),
            r matches Some(e) ==> e.spec_name() == name@,
            ({
                let key = norm_spec(old(self).spec_caps(), dir_path@);
                let pre = old(self).dirs_v();
                forall|k: int|
                    0 <= k < pre.len() && (#[trigger] pre[k]).path == key ==> (match pre[k].state {
                        DirStateV::Read(es) => (match crate::tree::spec_position_of(es, name@) {
                            Some(j) => r matches Some(e) && e.entry_v() == es[j],
                            None => true,
                        }),
                        DirStateV::NotRead => true,
                    })
            }),
    {
        let norm = normalize_path(&self.caps, dir_path);
        let pos = self.dir_position(&norm);
        if let Some(i) = pos {
            let found = match &self.dirs[i].state {
                DirState::Read(es) => {
                    match es.position_of(name) {
                        Some(j) => Some(es.get(j).clone_entry()),
                        None => None,
                    }
                },
                DirState::NotRead => None,
            };
            if let Some(e) = found {
                proof {
                    assert(final(self).dirs_v() =~= old(self).dirs_v());
                    assert(final(self).files_v() =~= old(self).files_v());
                    let pre = old(self).dirs_v();
                    assert forall|k: int|
                        0 <= k < pre.len() && (#[trigger] pre[k]).path == norm@ implies k
                        == i by {
                        if k != i {
                            assert(pre[k].path == norm@ && pre[i as int].path == norm@);
                        }
                    }
                }
                return Some(e);
            }
            proof {
                // the key's node is cached unread, or its listing lacks the name
                let pre = old(self).dirs_v();
                assert forall|k: int|
                    0 <= k < pre.len() && (#[trigger] pre[k]).path == norm@ implies k == i by {
                    if k != i {
                        assert(pre[k].path == norm@ && pre[i as int].path == norm@);
                    }
                }
            }
        }
        let ws = match self.workspaces.covering_index(&self.caps, norm.as_str()) {
            Some(w) => w,
            None => 0,
        };
        let parent = crate::tree::Parent::new(ws, norm.clone_normalized());
        let r = self.handler.read_and_watch_entry(
            &self.caps,
            &self.workspaces,
            norm.as_str(),
            parent,
            name,
        );
        proof {
            assert(final(self).dirs_v() =~= old(self).dirs_v());
            assert(final(self).files_v() =~= old(self).files_v());
        }
        r
    }

    /// The content of the file at `path`, with the stable identity assigned
    /// to it; nothing when the backend reports no such file. An identity that
    /// already existed for this path is reused untouched.
    pub fn read_file(&mut self, path: &PathWithScheme) -> (r: Option<(FileIndex, String)>)
        requires
            old(self).wf(),
        ensures
            final(self).wf(),
            final(self).spec_caps() == old(self).spec_caps(),
            final(self).workspaces_v() == old(self).workspaces_v(),
            final(self).dirs_v() == old(self).dirs_v(),
            r is None ==> final(self).files_v() == old(self).files_v(),
            r matches Some((fi, _)) ==> {
                &&& fi.index < final(self).files_v().len()
                &&& final(self).files_v()[fi.index as int].path == path.path@
                &&& final(self).files_v()[fi.index as int].alive
                &&& match old(self).spec_file_index_of(path.path@) {
                    Some(k) => fi.index == k && final(self).files_v() == old(self).files_v(),
                    None => final(self).files_v() == old(self).files_v().push(
                        VfsFileV { path: path.path@, alive: true },
                    ),
                }
            },
    {
        let content = self.handler.read_and_watch_file(path);
        proof {
            assert(self.files_v() =~= old(self).files_v());
            assert(self.dirs_v() =~= old(self).dirs_v());
        }
        match content {
            None => None,
            Some(text) => {
                let fi = self.ensure_file_index(&path.path);
                Some((fi, text))
            },
        }
    }

    /// Evicts the listings cached at `key` and, when given, at `pkey`.
    fn evict_dirs(&mut self, key: &NormalizedPath, pkey: &Option<NormalizedPath>)
        ensures
            final(self).spec_caps() == old(self).spec_caps(),
            final(self).workspaces_v() == old(self).workspaces_v(),
            final(self).files_v() == old(self).files_v(),
            dirs_evicted_at(
                old(self).dirs_v(),
                final(self).dirs_v(),
                key@,
                match pkey {
                    Some(p) => Some(p@),
                    None => None,
                },
            ),
    {
        let ghost pre = self.dirs_v();
        let ghost pk: Option<Seq<char>> = match pkey {
            Some(p) => Some(p@),
            None => None,
        };
        let kv = crate::path::str_to_chars(key.as_str());
        let n = self.dirs.len();
        let mut i: usize = 0;
        while i < n
            invariant
                i <= n,
                n == self.dirs@.len(),
                kv@ == key@,
                pk == (match pkey {
                    Some(p) => Some(p@),
                    None => None,
                }),
                pre.len() == n,
                self.files_v() == old(self).files_v(),
                self.spec_caps() == old(self).spec_caps(),
                self.workspaces_v() == old(self).workspaces_v(),
                forall|m: int| i <= m < n ==> #[trigger] self.dirs_v()[m] == pre[m],
                forall|m: int|
                    0 <= m < i ==> #[trigger] self.dirs_v()[m] == (if pre[m].path == key@ || (
                    pk matches Some(p) && pre[m].path == p) {
                        evicted(pre[m])
                    } else {
                        pre[m]
                    }),
            decreases n - i,
        {
            let dv = crate::path::str_to_chars(self.dirs[i].path.as_str());
            let mut hit = crate::components::vec_char_eq(&dv, &kv);
            if !hit {
                if let Some(p) = pkey {
                    let pv = crate::path::str_to_chars(p.as_str());
                    hit = crate::components::vec_char_eq(&dv, &pv);
                }
            }
            if hit {
                let ghost snapshot = self.dirs_v();
                let node = Directory {
                    path: self.dirs[i].path.clone_normalized(),
                    workspace: self.dirs[i].workspace,
                    state: DirState::NotRead,
                };
                proof {
                    assert(self.dirs_v()[i as int] == pre[i as int]);
                    assert(node.dir_v().path == pre[i as int].path);
                    assert(node.dir_v().workspace == pre[i as int].workspace);
                    assert(node.dir_v() == evicted(pre[i as int]));
                }
                self.dirs.set(i, node);
                proof {
                    assert(self.dirs_v() =~= snapshot.update(i as int, evicted(pre[i as int])));
                    assert(self.files_v() =~= old(self).files_v());
                }
            }
            i = i + 1;
        }
    }

    /// Retires every alive identity at `key`, reporting the retired indices.
    fn retire_files(&mut self, key: &NormalizedPath) -> (r: Vec<FileIndex>)
        ensures
            final(self).spec_caps() == old(self).spec_caps(),
            final(self).workspaces_v() == old(self).workspaces_v(),
            final(self).dirs_v() == old(self).dirs_v(),
            files_retired_at(old(self).files_v(), final(self).files_v(), key@),
            forall|k: int|
                0 <= k < old(self).files_v().len() ==> ((exists|j: int|
                    0 <= j < r@.len() && (#[trigger] r@[j]).index == k) <==> ((
                #[trigger] old(self).files_v()[k]).path == key@ && old(self).files_v()[k].alive)),
            forall|j: int| 0 <= j < r@.len() ==> (#[trigger] r@[j]).index < old(
                self,
            ).files_v().len(),
    {
        let ghost pre = self.files_v();
        let kv = crate::path::str_to_chars(key.as_str());
        let n = self.files.len();
        let mut out: Vec<FileIndex> = Vec::new();
        let mut i: usize = 0;
        while i < n
            invariant
                i <= n,
                n == self.files@.len(),
                kv@ == key@,
                pre.len() == n,
                self.dirs_v() == old(self).dirs_v(),
                self.spec_caps() == old(self).spec_caps(),
                self.workspaces_v() == old(self).workspaces_v(),
                forall|m: int| i <= m < n ==> #[trigger] self.files_v()[m] == pre[m],
                forall|m: int|
                    0 <= m < i ==> #[trigger] self.files_v()[m] == (if pre[m].path == key@
                        && pre[m].alive {
                        VfsFileV { path: pre[m].path, alive: false }
                    } else {
                        pre[m]
                    }),
                forall|j: int| 0 <= j < out@.len() ==> (#[trigger] out@[j]).index < i,
                forall|m: int|
                    0 <= m < i ==> ((exists|j: int|
                        0 <= j < out@.len() && (#[trigger] out@[j]).index == m) <==> ((
                    #[trigger] pre[m]).path == key@ && pre[m].alive)),
            decreases n - i,
        {
            let mut hit = false;
            if self.files[i].alive {
                let fv = crate::path::str_to_chars(self.files[i].path.as_str());
                hit = crate::components::vec_char_eq(&fv, &kv);
            }
            proof {
                assert(self.files_v()[i as int] == pre[i as int]);
                assert(hit == (pre[i as int].path == key@ && pre[i as int].alive));
            }
            if hit {
                let ghost snapshot = self.files_v();
                let ghost outpre0 = out@;
                let node = VfsFile { path: self.files[i].path.clone_normalized(), alive: false };
                proof {
                    assert(self.files_v()[i as int] == pre[i as int]);
                    assert(node.file_v() == VfsFileV { path: pre[i as int].path, alive: false });
                }
                self.files.set(i, node);
                let ghost outpre = out@;
                out.push(FileIndex { index: i });
                proof {
                    assert(self.files_v() =~= snapshot.update(
                        i as int,
                        VfsFileV { path: pre[i as int].path, alive: false },
                    ));
                    assert(self.dirs_v() =~= old(self).dirs_v());
                    assert(out@ == outpre.push(FileIndex { index: i }));
                    assert forall|m: int|
                        0 <= m < i + 1 implies ((exists|j: int|
                        0 <= j < out@.len() && (#[trigger] out@[j]).index == m) <==> ((
                    #[trigger] pre[m]).path == key@ && pre[m].alive)) by {
                        if m < i {
                            if exists|j: int|
                                0 <= j < outpre.len() && (#[trigger] outpre[j]).index == m {
                                let j = choose|j: int|
                                    0 <= j < outpre.len() && (#[trigger] outpre[j]).index == m;
                                assert(out@[j].index == m);
                            }
                        } else {
                            assert(out@[out@.len() - 1].index == i);
                        }
                    }
                }
            } else {
                proof {
                    assert(forall|j: int| 0 <= j < out@.len() ==> (#[trigger] out@[j]).index < i);
                }
            }
            i = i + 1;
        }
        out
    }

    /// Applies one change notification to the cache, evicting exactly the
    /// nodes whose cached state could now be wrong, and reports what became
    /// stale. Exactly when the backend's suppression policy vetoes the
    /// notification (the conservative policy vetoes none), the cache is
    /// untouched and the report is empty.
    pub fn apply_change_event(&mut self, ev: &ChangeEvent) -> (r: InvalidationResult)
        requires
            old(self).wf(),
        ensures
            final(self).wf(),
            final(self).spec_caps() == old(self).spec_caps(),
            final(self).workspaces_v() == old(self).workspaces_v(),
            ({
                let caps = old(self).spec_caps();
                let key = norm_spec(caps, ev.path@);
                let pkey = parent_spec(caps, key);
                let pre_d = old(self).dirs_v();
                let post_d = final(self).dirs_v();
                let pre_f = old(self).files_v();
                let post_f = final(self).files_v();
                if old(self).spec_suppresses_change(ev.path@) {
                    post_d == pre_d && post_f == pre_f && r.paths_v().len() == 0
                        && r.file_indices@.len() == 0
                } else {
                    match ev.kind {
                    ChangeKind::Modified => post_d == pre_d && post_f == pre_f && r.paths_v()
                        == seq![key] && r.file_indices@.len() == 0,
                    ChangeKind::Created => dirs_evicted_at(pre_d, post_d, key, pkey) && post_f
                        == pre_f && r.paths_v() == (match pkey {
                        Some(p) => seq![key, p],
                        None => seq![key],
                    }) && r.file_indices@.len() == 0,
                    ChangeKind::Removed | ChangeKind::Renamed => dirs_evicted_at(
                        pre_d,
                        post_d,
                        key,
                        pkey,
                    ) && files_retired_at(pre_f, post_f, key) && r.paths_v() == (match pkey {
                        Some(p) => seq![key, p],
                        None => seq![key],
                    }) && (forall|k: int|
                        0 <= k < pre_f.len() ==> (r.has_index(k) <==> ((#[trigger] pre_f[k]).path
                            == key && pre_f[k].alive))),
                    ChangeKind::Unknown => dirs_subtree_evicted(caps, pre_d, post_d, key) && post_f
                        == pre_f && r.has_path(key) && (forall|k: int|
                        0 <= k < pre_d.len() && spec_is_under(
                            caps,
                            key,
                            (#[trigger] pre_d[k]).path,
                        ) ==> r.has_path(pre_d[k].path)) && (forall|j: int|
                        0 <= j < r.paths_v().len() ==> ((#[trigger] r.paths_v()[j]) == key
                            || spec_is_under(caps, key, r.paths_v()[j]))) && r.file_indices@.len()
                        == 0,
                    }
                }
            }),
    {
        if self.handler.is_unnecessary_invalidation(&ev.path, None) {
            let r = InvalidationResult::empty();
            proof {
                assert(final(self).dirs_v() =~= old(self).dirs_v());
                assert(final(self).files_v() =~= old(self).files_v());
            }
            return r;
        }
        proof {
            assert(self.dirs_v() =~= old(self).dirs_v());
            assert(self.files_v() =~= old(self).files_v());
        }
        let norm = normalize_path(&self.caps, &ev.path);
        match ev.kind {
            ChangeKind::Modified => {
                let mut paths: Vec<NormalizedPath> = Vec::new();
                paths.push(norm);
                let r = InvalidationResult { paths, file_indices: Vec::new() };
                proof {
                    assert(r.paths_v() =~= seq![norm_spec(old(self).spec_caps(), ev.path@)]);
                    assert(final(self).dirs_v() =~= old(self).dirs_v());
                    assert(final(self).files_v() =~= old(self).files_v());
                }
                r
            },
            ChangeKind::Created => {
                let (paths, pkey) = self.key_and_parent(&norm);
                self.evict_dirs(&norm, &pkey);
                let r = InvalidationResult { paths, file_indices: Vec::new() };
                proof {
                    self.lemma_wf_preserved(old(self));
                }
                r
            },
            ChangeKind::Removed | ChangeKind::Renamed => {
                let (paths, pkey) = self.key_and_parent(&norm);
                self.evict_dirs(&norm, &pkey);
                let indices = self.retire_files(&norm);
                let r = InvalidationResult { paths, file_indices: indices };
                proof {
                    self.lemma_wf_preserved(old(self));
                    let pre_f = old(self).files_v();
                    assert forall|k: int|
                        0 <= k < pre_f.len() implies (r.has_index(k) <==> ((
                    #[trigger] pre_f[k]).path == norm@ && pre_f[k].alive)) by {
                        if r.has_index(k) {
                            let j = choose|j: int|
                                0 <= j < r.file_indices@.len() && r.file_indices@[j].index == k;
                            assert(r.file_indices@[j].index == k);
                        }
                        if pre_f[k].path == norm@ && pre_f[k].alive {
                            let j = choose|j: int|
                                0 <= j < r.file_indices@.len() && (#[trigger] r.file_indices@[
                                j]).index == k;
                            assert(0 <= j < r.file_indices@.len() && r.file_indices@[j].index
                                == k);
                        }
                    }
                }
                r
            },
            ChangeKind::Unknown => {
                self.invalidate_subtree(&norm)
            },
        }
    }

    /// The invalidation list for one path: the path itself and its parent
    /// directory, whose cached listing may now be stale.
    fn key_and_parent(&self, key: &NormalizedPath) -> (r: (
        Vec<NormalizedPath>,
        Option<NormalizedPath>,
    ))
        ensures
            ({
                let pkey = parent_spec(self.spec_caps(), key@);
                &&& (match r.1 {
                    Some(p) => pkey == Some(p@),
                    None => pkey is None,
                }
                )
                &&& Seq::new(r.0@.len(), |i: int| r.0@[i]@) == (match pkey {
                    Some(p) => seq![key@, p],
                    None => seq![key@],
                })
            }),
    {
        let nabs = AbsPath::new(key.as_str());
        let parent = parent_of_absolute_path(&self.caps, &nabs);
        let mut paths: Vec<NormalizedPath> = Vec::new();
        paths.push(key.clone_normalized());
        match parent {
            Some(p) => {
                let pn = NormalizedPath::new_arc(std::sync::Arc::new(p));
                paths.push(pn.clone_normalized());
                proof {
                    assert(Seq::new(paths@.len(), |i: int| paths@[i]@) =~= seq![
                        key@,
                        parent_spec(self.spec_caps(), key@)->0,
                    ]);
                }
                (paths, Some(pn))
            },
            None => {
                proof {
                    assert(Seq::new(paths@.len(), |i: int| paths@[i]@) =~= seq![key@]);
                }
                (paths, None)
            },
        }
    }

    /// Well-formedness survives any change that keeps every path in place
    /// and never revives a retired identity.
    proof fn lemma_wf_preserved(&self, pre: &Self)
        requires
            pre.wf(),
            self.dirs_v().len() == pre.dirs_v().len(),
            forall|k: int|
                0 <= k < pre.dirs_v().len() ==> (#[trigger] self.dirs_v()[k]).path
                    == pre.dirs_v()[k].path,
            self.files_v().len() == pre.files_v().len(),
            forall|k: int|
                0 <= k < pre.files_v().len() ==> (#[trigger] self.files_v()[k]).path
                    == pre.files_v()[k].path && (self.files_v()[k].alive
                    ==> pre.files_v()[k].alive),
        ensures
            self.wf(),
    {
    }

    /// Conservatively invalidates everything cached under `key`: the fallback
    /// for a notification with no detail, and the recovery outcome after a
    /// defect while mutating the cache.
    pub fn invalidate_subtree(&mut self, key: &NormalizedPath) -> (r: InvalidationResult)
        requires
            old(self).wf(),
        ensures
            final(self).wf(),
            final(self).spec_caps() == old(self).spec_caps(),
            final(self).workspaces_v() == old(self).workspaces_v(),
            final(self).files_v() == old(self).files_v(),
            dirs_subtree_evicted(old(self).spec_caps(), old(self).dirs_v(), final(self).dirs_v(), key@),
            r.has_path(key@),
            forall|k: int|
                0 <= k < old(self).dirs_v().len() && spec_is_under(
                    old(self).spec_caps(),
                    key@,
                    (#[trigger] old(self).dirs_v()[k]).path,
                ) ==> r.has_path(old(self).dirs_v()[k].path),
            forall|j: int|
                0 <= j < r.paths_v().len() ==> ((#[trigger] r.paths_v()[j]) == key@
                    || spec_is_under(old(self).spec_caps(), key@, r.paths_v()[j])),
            r.file_indices@.len() == 0,
    {
        let ghost pre = self.dirs_v();
        let caps = self.caps;
        let mut paths: Vec<NormalizedPath> = Vec::new();
        paths.push(key.clone_normalized());
        let n = self.dirs.len();
        let mut i: usize = 0;
        while i < n
            invariant
                i <= n,
                n == self.dirs@.len(),
                pre.len() == n,
                caps == self.spec_caps(),
                self.files_v() == old(self).files_v(),
                self.spec_caps() == old(self).spec_caps(),
                self.workspaces_v() == old(self).workspaces_v(),
                paths@.len() >= 1 && paths@[0]@ == key@,
                forall|m: int| i <= m < n ==> #[trigger] self.dirs_v()[m] == pre[m],
                forall|m: int|
                    0 <= m < i ==> #[trigger] self.dirs_v()[m] == (if spec_is_under(
                        caps,
                        key@,
                        pre[m].path,
                    ) {
                        evicted(pre[m])
                    } else {
                        pre[m]
                    }),
                forall|m: int|
                    0 <= m < i && spec_is_under(caps, key@, (#[trigger] pre[m]).path) ==> exists|
                        j: int,
                    | 0 <= j < paths@.len() && (#[trigger] paths@[j])@ == pre[m].path,
                forall|j: int|
                    0 <= j < paths@.len() ==> ((#[trigger] paths@[j])@ == key@ || spec_is_under(
                        caps,
                        key@,
                        paths@[j]@,
                    )),
            decreases n - i,
        {
            let under = crate::workspaces::is_under(&caps, key.as_str(), self.dirs[i].path.as_str());
            proof {
                assert(self.dirs_v()[i as int] == pre[i as int]);
                assert(under == spec_is_under(caps, key@, pre[i as int].path));
            }
            if under {
                let ghost snapshot = self.dirs_v();
                let ghost ppre = paths@;
                let node = Directory {
                    path: self.dirs[i].path.clone_normalized(),
                    workspace: self.dirs[i].workspace,
                    state: DirState::NotRead,
                };
                proof {
                    assert(self.dirs_v()[i as int] == pre[i as int]);
                    assert(node.dir_v() == evicted(pre[i as int]));
                }
                paths.push(node.path.clone_normalized());
                self.dirs.set(i, node);
                proof {
                    assert(self.dirs_v() =~= snapshot.update(i as int, evicted(pre[i as int])));
                    assert(self.files_v() =~= old(self).files_v());
                    assert(paths@[paths@.len() - 1]@ == pre[i as int].path);
                    assert forall|m: int|
                        0 <= m < i + 1 && spec_is_under(
                            caps,
                            key@,
                            (#[trigger] pre[m]).path,
                        ) implies exists|j: int|
                        0 <= j < paths@.len() && (#[trigger] paths@[j])@ == pre[m].path by {
                        if m < i {
                            let j = choose|j: int|
                                0 <= j < ppre.len() && (#[trigger] ppre[j])@ == pre[m].path;
                            assert(paths@[j]@ == pre[m].path);
                        } else {
                            assert(paths@[paths@.len() - 1]@ == pre[m].path);
                        }
                    }
                }
            }
            i = i + 1;
        }
        let r = InvalidationResult { paths, file_indices: Vec::new() };
        proof {
            self.lemma_wf_preserved(old(self));
            assert(r.paths_v()[0] == key@);
            assert forall|k: int|
                0 <= k < pre.len() && spec_is_under(
                    old(self).spec_caps(),
                    key@,
                    (#[trigger] pre[k]).path,
                ) implies r.has_path(pre[k].path) by {
                let j = choose|j: int|
                    0 <= j < r.paths@.len() && (#[trigger] r.paths@[j])@ == pre[k].path;
                assert(r.paths_v()[j] == pre[k].path);
            }
        }
        r
    }

    /// Reports an in-memory overlay for the file as gone: the backend hook
    /// fires, and the file's path must be re-read before next use. The cached
    /// tree and the file identities are untouched.
    pub fn invalidate_in_memory_file(&mut self, path: &PathWithScheme) -> (r: InvalidationResult)
        requires
            old(self).wf(),
        ensures
            final(self).wf(),
            final(self).spec_caps() == old(self).spec_caps(),
            final(self).workspaces_v() == old(self).workspaces_v(),
            final(self).dirs_v() == old(self).dirs_v(),
            final(self).files_v() == old(self).files_v(),
            r.paths_v() == seq![path.path@],
            r.file_indices@.len() == 0,
    {
        self.handler.on_invalidated_in_memory_file(path);
        let mut paths: Vec<NormalizedPath> = Vec::new();
        paths.push(path.path.clone_normalized());
        let r = InvalidationResult { paths, file_indices: Vec::new() };
        proof {
            assert(r.paths_v() =~= seq![path.path@]);
            assert(final(self).dirs_v() =~= old(self).dirs_v());
            assert(final(self).files_v() =~= old(self).files_v());
        }
        r
    }

    /// Replaces the workspace configuration wholesale. A cached directory no
    /// new workspace covers is dropped; one still covered is kept untouched,
    /// even when only its covering workspace (or that workspace's kind)
    /// changed. File identities outside every new workspace are retired, and
    /// covered ones stay exactly as they were.
    pub fn reconfigure(&mut self, new_workspaces: Workspaces)
        requires
            old(self).wf(),
        ensures
            final(self).wf(),
            final(self).spec_caps() == old(self).spec_caps(),
            final(self).workspaces_v() == new_workspaces@,
            final(self).dirs_v() == keep_covered(
                old(self).spec_caps(),
                new_workspaces@,
                old(self).dirs_v(),
            ),
            final(self).files_v().len() == old(self).files_v().len(),
            forall|k: int|
                0 <= k < old(self).files_v().len() ==> #[trigger] final(self).files_v()[k] == (
                if spec_any_covers(
                    old(self).spec_caps(),
                    new_workspaces@,
                    old(self).files_v()[k].path,
                ) {
                    old(self).files_v()[k]
                } else {
                    VfsFileV { path: old(self).files_v()[k].path, alive: false }
                }),
    {
        let ghost caps_g = self.spec_caps();
        let ghost ws_g = new_workspaces@;
        let ghost pre_d = self.dirs_v();
        let ghost pre_f = self.files_v();

        let mut kept: Vec<Directory> = Vec::new();
        let n = self.dirs.len();
        let mut i: usize = 0;
        proof {
            assert(pre_d.take(0) =~= Seq::<DirectoryV>::empty());
            assert(Seq::new(kept@.len(), |m: int| kept@[m].dir_v()) =~= keep_covered(
                caps_g,
                ws_g,
                pre_d.take(0),
            ));
        }
        while i < n
            invariant
                i <= n,
                n == self.dirs@.len(),
                caps_g == self.spec_caps(),
                ws_g == new_workspaces@,
                pre_d == self.dirs_v(),
                pre_f == self.files_v(),
                Seq::new(kept@.len(), |m: int| kept@[m].dir_v()) == keep_covered(
                    caps_g,
                    ws_g,
                    pre_d.take(i as int),
                ),
            decreases n - i,
        {
            let covered = new_workspaces.any_covers(&self.caps, self.dirs[i].path.as_str());
            let ghost kv_pre = Seq::new(kept@.len(), |m: int| kept@[m].dir_v());
            if covered {
                let c = self.dirs[i].clone_directory();
                kept.push(c);
                proof {
                    assert(Seq::new(kept@.len(), |m: int| kept@[m].dir_v()) =~= kv_pre.push(
                        pre_d[i as int],
                    ));
                }
            }
            i = i + 1;
            proof {
                lemma_keep_covered_snoc(caps_g, ws_g, pre_d.take(i - 1), pre_d[i - 1]);
                assert(pre_d.take(i as int) =~= pre_d.take(i - 1).push(pre_d[i - 1]));
                assert(spec_any_covers(caps_g, ws_g, pre_d[i - 1].path) == covered);
                assert(Seq::new(kept@.len(), |m: int| kept@[m].dir_v()) =~= keep_covered(
                    caps_g,
                    ws_g,
                    pre_d.take(i as int),
                ));
            }
        }
        self.dirs = kept;
        proof {
            assert(pre_d.take(n as int) =~= pre_d);
            assert(self.dirs_v() =~= keep_covered(caps_g, ws_g, pre_d));
            assert(self.files_v() =~= pre_f);
        }

        let fn_count = self.files.len();
        let mut j: usize = 0;
        while j < fn_count
            invariant
                j <= fn_count,
                fn_count == self.files@.len(),
                caps_g == self.spec_caps(),
                ws_g == new_workspaces@,
                pre_f.len() == fn_count,
                self.dirs_v() == keep_covered(caps_g, ws_g, pre_d),
                forall|m: int| j <= m < fn_count ==> #[trigger] self.files_v()[m] == pre_f[m],
                forall|m: int|
                    0 <= m < j ==> #[trigger] self.files_v()[m] == (if spec_any_covers(
                        caps_g,
                        ws_g,
                        pre_f[m].path,
                    ) {
                        pre_f[m]
                    } else {
                        VfsFileV { path: pre_f[m].path, alive: false }
                    }),
            decreases fn_count - j,
        {
            let covered = new_workspaces.any_covers(&self.caps, self.files[j].path.as_str());
            proof {
                assert(self.files_v()[j as int] == pre_f[j as int]);
                assert(covered == spec_any_covers(caps_g, ws_g, pre_f[j as int].path));
            }
            if !covered {
                let ghost snapshot = self.files_v();
                let node = VfsFile { path: self.files[j].path.clone_normalized(), alive: false };
                proof {
                    assert(node.file_v() == VfsFileV { path: pre_f[j as int].path, alive: false });
                }
                self.files.set(j, node);
                proof {
                    assert(self.files_v() =~= snapshot.update(
                        j as int,
                        VfsFileV { path: pre_f[j as int].path, alive: false },
                    ));
                    assert(self.dirs_v() =~= keep_covered(caps_g, ws_g, pre_d));
                }
            }
            j = j + 1;
        }
        let ghost before_files = self.files_v();
        let ghost before_dirs = self.dirs_v();
        self.workspaces = new_workspaces;
        proof {
            assert(self.files_v() =~= before_files);
            assert(self.dirs_v() =~= before_dirs);
            lemma_keep_covered_subset(caps_g, ws_g, pre_d);
            lemma_keep_covered_unique(caps_g, ws_g, pre_d, old(self));
            assert forall|k: int|
                0 <= k < pre_f.len() implies (#[trigger] self.files_v()[k]).path == pre_f[k].path
                && (self.files_v()[k].alive ==> pre_f[k].alive) by {
                assert(self.files_v()[k] == (if spec_any_covers(caps_g, ws_g, pre_f[k].path) {
                    pre_f[k]
                } else {
                    VfsFileV { path: pre_f[k].path, alive: false }
                }));
            }
            self.lemma_wf_files_only(old(self));
        }
    }

    /// The uniqueness of kept directory paths, carried over from the old
    /// cache through the filter.
    proof fn lemma_wf_files_only(&self, pre: &Self)
        requires
            pre.wf(),
            forall|i: int, j: int|
                0 <= i < j < self.dirs_v().len() ==> (#[trigger] self.dirs_v()[i]).path != (
                #[trigger] self.dirs_v()[j]).path,
            self.files_v().len() == pre.files_v().len(),
            forall|k: int|
                0 <= k < pre.files_v().len() ==> (#[trigger] self.files_v()[k]).path
                    == pre.files_v()[k].path && (self.files_v()[k].alive
                    ==> pre.files_v()[k].alive),
        ensures
            self.wf(),
    {
    }
}

/// Every kept directory appears, in order, among the originals.
pub proof fn lemma_keep_covered_subset(
    caps: PathCaps,
    ws: Seq<crate::workspaces::Workspace>,
    s: Seq<DirectoryV>,
)
    ensures
        forall|j: int|
            0 <= j < keep_covered(caps, ws, s).len() ==> exists|i: int|
                0 <= i < s.len() && #[trigger] keep_covered(caps, ws, s)[j] == s[i],
    decreases s.len(),
{
    if s.len() > 0 {
        let t = s.drop_first();
        lemma_keep_covered_subset(caps, ws, t);
        assert(forall|k: int| 0 <= k < t.len() ==> t[k] == s[k + 1]);
        let kc = keep_covered(caps, ws, s);
        let kct = keep_covered(caps, ws, t);
        assert forall|j: int| 0 <= j < kc.len() implies exists|i: int|
            0 <= i < s.len() && #[trigger] kc[j] == s[i] by {
            if spec_any_covers(caps, ws, s[0].path) {
                if j == 0 {
                    assert(kc[0] == s[0]);
                } else {
                    assert(kc[j] == kct[j - 1]);
                    let i = choose|i: int| 0 <= i < t.len() && kct[j - 1] == t[i];
                    assert(kc[j] == s[i + 1]);
                }
            } else {
                assert(kc[j] == kct[j]);
                let i = choose|i: int| 0 <= i < t.len() && kct[j] == t[i];
                assert(kc[j] == s[i + 1]);
            }
        }
    }
}

/// Filtering keeps the paths pairwise distinct.
pub proof fn lemma_keep_covered_unique<H: VfsHandler>(
    caps: PathCaps,
    ws: Seq<crate::workspaces::Workspace>,
    s: Seq<DirectoryV>,
    pre: &Vfs<H>,
)
    requires
        pre.dirs_v() == s,
        forall|i: int, j: int|
            0 <= i < j < s.len() ==> (#[trigger] s[i]).path != (#[trigger] s[j]).path,
    ensures
        forall|i: int, j: int|
            0 <= i < j < keep_covered(caps, ws, s).len() ==> (#[trigger] keep_covered(
                caps,
                ws,
                s,
            )[i]).path != (#[trigger] keep_covered(caps, ws, s)[j]).path,
    decreases s.len(),
{
    lemma_keep_covered_unique_inner(caps, ws, s);
}

/// Filtering keeps the paths pairwise distinct.
proof fn lemma_keep_covered_unique_inner(
    caps: PathCaps,
    ws: Seq<crate::workspaces::Workspace>,
    s: Seq<DirectoryV>,
)
    requires
        forall|i: int, j: int|
            0 <= i < j < s.len() ==> (#[trigger] s[i]).path != (#[trigger] s[j]).path,
    ensures
        forall|i: int, j: int|
            0 <= i < j < keep_covered(caps, ws, s).len() ==> (#[trigger] keep_covered(
                caps,
                ws,
                s,
            )[i]).path != (#[trigger] keep_covered(caps, ws, s)[j]).path,
    decreases s.len(),
{
    if s.len() > 0 {
        let t = s.drop_first();
        assert(forall|k: int| 0 <= k < t.len() ==> t[k] == s[k + 1]);
        lemma_keep_covered_unique_inner(caps, ws, t);
        lemma_keep_covered_subset(caps, ws, t);
        let kc = keep_covered(caps, ws, s);
        let kct = keep_covered(caps, ws, t);
        if spec_any_covers(caps, ws, s[0].path) {
            assert(kc == seq![s[0]] + kct);
            assert forall|i: int, j: int|
                0 <= i < j < kc.len() implies (#[trigger] kc[i]).path != (
            #[trigger] kc[j]).path by {
                if i == 0 {
                    assert(kc[j] == kct[j - 1]);
                    let m = choose|m: int| 0 <= m < t.len() && kct[j - 1] == t[m];
                    assert(kc[j] == s[m + 1]);
                } else {
                    assert(kc[i] == kct[i - 1] && kc[j] == kct[j - 1]);
                }
            }
        } else {
            assert(kc == kct);
        }
    }
}

} // verus!
