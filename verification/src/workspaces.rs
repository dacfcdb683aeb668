use vstd::prelude::*;
use vstd::string::StrSliceExecFns;
use crate::PathCaps;
use crate::glob_abs_path::{glob_match, GlobAbsPath};
use crate::normalized_path::NormalizedPath;

verus! {

/// What a watched root is for: a first-party project, or third-party code
/// that is analyzed with lower priority.
#[derive(Clone, Copy, PartialEq, Eq, Structural)]
pub enum WorkspaceKind {
    FirstParty,
    Library,
}

/// One watched root directory, with an optional glob pattern that widens
/// membership beyond the root itself.
pub struct Workspace {
    pub root: NormalizedPath,
    pub kind: WorkspaceKind,
    pub glob: Option<GlobAbsPath>,
}

/// `path` lies at or below the directory `root`.
pub open spec fn spec_is_under(caps: PathCaps, root: Seq<char>, path: Seq<char>) -> bool {
    ||| path == root
    ||| (path.len() > root.len() && path.take(root.len() as int) == root && caps.spec_is_sep(
        path[root.len() as int],
    ))
}

/// Whether one workspace covers `path`: under its root, or matched by its
/// glob pattern.
pub open spec fn spec_workspace_covers(caps: PathCaps, w: Workspace, path: Seq<char>) -> bool {
    ||| spec_is_under(caps, w.root@, path)
    ||| (w.glob matches Some(g) && glob_match(g@, path))
}

/// Whether any workspace of the sequence covers `path`.
pub open spec fn spec_any_covers(caps: PathCaps, ws: Seq<Workspace>, path: Seq<char>) -> bool {
    exists|i: int| 0 <= i < ws.len() && spec_workspace_covers(caps, #[trigger] ws[i], path)
}

impl Workspace {
    pub fn new(root: NormalizedPath, kind: WorkspaceKind) -> (r: Workspace)
        ensures
            r.root@ == root@,
            r.kind == kind,
            r.glob is None,
    {
        Workspace { root, kind, glob: None }
    }

    pub fn with_glob(root: NormalizedPath, kind: WorkspaceKind, pattern: GlobAbsPath) -> (r:
        Workspace)
        ensures
            r.root@ == root@,
            r.kind == kind,
            r.glob matches Some(g) && g@ == pattern@,
    {
        Workspace { root, kind, glob: Some(pattern) }
    }

    pub fn covers(&self, caps: &PathCaps, path: &str) -> (r: bool)
        ensures
            r == spec_workspace_covers(*caps, *self, path@),
    {
        if is_under(caps, self.root.as_str(), path) {
            return true;
        }
        match &self.glob {
            Some(g) => g.matches(path),
            None => false,
        }
    }
}

/// `path` lies at or below the directory `root`, tested over text.
pub fn is_under(caps: &PathCaps, root: &str, path: &str) -> (r: bool)
    ensures
        r == spec_is_under(*caps, root@, path@),
{
    let rn = root.unicode_len();
    let pn = path.unicode_len();
    let rv = crate::path::str_to_chars(root);
    if pn == rn {
        let pv = crate::path::str_to_chars(path);
        return crate::components::vec_char_eq(&pv, &rv);
    }
    if pn < rn {
        return false;
    }
    let c = path.get_char(rn);
    if !caps.is_sep(c) {
        return false;
    }
    let prefix = path.substring_char(0, rn);
    let pv = crate::path::str_to_chars(prefix);
    let eq = crate::components::vec_char_eq(&pv, &rv);
    proof {
        assert(prefix@ == path@.subrange(0, rn as int));
        assert(path@.take(rn as int) == path@.subrange(0, rn as int));
    }
    eq
}

/// The ordered set of roots configured for the session.
pub struct Workspaces {
    items: Vec<Workspace>,
}

impl View for Workspaces {
    type V = Seq<Workspace>;

    closed spec fn view(&self) -> Seq<Workspace> {
        self.items@
    }
}

impl Workspaces {
    pub fn new() -> (r: Workspaces)
        ensures
            r@ == Seq::<Workspace>::empty(),
    {
        Workspaces { items: Vec::new() }
    }

    /// Adds one watched root; order of addition is preserved.
    pub fn add(&mut self, w: Workspace)
        ensures
            final(self)@ == old(self)@.push(w),
    {
        self.items.push(w);
    }

    pub fn len(&self) -> (r: usize)
        ensures
            r == self@.len(),
    {
        self.items.len()
    }

    pub fn get(&self, i: usize) -> (r: &Workspace)
        requires
            i < self@.len(),
        ensures
            *r == self@[i as int],
    {
        &self.items[i]
    }

    /// The index of the first workspace that covers `path`, if any covers it.
    pub fn covering_index(&self, caps: &PathCaps, path: &str) -> (r: Option<usize>)
        ensures
            match r {
                Some(i) => i < self@.len() && spec_workspace_covers(*caps, self@[i as int], path@),
                None => !spec_any_covers(*caps, self@, path@),
            },
    {
        let n = self.items.len();
        let mut i: usize = 0;
        while i < n
            invariant
                i <= n,
                n == self@.len(),
                forall|k: int| 0 <= k < i ==> !spec_workspace_covers(*caps, #[trigger] self@[k], path@),
            decreases n - i,
        {
            if self.items[i].covers(caps, path) {
                return Some(i);
            }
            i = i + 1;
        }
        None
    }

    /// Whether any configured workspace covers `path`.
    pub fn any_covers(&self, caps: &PathCaps, path: &str) -> (r: bool)
        ensures
            r == spec_any_covers(*caps, self@, path@),
    {
        match self.covering_index(caps, path) {
            Some(_) => true,
            None => false,
        }
    }
}

} // verus!
