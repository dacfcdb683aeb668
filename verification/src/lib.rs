//! A virtual filesystem layer for an incremental source-analysis engine: a
//! platform-independent path algebra, a cached directory tree keyed by
//! normalized paths, workspace scoping, and the capability interface a
//! concrete backend implements, together with the invalidation protocol that
//! keeps the cache consistent with the world it mirrors.

pub mod components;
pub mod config;
pub mod glob_abs_path;
pub mod handler;
pub mod normalize;
pub mod normalized_path;
pub mod path;
pub mod relative;
pub mod tree;
pub mod vfs;
pub mod workspaces;

pub use glob_abs_path::GlobAbsPath;
pub use handler::{MemoryFs, PathWithScheme, VfsHandler};
pub use normalized_path::NormalizedPath;
pub use path::AbsPath;
pub use relative::path_relative_to;
pub use tree::{Directory, DirectoryEntry, Entries, FileEntry, FileIndex, Parent};
pub use vfs::{ChangeEvent, ChangeKind, InvalidationResult, Vfs, VfsFile};
pub use workspaces::{Workspace, WorkspaceKind, Workspaces};
pub use config::FoundConfig;

use vstd::prelude::*;

verus! {

/// The set of platform conventions the path algebra is parameterized by:
/// the native separator, whether a plain slash is also accepted as a
/// separator, and whether the filesystem distinguishes letter case.
#[derive(Clone, Copy, PartialEq, Eq, Structural)]
pub struct PathCaps {
    pub separator: char,
    pub accepts_slash: bool,
    pub case_sensitive: bool,
}

impl PathCaps {
    /// The conventions of a separator-slash platform: one separator, case
    /// distinguished.
    pub fn posix() -> (r: PathCaps)
        ensures
            r.separator == '/',
            !r.accepts_slash,
            r.case_sensitive,
    {
        PathCaps { separator: '/', accepts_slash: false, case_sensitive: true }
    }

    /// The conventions of the platform with backslash separators: mixed
    /// separators tolerated, letter case not distinguished.
    pub fn windows() -> (r: PathCaps)
        ensures
            r.separator == '\\',
            r.accepts_slash,
            !r.case_sensitive,
    {
        PathCaps { separator: '\\', accepts_slash: true, case_sensitive: false }
    }

    /// The capability query for case sensitivity; cache lookups respect it
    /// through normalization, never through ad hoc re-comparison.
    pub fn is_case_sensitive(&self) -> (r: bool)
        ensures
            r == self.case_sensitive,
    {
        self.case_sensitive
    }

    /// True of the characters that act as a separator under these conventions.
    pub open spec fn spec_is_sep(self, c: char) -> bool {
        c == self.separator || (self.accepts_slash && c == '/')
    }

    pub fn is_sep(&self, c: char) -> (r: bool)
        ensures
            r == self.spec_is_sep(c),
    {
        c == self.separator || (self.accepts_slash && c == '/')
    }
}

} // verus!
