use vstd::prelude::*;
use std::sync::Arc;
use crate::PathCaps;
use crate::components::vec_char_eq;
use crate::normalize::{norm_spec, normalize_chars};
use crate::path::{chars_to_string, str_to_chars, unchecked_abs_path, AbsPath};

verus! {

/// The canonical form of an [`AbsPath`], used as the cache key: two paths the
/// platform treats as the same normalize to equal values. The inner shared
/// path is reused untouched whenever normalization changes nothing.
pub struct NormalizedPath {
    path: Arc<AbsPath>,
}

impl View for NormalizedPath {
    type V = Seq<char>;

    closed spec fn view(&self) -> Seq<char> {
        self.path@
    }
}

impl NormalizedPath {
    /// Wraps a path the caller knows to be normalized already; nothing is
    /// checked.
    pub fn new_arc(path: Arc<AbsPath>) -> (r: NormalizedPath)
        ensures
            r@ == path@,
    {
        NormalizedPath { path }
    }

    /// The shared path value inside; the same allocation the path came from
    /// when normalization changed nothing.
    pub fn as_arc(&self) -> (r: &Arc<AbsPath>)
        ensures
            r@ == self@,
    {
        &self.path
    }

    pub fn as_str(&self) -> (r: &str)
        ensures
            r@ == self@,
    {
        self.path.as_str()
    }

    pub fn clone_normalized(&self) -> (r: NormalizedPath)
        ensures
            r@ == self@,
    {
        NormalizedPath { path: Arc::clone(&self.path) }
    }
}

/// Normalizes a shared path. When normalization is a no-op the given shared
/// value itself is returned, with no copy made.
pub fn normalize_rc_path(caps: &PathCaps, path: Arc<AbsPath>) -> (r: NormalizedPath)
    ensures
        r@ == norm_spec(*caps, path@),
{
    let chars = str_to_chars(path.as_str());
    let normed = normalize_chars(caps, &chars);
    if vec_char_eq(&chars, &normed) {
        NormalizedPath { path }
    } else {
        NormalizedPath { path: Arc::new(AbsPath::from_string(chars_to_string(&normed))) }
    }
}

/// Normalizes a path into a fresh normalized value.
pub fn normalize_path(caps: &PathCaps, path: &AbsPath) -> (r: NormalizedPath)
    ensures
        r@ == norm_spec(*caps, path@),
{
    let chars = str_to_chars(path.as_str());
    let normed = normalize_chars(caps, &chars);
    NormalizedPath { path: Arc::new(AbsPath::from_string(chars_to_string(&normed))) }
}

/// Wraps and normalizes raw absolute text in one step.
pub fn normalize_unchecked_abs_path(caps: &PathCaps, path: &str) -> (r: NormalizedPath)
    ensures
        r@ == norm_spec(*caps, crate::path::trim_one_trailing_sep(*caps, path@)),
{
    let p = unchecked_abs_path(caps, path);
    normalize_rc_path(caps, Arc::new(p))
}

} // verus!
