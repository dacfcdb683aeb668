use vstd::prelude::*;
use crate::path::str_to_chars;

verus! {

/// Wildcard matching over characters: `*` matches any run of characters,
/// every other character matches itself.
pub open spec fn glob_match(p: Seq<char>, s: Seq<char>) -> bool
    decreases p.len() + s.len(),
{
    if p.len() == 0 {
        s.len() == 0
    } else if p[0] == '*' {
        glob_match(p.drop_first(), s) || (s.len() > 0 && glob_match(p, s.drop_first()))
    } else {
        s.len() > 0 && p[0] == s[0] && glob_match(p.drop_first(), s.drop_first())
    }
}

/// An absolute path pattern with `*` wildcards, used only to test workspace
/// membership, never as a cache key.
pub struct GlobAbsPath {
    pattern: String,
}

impl View for GlobAbsPath {
    type V = Seq<char>;

    closed spec fn view(&self) -> Seq<char> {
        self.pattern@
    }
}

fn glob_match_at(p: &Vec<char>, pi: usize, s: &Vec<char>, si: usize) -> (r: bool)
    requires
        pi <= p@.len(),
        si <= s@.len(),
    ensures
        r == glob_match(p@.skip(pi as int), s@.skip(si as int)),
    decreases p@.len() + s@.len() - pi - si,
{
    let ghost gp = p@.skip(pi as int);
    let ghost gs = s@.skip(si as int);
    if pi == p.len() {
        proof {
            assert(gp.len() == 0);
        }
        si == s.len()
    } else if p[pi] == '*' {
        proof {
            assert(gp[0] == '*');
            assert(gp.drop_first() =~= p@.skip(pi + 1));
        }
        if glob_match_at(p, pi + 1, s, si) {
            return true;
        }
        if si < s.len() {
            proof {
                assert(gs.drop_first() =~= s@.skip(si + 1));
            }
            glob_match_at(p, pi, s, si + 1)
        } else {
            false
        }
    } else {
        proof {
            assert(gp[0] == p@[pi as int]);
            assert(gp.drop_first() =~= p@.skip(pi + 1));
            if si < s@.len() {
                assert(gs[0] == s@[si as int]);
                assert(gs.drop_first() =~= s@.skip(si + 1));
            }
        }
        if si == s.len() {
            return false;
        }
        p[pi] == s[si] && glob_match_at(p, pi + 1, s, si + 1)
    }
}

impl GlobAbsPath {
    /// Wraps absolute pattern text; the caller guarantees absoluteness, as
    /// with any other path constructor.
    pub fn new(pattern: &str) -> (r: GlobAbsPath)
        ensures
            r@ == pattern@,
    {
        GlobAbsPath { pattern: pattern.to_owned() }
    }

    pub fn as_str(&self) -> (r: &str)
        ensures
            r@ == self@,
    {
        self.pattern.as_str()
    }

    /// Whether the pattern covers the given path text.
    pub fn matches(&self, path: &str) -> (r: bool)
        ensures
            r == glob_match(self@, path@),
    {
        let p = str_to_chars(self.pattern.as_str());
        let s = str_to_chars(path);
        proof {
            assert(p@.skip(0) =~= self@);
            assert(s@.skip(0) =~= path@);
        }
        glob_match_at(&p, 0, &s, 0)
    }
}

} // verus!
