use vstd::prelude::*;
use vstd::string::StrSliceExecFns;
use crate::PathCaps;
use crate::components::find_sep_from;

verus! {

/// The index of the last separator in `s`, or `-1` if there is none.
pub open spec fn rfind_sep(caps: PathCaps, s: Seq<char>) -> int
    decreases s.len(),
{
    if s.len() == 0 {
        -1
    } else if caps.spec_is_sep(s[s.len() - 1]) {
        s.len() - 1
    } else {
        rfind_sep(caps, s.drop_last())
    }
}

/// An absolute, platform-native path string. The constructors that build one
/// from raw text strip a single trailing separator, so a stored path never
/// ends in one; callers guarantee that the text is absolute, nothing is
/// validated here.
pub struct AbsPath {
    path: String,
}

impl View for AbsPath {
    type V = Seq<char>;

    closed spec fn view(&self) -> Seq<char> {
        self.path@
    }
}

/// `s` with one trailing separator removed, if it carries one.
pub open spec fn trim_one_trailing_sep(caps: PathCaps, s: Seq<char>) -> Seq<char> {
    if s.len() > 0 && caps.spec_is_sep(s[s.len() - 1]) {
        s.drop_last()
    } else {
        s
    }
}

/// A path is treated as absolute when it opens with a separator.
pub open spec fn spec_is_absolute(caps: PathCaps, s: Seq<char>) -> bool {
    s.len() > 0 && caps.spec_is_sep(s[0])
}

impl AbsPath {
    /// Wraps a string verbatim; the caller guarantees it is absolute and
    /// carries no trailing separator.
    pub fn new(path: &str) -> (r: AbsPath)
        ensures
            r@ == path@,
    {
        AbsPath { path: path.to_owned() }
    }

    pub fn from_string(path: String) -> (r: AbsPath)
        ensures
            r@ == path@,
    {
        AbsPath { path }
    }

    pub fn as_str(&self) -> (r: &str)
        ensures
            r@ == self@,
    {
        self.path.as_str()
    }

    pub fn clone_path(&self) -> (r: AbsPath)
        ensures
            r@ == self@,
    {
        AbsPath { path: self.path.clone() }
    }
}

/// The characters of `s`, in order, as a vector.
pub fn str_to_chars(s: &str) -> (r: Vec<char>)
    ensures
        r@ == s@,
{
    let n = s.unicode_len();
    let mut r: Vec<char> = Vec::new();
    let mut i: usize = 0;
    while i < n
        invariant
            i <= n,
            n == s@.len(),
            r@ == s@.subrange(0, i as int),
        decreases n - i,
    {
        let c = s.get_char(i);
        r.push(c);
        i = i + 1;
        proof {
            assert(r@ =~= s@.subrange(0, i as int));
        }
    }
    proof {
        assert(r@ =~= s@);
    }
    r
}

/// Relies on `String: FromIterator<char>`: collecting characters yields the
/// string of exactly those characters in order.
#[verifier::external_body]
pub fn chars_to_string(v: &Vec<char>) -> (r: String)
    ensures
        r@ == v@,
{
    v.iter().collect()
}

proof fn lemma_rfind_sep_props(caps: PathCaps, s: Seq<char>)
    ensures
        -1 <= rfind_sep(caps, s) < s.len(),
        rfind_sep(caps, s) >= 0 ==> caps.spec_is_sep(s[rfind_sep(caps, s)]),
        forall|k: int| rfind_sep(caps, s) < k < s.len() ==> !caps.spec_is_sep(#[trigger] s[k]),
    decreases s.len(),
{
    if s.len() > 0 && !caps.spec_is_sep(s[s.len() - 1]) {
        lemma_rfind_sep_props(caps, s.drop_last());
        assert(forall|k: int| 0 <= k < s.len() - 1 ==> s.drop_last()[k] == s[k]);
    }
}

/// The index of the last separator of `v`, if any.
pub fn rfind_sep_exec(caps: &PathCaps, v: &Vec<char>) -> (r: Option<usize>)
    ensures
        match r {
            Some(j) => j == rfind_sep(*caps, v@),
            None => rfind_sep(*caps, v@) == -1,
        },
{
    let mut k = v.len();
    proof {
        assert(v@.subrange(0, v@.len() as int) =~= v@);
    }
    while k > 0
        invariant
            k <= v@.len(),
            rfind_sep(*caps, v@) == rfind_sep(*caps, v@.subrange(0, k as int)),
        decreases k,
    {
        let c = v[k - 1];
        proof {
            let sub = v@.subrange(0, k as int);
            assert(sub[k - 1] == v@[k - 1]);
            assert(sub.drop_last() =~= v@.subrange(0, k - 1));
        }
        if caps.is_sep(c) {
            return Some(k - 1);
        }
        k = k - 1;
    }
    proof {
        assert(v@.subrange(0, 0) =~= Seq::<char>::empty());
    }
    None
}

/// Wraps raw text as an [`AbsPath`], stripping one trailing separator if
/// present. No validation of absoluteness happens here.
pub fn unchecked_abs_path(caps: &PathCaps, path: &str) -> (r: AbsPath)
    ensures
        r@ == trim_one_trailing_sep(*caps, path@),
{
    let n = path.unicode_len();
    if n > 0 {
        let last = path.get_char(n - 1);
        if caps.is_sep(last) {
            let trimmed = path.substring_char(0, n - 1);
            proof {
                assert(trimmed@ =~= trim_one_trailing_sep(*caps, path@));
            }
            return AbsPath::new(trimmed);
        }
    }
    AbsPath::new(path)
}

/// What `dir` and the separator contribute to a join: a directory that
/// already ends in a separator gets no second one.
pub open spec fn join_raw(caps: PathCaps, dir: Seq<char>, name: Seq<char>) -> Seq<char> {
    if dir.len() > 0 && caps.spec_is_sep(dir[dir.len() - 1]) {
        dir + name
    } else {
        dir + seq![caps.separator] + name
    }
}

/// What joining `name` onto `dir` yields: an absolute `name` replaces `dir`
/// outright, anything else is appended behind one separator (never doubling
/// one `dir` already ends in), and a single trailing separator is stripped,
/// so joining an empty name gives a trimmed `dir` back.
pub open spec fn join_spec(caps: PathCaps, dir: Seq<char>, name: Seq<char>) -> Seq<char> {
    if spec_is_absolute(caps, name) {
        trim_one_trailing_sep(caps, name)
    } else {
        trim_one_trailing_sep(caps, join_raw(caps, dir, name))
    }
}

/// Joins one component (or a relative path) onto a directory path, producing
/// the platform-native separator between them.
pub fn join(caps: &PathCaps, dir: &AbsPath, name: &str) -> (r: AbsPath)
    ensures
        r@ == join_spec(*caps, dir@, name@),
{
    let n = name.unicode_len();
    if n > 0 {
        let first = name.get_char(0);
        if caps.is_sep(first) {
            return unchecked_abs_path(caps, name);
        }
    }
    let mut v = str_to_chars(dir.as_str());
    let dn = v.len();
    if dn == 0 || !caps.is_sep(v[dn - 1]) {
        v.push(caps.separator);
    }
    proof {
        assert(v@ =~= join_raw(*caps, dir@, Seq::<char>::empty()));
    }
    let more = str_to_chars(name);
    let mut k: usize = 0;
    while k < more.len()
        invariant
            k <= more@.len(),
            more@ == name@,
            v@ == join_raw(*caps, dir@, name@.subrange(0, k as int)),
        decreases more@.len() - k,
    {
        v.push(more[k]);
        k = k + 1;
        proof {
            assert(v@ =~= join_raw(*caps, dir@, name@.subrange(0, k as int)));
        }
    }
    proof {
        assert(v@ =~= join_raw(*caps, dir@, name@));
    }
    // strip one trailing separator, as every path constructor does
    let len = v.len();
    if len > 0 {
        let last = v[len - 1];
        if caps.is_sep(last) {
            let _ = v.pop();
            proof {
                assert(v@ =~= trim_one_trailing_sep(*caps, join_raw(*caps, dir@, name@)));
            }
        }
    }
    AbsPath::from_string(chars_to_string(&v))
}

/// The parent of `p`: everything before the last separator, the bare root
/// for a first-level path, and nothing for a root or empty path.
pub open spec fn parent_spec(caps: PathCaps, s: Seq<char>) -> Option<Seq<char>> {
    if s.len() <= 1 {
        None
    } else {
        let j = rfind_sep(caps, s);
        if j < 0 {
            None
        } else if j == 0 {
            Some(s.subrange(0, 1))
        } else {
            Some(s.subrange(0, j))
        }
    }
}

/// Returns the parent directory of an absolute path, and nothing only for a
/// path with no parent (the root, or text with no separator at all).
pub fn parent_of_absolute_path(caps: &PathCaps, p: &AbsPath) -> (r: Option<AbsPath>)
    ensures
        match r {
            Some(q) => parent_spec(*caps, p@) == Some(q@),
            None => parent_spec(*caps, p@) is None,
        },
{
    let s = p.as_str();
    let n = s.unicode_len();
    if n <= 1 {
        return None;
    }
    let v = str_to_chars(s);
    proof {
        lemma_rfind_sep_props(*caps, p@);
    }
    match rfind_sep_exec(caps, &v) {
        None => None,
        Some(j) => {
            if j == 0 {
                Some(AbsPath::new(s.substring_char(0, 1)))
            } else {
                Some(AbsPath::new(s.substring_char(0, j)))
            }
        },
    }
}

/// Wraps `path` when it is already absolute, and joins it onto `current_dir`
/// otherwise; the one entry point that accepts untrusted, possibly relative
/// text.
pub fn absolute_path(caps: &PathCaps, current_dir: &AbsPath, path: &str) -> (r: AbsPath)
    ensures
        spec_is_absolute(*caps, path@) ==> r@ == trim_one_trailing_sep(*caps, path@),
        !spec_is_absolute(*caps, path@) ==> r@ == join_spec(*caps, current_dir@, path@),
{
    let n = path.unicode_len();
    if n > 0 {
        let first = path.get_char(0);
        if caps.is_sep(first) {
            return unchecked_abs_path(caps, path);
        }
    }
    join(caps, current_dir, path)
}

/// Splits a relative path at its first separator: the leading item, and the
/// rest if a separator was found. On a platform that tolerates mixed
/// separators the earliest of either kind splits.
pub fn split_off_first_item<'a>(caps: &PathCaps, path: &'a str) -> (r: (&'a str, Option<&'a str>))
    ensures
        ({
            let j = find_sep_from(*caps, path@, 0);
            &&& r.0@ == path@.subrange(0, j)
            &&& (j == path@.len() ==> r.1 is None)
            &&& (j < path@.len() ==> (r.1 matches Some(rest) && rest@ == path@.subrange(
                j + 1,
                path@.len() as int,
            )))
        }),
{
    let v = str_to_chars(path);
    let n = v.len();
    let j = crate::components::find_sep_exec(caps, &v, 0);
    if j == n {
        (path, None)
    } else {
        proof {
            assert(path@.subrange(0, path@.len() as int) =~= path@);
        }
        (path.substring_char(0, j), Some(path.substring_char(j + 1, n)))
    }
}

/// Splits a relative path at its last separator: the leading directories if
/// a separator was found, and the final item.
pub fn split_off_last_item<'a>(caps: &PathCaps, path: &'a str) -> (r: (Option<&'a str>, &'a str))
    ensures
        ({
            let j = rfind_sep(*caps, path@);
            &&& (j < 0 ==> r.0 is None && r.1@ == path@)
            &&& (j >= 0 ==> (r.0 matches Some(head) && head@ == path@.subrange(0, j)) && r.1@
                == path@.subrange(j + 1, path@.len() as int))
        }),
{
    let v = str_to_chars(path);
    let n = v.len();
    match rfind_sep_exec(caps, &v) {
        None => (None, path),
        Some(j) => {
            proof {
                lemma_rfind_sep_props(*caps, path@);
            }
            (Some(path.substring_char(0, j)), path.substring_char(j + 1, n))
        },
    }
}

/// Strips one leading separator, of either accepted kind, if present.
pub fn strip_separator_prefix<'a>(caps: &PathCaps, path: &'a str) -> (r: Option<&'a str>)
    ensures
        spec_is_absolute(*caps, path@) ==> (r matches Some(rest) && rest@ == path@.subrange(
            1,
            path@.len() as int,
        )),
        !spec_is_absolute(*caps, path@) ==> r is None,
{
    let n = path.unicode_len();
    if n > 0 {
        let first = path.get_char(0);
        if caps.is_sep(first) {
            return Some(path.substring_char(1, n));
        }
    }
    None
}

/// Strips one trailing separator, of either accepted kind, if present.
pub fn strip_separator_suffix<'a>(caps: &PathCaps, path: &'a str) -> (r: Option<&'a str>)
    ensures
        ({
            let n = path@.len() as int;
            if n > 0 && caps.spec_is_sep(path@[n - 1]) {
                r matches Some(rest) && rest@ == path@.subrange(0, n - 1)
            } else {
                r is None
            }
        }),
{
    let n = path.unicode_len();
    if n > 0 {
        let last = path.get_char(n - 1);
        if caps.is_sep(last) {
            return Some(path.substring_char(0, n - 1));
        }
    }
    None
}

/// Joining the empty name leaves a trimmed path unchanged.
pub proof fn lemma_join_empty(caps: PathCaps, dir: Seq<char>)
    requires
        trim_one_trailing_sep(caps, dir) == dir,
    ensures
        join_spec(caps, dir, Seq::<char>::empty()) == dir,
{
    if dir.len() == 0 {
        let joined = join_raw(caps, dir, Seq::<char>::empty());
        assert(joined =~= seq![caps.separator]);
        assert(trim_one_trailing_sep(caps, joined) =~= dir);
    } else {
        assert(!caps.spec_is_sep(dir[dir.len() - 1]));
        let joined = join_raw(caps, dir, Seq::<char>::empty());
        assert(joined =~= dir + seq![caps.separator]);
        assert(caps.spec_is_sep(joined[joined.len() - 1]));
        assert(trim_one_trailing_sep(caps, joined) =~= dir);
    }
}

/// Splitting an absolute path into its parent and its last component and
/// joining the two back recovers the path: the round trip holds wherever the
/// split is clean — the path carries no trailing separator, the separator in
/// front of the last component is the native one, and it is not doubled.
pub proof fn lemma_parent_join_round_trip(caps: PathCaps, s: Seq<char>)
    requires
        s.len() >= 2,
        rfind_sep(caps, s) >= 0,
        s[rfind_sep(caps, s)] == caps.separator,
        !caps.spec_is_sep(s[s.len() - 1]),
        rfind_sep(caps, s) >= 1 ==> !caps.spec_is_sep(s[rfind_sep(caps, s) - 1]),
    ensures
        parent_spec(caps, s) matches Some(parent) && join_spec(
            caps,
            parent,
            s.subrange(rfind_sep(caps, s) + 1, s.len() as int),
        ) == s,
{
    lemma_rfind_sep_props(caps, s);
    let j = rfind_sep(caps, s);
    let last = s.subrange(j + 1, s.len() as int);
    // the last component is nonempty (the path has no trailing separator)
    // and free of separators (nothing behind the last one is a separator)
    assert(j < s.len() - 1);
    assert(last.len() > 0);
    assert(!caps.spec_is_sep(last[0]));
    assert(!spec_is_absolute(caps, last));
    if j == 0 {
        let parent = s.subrange(0, 1);
        assert(parent_spec(caps, s) == Some(parent));
        assert(caps.spec_is_sep(parent[0]));
        let joined = join_raw(caps, parent, last);
        assert(joined =~= s);
        assert(trim_one_trailing_sep(caps, joined) == s);
    } else {
        let parent = s.subrange(0, j);
        assert(parent_spec(caps, s) == Some(parent));
        assert(!caps.spec_is_sep(parent[parent.len() - 1]));
        let joined = join_raw(caps, parent, last);
        assert(joined =~= s);
        assert(trim_one_trailing_sep(caps, joined) == s);
    }
}

} // verus!
