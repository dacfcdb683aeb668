use vstd::prelude::*;
use crate::PathCaps;

verus! {

// A path string is modelled as a sequence of components: an optional root
// (the leading separator, represented by the empty sequence, which no real
// component can be) followed by the separator-delimited pieces, where empty
// pieces and `.` pieces are dropped and `..` pieces are kept as parent
// components.

/// The sentinel component standing for the filesystem root.
pub open spec fn root_component() -> Seq<char> {
    Seq::empty()
}

/// A parent (`..`) component.
pub open spec fn is_parent(p: Seq<char>) -> bool {
    p =~= seq!['.', '.']
}

/// Pieces that survive splitting: nonempty and not `.`.
pub open spec fn piece_kept(p: Seq<char>) -> bool {
    p.len() > 0 && !(p =~= seq!['.'])
}

/// No character of `p` acts as a separator.
pub open spec fn sep_free(caps: PathCaps, p: Seq<char>) -> bool {
    forall|i: int| 0 <= i < p.len() ==> !caps.spec_is_sep(#[trigger] p[i])
}

/// The index of the first separator at or after `i`, or `s.len()` if none.
pub open spec fn find_sep_from(caps: PathCaps, s: Seq<char>, i: int) -> int
    decreases s.len() - i,
{
    if i < 0 || i >= s.len() {
        s.len() as int
    } else if caps.spec_is_sep(s[i]) {
        i
    } else {
        find_sep_from(caps, s, i + 1)
    }
}

pub proof fn lemma_find_sep_from_props(caps: PathCaps, s: Seq<char>, i: int)
    requires
        0 <= i <= s.len(),
    ensures
        i <= find_sep_from(caps, s, i) <= s.len(),
        forall|k: int| i <= k < find_sep_from(caps, s, i) ==> !caps.spec_is_sep(#[trigger] s[k]),
        find_sep_from(caps, s, i) < s.len() ==> caps.spec_is_sep(s[find_sep_from(caps, s, i)]),
    decreases s.len() - i,
{
    if i < s.len() && !caps.spec_is_sep(s[i]) {
        lemma_find_sep_from_props(caps, s, i + 1);
    }
}

/// `find_sep_from` is pinned down by its characteristic properties.
pub proof fn lemma_find_sep_char(caps: PathCaps, s: Seq<char>, i: int, j: int)
    requires
        0 <= i <= j <= s.len(),
        forall|k: int| i <= k < j ==> !caps.spec_is_sep(#[trigger] s[k]),
        j < s.len() ==> caps.spec_is_sep(s[j]),
    ensures
        find_sep_from(caps, s, i) == j,
    decreases j - i,
{
    if i < j {
        lemma_find_sep_char(caps, s, i + 1, j);
    }
}

/// Searching from `i` is searching in the suffix that starts at `j`.
pub proof fn lemma_find_sep_shift(caps: PathCaps, s: Seq<char>, i: int, j: int)
    requires
        0 <= j <= i <= s.len(),
    ensures
        find_sep_from(caps, s, i) == j + find_sep_from(caps, s.skip(j), i - j),
    decreases s.len() - i,
{
    let t = s.skip(j);
    if i >= s.len() {
        assert(find_sep_from(caps, t, i - j) == t.len());
    } else if caps.spec_is_sep(s[i]) {
        assert(t[i - j] == s[i]);
    } else {
        assert(t[i - j] == s[i]);
        lemma_find_sep_shift(caps, s, i + 1, j);
    }
}

/// The separator-delimited pieces of `s` from index `i` on, dropping empty
/// and `.` pieces.
pub open spec fn pieces_from(caps: PathCaps, s: Seq<char>, i: int) -> Seq<Seq<char>>
    decreases s.len() - i,
    via pieces_from_decreases
{
    if i < 0 || i >= s.len() {
        Seq::empty()
    } else {
        let j = find_sep_from(caps, s, i);
        let head = s.subrange(i, j);
        let tail = if j >= s.len() {
            Seq::<Seq<char>>::empty()
        } else {
            pieces_from(caps, s, j + 1)
        };
        if piece_kept(head) {
            seq![head] + tail
        } else {
            tail
        }
    }
}

#[via_fn]
proof fn pieces_from_decreases(caps: PathCaps, s: Seq<char>, i: int) {
    if 0 <= i < s.len() {
        lemma_find_sep_from_props(caps, s, i);
    }
}

pub open spec fn pieces(caps: PathCaps, s: Seq<char>) -> Seq<Seq<char>> {
    pieces_from(caps, s, 0)
}

/// The full component sequence of `s`: a root component when `s` opens with
/// a separator, then the kept pieces.
pub open spec fn components(caps: PathCaps, s: Seq<char>) -> Seq<Seq<char>> {
    if s.len() > 0 && caps.spec_is_sep(s[0]) {
        seq![root_component()] + pieces(caps, s)
    } else {
        pieces(caps, s)
    }
}

/// A non-root component as it comes out of parsing: kept and separator-free.
pub open spec fn wf_comp(caps: PathCaps, p: Seq<char>) -> bool {
    piece_kept(p) && sep_free(caps, p)
}

/// A well-formed component sequence: a root may stand only in front, and
/// everything else is a kept, separator-free piece.
pub open spec fn wf_comps(caps: PathCaps, cs: Seq<Seq<char>>) -> bool {
    &&& forall|i: int| 1 <= i < cs.len() ==> wf_comp(caps, #[trigger] cs[i])
    &&& cs.len() > 0 ==> (cs[0] =~= root_component() || wf_comp(caps, cs[0]))
}

pub proof fn lemma_pieces_from_wf(caps: PathCaps, s: Seq<char>, i: int)
    requires
        0 <= i <= s.len(),
    ensures
        forall|k: int|
            0 <= k < pieces_from(caps, s, i).len() ==> wf_comp(
                caps,
                #[trigger] pieces_from(caps, s, i)[k],
            ),
    decreases s.len() - i,
{
    if i < s.len() {
        let j = find_sep_from(caps, s, i);
        lemma_find_sep_from_props(caps, s, i);
        let head = s.subrange(i, j);
        assert(sep_free(caps, head)) by {
            assert(forall|m: int| 0 <= m < head.len() ==> head[m] == s[i + m]);
        }
        let tail = if j >= s.len() {
            Seq::<Seq<char>>::empty()
        } else {
            pieces_from(caps, s, j + 1)
        };
        if j < s.len() {
            lemma_pieces_from_wf(caps, s, j + 1);
        }
        let ps = pieces_from(caps, s, i);
        if piece_kept(head) {
            assert(ps == seq![head] + tail);
            assert(ps[0] == head);
            assert(forall|k: int| 1 <= k < ps.len() ==> ps[k] == tail[k - 1]);
        } else {
            assert(ps == tail);
        }
    }
}

pub proof fn lemma_components_wf(caps: PathCaps, s: Seq<char>)
    ensures
        wf_comps(caps, components(caps, s)),
        components(caps, s).len() > 0 && components(caps, s)[0] =~= root_component()
            <==> (s.len() > 0 && caps.spec_is_sep(s[0])),
{
    lemma_pieces_from_wf(caps, s, 0);
    let ps = pieces(caps, s);
    if s.len() > 0 && caps.spec_is_sep(s[0]) {
        let cs = components(caps, s);
        assert(forall|i: int| 1 <= i < cs.len() ==> cs[i] == ps[i - 1]);
    } else {
        if ps.len() > 0 {
            assert(wf_comp(caps, ps[0]));
            assert(!(ps[0] =~= root_component()));
        }
    }
}

/// Pieces from `i` are the pieces of the suffix that starts at `i`.
pub proof fn lemma_pieces_skip(caps: PathCaps, s: Seq<char>, i: int)
    requires
        0 <= i <= s.len(),
    ensures
        pieces_from(caps, s, i) == pieces(caps, s.skip(i)),
    decreases s.len() - i,
{
    let t = s.skip(i);
    if i < s.len() {
        let j = find_sep_from(caps, s, i);
        lemma_find_sep_from_props(caps, s, i);
        lemma_find_sep_shift(caps, s, i, i);
        let jt = find_sep_from(caps, t, 0);
        assert(jt == j - i);
        assert(s.subrange(i, j) =~= t.subrange(0, jt));
        if j < s.len() {
            lemma_pieces_skip(caps, s, j + 1);
            lemma_pieces_skip(caps, t, jt + 1);
            assert(s.skip(j + 1) =~= t.skip(jt + 1));
        }
        assert(pieces_from(caps, s, i) =~~= pieces_from(caps, t, 0));
    } else {
        assert(t.len() == 0);
    }
}

/// Splitting distributes over concatenation around a separator.
pub proof fn lemma_pieces_concat(caps: PathCaps, x: Seq<char>, y: Seq<char>, sep: char)
    requires
        caps.spec_is_sep(sep),
    ensures
        pieces(caps, x + seq![sep] + y) == pieces(caps, x) + pieces(caps, y),
    decreases x.len(),
{
    let s = x + seq![sep] + y;
    assert(s.len() == x.len() + 1 + y.len());
    assert(forall|k: int| 0 <= k < x.len() ==> s[k] == x[k]);
    assert(s[x.len() as int] == sep);
    assert(forall|k: int| 0 <= k < y.len() ==> s[x.len() + 1 + k] == y[k]);

    lemma_find_sep_from_props(caps, x, 0);
    let jx = find_sep_from(caps, x, 0);
    lemma_find_sep_char(caps, s, 0, jx);
    assert(find_sep_from(caps, s, 0) == jx);
    assert(s.subrange(0, jx) =~= x.subrange(0, jx));

    if jx == x.len() {
        // no separator inside x: the first piece of s is x itself
        lemma_pieces_skip(caps, s, jx + 1);
        assert(s.skip(jx + 1) =~= y);
        assert(pieces_from(caps, s, jx + 1) == pieces(caps, y));
        if x.len() == 0 {
            assert(pieces(caps, x) =~= Seq::<Seq<char>>::empty());
            assert(pieces(caps, s) =~= pieces(caps, x) + pieces(caps, y));
        } else {
            assert(pieces(caps, s) =~= pieces(caps, x) + pieces(caps, y));
        }
    } else {
        lemma_pieces_skip(caps, s, jx + 1);
        lemma_pieces_skip(caps, x, jx + 1);
        assert(s.skip(jx + 1) =~= x.skip(jx + 1) + seq![sep] + y);
        lemma_pieces_concat(caps, x.skip(jx + 1), y, sep);
        assert(pieces(caps, s) =~= pieces(caps, x) + pieces(caps, y));
    }
}

/// The views of a vector of character vectors, component by component.
pub open spec fn seq_views(s: Seq<Vec<char>>) -> Seq<Seq<char>> {
    Seq::new(s.len(), |i: int| s[i]@)
}

pub fn find_sep_exec(caps: &PathCaps, v: &Vec<char>, i: usize) -> (r: usize)
    requires
        i <= v@.len(),
    ensures
        r == find_sep_from(*caps, v@, i as int),
        i <= r <= v@.len(),
{
    proof {
        lemma_find_sep_from_props(*caps, v@, i as int);
    }
    let mut k = i;
    let n = v.len();
    while k < n
        invariant
            i <= k <= n,
            n == v@.len(),
            find_sep_from(*caps, v@, i as int) == find_sep_from(*caps, v@, k as int),
        decreases n - k,
    {
        if caps.is_sep(v[k]) {
            return k;
        }
        k = k + 1;
    }
    k
}

/// The characters of `v` between `i` and `j`.
pub fn copy_range(v: &Vec<char>, i: usize, j: usize) -> (r: Vec<char>)
    requires
        i <= j <= v@.len(),
    ensures
        r@ == v@.subrange(i as int, j as int),
{
    let mut r: Vec<char> = Vec::new();
    let mut k = i;
    while k < j
        invariant
            i <= k <= j <= v@.len(),
            r@ == v@.subrange(i as int, k as int),
        decreases j - k,
    {
        r.push(v[k]);
        k = k + 1;
        proof {
            assert(r@ =~= v@.subrange(i as int, k as int));
        }
    }
    r
}

pub fn vec_char_eq(a: &Vec<char>, b: &Vec<char>) -> (r: bool)
    ensures
        r == (a@ == b@),
{
    if a.len() != b.len() {
        return false;
    }
    let n = a.len();
    let mut k: usize = 0;
    while k < n
        invariant
            k <= n,
            n == a@.len() == b@.len(),
            forall|m: int| 0 <= m < k ==> a@[m] == b@[m],
        decreases n - k,
    {
        if a[k] != b[k] {
            return false;
        }
        k = k + 1;
    }
    proof {
        assert(a@ =~= b@);
    }
    true
}

/// The component sequence of the characters in `v`.
pub fn components_exec(caps: &PathCaps, v: &Vec<char>) -> (r: Vec<Vec<char>>)
    ensures
        seq_views(r@) == components(*caps, v@),
{
    let ghost goal = components(*caps, v@);
    let mut r: Vec<Vec<char>> = Vec::new();
    let n = v.len();
    if n > 0 && caps.is_sep(v[0]) {
        r.push(Vec::new());
    }
    let mut i: usize = 0;
    proof {
        assert(seq_views(r@) + pieces_from(*caps, v@, 0) =~~= goal);
    }
    while i < n
        invariant
            i <= n + 1,
            n == v@.len(),
            goal == components(*caps, v@),
            seq_views(r@) + pieces_from(*caps, v@, i as int) =~~= goal,
        decreases n + 1 - i,
    {
        let j = find_sep_exec(caps, v, i);
        let head = copy_range(v, i, j);
        let ghost pre = seq_views(r@);
        let kept = head.len() > 0 && !(head.len() == 1 && head[0] == '.');
        proof {
            if head.len() == 1 && head@[0] == '.' {
                assert(head@ =~= seq!['.']);
            }
            assert(kept == piece_kept(head@));
        }
        if kept {
            r.push(head);
            proof {
                assert(seq_views(r@) =~= pre.push(v@.subrange(i as int, j as int)));
            }
        }
        proof {
            let tail = if j >= n {
                Seq::<Seq<char>>::empty()
            } else {
                pieces_from(*caps, v@, j + 1)
            };
            assert(pieces_from(*caps, v@, i as int) == (if piece_kept(
                v@.subrange(i as int, j as int),
            ) {
                seq![v@.subrange(i as int, j as int)] + tail
            } else {
                tail
            }));
            assert(seq_views(r@) + tail =~~= goal);
        }
        if j == n {
            proof {
                assert(seq_views(r@) =~~= goal);
            }
            return r;
        }
        i = j + 1;
    }
    proof {
        assert(seq_views(r@) =~~= goal);
    }
    r
}

/// A trailing separator changes nothing.
pub proof fn lemma_pieces_trailing_sep(caps: PathCaps, x: Seq<char>, sep: char)
    requires
        caps.spec_is_sep(sep),
    ensures
        pieces(caps, x + seq![sep]) == pieces(caps, x),
{
    lemma_pieces_concat(caps, x, Seq::empty(), sep);
    assert(x + seq![sep] + Seq::<char>::empty() =~= x + seq![sep]);
    assert(pieces(caps, x) + pieces(caps, Seq::<char>::empty()) =~= pieces(caps, x));
}

} // verus!
