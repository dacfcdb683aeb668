use vstd::prelude::*;
use crate::PathCaps;
use crate::components::{
    components, components_exec, copy_range, is_parent, lemma_components_wf, lemma_find_sep_char,
    lemma_pieces_concat, piece_kept, pieces, pieces_from, root_component, sep_free, seq_views,
    wf_comp, wf_comps,
};

verus! {

// Normalization turns a path into the canonical form used as a cache key:
// components are reparsed (collapsing redundant separators and `.`), parent
// components are resolved lexically against their prefix (`/..` at the root
// stays at the root), letter case is folded on a case-insensitive platform,
// and the result is rendered with the native separator.

/// The platform conventions under which normalization is meaningful: the
/// separator is one of the two that real filesystems use, so that case
/// folding can never manufacture or destroy a separator.
pub open spec fn caps_wf(caps: PathCaps) -> bool {
    caps.separator == '/' || caps.separator == '\\'
}

/// One step of lexical `..` resolution: a parent component pops a preceding
/// normal component, vanishes against the root, and is kept otherwise.
pub open spec fn resolve_step(acc: Seq<Seq<char>>, c: Seq<char>) -> Seq<Seq<char>> {
    if is_parent(c) {
        if acc.len() == 0 {
            acc.push(c)
        } else if acc.last() =~= root_component() {
            acc
        } else if is_parent(acc.last()) {
            acc.push(c)
        } else {
            acc.drop_last()
        }
    } else {
        acc.push(c)
    }
}

/// Lexical resolution of parent components, left to right.
pub open spec fn resolve(cs: Seq<Seq<char>>) -> Seq<Seq<char>>
    decreases cs.len(),
{
    if cs.len() == 0 {
        Seq::empty()
    } else {
        resolve_step(resolve(cs.drop_last()), cs.last())
    }
}

/// No parent component stands behind anything it could still consume: every
/// parent is preceded by another parent (or stands first, with no root).
pub open spec fn no_parent_after(cs: Seq<Seq<char>>) -> bool {
    forall|i: int|
        1 <= i < cs.len() ==> (is_parent(#[trigger] cs[i]) ==> is_parent(cs[i - 1]))
}

pub proof fn lemma_resolve_wf(caps: PathCaps, cs: Seq<Seq<char>>)
    requires
        wf_comps(caps, cs),
    ensures
        wf_comps(caps, resolve(cs)),
        no_parent_after(resolve(cs)),
        resolve(cs).len() <= cs.len(),
        cs.len() > 0 && cs[0] =~= root_component() ==> resolve(cs).len() > 0 && resolve(cs)[0]
            =~= root_component(),
        cs.len() > 0 && cs[0] =~= root_component() ==> forall|i: int|
            0 <= i < resolve(cs).len() ==> !is_parent(#[trigger] resolve(cs)[i]),
        forall|i: int| 1 <= i < resolve(cs).len() ==> !(#[trigger] resolve(cs)[i]
            =~= root_component()),
        cs.len() > 0 && !(cs[0] =~= root_component()) ==> forall|i: int|
            0 <= i < resolve(cs).len() ==> !(#[trigger] resolve(cs)[i] =~= root_component()),
    decreases cs.len(),
{
    if cs.len() > 0 {
        let init = cs.drop_last();
        assert(wf_comps(caps, init)) by {
            assert(forall|i: int| 0 <= i < init.len() ==> init[i] == cs[i]);
        }
        lemma_resolve_wf(caps, init);
        let r = resolve(init);
        let c = cs.last();
        if cs.len() == 1 {
            assert(r =~~= Seq::<Seq<char>>::empty());
        } else {
            assert(wf_comp(caps, c));
        }
        // each case of resolve_step preserves the stated shape
        let out = resolve_step(r, c);
        if is_parent(c) {
            if r.len() == 0 {
                assert(out =~~= seq![c]);
            } else if r.last() =~= root_component() {
                assert(r.len() == 1);
            } else if is_parent(r.last()) {
            } else {
            }
        }
    }
}

/// Resolution changes nothing that is already resolved.
pub proof fn lemma_resolve_identity(caps: PathCaps, cs: Seq<Seq<char>>)
    requires
        wf_comps(caps, cs),
        no_parent_after(cs),
    ensures
        resolve(cs) == cs,
    decreases cs.len(),
{
    if cs.len() > 0 {
        let init = cs.drop_last();
        assert(wf_comps(caps, init) && no_parent_after(init)) by {
            assert(forall|i: int| 0 <= i < init.len() ==> init[i] == cs[i]);
        }
        lemma_resolve_identity(caps, init);
        let c = cs.last();
        if is_parent(c) {
            if init.len() > 0 {
                assert(is_parent(cs[cs.len() - 2]));
                assert(!(init.last() =~= root_component()));
                assert(cs =~~= resolve_step(init, c));
            } else {
                assert(cs =~~= resolve_step(init, c));
            }
        } else {
            assert(cs =~~= resolve_step(init, c));
        }
    } else {
        assert(resolve(cs) =~~= cs);
    }
}

/// Components joined by the separator, no leading or trailing one.
pub open spec fn render_parts(ps: Seq<Seq<char>>, sep: char) -> Seq<char>
    decreases ps.len(),
{
    if ps.len() == 0 {
        Seq::empty()
    } else if ps.len() == 1 {
        ps[0]
    } else {
        ps[0] + seq![sep] + render_parts(ps.drop_first(), sep)
    }
}

/// The string form of a component sequence. A lone root renders as the bare
/// separator; otherwise a leading root contributes the leading separator
/// because it is the empty piece.
pub open spec fn render(cs: Seq<Seq<char>>, sep: char) -> Seq<char> {
    if cs.len() == 1 && cs[0] =~= root_component() {
        seq![sep]
    } else {
        render_parts(cs, sep)
    }
}

pub proof fn lemma_render_parts_concat(a: Seq<Seq<char>>, b: Seq<Seq<char>>, sep: char)
    requires
        a.len() > 0,
        b.len() > 0,
    ensures
        render_parts(a + b, sep) == render_parts(a, sep) + seq![sep] + render_parts(b, sep),
    decreases a.len(),
{
    if a.len() == 1 {
        let ab = a + b;
        assert(ab[0] == a[0]);
        assert(ab.drop_first() =~~= b);
        assert(render_parts(ab, sep) =~= a[0] + seq![sep] + render_parts(b, sep));
        assert(render_parts(a, sep) == a[0]);
    } else {
        let ab = a + b;
        assert(ab[0] == a[0]);
        assert(ab.drop_first() =~~= a.drop_first() + b);
        lemma_render_parts_concat(a.drop_first(), b, sep);
        assert(render_parts(ab, sep) =~= render_parts(a, sep) + seq![sep] + render_parts(b, sep));
    }
}

/// Reparsing a rendering of separator-free kept pieces gives them back.
pub proof fn lemma_pieces_of_parts(caps: PathCaps, cs: Seq<Seq<char>>, sep: char)
    requires
        caps.spec_is_sep(sep),
        forall|i: int| 0 <= i < cs.len() ==> wf_comp(caps, #[trigger] cs[i]),
    ensures
        pieces(caps, render_parts(cs, sep)) == cs,
    decreases cs.len(),
{
    if cs.len() == 0 {
        assert(pieces(caps, render_parts(cs, sep)) =~~= cs);
    } else if cs.len() == 1 {
        let p = cs[0];
        lemma_find_sep_char(caps, p, 0, p.len() as int);
        assert(p.subrange(0, p.len() as int) =~= p);
        assert(pieces(caps, p) =~~= cs);
    } else {
        let rest = cs.drop_first();
        assert(cs =~~= seq![cs[0]] + rest);
        lemma_render_parts_concat(seq![cs[0]], rest, sep);
        lemma_pieces_concat(caps, cs[0], render_parts(rest, sep), sep);
        lemma_pieces_of_parts(caps, rest, sep);
        let p = cs[0];
        lemma_find_sep_char(caps, p, 0, p.len() as int);
        assert(p.subrange(0, p.len() as int) =~= p);
        assert(pieces(caps, p) =~~= seq![p]);
        assert(render_parts(seq![cs[0]], sep) == cs[0]);
        assert(pieces(caps, render_parts(cs, sep)) =~~= cs);
    }
}

/// Reparsing a rendering of a well-formed component sequence gives it back.
pub proof fn lemma_components_of_render(caps: PathCaps, cs: Seq<Seq<char>>)
    requires
        wf_comps(caps, cs),
    ensures
        components(caps, render(cs, caps.separator)) == cs,
{
    let sep = caps.separator;
    let s = render(cs, sep);
    if cs.len() == 0 {
        assert(s.len() == 0);
        assert(components(caps, s) =~~= cs);
    } else if cs[0] =~= root_component() {
        if cs.len() == 1 {
            assert(s =~= seq![sep]);
            assert(caps.spec_is_sep(s[0]));
            lemma_find_sep_char(caps, s, 0, 0);
            assert(!piece_kept(s.subrange(0, 0)));
            assert(pieces_from(caps, s, 1) =~~= Seq::<Seq<char>>::empty());
            assert(pieces(caps, s) =~~= Seq::<Seq<char>>::empty());
            assert(components(caps, s) =~~= cs);
        } else {
            let rest = cs.drop_first();
            assert(forall|i: int| 0 <= i < rest.len() ==> wf_comp(caps, #[trigger] rest[i]));
            assert(cs =~~= seq![cs[0]] + rest);
            lemma_render_parts_concat(seq![cs[0]], rest, sep);
            assert(render_parts(seq![cs[0]], sep) == cs[0]);
            assert(s =~= Seq::<char>::empty() + seq![sep] + render_parts(rest, sep));
            lemma_pieces_concat(caps, Seq::empty(), render_parts(rest, sep), sep);
            lemma_pieces_of_parts(caps, rest, sep);
            assert(pieces(caps, Seq::<char>::empty()) =~~= Seq::<Seq<char>>::empty());
            assert(pieces(caps, s) =~~= rest);
            assert(s[0] == sep);
            assert(components(caps, s) =~~= cs);
        }
    } else {
        assert(forall|i: int| 0 <= i < cs.len() ==> wf_comp(caps, #[trigger] cs[i]));
        lemma_pieces_of_parts(caps, cs, sep);
        assert(s == render_parts(cs, sep));
        if cs.len() == 1 {
            assert(s == cs[0]);
        } else {
            lemma_render_parts_concat(seq![cs[0]], cs.drop_first(), sep);
            assert(cs =~~= seq![cs[0]] + cs.drop_first());
            assert(s == cs[0] + seq![sep] + render_parts(cs.drop_first(), sep));
        }
        assert(s.len() > 0 && s[0] == cs[0][0]);
        assert(!caps.spec_is_sep(s[0]));
        assert(components(caps, s) == pieces(caps, s));
    }
}

/// ASCII lower-casing of one character, used to collapse letter case on a
/// case-insensitive platform.
pub open spec fn fold_char(c: char) -> char {
    if c == 'A' { 'a' } else if c == 'B' { 'b' } else if c == 'C' { 'c' }
    else if c == 'D' { 'd' } else if c == 'E' { 'e' } else if c == 'F' { 'f' }
    else if c == 'G' { 'g' } else if c == 'H' { 'h' } else if c == 'I' { 'i' }
    else if c == 'J' { 'j' } else if c == 'K' { 'k' } else if c == 'L' { 'l' }
    else if c == 'M' { 'm' } else if c == 'N' { 'n' } else if c == 'O' { 'o' }
    else if c == 'P' { 'p' } else if c == 'Q' { 'q' } else if c == 'R' { 'r' }
    else if c == 'S' { 's' } else if c == 'T' { 't' } else if c == 'U' { 'u' }
    else if c == 'V' { 'v' } else if c == 'W' { 'w' } else if c == 'X' { 'x' }
    else if c == 'Y' { 'y' } else if c == 'Z' { 'z' } else { c }
}

pub open spec fn fold_seq(p: Seq<char>) -> Seq<char> {
    Seq::new(p.len(), |i: int| fold_char(p[i]))
}

pub open spec fn fold_comps(cs: Seq<Seq<char>>) -> Seq<Seq<char>> {
    Seq::new(cs.len(), |i: int| fold_seq(cs[i]))
}

/// Case folding as normalization applies it: only on a case-insensitive
/// platform.
pub open spec fn fold_comps_if(caps: PathCaps, cs: Seq<Seq<char>>) -> Seq<Seq<char>> {
    if caps.case_sensitive {
        cs
    } else {
        fold_comps(cs)
    }
}

proof fn lemma_fold_char_props(c: char)
    ensures
        fold_char(fold_char(c)) == fold_char(c),
        (fold_char(c) == '.') <==> (c == '.'),
        (fold_char(c) == '/') <==> (c == '/'),
        (fold_char(c) == '\\') <==> (c == '\\'),
{
}

proof fn lemma_fold_seq_props(caps: PathCaps, p: Seq<char>)
    requires
        caps_wf(caps),
    ensures
        fold_seq(p).len() == p.len(),
        is_parent(fold_seq(p)) <==> is_parent(p),
        piece_kept(fold_seq(p)) <==> piece_kept(p),
        sep_free(caps, p) ==> sep_free(caps, fold_seq(p)),
        (fold_seq(p) =~= root_component()) <==> (p =~= root_component()),
        fold_seq(fold_seq(p)) =~= fold_seq(p),
{
    assert forall|i: int| 0 <= i < p.len() implies fold_char(fold_char(p[i])) == fold_char(p[i])
        && ((fold_char(p[i]) == '.') <==> (p[i] == '.')) && ((fold_char(p[i]) == '/') <==> (p[i]
        == '/')) && ((fold_char(p[i]) == '\\') <==> (p[i] == '\\')) by {
        lemma_fold_char_props(p[i]);
    }
    if is_parent(p) {
        assert(fold_seq(p) =~= seq!['.', '.']);
    }
    if is_parent(fold_seq(p)) {
        assert(p =~= seq!['.', '.']);
    }
    if p.len() == 1 && fold_seq(p)[0] == '.' {
        assert(p =~= seq!['.']);
    }
    if p.len() == 1 && p[0] == '.' {
        assert(fold_seq(p) =~= seq!['.']);
    }
    if sep_free(caps, p) {
        assert forall|i: int| 0 <= i < fold_seq(p).len() implies !caps.spec_is_sep(
            #[trigger] fold_seq(p)[i],
        ) by {
            lemma_fold_char_props(p[i]);
        }
    }
}

pub proof fn lemma_fold_comps_props(caps: PathCaps, cs: Seq<Seq<char>>)
    requires
        caps_wf(caps),
        wf_comps(caps, cs),
    ensures
        fold_comps(cs).len() == cs.len(),
        wf_comps(caps, fold_comps(cs)),
        no_parent_after(cs) ==> no_parent_after(fold_comps(cs)),
        fold_comps(fold_comps(cs)) == fold_comps(cs),
        cs.len() > 0 ==> ((fold_comps(cs)[0] =~= root_component()) <==> (cs[0]
            =~= root_component())),
{
    assert forall|i: int| 0 <= i < cs.len() implies (is_parent(#[trigger] fold_comps(cs)[i])
        <==> is_parent(cs[i])) && (piece_kept(fold_comps(cs)[i]) <==> piece_kept(cs[i])) && (
    sep_free(caps, cs[i]) ==> sep_free(caps, fold_comps(cs)[i])) && ((fold_comps(cs)[i]
        =~= root_component()) <==> (cs[i] =~= root_component())) && fold_seq(fold_seq(cs[i]))
        =~= fold_seq(cs[i]) by {
        lemma_fold_seq_props(caps, cs[i]);
    }
    assert(fold_comps(fold_comps(cs)) =~~= fold_comps(cs));
}

/// The canonical form of a path string: parse into components, resolve
/// parent components, fold case where the platform asks for it, and render
/// with the native separator.
pub open spec fn norm_spec(caps: PathCaps, s: Seq<char>) -> Seq<char> {
    render(fold_comps_if(caps, resolve(components(caps, s))), caps.separator)
}

/// Normalization is idempotent.
pub proof fn lemma_normalize_idempotent(caps: PathCaps, s: Seq<char>)
    requires
        caps_wf(caps),
    ensures
        norm_spec(caps, norm_spec(caps, s)) == norm_spec(caps, s),
{
    let cs = components(caps, s);
    lemma_components_wf(caps, s);
    lemma_resolve_wf(caps, cs);
    let r = resolve(cs);
    let f = fold_comps_if(caps, r);
    if !caps.case_sensitive {
        lemma_fold_comps_props(caps, r);
    }
    assert(wf_comps(caps, f) && no_parent_after(f));
    lemma_components_of_render(caps, f);
    let n = norm_spec(caps, s);
    assert(components(caps, n) == f);
    lemma_resolve_identity(caps, f);
    if !caps.case_sensitive {
        lemma_fold_comps_props(caps, f);
        assert(fold_comps(f) =~~= f) by {
            lemma_fold_comps_props(caps, r);
        }
    }
    assert(fold_comps_if(caps, resolve(components(caps, n))) == f);
}

pub fn is_parent_exec(c: &Vec<char>) -> (r: bool)
    ensures
        r == is_parent(c@),
{
    let r = c.len() == 2 && c[0] == '.' && c[1] == '.';
    proof {
        if r {
            assert(c@ =~= seq!['.', '.']);
        }
    }
    r
}

/// Lexical resolution of the parsed components.
pub fn resolve_exec(cs: Vec<Vec<char>>) -> (r: Vec<Vec<char>>)
    ensures
        seq_views(r@) == resolve(seq_views(cs@)),
{
    let ghost goal = seq_views(cs@);
    let n = cs.len();
    let mut st: Vec<Vec<char>> = Vec::new();
    let mut k: usize = 0;
    proof {
        assert(goal.subrange(0, 0) =~~= Seq::<Seq<char>>::empty());
    }
    while k < n
        invariant
            k <= n,
            n == cs@.len(),
            goal == seq_views(cs@),
            seq_views(st@) == resolve(goal.subrange(0, k as int)),
        decreases n - k,
    {
        let ghost pre = seq_views(st@);
        let c = copy_range(&cs[k], 0, cs[k].len());
        proof {
            assert(c@ =~= cs@[k as int]@);
        }
        let parent = is_parent_exec(&c);
        if parent {
            if st.len() == 0 {
                st.push(c);
                proof {
                    assert(seq_views(st@) =~~= pre.push(cs@[k as int]@));
                }
            } else {
                let top_is_root = st[st.len() - 1].len() == 0;
                if top_is_root {
                    proof {
                        assert(pre.last() =~= root_component());
                    }
                } else {
                    let top_parent = is_parent_exec(&st[st.len() - 1]);
                    if top_parent {
                        st.push(c);
                        proof {
                            assert(seq_views(st@) =~~= pre.push(cs@[k as int]@));
                        }
                    } else {
                        let _dropped = st.pop();
                        proof {
                            assert(seq_views(st@) =~~= pre.drop_last());
                        }
                    }
                }
            }
        } else {
            st.push(c);
            proof {
                assert(seq_views(st@) =~~= pre.push(cs@[k as int]@));
            }
        }
        k = k + 1;
        proof {
            let sub = goal.subrange(0, k as int);
            assert(sub.drop_last() =~~= goal.subrange(0, k - 1));
            assert(sub.last() == goal[k - 1]);
            assert(resolve(sub) == resolve_step(resolve(goal.subrange(0, k - 1)), goal[k - 1]));
            if !(pre.len() > 0 && pre.last() =~= root_component() && is_parent(goal[k - 1])) {
            }
            assert(seq_views(st@) =~~= resolve(sub));
        }
    }
    proof {
        assert(goal.subrange(0, n as int) =~~= goal);
    }
    st
}

pub fn fold_char_exec(c: char) -> (r: char)
    ensures
        r == fold_char(c),
{
    if c == 'A' { 'a' } else if c == 'B' { 'b' } else if c == 'C' { 'c' }
    else if c == 'D' { 'd' } else if c == 'E' { 'e' } else if c == 'F' { 'f' }
    else if c == 'G' { 'g' } else if c == 'H' { 'h' } else if c == 'I' { 'i' }
    else if c == 'J' { 'j' } else if c == 'K' { 'k' } else if c == 'L' { 'l' }
    else if c == 'M' { 'm' } else if c == 'N' { 'n' } else if c == 'O' { 'o' }
    else if c == 'P' { 'p' } else if c == 'Q' { 'q' } else if c == 'R' { 'r' }
    else if c == 'S' { 's' } else if c == 'T' { 't' } else if c == 'U' { 'u' }
    else if c == 'V' { 'v' } else if c == 'W' { 'w' } else if c == 'X' { 'x' }
    else if c == 'Y' { 'y' } else if c == 'Z' { 'z' } else { c }
}

pub fn fold_vec(v: &Vec<char>) -> (r: Vec<char>)
    ensures
        r@ == fold_seq(v@),
{
    let n = v.len();
    let mut r: Vec<char> = Vec::new();
    let mut k: usize = 0;
    while k < n
        invariant
            k <= n,
            n == v@.len(),
            r@.len() == k,
            forall|m: int| 0 <= m < k ==> r@[m] == fold_char(v@[m]),
        decreases n - k,
    {
        let c = fold_char_exec(v[k]);
        r.push(c);
        k = k + 1;
    }
    proof {
        assert(r@ =~= fold_seq(v@));
    }
    r
}

pub fn fold_comps_exec(cs: Vec<Vec<char>>) -> (r: Vec<Vec<char>>)
    ensures
        seq_views(r@) == fold_comps(seq_views(cs@)),
{
    let n = cs.len();
    let mut r: Vec<Vec<char>> = Vec::new();
    let mut k: usize = 0;
    while k < n
        invariant
            k <= n,
            n == cs@.len(),
            r@.len() == k,
            forall|m: int| 0 <= m < k ==> #[trigger] r@[m]@ == fold_seq(cs@[m]@),
        decreases n - k,
    {
        let f = fold_vec(&cs[k]);
        r.push(f);
        k = k + 1;
    }
    proof {
        assert(seq_views(r@) =~~= fold_comps(seq_views(cs@)));
    }
    r
}

fn extend_chars(acc: &mut Vec<char>, more: &Vec<char>)
    ensures
        final(acc)@ == old(acc)@ + more@,
{
    let n = more.len();
    let mut k: usize = 0;
    while k < n
        invariant
            k <= n,
            n == more@.len(),
            acc@ == old(acc)@ + more@.subrange(0, k as int),
        decreases n - k,
    {
        acc.push(more[k]);
        k = k + 1;
        proof {
            assert(old(acc)@ + more@.subrange(0, k as int) =~= acc@);
        }
    }
    proof {
        assert(old(acc)@ + more@.subrange(0, n as int) =~= old(acc)@ + more@);
    }
}

/// The string form of a resolved component sequence.
pub fn render_exec(caps: &PathCaps, cs: &Vec<Vec<char>>) -> (r: Vec<char>)
    ensures
        r@ == render(seq_views(cs@), caps.separator),
{
    let ghost gs = seq_views(cs@);
    let sep = caps.separator;
    let n = cs.len();
    if n == 0 {
        let r: Vec<char> = Vec::new();
        proof {
            assert(r@ =~= render(gs, sep));
        }
        return r;
    }
    if n == 1 && cs[0].len() == 0 {
        let mut r: Vec<char> = Vec::new();
        r.push(sep);
        proof {
            assert(gs[0] =~= root_component());
            assert(r@ =~= seq![sep]);
        }
        return r;
    }
    let mut acc = copy_range(&cs[0], 0, cs[0].len());
    let mut k: usize = 1;
    proof {
        if !(gs.len() == 1 && gs[0] =~= root_component()) {
        }
        assert(acc@ == render_parts(gs.subrange(0, 1), sep)) by {
            assert(gs.subrange(0, 1).len() == 1);
            assert(gs.subrange(0, 1)[0] == gs[0]);
        }
    }
    while k < n
        invariant
            1 <= k <= n,
            n == cs@.len(),
            gs == seq_views(cs@),
            acc@ == render_parts(gs.subrange(0, k as int), sep),
        decreases n - k,
    {
        acc.push(sep);
        extend_chars(&mut acc, &cs[k]);
        k = k + 1;
        proof {
            let a = gs.subrange(0, k - 1);
            let b = seq![gs[k - 1]];
            lemma_render_parts_concat(a, b, sep);
            assert(gs.subrange(0, k as int) =~~= a + b);
            assert(render_parts(b, sep) == gs[k - 1]);
            assert(acc@ =~= render_parts(a, sep) + seq![sep] + render_parts(b, sep));
        }
    }
    proof {
        assert(gs.subrange(0, n as int) =~~= gs);
        assert(!(gs.len() == 1 && gs[0] =~= root_component())) by {
            if gs.len() == 1 && gs[0] =~= root_component() {
                assert(cs@[0]@.len() == 0);
            }
        }
    }
    acc
}

/// Normalization over character vectors: parse, resolve, fold, render.
pub fn normalize_chars(caps: &PathCaps, v: &Vec<char>) -> (r: Vec<char>)
    ensures
        r@ == norm_spec(*caps, v@),
{
    let cs = components_exec(caps, v);
    let rs = resolve_exec(cs);
    let fs = if caps.case_sensitive {
        rs
    } else {
        fold_comps_exec(rs)
    };
    render_exec(caps, &fs)
}

} // verus!
