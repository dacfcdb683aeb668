use vstd::prelude::*;
use crate::PathCaps;
use crate::components::{
    components, components_exec, is_parent, lemma_components_wf, lemma_pieces_concat,
    lemma_pieces_trailing_sep, pieces, root_component, seq_views, vec_char_eq, wf_comp, wf_comps,
};
use crate::normalize::{
    caps_wf, lemma_pieces_of_parts, lemma_render_parts_concat, lemma_resolve_identity,
    no_parent_after, norm_spec, render_parts, resolve, resolve_step,
};
use crate::path::{chars_to_string, join_spec, spec_is_absolute, str_to_chars, AbsPath};

verus! {

// Computing the relative path that reaches `from` when standing in the
// directory `to`: the shared component prefix is consumed, every component
// `to` still has becomes one `..` step (with a trailing separator), and the
// normal components `from` still has follow, joined by separators.

/// The length of the longest shared component prefix.
pub open spec fn cpl(a: Seq<Seq<char>>, b: Seq<Seq<char>>) -> int
    decreases a.len(),
{
    if a.len() == 0 || b.len() == 0 || a[0] != b[0] {
        0
    } else {
        1 + cpl(a.drop_first(), b.drop_first())
    }
}

/// `m` parent components.
pub open spec fn parents_seq(m: nat) -> Seq<Seq<char>> {
    Seq::new(m, |i: int| seq!['.', '.'])
}

/// `m` repetitions of `..` followed by the separator.
pub open spec fn dotdots(m: nat, sep: char) -> Seq<char>
    decreases m,
{
    if m == 0 {
        Seq::empty()
    } else {
        seq!['.', '.', sep] + dotdots((m - 1) as nat, sep)
    }
}

/// A component that names a real child: neither a root nor a parent step.
pub open spec fn is_normal(p: Seq<char>) -> bool {
    !is_parent(p) && !(p =~= root_component())
}

pub open spec fn keep_normals(cs: Seq<Seq<char>>) -> Seq<Seq<char>>
    decreases cs.len(),
{
    if cs.len() == 0 {
        Seq::empty()
    } else if is_normal(cs[0]) {
        seq![cs[0]] + keep_normals(cs.drop_first())
    } else {
        keep_normals(cs.drop_first())
    }
}

/// The relative path from the directory `to` up and down to `from`, or
/// nothing when the two root components differ (or either side has none).
pub open spec fn rel_spec(caps: PathCaps, from: Seq<char>, to: Seq<char>) -> Option<Seq<char>> {
    let ta = components(caps, from);
    let ba = components(caps, to);
    if ta.len() == 0 || ba.len() == 0 || ta[0] != ba[0] {
        None
    } else {
        let k = cpl(ta, ba);
        Some(
            dotdots((ba.len() - k) as nat, caps.separator) + render_parts(
                keep_normals(ta.skip(k)),
                caps.separator,
            ),
        )
    }
}

pub proof fn lemma_cpl_props(a: Seq<Seq<char>>, b: Seq<Seq<char>>)
    ensures
        0 <= cpl(a, b) <= a.len(),
        cpl(a, b) <= b.len(),
        forall|i: int| 0 <= i < cpl(a, b) ==> a[i] == b[i],
        cpl(a, b) < a.len() && cpl(a, b) < b.len() ==> a[cpl(a, b)] != b[cpl(a, b)],
    decreases a.len(),
{
    if a.len() > 0 && b.len() > 0 && a[0] == b[0] {
        lemma_cpl_props(a.drop_first(), b.drop_first());
        let k = cpl(a, b);
        assert(forall|i: int| 1 <= i < k ==> a[i] == a.drop_first()[i - 1]);
        assert(forall|i: int| 1 <= i < k ==> b[i] == b.drop_first()[i - 1]);
        if k < a.len() && k < b.len() {
            assert(a[k] == a.drop_first()[k - 1]);
            assert(b[k] == b.drop_first()[k - 1]);
        }
    }
}

/// The shared prefix length is pinned down by its characteristic properties.
pub proof fn lemma_cpl_char(a: Seq<Seq<char>>, b: Seq<Seq<char>>, k: int)
    requires
        0 <= k <= a.len(),
        k <= b.len(),
        forall|i: int| 0 <= i < k ==> a[i] == b[i],
        k < a.len() && k < b.len() ==> a[k] != b[k],
    ensures
        cpl(a, b) == k,
    decreases k,
{
    if k == 0 {
        lemma_cpl_props(a, b);
    } else {
        assert(a[0] == b[0]);
        let at = a.drop_first();
        let bt = b.drop_first();
        assert(forall|i: int| 0 <= i < k - 1 ==> at[i] == a[i + 1] && bt[i] == b[i + 1]);
        if k - 1 < at.len() && k - 1 < bt.len() {
            assert(at[k - 1] == a[k]);
            assert(bt[k - 1] == b[k]);
        }
        lemma_cpl_char(at, bt, k - 1);
    }
}

pub proof fn lemma_dotdots_snoc(m: nat, sep: char)
    ensures
        dotdots(m + 1, sep) == dotdots(m, sep) + seq!['.', '.', sep],
    decreases m,
{
    if m == 0 {
        assert(dotdots(1, sep) =~= dotdots(0, sep) + seq!['.', '.', sep]);
    } else {
        lemma_dotdots_snoc((m - 1) as nat, sep);
        assert(dotdots(m + 1, sep) =~= seq!['.', '.', sep] + dotdots(m, sep));
        assert(seq!['.', '.', sep] + (dotdots((m - 1) as nat, sep) + seq!['.', '.', sep]) =~= (
        seq!['.', '.', sep] + dotdots((m - 1) as nat, sep)) + seq!['.', '.', sep]);
    }
}

pub proof fn lemma_keep_normals_snoc(cs: Seq<Seq<char>>, x: Seq<char>)
    ensures
        keep_normals(cs.push(x)) == if is_normal(x) {
            keep_normals(cs) + seq![x]
        } else {
            keep_normals(cs)
        },
    decreases cs.len(),
{
    reveal_with_fuel(keep_normals, 3);
    let full = cs.push(x);
    if cs.len() == 0 {
        assert(full[0] == x);
        assert(full.drop_first() =~~= Seq::<Seq<char>>::empty());
        if is_normal(x) {
            assert(keep_normals(full) =~~= keep_normals(cs) + seq![x]);
        }
    } else {
        assert(full[0] == cs[0]);
        assert(full.drop_first() =~~= cs.drop_first().push(x));
        lemma_keep_normals_snoc(cs.drop_first(), x);
        if is_normal(x) {
            assert(keep_normals(full) =~~= keep_normals(cs) + seq![x]);
        } else {
            assert(keep_normals(full) =~~= keep_normals(cs));
        }
    }
}

pub proof fn lemma_keep_normals_identity(cs: Seq<Seq<char>>)
    requires
        forall|i: int| 0 <= i < cs.len() ==> is_normal(#[trigger] cs[i]),
    ensures
        keep_normals(cs) == cs,
    decreases cs.len(),
{
    if cs.len() > 0 {
        let t = cs.drop_first();
        assert(forall|i: int| 0 <= i < t.len() ==> t[i] == cs[i + 1]);
        lemma_keep_normals_identity(t);
        assert(keep_normals(cs) =~~= cs);
    } else {
        assert(keep_normals(cs) =~~= cs);
    }
}

/// Each `..` chunk splits off one parent component.
pub proof fn lemma_pieces_dotdots(caps: PathCaps, m: nat, rest: Seq<char>)
    requires
        caps_wf(caps),
    ensures
        pieces(caps, dotdots(m, caps.separator) + rest) == parents_seq(m) + pieces(caps, rest),
    decreases m,
{
    let sep = caps.separator;
    if m == 0 {
        assert(dotdots(0, sep) + rest =~= rest);
        assert(parents_seq(0) + pieces(caps, rest) =~= pieces(caps, rest));
    } else {
        let dd = seq!['.', '.'];
        assert(wf_comp(caps, dd));
        lemma_pieces_dotdots(caps, (m - 1) as nat, rest);
        assert(dotdots(m, sep) + rest =~= dd + seq![sep] + (dotdots((m - 1) as nat, sep) + rest));
        lemma_pieces_concat(caps, dd, dotdots((m - 1) as nat, sep) + rest, sep);
        assert(pieces(caps, dd) =~~= seq![dd]) by {
            lemma_pieces_of_parts(caps, seq![dd], sep);
            assert(render_parts(seq![dd], sep) == dd);
        }
        assert(parents_seq(m) =~~= seq![dd] + parents_seq((m - 1) as nat));
        assert(pieces(caps, dotdots(m, sep) + rest) =~~= parents_seq(m) + pieces(caps, rest));
    }
}

pub proof fn lemma_resolve_snoc(cs: Seq<Seq<char>>, x: Seq<char>)
    ensures
        resolve(cs.push(x)) == resolve_step(resolve(cs), x),
{
    assert(cs.push(x).drop_last() =~~= cs);
    assert(cs.push(x).last() == x);
}

/// Appending components that are not parent steps only pushes them.
pub proof fn lemma_resolve_append_normals(a: Seq<Seq<char>>, n: Seq<Seq<char>>)
    requires
        forall|i: int| 0 <= i < n.len() ==> !is_parent(#[trigger] n[i]),
    ensures
        resolve(a + n) == resolve(a) + n,
    decreases n.len(),
{
    if n.len() == 0 {
        assert(a + n =~~= a);
        assert(resolve(a) + n =~~= resolve(a));
    } else {
        let init = n.drop_last();
        assert(forall|i: int| 0 <= i < init.len() ==> init[i] == n[i]);
        lemma_resolve_append_normals(a, init);
        assert(a + n =~~= (a + init).push(n.last()));
        lemma_resolve_snoc(a + init, n.last());
        assert(!is_parent(n.last()));
        assert(resolve(a + n) =~~= resolve(a) + n);
    }
}

/// Appending `m` parent steps pops `m` normal components off the end.
pub proof fn lemma_resolve_pop(caps: PathCaps, r: Seq<Seq<char>>, m: nat)
    requires
        wf_comps(caps, r),
        no_parent_after(r),
        forall|i: int| 0 <= i < r.len() ==> !is_parent(#[trigger] r[i]),
        m < r.len(),
        r[0] =~= root_component(),
    ensures
        resolve(r + parents_seq(m)) == r.take(r.len() - m),
    decreases m,
{
    if m == 0 {
        assert(r + parents_seq(0) =~~= r);
        lemma_resolve_identity(caps, r);
        assert(r.take(r.len() as int) =~~= r);
    } else {
        lemma_resolve_pop(caps, r, (m - 1) as nat);
        let prev = r + parents_seq((m - 1) as nat);
        assert(r + parents_seq(m) =~~= prev.push(seq!['.', '.']));
        lemma_resolve_snoc(prev, seq!['.', '.']);
        let acc = r.take(r.len() - (m - 1));
        assert(acc.len() == r.len() - m + 1 >= 2);
        assert(acc.last() == r[r.len() - m]);
        assert(wf_comp(caps, acc.last()));
        assert(!(acc.last() =~= root_component()));
        assert(!is_parent(acc.last()));
        assert(is_parent(seq!['.', '.']));
        assert(resolve_step(acc, seq!['.', '.']) == acc.drop_last());
        assert(acc.drop_last() =~~= r.take(r.len() - m));
    }
}

/// Joining a relative path back onto the directory it was computed against
/// reaches the path it was computed from: for absolute `from` and `to` with
/// no parent steps of their own, the join of `to` with the relative path
/// normalizes to the same value as `from`.
pub proof fn lemma_rel_round_trip(caps: PathCaps, from: Seq<char>, to: Seq<char>)
    requires
        caps_wf(caps),
        spec_is_absolute(caps, from),
        spec_is_absolute(caps, to),
        crate::path::trim_one_trailing_sep(caps, to) == to,
        forall|i: int|
            0 <= i < components(caps, from).len() ==> !is_parent(
                #[trigger] components(caps, from)[i],
            ),
        forall|i: int|
            0 <= i < components(caps, to).len() ==> !is_parent(#[trigger] components(caps, to)[i]),
    ensures
        rel_spec(caps, from, to) matches Some(out) && norm_spec(caps, join_spec(caps, to, out))
            == norm_spec(caps, from),
{
    let sep = caps.separator;
    let ta = components(caps, from);
    let ba = components(caps, to);
    lemma_components_wf(caps, from);
    lemma_components_wf(caps, to);
    assert(ta[0] =~= root_component());
    assert(ba[0] =~= root_component());
    let k = cpl(ta, ba);
    lemma_cpl_props(ta, ba);
    assert(k >= 1);
    let m = (ba.len() - k) as nat;
    let tail = ta.skip(k);
    assert(forall|i: int| 0 <= i < tail.len() ==> tail[i] == ta[i + k]);
    assert(forall|i: int| 0 <= i < tail.len() ==> is_normal(#[trigger] tail[i]));
    lemma_keep_normals_identity(tail);
    let ns = keep_normals(tail);
    let out = dotdots(m, sep) + render_parts(ns, sep);
    assert(rel_spec(caps, from, to) == Some(out));

    // `out` never opens with a separator, so the join appends it
    assert(!spec_is_absolute(caps, out)) by {
        if out.len() > 0 {
            if m > 0 {
                assert(out[0] == '.');
            } else {
                assert(out =~= render_parts(ns, sep));
                if ns.len() == 1 {
                    assert(out[0] == ns[0][0]);
                } else {
                    assert(out[0] == ns[0][0]);
                }
                assert(wf_comp(caps, ns[0]));
            }
        }
    }
    let x = crate::path::join_raw(caps, to, out);
    assert(join_spec(caps, to, out) == crate::path::trim_one_trailing_sep(caps, x));

    // the base is trimmed, so the join adds exactly one separator, and
    // splitting the joined text gives the base's pieces, then the relative
    // path's
    assert(!caps.spec_is_sep(to[to.len() - 1]));
    assert(x =~= to + seq![sep] + out);
    lemma_pieces_concat(caps, to, out, sep);
    assert(pieces(caps, x) == pieces(caps, to) + pieces(caps, out));
    assert(x.len() > 0 && x[0] == to[0]);
    assert(spec_is_absolute(caps, x));
    lemma_pieces_dotdots(caps, m, render_parts(ns, sep));
    lemma_pieces_of_parts(caps, ns, sep);
    assert(pieces(caps, out) == parents_seq(m) + ns) by {
        assert(out =~= dotdots(m, sep) + render_parts(ns, sep));
    }
    assert(components(caps, x) =~~= ba + parents_seq(m) + ns) by {
        assert(components(caps, x) == seq![root_component()] + pieces(caps, x));
        assert(ba == seq![root_component()] + pieces(caps, to));
    }

    let joined = crate::path::trim_one_trailing_sep(caps, x);
    assert(components(caps, joined) == components(caps, x)) by {
        if x.len() > 0 && caps.spec_is_sep(x[x.len() - 1]) {
            let y = x.drop_last();
            assert(x =~= y + seq![x[x.len() - 1]]);
            lemma_pieces_trailing_sep(caps, y, x[x.len() - 1]);
            assert(pieces(caps, y + seq![x[x.len() - 1]]) == pieces(caps, y));
            assert(y.len() >= to.len());
            assert(y[0] == x[0]);
            assert(components(caps, joined) =~~= components(caps, x));
        }
    }

    // resolving pops the `..` steps and pushes the normal tail
    lemma_resolve_pop(caps, ba, m);
    lemma_resolve_append_normals(ba + parents_seq(m), ns);
    assert(ba + parents_seq(m) + ns =~~= (ba + parents_seq(m)) + ns);
    assert(resolve(components(caps, joined)) == ba.take(k) + ns);
    assert(ba.take(k) =~~= ta.take(k));
    assert(ta.take(k) + ns =~~= ta);
    lemma_resolve_identity(caps, ta);
    assert(resolve(components(caps, joined)) =~~= resolve(components(caps, from)));
    assert(norm_spec(caps, joined) == norm_spec(caps, from));
}

/// The relative path from the directory `to` up and down to `from`, absent
/// when the root components differ. Every component `to` keeps beyond the
/// shared prefix becomes one `..` step with a trailing separator; the normal
/// components `from` keeps follow, joined by separators.
pub fn path_relative_to_caps(caps: &PathCaps, from: &AbsPath, to: &str) -> (r: Option<String>)
    ensures
        match r {
            Some(s) => rel_spec(*caps, from@, to@) == Some(s@),
            None => rel_spec(*caps, from@, to@) is None,
        },
{
    let sep = caps.separator;
    let tv = str_to_chars(from.as_str());
    let ta = components_exec(caps, &tv);
    let bv = str_to_chars(to);
    let ba = components_exec(caps, &bv);
    let ghost gta = components(*caps, from@);
    let ghost gba = components(*caps, to@);
    if ta.len() == 0 || ba.len() == 0 {
        return None;
    }
    if !vec_char_eq(&ta[0], &ba[0]) {
        return None;
    }
    let min = if ta.len() < ba.len() {
        ta.len()
    } else {
        ba.len()
    };
    let mut k: usize = 1;
    while k < min && vec_char_eq(&ta[k], &ba[k])
        invariant
            1 <= k <= min,
            min == if gta.len() < gba.len() {
                gta.len()
            } else {
                gba.len()
            },
            gta == seq_views(ta@),
            gba == seq_views(ba@),
            forall|i: int| 0 <= i < k ==> gta[i] == gba[i],
        decreases min - k,
    {
        k = k + 1;
    }
    proof {
        lemma_cpl_char(gta, gba, k as int);
    }
    let m = ba.len() - k;
    let mut out: Vec<char> = Vec::new();
    let mut d: usize = 0;
    while d < m
        invariant
            d <= m,
            out@ == dotdots(d as nat, sep),
        decreases m - d,
    {
        out.push('.');
        out.push('.');
        out.push(sep);
        d = d + 1;
        proof {
            lemma_dotdots_snoc((d - 1) as nat, sep);
            assert(out@ =~= dotdots(d as nat, sep));
        }
    }
    let mut idx = k;
    let mut any: bool = false;
    while idx < ta.len()
        invariant
            k <= idx <= ta@.len(),
            gta == seq_views(ta@),
            k <= gta.len(),
            any == (keep_normals(gta.subrange(k as int, idx as int)).len() > 0),
            out@ == dotdots(m as nat, sep) + render_parts(
                keep_normals(gta.subrange(k as int, idx as int)),
                sep,
            ),
        decreases ta@.len() - idx,
    {
        let comp = &ta[idx];
        let ghost pre = keep_normals(gta.subrange(k as int, idx as int));
        let normal = !(comp.len() == 0) && !crate::normalize::is_parent_exec(comp);
        proof {
            if comp@.len() == 0 {
                assert(comp@ =~= root_component());
            }
            assert(normal == is_normal(gta[idx as int]));
            assert(gta.subrange(k as int, idx + 1) =~~= gta.subrange(k as int, idx as int).push(
                gta[idx as int],
            ));
            lemma_keep_normals_snoc(gta.subrange(k as int, idx as int), gta[idx as int]);
        }
        if normal {
            if any {
                out.push(sep);
            }
            let mut ci: usize = 0;
            let ghost outpre = out@;
            while ci < comp.len()
                invariant
                    ci <= comp@.len(),
                    out@ == outpre + comp@.subrange(0, ci as int),
                decreases comp@.len() - ci,
            {
                out.push(comp[ci]);
                ci = ci + 1;
                proof {
                    assert(out@ =~= outpre + comp@.subrange(0, ci as int));
                }
            }
            proof {
                assert(out@ =~= outpre + comp@);
                let post = keep_normals(gta.subrange(k as int, idx + 1));
                assert(post == pre.push(gta[idx as int]));
                if pre.len() == 0 {
                    assert(render_parts(post, sep) == gta[idx as int]) by {
                        assert(post.len() == 1 && post[0] == gta[idx as int]);
                    }
                    assert(out@ =~= dotdots(m as nat, sep) + render_parts(post, sep));
                } else {
                    lemma_render_parts_concat(pre, seq![gta[idx as int]], sep);
                    assert(post =~~= pre + seq![gta[idx as int]]);
                    assert(render_parts(seq![gta[idx as int]], sep) == gta[idx as int]);
                    assert(out@ =~= dotdots(m as nat, sep) + render_parts(post, sep));
                }
            }
            any = true;
        }
        idx = idx + 1;
    }
    proof {
        assert(gta.subrange(k as int, gta.len() as int) =~= gta.skip(k as int));
        assert(rel_spec(*caps, from@, to@) == Some(out@));
    }
    Some(chars_to_string(&out))
}

/// The relative path computation over a bare separator, as a standalone
/// entry point.
pub fn path_relative_to(from: &AbsPath, to: &str, separator: char) -> (r: Option<String>)
    ensures
        ({
            let caps = PathCaps { separator, accepts_slash: false, case_sensitive: true };
            match r {
                Some(s) => rel_spec(caps, from@, to@) == Some(s@),
                None => rel_spec(caps, from@, to@) is None,
            }
        }),
{
    let caps = PathCaps { separator, accepts_slash: false, case_sensitive: true };
    path_relative_to_caps(&caps, from, to)
}

} // verus!
