use vstd::prelude::*;
use crate::components::vec_char_eq;
use crate::normalized_path::NormalizedPath;
use crate::path::str_to_chars;

verus! {

/// A stable identity for a file: assigned once per distinct file, kept
/// across content edits, retired when the file is deleted.
#[derive(Clone, Copy, Debug, PartialEq, Eq, Structural)]
pub struct FileIndex {
    pub index: usize,
}

/// A file child of a directory: its name and its stable identity.
pub struct FileEntry {
    pub name: String,
    pub index: FileIndex,
}

/// One child of a directory, as last reported by a backend: a subdirectory,
/// a file, a child whose kind is not resolved yet, or a child an ignore rule
/// tags as ignored (kept so it can still be found on demand).
pub enum DirectoryEntry {
    Subdir { name: String },
    File(FileEntry),
    NotYetRead { name: String },
    Ignored { name: String },
}

/// The ghost shape of one directory entry.
pub enum EntryV {
    Subdir { name: Seq<char> },
    File { name: Seq<char>, index: int },
    NotYetRead { name: Seq<char> },
    Ignored { name: Seq<char> },
}

impl DirectoryEntry {
    pub open spec fn entry_v(&self) -> EntryV {
        match self {
            DirectoryEntry::Subdir { name } => EntryV::Subdir { name: name@ },
            DirectoryEntry::File(f) => EntryV::File { name: f.name@, index: f.index.index as int },
            DirectoryEntry::NotYetRead { name } => EntryV::NotYetRead { name: name@ },
            DirectoryEntry::Ignored { name } => EntryV::Ignored { name: name@ },
        }
    }

    pub open spec fn spec_name(&self) -> Seq<char> {
        match self {
            DirectoryEntry::Subdir { name } => name@,
            DirectoryEntry::File(f) => f.name@,
            DirectoryEntry::NotYetRead { name } => name@,
            DirectoryEntry::Ignored { name } => name@,
        }
    }

    pub fn name(&self) -> (r: &str)
        ensures
            r@ == self.spec_name(),
    {
        match self {
            DirectoryEntry::Subdir { name } => name.as_str(),
            DirectoryEntry::File(f) => f.name.as_str(),
            DirectoryEntry::NotYetRead { name } => name.as_str(),
            DirectoryEntry::Ignored { name } => name.as_str(),
        }
    }

    pub fn clone_entry(&self) -> (r: DirectoryEntry)
        ensures
            r.entry_v() == self.entry_v(),
    {
        match self {
            DirectoryEntry::Subdir { name } => DirectoryEntry::Subdir { name: name.clone() },
            DirectoryEntry::File(f) => DirectoryEntry::File(
                FileEntry { name: f.name.clone(), index: f.index },
            ),
            DirectoryEntry::NotYetRead { name } => DirectoryEntry::NotYetRead {
                name: name.clone(),
            },
            DirectoryEntry::Ignored { name } => DirectoryEntry::Ignored { name: name.clone() },
        }
    }
}

pub open spec fn name_of(v: EntryV) -> Seq<char> {
    match v {
        EntryV::Subdir { name } => name,
        EntryV::File { name, .. } => name,
        EntryV::NotYetRead { name } => name,
        EntryV::Ignored { name } => name,
    }
}

/// Lexicographic order on names, by character value.
pub open spec fn lex_lt(a: Seq<char>, b: Seq<char>) -> bool
    decreases a.len(),
{
    if b.len() == 0 {
        false
    } else if a.len() == 0 {
        true
    } else if a[0] < b[0] {
        true
    } else if b[0] < a[0] {
        false
    } else {
        lex_lt(a.drop_first(), b.drop_first())
    }
}

pub proof fn lemma_lex_irrefl(a: Seq<char>)
    ensures
        !lex_lt(a, a),
    decreases a.len(),
{
    if a.len() > 0 {
        lemma_lex_irrefl(a.drop_first());
    }
}

pub proof fn lemma_lex_trans(a: Seq<char>, b: Seq<char>, c: Seq<char>)
    requires
        lex_lt(a, b),
        lex_lt(b, c),
    ensures
        lex_lt(a, c),
    decreases a.len() + b.len() + c.len(),
{
    if a.len() > 0 && b.len() > 0 && c.len() > 0 {
        if a[0] == b[0] && b[0] == c[0] {
            lemma_lex_trans(a.drop_first(), b.drop_first(), c.drop_first());
        }
    }
}

/// Two names that neither orders below the other are the same name.
pub proof fn lemma_lex_total(a: Seq<char>, b: Seq<char>)
    requires
        !lex_lt(a, b),
        !lex_lt(b, a),
    ensures
        a == b,
    decreases a.len(),
{
    if a.len() > 0 && b.len() > 0 {
        assert(a[0] == b[0]);
        lemma_lex_total(a.drop_first(), b.drop_first());
        assert(a =~= seq![a[0]] + a.drop_first());
        assert(b =~= seq![b[0]] + b.drop_first());
    } else {
        assert(a =~= b);
    }
}

/// Each entry's name is strictly below its successor's.
pub open spec fn sorted_by_name(s: Seq<EntryV>) -> bool {
    forall|i: int| 0 <= i < s.len() - 1 ==> lex_lt(name_of(#[trigger] s[i]), name_of(s[i + 1]))
}

/// In a sorted listing, names grow with the position.
pub proof fn lemma_sorted_global(s: Seq<EntryV>, i: int, j: int)
    requires
        sorted_by_name(s),
        0 <= i < j < s.len(),
    ensures
        lex_lt(name_of(s[i]), name_of(s[j])),
    decreases j - i,
{
    if i + 1 < j {
        lemma_sorted_global(s, i + 1, j);
        lemma_lex_trans(name_of(s[i]), name_of(s[i + 1]), name_of(s[j]));
    }
}

/// Sorted names are pairwise distinct.
pub proof fn lemma_sorted_unique(s: Seq<EntryV>)
    requires
        sorted_by_name(s),
    ensures
        names_unique(s),
{
    assert forall|i: int, j: int|
        0 <= i < j < s.len() implies name_of(#[trigger] s[i]) != name_of(#[trigger] s[j]) by {
        lemma_sorted_global(s, i, j);
        lemma_lex_irrefl(name_of(s[i]));
    }
}

/// Where `v` lands in a sorted listing: it replaces the entry that carries
/// its name, and otherwise stands in front of the first larger name.
pub open spec fn spec_insert_entry(s: Seq<EntryV>, v: EntryV) -> Seq<EntryV>
    decreases s.len(),
{
    if s.len() == 0 {
        seq![v]
    } else if name_of(v) == name_of(s[0]) {
        seq![v] + s.drop_first()
    } else if lex_lt(name_of(v), name_of(s[0])) {
        seq![v] + s
    } else {
        seq![s[0]] + spec_insert_entry(s.drop_first(), v)
    }
}

/// Inserting keeps the listing sorted, and adds or replaces only the entry
/// carrying `v`'s name.
pub proof fn lemma_insert_entry_wf(s: Seq<EntryV>, v: EntryV)
    requires
        sorted_by_name(s),
    ensures
        sorted_by_name(spec_insert_entry(s, v)),
        spec_insert_entry(s, v).len() >= 1,
        forall|j: int|
            0 <= j < spec_insert_entry(s, v).len() ==> (#[trigger] spec_insert_entry(s, v)[j] == v
                || exists|k: int| 0 <= k < s.len() && spec_insert_entry(s, v)[j] == s[k]),
    decreases s.len(),
{
    let out = spec_insert_entry(s, v);
    if s.len() == 0 {
        assert(out =~= seq![v]);
    } else if name_of(v) == name_of(s[0]) {
        assert(out =~= seq![v] + s.drop_first());
        assert forall|i: int| 0 <= i < out.len() - 1 implies lex_lt(
            name_of(#[trigger] out[i]),
            name_of(out[i + 1]),
        ) by {
            if i == 0 {
                assert(out[1] == s[1]);
            } else {
                assert(out[i] == s[i] && out[i + 1] == s[i + 1]);
            }
        }
        assert forall|j: int| 0 <= j < out.len() implies (#[trigger] out[j] == v || exists|k: int|
            0 <= k < s.len() && out[j] == s[k]) by {
            if j > 0 {
                assert(out[j] == s[j]);
            }
        }
    } else if lex_lt(name_of(v), name_of(s[0])) {
        assert(out =~= seq![v] + s);
        assert forall|i: int| 0 <= i < out.len() - 1 implies lex_lt(
            name_of(#[trigger] out[i]),
            name_of(out[i + 1]),
        ) by {
            if i == 0 {
            } else {
                assert(out[i] == s[i - 1] && out[i + 1] == s[i]);
            }
        }
        assert forall|j: int| 0 <= j < out.len() implies (#[trigger] out[j] == v || exists|k: int|
            0 <= k < s.len() && out[j] == s[k]) by {
            if j > 0 {
                assert(out[j] == s[j - 1]);
            }
        }
    } else {
        let t = s.drop_first();
        assert(sorted_by_name(t)) by {
            assert(forall|i: int| 0 <= i < t.len() ==> t[i] == s[i + 1]);
        }
        lemma_insert_entry_wf(t, v);
        let rec = spec_insert_entry(t, v);
        assert(out =~= seq![s[0]] + rec);
        // the head of the recursive result is either `v` or an old entry,
        // and both lie strictly above `s[0]`
        assert(lex_lt(name_of(s[0]), name_of(v))) by {
            if !lex_lt(name_of(s[0]), name_of(v)) {
                lemma_lex_total(name_of(v), name_of(s[0]));
            }
        }
        assert forall|i: int| 0 <= i < out.len() - 1 implies lex_lt(
            name_of(#[trigger] out[i]),
            name_of(out[i + 1]),
        ) by {
            if i == 0 {
                assert(out[1] == rec[0]);
                assert(rec[0] == v || exists|k: int| 0 <= k < t.len() && rec[0] == t[k]);
                if rec[0] != v {
                    let k = choose|k: int| 0 <= k < t.len() && rec[0] == t[k];
                    assert(t[k] == s[k + 1]);
                    if k + 1 > 1 {
                        lemma_sorted_global(s, 0, k + 1);
                    }
                }
            } else {
                assert(out[i] == rec[i - 1] && out[i + 1] == rec[i]);
            }
        }
        assert forall|j: int| 0 <= j < out.len() implies (#[trigger] out[j] == v || exists|k: int|
            0 <= k < s.len() && out[j] == s[k]) by {
            if j == 0 {
                assert(out[0] == s[0]);
            } else {
                assert(out[j] == rec[j - 1]);
                if rec[j - 1] != v {
                    let k = choose|k: int| 0 <= k < t.len() && rec[j - 1] == t[k];
                    assert(out[j] == s[k + 1]);
                }
            }
        }
    }
}

/// The insertion position pins the inserted form down.
pub proof fn lemma_insert_entry_at(s: Seq<EntryV>, v: EntryV, p: int)
    requires
        sorted_by_name(s),
        0 <= p <= s.len(),
        forall|i: int| 0 <= i < p ==> lex_lt(name_of(#[trigger] s[i]), name_of(v)),
        p < s.len() ==> !lex_lt(name_of(s[p]), name_of(v)),
    ensures
        p < s.len() && name_of(s[p]) == name_of(v) ==> spec_insert_entry(s, v) == s.update(p, v),
        (p == s.len() || lex_lt(name_of(v), name_of(s[p]))) ==> spec_insert_entry(s, v)
            == s.take(p) + seq![v] + s.skip(p),
    decreases p,
{
    if p == 0 {
        if s.len() == 0 {
            assert(spec_insert_entry(s, v) =~= s.take(0) + seq![v] + s.skip(0));
        } else if name_of(s[0]) == name_of(v) {
            assert(spec_insert_entry(s, v) =~= s.update(0, v)) by {
                assert(seq![v] + s.drop_first() =~= s.update(0, v));
            }
        } else if lex_lt(name_of(v), name_of(s[0])) {
            assert(spec_insert_entry(s, v) =~= s.take(0) + seq![v] + s.skip(0));
        }
    } else {
        let t = s.drop_first();
        assert(sorted_by_name(t)) by {
            assert(forall|i: int| 0 <= i < t.len() ==> t[i] == s[i + 1]);
        }
        assert(lex_lt(name_of(s[0]), name_of(v)));
        assert(name_of(v) != name_of(s[0])) by {
            lemma_lex_irrefl(name_of(v));
        }
        assert(!lex_lt(name_of(v), name_of(s[0]))) by {
            if lex_lt(name_of(v), name_of(s[0])) {
                lemma_lex_trans(name_of(v), name_of(s[0]), name_of(v));
                lemma_lex_irrefl(name_of(v));
            }
        }
        assert(forall|i: int| 0 <= i < p - 1 ==> lex_lt(name_of(#[trigger] t[i]), name_of(v)))
            by {
            assert(forall|i: int| 0 <= i < t.len() ==> t[i] == s[i + 1]);
        }
        if p - 1 < t.len() {
            assert(t[p - 1] == s[p]);
        }
        lemma_insert_entry_at(t, v, p - 1);
        if p < s.len() && name_of(s[p]) == name_of(v) {
            assert(spec_insert_entry(t, v) == t.update(p - 1, v));
            assert(seq![s[0]] + t.update(p - 1, v) =~= s.update(p, v));
        }
        if p == s.len() || lex_lt(name_of(v), name_of(s[p])) {
            assert(spec_insert_entry(t, v) == t.take(p - 1) + seq![v] + t.skip(p - 1));
            assert(seq![s[0]] + (t.take(p - 1) + seq![v] + t.skip(p - 1)) =~= s.take(p) + seq![v]
                + s.skip(p));
        }
    }
}

/// Lexicographic comparison of the characters from position `i` on.
fn lex_lt_at(a: &Vec<char>, b: &Vec<char>, i: usize) -> (r: bool)
    requires
        i <= a@.len(),
        i <= b@.len(),
    ensures
        r == lex_lt(a@.skip(i as int), b@.skip(i as int)),
    decreases a@.len() - i,
{
    let ghost ga = a@.skip(i as int);
    let ghost gb = b@.skip(i as int);
    if i == b.len() {
        proof {
            assert(gb.len() == 0);
        }
        false
    } else if i == a.len() {
        proof {
            assert(ga.len() == 0 && gb.len() > 0);
        }
        true
    } else {
        proof {
            assert(ga[0] == a@[i as int] && gb[0] == b@[i as int]);
            assert(ga.drop_first() =~= a@.skip(i + 1));
            assert(gb.drop_first() =~= b@.skip(i + 1));
        }
        if a[i] < b[i] {
            true
        } else if b[i] < a[i] {
            false
        } else {
            lex_lt_at(a, b, i + 1)
        }
    }
}

/// Whether `a` orders strictly below `b`.
pub fn lex_lt_exec(a: &str, b: &str) -> (r: bool)
    ensures
        r == lex_lt(a@, b@),
{
    let av = str_to_chars(a);
    let bv = str_to_chars(b);
    proof {
        assert(av@.skip(0) =~= a@);
        assert(bv@.skip(0) =~= b@);
    }
    lex_lt_at(&av, &bv, 0)
}

/// The listing of one directory as last reported by a backend. Entries stand
/// in lexicographic name order, each name once.
pub struct Entries {
    entries: Vec<DirectoryEntry>,
}

impl View for Entries {
    type V = Seq<EntryV>;

    closed spec fn view(&self) -> Seq<EntryV> {
        Seq::new(self.entries@.len(), |i: int| self.entries@[i].entry_v())
    }
}

/// No two entries carry the same name.
pub open spec fn names_unique(s: Seq<EntryV>) -> bool {
    forall|i: int, j: int|
        0 <= i < j < s.len() ==> name_of(#[trigger] s[i]) != name_of(#[trigger] s[j])
}

impl Entries {
    /// The listing is ordered by name; distinctness of the names follows.
    pub open spec fn wf(&self) -> bool {
        sorted_by_name(self@)
    }

    pub fn new() -> (r: Entries)
        ensures
            r@ == Seq::<EntryV>::empty(),
            r.wf(),
    {
        let r = Entries { entries: Vec::new() };
        proof {
            assert(r@ =~= Seq::<EntryV>::empty());
        }
        r
    }

    pub fn len(&self) -> (r: usize)
        ensures
            r == self@.len(),
    {
        self.entries.len()
    }

    pub fn get(&self, i: usize) -> (r: &DirectoryEntry)
        requires
            i < self@.len(),
        ensures
            r.entry_v() == self@[i as int],
    {
        &self.entries[i]
    }

    /// The position of the first entry named `name`, if one is listed.
    pub fn position_of(&self, name: &str) -> (r: Option<usize>)
        ensures
            match r {
                Some(i) => i < self@.len() && spec_position_of(self@, name@) == Some(i as int)
                    && name_of(self@[i as int]) == name@,
                None => spec_position_of(self@, name@) is None && forall|k: int|
                    0 <= k < self@.len() ==> name_of(#[trigger] self@[k]) != name@,
            },
    {
        let n = self.entries.len();
        let nv = str_to_chars(name);
        let mut i: usize = 0;
        while i < n
            invariant
                i <= n,
                n == self@.len(),
                nv@ == name@,
                forall|k: int| 0 <= k < i ==> name_of(#[trigger] self@[k]) != name@,
            decreases n - i,
        {
            let ev = str_to_chars(self.entries[i].name());
            if vec_char_eq(&ev, &nv) {
                proof {
                    lemma_spec_position_char(self@, name@, i as int);
                }
                return Some(i);
            }
            i = i + 1;
        }
        proof {
            lemma_spec_position_none(self@, name@);
        }
        None
    }

    /// The position of the first entry whose name does not order below `nv`.
    fn lower_bound(&self, nv: &Vec<char>) -> (p: usize)
        ensures
            p <= self@.len(),
            forall|i: int| 0 <= i < p ==> lex_lt(name_of(#[trigger] self@[i]), nv@),
            p < self@.len() ==> !lex_lt(name_of(self@[p as int]), nv@),
    {
        let n = self.entries.len();
        let mut p: usize = 0;
        while p < n
            invariant
                p <= n,
                n == self@.len(),
                forall|i: int| 0 <= i < p ==> lex_lt(name_of(#[trigger] self@[i]), nv@),
            decreases n - p,
        {
            let ev = str_to_chars(self.entries[p].name());
            proof {
                assert(ev@ == name_of(self@[p as int]));
                assert(ev@.skip(0) =~= ev@);
                assert(nv@.skip(0) =~= nv@);
            }
            if !lex_lt_at(&ev, nv, 0) {
                return p;
            }
            p = p + 1;
        }
        p
    }

    /// Adds or replaces the entry carrying `e`'s name, keeping the listing
    /// ordered by name.
    pub fn insert(&mut self, e: DirectoryEntry)
        requires
            old(self).wf(),
        ensures
            final(self).wf(),
            final(self)@ == spec_insert_entry(old(self)@, e.entry_v()),
    {
        let ghost pre = self@;
        let ghost v = e.entry_v();
        proof {
            assert(name_of(v) == e.spec_name());
        }
        let name = e.name();
        let nv = str_to_chars(name);
        let n = self.entries.len();
        let p = self.lower_bound(&nv);
        proof {
            lemma_insert_entry_at(pre, v, p as int);
            lemma_insert_entry_wf(pre, v);
        }
        if p < n {
            let ev = str_to_chars(self.entries[p].name());
            proof {
                assert(ev@ == name_of(pre[p as int]));
            }
            let same = crate::components::vec_char_eq(&ev, &nv);
            if same {
                self.entries.set(p, e);
                proof {
                    assert(self@ =~= pre.update(p as int, v));
                }
                return ;
            }
            proof {
                assert(lex_lt(name_of(v), name_of(pre[p as int]))) by {
                    if !lex_lt(name_of(v), name_of(pre[p as int])) {
                        lemma_lex_total(name_of(v), name_of(pre[p as int]));
                    }
                }
            }
        }
        self.entries.insert(p, e);
        proof {
            assert(self@ =~= pre.take(p as int) + seq![v] + pre.skip(p as int));
        }
    }

    pub fn clone_entries(&self) -> (r: Entries)
        ensures
            r@ == self@,
    {
        let n = self.entries.len();
        let mut out = Entries { entries: Vec::new() };
        let mut i: usize = 0;
        while i < n
            invariant
                i <= n,
                n == self@.len(),
                out@.len() == i,
                forall|k: int| 0 <= k < i ==> out@[k] == self@[k],
            decreases n - i,
        {
            let c = self.entries[i].clone_entry();
            out.entries.push(c);
            i = i + 1;
        }
        proof {
            assert(out@ =~= self@);
        }
        out
    }
}

/// The position of the first entry with the given name.
pub open spec fn spec_position_of(s: Seq<EntryV>, name: Seq<char>) -> Option<int>
    decreases s.len(),
{
    if s.len() == 0 {
        None
    } else if name_of(s[0]) == name {
        Some(0int)
    } else {
        match spec_position_of(s.drop_first(), name) {
            Some(i) => Some(i + 1),
            None => None,
        }
    }
}

pub proof fn lemma_spec_position_of(s: Seq<EntryV>, name: Seq<char>)
    ensures
        match spec_position_of(s, name) {
            Some(i) => 0 <= i < s.len() && name_of(s[i]) == name && forall|k: int|
                0 <= k < i ==> name_of(#[trigger] s[k]) != name,
            None => forall|k: int| 0 <= k < s.len() ==> name_of(#[trigger] s[k]) != name,
        },
    decreases s.len(),
{
    if s.len() > 0 && name_of(s[0]) != name {
        let t = s.drop_first();
        lemma_spec_position_of(t, name);
        match spec_position_of(t, name) {
            Some(i) => {
                assert(t[i] == s[i + 1]);
                assert forall|k: int| 0 <= k < i + 1 implies name_of(#[trigger] s[k]) != name by {
                    if k > 0 {
                        assert(s[k] == t[k - 1]);
                    }
                }
            },
            None => {
                assert forall|k: int| 0 <= k < s.len() implies name_of(#[trigger] s[k])
                    != name by {
                    if k > 0 {
                        assert(s[k] == t[k - 1]);
                    }
                }
            },
        }
    }
}

/// The characteristic properties pin the position down.
pub proof fn lemma_spec_position_char(s: Seq<EntryV>, name: Seq<char>, i: int)
    requires
        0 <= i < s.len(),
        name_of(s[i]) == name,
        forall|k: int| 0 <= k < i ==> name_of(#[trigger] s[k]) != name,
    ensures
        spec_position_of(s, name) == Some(i),
    decreases i,
{
    if i == 0 {
    } else {
        let t = s.drop_first();
        assert(forall|k: int| 0 <= k < t.len() ==> t[k] == s[k + 1]);
        lemma_spec_position_char(t, name, i - 1);
    }
}

pub proof fn lemma_spec_position_none(s: Seq<EntryV>, name: Seq<char>)
    requires
        forall|k: int| 0 <= k < s.len() ==> name_of(#[trigger] s[k]) != name,
    ensures
        spec_position_of(s, name) is None,
    decreases s.len(),
{
    if s.len() > 0 {
        let t = s.drop_first();
        assert(forall|k: int| 0 <= k < t.len() ==> t[k] == s[k + 1]);
        lemma_spec_position_none(t, name);
    }
}

/// The back-reference from a tree node to its owning directory and
/// workspace; a relation only, never an ownership edge.
pub struct Parent {
    pub workspace: usize,
    pub dir_path: NormalizedPath,
}

impl Parent {
    pub fn new(workspace: usize, dir_path: NormalizedPath) -> (r: Parent)
        ensures
            r.workspace == workspace,
            r.dir_path@ == dir_path@,
    {
        Parent { workspace, dir_path }
    }

    pub fn clone_parent(&self) -> (r: Parent)
        ensures
            r.workspace == self.workspace,
            r.dir_path@ == self.dir_path@,
    {
        Parent { workspace: self.workspace, dir_path: self.dir_path.clone_normalized() }
    }
}

/// A directory node of the cache: not read yet, or read with its entries.
pub enum DirState {
    NotRead,
    Read(Entries),
}

/// The ghost shape of a directory node's state.
pub enum DirStateV {
    NotRead,
    Read(Seq<EntryV>),
}

impl DirState {
    pub open spec fn state_v(&self) -> DirStateV {
        match self {
            DirState::NotRead => DirStateV::NotRead,
            DirState::Read(es) => DirStateV::Read(es@),
        }
    }
}

/// One cached directory, keyed by its normalized path and scoped to the
/// workspace it was discovered under.
pub struct Directory {
    pub path: NormalizedPath,
    pub workspace: usize,
    pub state: DirState,
}

/// The ghost shape of one cached directory.
pub struct DirectoryV {
    pub path: Seq<char>,
    pub workspace: int,
    pub state: DirStateV,
}

impl Directory {
    pub open spec fn dir_v(&self) -> DirectoryV {
        DirectoryV { path: self.path@, workspace: self.workspace as int, state: self.state.state_v() }
    }

    pub fn clone_directory(&self) -> (r: Directory)
        ensures
            r.dir_v() == self.dir_v(),
    {
        let state = match &self.state {
            DirState::NotRead => DirState::NotRead,
            DirState::Read(es) => DirState::Read(es.clone_entries()),
        };
        Directory { path: self.path.clone_normalized(), workspace: self.workspace, state }
    }
}

} // verus!
