use vstd::prelude::*;

verus! {

/// Identifier of one mounted directory tree.
pub type WorktreeId = u64;

/// Identifier of an entry, unique across all trees.
pub type ProjectEntryId = u64;

/// Identifier reserved for the placeholder of a not yet created entry; no real
/// entry carries it.
pub const NEW_ENTRY_ID: ProjectEntryId = 0xffff_ffff_ffff_ffff;

#[derive(Clone, Copy, Debug, PartialEq, Eq, Structural)]
pub enum EntryKind {
    Dir,
    File,
}

#[derive(Clone, Copy, Debug, PartialEq, Eq, Structural)]
pub enum GitFileStatus {
    Added,
    Modified,
    Conflict,
}

/// A file or directory of a tree. The path is relative to the tree's root, one
/// string per component; the root entry has the empty path.
#[derive(Clone, Debug)]
pub struct Entry {
    pub id: ProjectEntryId,
    pub kind: EntryKind,
    pub path: Vec<String>,
    pub is_ignored: bool,
    pub git_status: Option<GitFileStatus>,
}

pub ghost struct EntryView {
    pub id: ProjectEntryId,
    pub kind: EntryKind,
    pub path: Seq<Seq<char>>,
    pub is_ignored: bool,
    pub git_status: Option<GitFileStatus>,
}

impl View for Entry {
    type V = EntryView;

    open spec fn view(&self) -> EntryView {
        EntryView {
            id: self.id,
            kind: self.kind,
            path: self.path.deep_view(),
            is_ignored: self.is_ignored,
            git_status: self.git_status,
        }
    }
}

pub open spec fn entries_view(es: Seq<Entry>) -> Seq<EntryView> {
    es.map_values(|e: Entry| e@)
}

/// `p` is an ancestor path of `q`.
pub open spec fn proper_prefix(p: Seq<Seq<char>>, q: Seq<Seq<char>>) -> bool {
    p.len() < q.len() && q.subrange(0, p.len() as int) == p
}

impl Entry {
    pub fn is_dir(&self) -> (r: bool)
        ensures
            r == (self.kind == EntryKind::Dir),
    {
        match self.kind {
            EntryKind::Dir => true,
            EntryKind::File => false,
        }
    }

    pub fn is_file(&self) -> (r: bool)
        ensures
            r == (self.kind == EntryKind::File),
    {
        !self.is_dir()
    }

    /// A copy of the entry.
    pub fn duplicate(&self) -> (r: Entry)
        ensures
            r@ == self@,
    {
        Entry {
            id: self.id,
            kind: self.kind,
            path: clone_path(&self.path),
            is_ignored: self.is_ignored,
            git_status: self.git_status,
        }
    }
}

pub fn clone_path(p: &Vec<String>) -> (r: Vec<String>)
    ensures
        r.deep_view() == p.deep_view(),
{
    let mut r: Vec<String> = Vec::new();
    let mut i: usize = 0;
    while i < p.len()
        invariant
            i <= p@.len(),
            r@.len() == i,
            forall|j: int| 0 <= j < i ==> r@[j]@ == p@[j]@,
        decreases p@.len() - i,
    {
        let c = p[i].clone();
        r.push(c);
        i = i + 1;
    }
    assert(r.deep_view() =~= p.deep_view());
    r
}

/// Whether two paths are the same.
pub fn path_eq(a: &Vec<String>, b: &Vec<String>) -> (r: bool)
    ensures
        r == (a.deep_view() == b.deep_view()),
{
    if a.len() != b.len() {
        return false;
    }
    let mut i: usize = 0;
    while i < a.len()
        invariant
            a@.len() == b@.len(),
            i <= a@.len(),
            a.deep_view().subrange(0, i as int) == b.deep_view().subrange(0, i as int),
        decreases a@.len() - i,
    {
        if a[i] != b[i] {
            assert(a.deep_view()[i as int] != b.deep_view()[i as int]);
            return false;
        }
        assert(a.deep_view().subrange(0, i + 1) =~= a.deep_view().subrange(0, i as int).push(a[i as int]@));
        assert(b.deep_view().subrange(0, i + 1) =~= b.deep_view().subrange(0, i as int).push(b[i as int]@));
        i = i + 1;
    }
    assert(a.deep_view() =~= a.deep_view().subrange(0, i as int));
    assert(b.deep_view() =~= b.deep_view().subrange(0, i as int));
    true
}

/// Whether `p` is an ancestor path of `q`.
pub fn is_proper_prefix(p: &Vec<String>, q: &Vec<String>) -> (r: bool)
    ensures
        r == proper_prefix(p.deep_view(), q.deep_view()),
{
    if p.len() >= q.len() {
        return false;
    }
    let mut i: usize = 0;
    while i < p.len()
        invariant
            p@.len() < q@.len(),
            i <= p@.len(),
            p.deep_view().subrange(0, i as int) == q.deep_view().subrange(0, i as int),
        decreases p@.len() - i,
    {
        if p[i] != q[i] {
            assert(q.deep_view().subrange(0, p@.len() as int)[i as int] != p.deep_view()[i as int]);
            return false;
        }
        assert(p.deep_view().subrange(0, i + 1) =~= p.deep_view().subrange(0, i as int).push(p[i as int]@));
        assert(q.deep_view().subrange(0, i + 1) =~= q.deep_view().subrange(0, i as int).push(q[i as int]@));
        i = i + 1;
    }
    assert(p.deep_view() =~= p.deep_view().subrange(0, i as int));
    true
}

/// The path of the parent directory, if the path is not the root's.
pub fn parent_path(p: &Vec<String>) -> (r: Option<Vec<String>>)
    ensures
        p@.len() == 0 ==> r is None,
        p@.len() > 0 ==> r is Some && r->0.deep_view() == p.deep_view().drop_last(),
{
    if p.len() == 0 {
        return None;
    }
    let mut r: Vec<String> = Vec::new();
    let mut i: usize = 0;
    let n = p.len() - 1;
    while i < n
        invariant
            n + 1 == p@.len(),
            i <= n,
            r@.len() == i,
            forall|j: int| 0 <= j < i ==> r@[j]@ == p@[j]@,
        decreases n - i,
    {
        let c = p[i].clone();
        r.push(c);
        i = i + 1;
    }
    assert(r.deep_view() =~= p.deep_view().drop_last());
    Some(r)
}

/// Components of a typed relative path after its first `n` characters: the
/// finished ones and the one being read. Separators never make empty components.
pub open spec fn split_prefix(t: Seq<char>, n: int) -> (Seq<Seq<char>>, Seq<char>)
    decreases n,
{
    if n <= 0 {
        (seq![], seq![])
    } else {
        let (done, cur) = split_prefix(t, n - 1);
        if t[n - 1] == '/' {
            (if cur.len() > 0 { done.push(cur) } else { done }, seq![])
        } else {
            (done, cur.push(t[n - 1]))
        }
    }
}

/// The components of a typed path: the text between '/' separators, empty
/// pieces left out (so leading, trailing and repeated separators add nothing).
pub open spec fn path_components(t: Seq<char>) -> Seq<Seq<char>> {
    let (done, cur) = split_prefix(t, t.len() as int);
    if cur.len() > 0 {
        done.push(cur)
    } else {
        done
    }
}

/// Splits a typed path into its components.
pub fn split_path_text(text: &str) -> (r: Vec<String>)
    ensures
        r.deep_view() == path_components(text@),
{
    let n = text.unicode_len();
    let mut out: Vec<String> = Vec::new();
    let mut start: usize = 0;
    let mut i: usize = 0;
    while i < n
        invariant
            n == text@.len(),
            start <= i <= n,
            split_prefix(text@, i as int) == (out.deep_view(), text@.subrange(start as int, i as int)),
        decreases n - i,
    {
        let c = text.get_char(i);
        if c == '/' {
            if start < i {
                let piece = text.substring_char(start, i);
                let ghost before = out.deep_view();
                out.push(String::from_str(piece));
                assert(out.deep_view() =~= before.push(text@.subrange(start as int, i as int)));
            }
            start = i + 1;
        }
        assert(text@.subrange(start as int, i + 1) =~= if c == '/' {
            Seq::<char>::empty()
        } else {
            text@.subrange(start as int, i as int).push(c)
        });
        i = i + 1;
    }
    if start < n {
        let piece = text.substring_char(start, n);
        let ghost before = out.deep_view();
        out.push(String::from_str(piece));
        assert(out.deep_view() =~= before.push(text@.subrange(start as int, n as int)));
    }
    out
}

/// The path `base` followed by `more`.
pub fn join_path(base: &Vec<String>, more: &Vec<String>) -> (r: Vec<String>)
    ensures
        r.deep_view() == base.deep_view() + more.deep_view(),
{
    let mut r = clone_path(base);
    let mut i: usize = 0;
    while i < more.len()
        invariant
            i <= more@.len(),
            r.deep_view() =~= base.deep_view() + more.deep_view().subrange(0, i as int),
        decreases more@.len() - i,
    {
        let ghost before = r.deep_view();
        r.push(more[i].clone());
        assert(r.deep_view() =~= before.push(more[i as int]@));
        assert(more.deep_view().subrange(0, i + 1) =~= more.deep_view().subrange(0, i as int).push(more[i as int]@));
        i = i + 1;
    }
    assert(more.deep_view().subrange(0, i as int) =~= more.deep_view());
    r
}

} // verus!
