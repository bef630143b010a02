//! The panel's state: trees, expansion tables, rows, selection, edit and
//! clipboard, and the rebuild that keeps the rows in step with them.

use vstd::prelude::*;
use crate::entry::{entries_view, Entry, EntryView, NEW_ENTRY_ID, ProjectEntryId, WorktreeId};
use crate::expanded::ExpandedDirs;
use crate::projection::{anchor_shown, is_projection, lemma_projection_placeholders, NewEntry, project_worktree};
use crate::worktree::{has_path, Worktree};

verus! {

/// The selected entry.
#[derive(Clone, Copy, Debug, PartialEq, Eq, Structural)]
pub struct Selection {
    pub worktree_id: WorktreeId,
    pub entry_id: ProjectEntryId,
}

/// The in-place edit: creating an entry inside `entry_id`, or renaming `entry_id`.
/// `processing_filename` holds the submitted name while the operation runs.
#[derive(Clone, Debug)]
pub struct EditState {
    pub worktree_id: WorktreeId,
    pub entry_id: ProjectEntryId,
    pub is_new_entry: bool,
    pub is_dir: bool,
    pub processing_filename: Option<String>,
}

#[derive(Clone, Copy, Debug, PartialEq, Eq, Structural)]
pub enum ClipboardEntry {
    Copied { worktree_id: WorktreeId, entry_id: ProjectEntryId },
    Cut { worktree_id: WorktreeId, entry_id: ProjectEntryId },
}

impl ClipboardEntry {
    pub fn is_cut(&self) -> (r: bool)
        ensures
            r == (self is Cut),
    {
        match self {
            ClipboardEntry::Copied { .. } => false,
            ClipboardEntry::Cut { .. } => true,
        }
    }

    pub open spec fn spec_entry_id(&self) -> ProjectEntryId {
        match self {
            ClipboardEntry::Copied { entry_id, .. } => *entry_id,
            ClipboardEntry::Cut { entry_id, .. } => *entry_id,
        }
    }

    pub open spec fn spec_worktree_id(&self) -> WorktreeId {
        match self {
            ClipboardEntry::Copied { worktree_id, .. } => *worktree_id,
            ClipboardEntry::Cut { worktree_id, .. } => *worktree_id,
        }
    }

    pub fn entry_id(&self) -> (r: ProjectEntryId)
        ensures
            r == self.spec_entry_id(),
    {
        match self {
            ClipboardEntry::Copied { entry_id, .. } => *entry_id,
            ClipboardEntry::Cut { entry_id, .. } => *entry_id,
        }
    }

    pub fn worktree_id(&self) -> (r: WorktreeId)
        ensures
            r == self.spec_worktree_id(),
    {
        match self {
            ClipboardEntry::Copied { worktree_id, .. } => *worktree_id,
            ClipboardEntry::Cut { worktree_id, .. } => *worktree_id,
        }
    }
}

/// The rows of one tree, in display order.
pub struct VisibleWorktree {
    pub worktree_id: WorktreeId,
    pub entries: Vec<Entry>,
}

/// The rows of every tree, one sequence per tree.
pub open spec fn rows_view(ve: Seq<VisibleWorktree>) -> Seq<Seq<EntryView>> {
    ve.map_values(|v: VisibleWorktree| entries_view(v.entries@))
}

/// The expansion set of a tree: its table's ids, or none.
pub open spec fn expansion_of(tables: Seq<ExpandedDirs>, wid: WorktreeId) -> Seq<u64> {
    if exists|i: int| 0 <= i < tables.len() && tables[i].worktree_id == wid {
        tables[choose|i: int| 0 <= i < tables.len() && tables[i].worktree_id == wid]@
    } else {
        seq![]
    }
}

pub open spec fn has_table(tables: Seq<ExpandedDirs>, wid: WorktreeId) -> bool {
    exists|i: int| 0 <= i < tables.len() && tables[i].worktree_id == wid
}

/// The new entry that the edit shows in the tree `wid`, if any.
pub open spec fn new_entry_for(edit: Option<EditState>, wid: WorktreeId) -> Option<NewEntry> {
    match edit {
        Some(e) => if e.worktree_id == wid && e.is_new_entry {
            Some(NewEntry { anchor: e.entry_id, is_dir: e.is_dir })
        } else {
            None
        },
        None => None,
    }
}

/// The id of a tree's root entry, if it has one.
pub open spec fn root_id(w: Worktree) -> Option<ProjectEntryId> {
    if has_path(w.view_entries(), seq![]) {
        Some(
            w.entries@[choose|i: int|
                0 <= i < w.entries@.len() && w.entries@[i]@.path == Seq::<Seq<char>>::empty()].id,
        )
    } else {
        None
    }
}

/// The root id of the tree `wid` among `worktrees`, if it is there and has a root.
pub open spec fn initial_root(worktrees: Seq<Worktree>, wid: WorktreeId) -> Option<ProjectEntryId> {
    if exists|j: int| 0 <= j < worktrees.len() && worktrees[j].id == wid {
        root_id(worktrees[choose|j: int| 0 <= j < worktrees.len() && worktrees[j].id == wid])
    } else {
        None
    }
}

/// A tree seen for the first time gets a table with its root entry expanded;
/// the other tables stay as they were.
pub open spec fn tables_initialized(
    old_tables: Seq<ExpandedDirs>,
    new_tables: Seq<ExpandedDirs>,
    worktrees: Seq<Worktree>,
) -> bool {
    forall|wid: WorktreeId|
        {
            &&& #[trigger] has_table(new_tables, wid) == (has_table(old_tables, wid)
                || initial_root(worktrees, wid) is Some)
            &&& expansion_of(new_tables, wid) == if has_table(old_tables, wid) {
                expansion_of(old_tables, wid)
            } else if initial_root(worktrees, wid) is Some {
                seq![initial_root(worktrees, wid)->0]
            } else {
                seq![]
            }
        }
}

pub open spec fn unique_tables(tables: Seq<ExpandedDirs>) -> bool {
    forall|i: int, j: int| 0 <= i < j < tables.len() ==> tables[i].worktree_id != tables[j].worktree_id
}

pub(crate) proof fn lemma_expansion_at(tables: Seq<ExpandedDirs>, i: int)
    requires
        unique_tables(tables),
        0 <= i < tables.len(),
    ensures
        has_table(tables, tables[i].worktree_id),
        expansion_of(tables, tables[i].worktree_id) == tables[i]@,
{
    let wid = tables[i].worktree_id;
    assert(has_table(tables, wid));
    let c = choose|c: int| 0 <= c < tables.len() && tables[c].worktree_id == wid;
    if c != i {
        if c < i {
            assert(tables[c].worktree_id != tables[i].worktree_id);
        } else {
            assert(tables[i].worktree_id != tables[c].worktree_id);
        }
    }
}

pub(crate) proof fn lemma_expansion_push(tables: Seq<ExpandedDirs>, t: ExpandedDirs, wid: WorktreeId)
    requires
        unique_tables(tables),
        !has_table(tables, t.worktree_id),
    ensures
        unique_tables(tables.push(t)),
        has_table(tables.push(t), wid) == (has_table(tables, wid) || wid == t.worktree_id),
        expansion_of(tables.push(t), wid) == if wid == t.worktree_id {
            t@
        } else {
            expansion_of(tables, wid)
        },
{
    let n = tables.push(t);
    assert forall|i: int, j: int| 0 <= i < j < n.len() implies n[i].worktree_id != n[j].worktree_id by {
        if j == tables.len() {
            assert(n[i] == tables[i]);
        }
    }
    if wid == t.worktree_id {
        lemma_expansion_at(n, tables.len() as int);
    } else if has_table(tables, wid) {
        let i = choose|i: int| 0 <= i < tables.len() && tables[i].worktree_id == wid;
        lemma_expansion_at(tables, i);
        assert(n[i] == tables[i]);
        lemma_expansion_at(n, i);
    } else {
        assert(!has_table(n, wid)) by {
            if has_table(n, wid) {
                let i = choose|i: int| 0 <= i < n.len() && n[i].worktree_id == wid;
                assert(n[i] == tables[i]);
            }
        }
    }
}

pub(crate) proof fn lemma_root_id_at(w: Worktree, i: int)
    requires
        w.wf(),
        0 <= i < w.entries@.len(),
        w.entries@[i]@.path.len() == 0,
    ensures
        root_id(w) == Some(w.entries@[i].id),
{
    assert(w.view_entries()[i].path == Seq::<Seq<char>>::empty());
    assert(has_path(w.view_entries(), seq![]));
    let c = choose|c: int| 0 <= c < w.entries@.len() && w.entries@[c]@.path == Seq::<Seq<char>>::empty();
    if c != i {
        if c < i {
            assert(w.entries@[c]@.path != w.entries@[i]@.path);
        } else {
            assert(w.entries@[i]@.path != w.entries@[c]@.path);
        }
    }
}

pub(crate) proof fn lemma_no_root(w: Worktree)
    requires
        !has_path(w.view_entries(), seq![]),
    ensures
        root_id(w) is None,
{
}

/// `initial_root` over a prefix of the trees, one tree longer.
pub(crate) proof fn lemma_initial_root_step(ws: Seq<Worktree>, k: int, wid: WorktreeId)
    requires
        0 <= k < ws.len(),
        forall|a: int, b: int| 0 <= a < b < ws.len() ==> ws[a].id != ws[b].id,
    ensures
        initial_root(ws.subrange(0, k + 1), wid) == if wid == ws[k].id {
            root_id(ws[k])
        } else {
            initial_root(ws.subrange(0, k), wid)
        },
        wid == ws[k].id ==> initial_root(ws.subrange(0, k), wid) is None,
{
    let p = ws.subrange(0, k);
    let q = ws.subrange(0, k + 1);
    if wid == ws[k].id {
        assert(q[k].id == wid);
        let c = choose|j: int| 0 <= j < q.len() && q[j].id == wid;
        assert(c == k);
        assert(!exists|j: int| 0 <= j < p.len() && p[j].id == wid) by {
            if exists|j: int| 0 <= j < p.len() && p[j].id == wid {
                let j = choose|j: int| 0 <= j < p.len() && p[j].id == wid;
                assert(ws[j].id == wid);
            }
        }
    } else {
        if exists|j: int| 0 <= j < p.len() && p[j].id == wid {
            let j = choose|j: int| 0 <= j < p.len() && p[j].id == wid;
            assert(q[j].id == wid);
            let c = choose|j: int| 0 <= j < q.len() && q[j].id == wid;
            if c != j {
                if c < j {
                    assert(ws[c].id != ws[j].id);
                } else {
                    assert(ws[j].id != ws[c].id);
                }
            }
            assert(q[c] == p[c]);
        } else {
            assert(!exists|j: int| 0 <= j < q.len() && q[j].id == wid) by {
                if exists|j: int| 0 <= j < q.len() && q[j].id == wid {
                    let j = choose|j: int| 0 <= j < q.len() && q[j].id == wid;
                    assert(p[j].id == wid);
                }
            }
        }
    }
}

pub(crate) proof fn lemma_initial_root_at(ws: Seq<Worktree>, k: int)
    requires
        0 <= k < ws.len(),
        forall|a: int, b: int| 0 <= a < b < ws.len() ==> ws[a].id != ws[b].id,
    ensures
        initial_root(ws, ws[k].id) == root_id(ws[k]),
{
    let c = choose|j: int| 0 <= j < ws.len() && ws[j].id == ws[k].id;
    if c != k {
        if c < k {
            assert(ws[c].id != ws[k].id);
        } else {
            assert(ws[k].id != ws[c].id);
        }
    }
}

/// On complete tables, the rebuild's initialization changes nothing.
pub(crate) proof fn lemma_initialized_complete(old_tables: Seq<ExpandedDirs>, new_tables: Seq<ExpandedDirs>, ws: Seq<Worktree>, wid: WorktreeId)
    requires
        tables_initialized(old_tables, new_tables, ws),
        forall|k: int| 0 <= k < ws.len() && root_id(ws[k]) is Some ==> #[trigger] has_table(old_tables, ws[k].id),
    ensures
        has_table(new_tables, wid) == has_table(old_tables, wid),
        expansion_of(new_tables, wid) == expansion_of(old_tables, wid),
{
    assert(has_table(new_tables, wid) == (has_table(old_tables, wid) || initial_root(ws, wid) is Some));
    if !has_table(old_tables, wid) && initial_root(ws, wid) is Some {
        let c = choose|j: int| 0 <= j < ws.len() && ws[j].id == wid;
        assert(has_table(old_tables, ws[c].id));
    }
}

pub(crate) proof fn lemma_expansion_remove(tables: Seq<ExpandedDirs>, t: int, w2: WorktreeId)
    requires
        unique_tables(tables),
        0 <= t < tables.len(),
    ensures
        has_table(tables.remove(t), w2) == (has_table(tables, w2) && w2 != tables[t].worktree_id),
        w2 != tables[t].worktree_id ==> expansion_of(tables.remove(t), w2) == expansion_of(tables, w2),
{
    let n = tables.remove(t);
    assert forall|a: int, b: int| 0 <= a < b < n.len() implies n[a].worktree_id != n[b].worktree_id by {
        let a0 = if a >= t { a + 1 } else { a };
        let b0 = if b >= t { b + 1 } else { b };
        assert(n[a] == tables[a0]);
        assert(n[b] == tables[b0]);
    }
    if has_table(n, w2) {
        let j = choose|j: int| 0 <= j < n.len() && n[j].worktree_id == w2;
        let j0 = if j >= t { j + 1 } else { j };
        assert(n[j] == tables[j0]);
        lemma_expansion_at(n, j);
        lemma_expansion_at(tables, j0);
        if w2 == tables[t].worktree_id {
            assert(tables[j0].worktree_id == tables[t].worktree_id);
        }
    } else if has_table(tables, w2) && w2 != tables[t].worktree_id {
        let j = choose|j: int| 0 <= j < tables.len() && tables[j].worktree_id == w2;
        let j1 = if j > t { j - 1 } else { j };
        assert(n[j1] == tables[j]);
    }
}

pub(crate) proof fn lemma_expansion_update(tables: Seq<ExpandedDirs>, i: int, t: ExpandedDirs, wid: WorktreeId)
    requires
        unique_tables(tables),
        0 <= i < tables.len(),
        t.worktree_id == tables[i].worktree_id,
    ensures
        unique_tables(tables.update(i, t)),
        has_table(tables.update(i, t), wid) == has_table(tables, wid),
        expansion_of(tables.update(i, t), wid) == if wid == t.worktree_id {
            t@
        } else {
            expansion_of(tables, wid)
        },
{
    let n = tables.update(i, t);
    assert forall|a: int, b: int| 0 <= a < b < n.len() implies n[a].worktree_id != n[b].worktree_id by {
        assert(n[a].worktree_id == tables[a].worktree_id);
        assert(n[b].worktree_id == tables[b].worktree_id);
    }
    if wid == t.worktree_id {
        lemma_expansion_at(n, i);
        lemma_expansion_at(tables, i);
    } else if has_table(tables, wid) {
        let j = choose|j: int| 0 <= j < tables.len() && tables[j].worktree_id == wid;
        lemma_expansion_at(tables, j);
        assert(n[j] == tables[j]);
        lemma_expansion_at(n, j);
    } else {
        assert(!has_table(n, wid)) by {
            if has_table(n, wid) {
                let j = choose|j: int| 0 <= j < n.len() && n[j].worktree_id == wid;
                assert(n[j].worktree_id == tables[j].worktree_id);
            }
        }
    }
}

pub(crate) proof fn lemma_tables_step_unchanged(
    old_tables: Seq<ExpandedDirs>,
    cur: Seq<ExpandedDirs>,
    ws: Seq<Worktree>,
    k: int,
)
    requires
        0 <= k < ws.len(),
        forall|a: int, b: int| 0 <= a < b < ws.len() ==> ws[a].id != ws[b].id,
        tables_initialized(old_tables, cur, ws.subrange(0, k)),
        has_table(cur, ws[k].id) || root_id(ws[k]) is None,
    ensures
        tables_initialized(old_tables, cur, ws.subrange(0, k + 1)),
{
    assert forall|w2: WorktreeId| true implies #[trigger] has_table(cur, w2)
        == (has_table(old_tables, w2) || initial_root(ws.subrange(0, k + 1), w2) is Some)
        && expansion_of(cur, w2) == if has_table(old_tables, w2) {
            expansion_of(old_tables, w2)
        } else if initial_root(ws.subrange(0, k + 1), w2) is Some {
            seq![initial_root(ws.subrange(0, k + 1), w2)->0]
        } else {
            seq![]
        } by {
        lemma_initial_root_step(ws, k, w2);
        assert(has_table(cur, w2) == (has_table(old_tables, w2) || initial_root(ws.subrange(0, k), w2) is Some));
        if w2 == ws[k].id && has_table(cur, w2) {
            assert(has_table(old_tables, w2));
        }
    }
}

/// The tables differ at most in the expansion set of `wid`, which is `set`.
pub open spec fn tables_changed(
    old_tables: Seq<ExpandedDirs>,
    new_tables: Seq<ExpandedDirs>,
    wid: WorktreeId,
    set: Seq<u64>,
) -> bool {
    forall|w2: WorktreeId|
        {
            &&& #[trigger] has_table(new_tables, w2) == has_table(old_tables, w2)
            &&& expansion_of(new_tables, w2) == if w2 == wid {
                set
            } else {
                expansion_of(old_tables, w2)
            }
        }
}

pub(crate) proof fn lemma_changed_same(
    t0: Seq<ExpandedDirs>,
    t1: Seq<ExpandedDirs>,
    t2: Seq<ExpandedDirs>,
    wid: WorktreeId,
    set: Seq<u64>,
)
    requires
        tables_changed(t0, t1, wid, set),
        tables_same(t1, t2),
    ensures
        tables_changed(t0, t2, wid, set),
{
    assert forall|w2: WorktreeId| #[trigger] has_table(t2, w2) == has_table(t0, w2) && expansion_of(t2, w2)
        == if w2 == wid { set } else { expansion_of(t0, w2) } by {
        assert(has_table(t2, w2) == has_table(t1, w2));
        assert(has_table(t1, w2) == has_table(t0, w2));
    }
}

/// The tables hold the same expansion sets.
pub open spec fn tables_same(old_tables: Seq<ExpandedDirs>, new_tables: Seq<ExpandedDirs>) -> bool {
    forall|w2: WorktreeId|
        {
            &&& #[trigger] has_table(new_tables, w2) == has_table(old_tables, w2)
            &&& expansion_of(new_tables, w2) == expansion_of(old_tables, w2)
        }
}

/// Position of the expansion table of the tree `wid`.
pub(crate) fn table_index(tables: &Vec<ExpandedDirs>, wid: WorktreeId) -> (r: Option<usize>)
    ensures
        r is Some ==> r->0 < tables@.len() && tables@[r->0 as int].worktree_id == wid,
        r is None ==> !has_table(tables@, wid),
{
    let mut i: usize = 0;
    while i < tables.len()
        invariant
            i <= tables@.len(),
            forall|j: int| 0 <= j < i ==> tables@[j].worktree_id != wid,
        decreases tables@.len() - i,
    {
        if tables[i].worktree_id == wid {
            return Some(i);
        }
        i = i + 1;
    }
    None
}

pub(crate) proof fn lemma_tree_ids(w: Worktree)
    requires
        w.wf(),
    ensures
        forall|i: int| 0 <= i < w.view_entries().len() ==> w.view_entries()[i].id != NEW_ENTRY_ID,
        forall|i: int, j: int| 0 <= i < j < w.view_entries().len() ==> w.view_entries()[i].id != w.view_entries()[j].id,
{
    let es = w.view_entries();
    assert forall|i: int| 0 <= i < es.len() implies es[i].id != NEW_ENTRY_ID by {
        assert(es[i].id == w.entries@[i].id);
    }
    assert forall|i: int, j: int| 0 <= i < j < es.len() implies es[i].id != es[j].id by {
        assert(es[i].id == w.entries@[i].id);
        assert(es[j].id == w.entries@[j].id);
    }
}

/// In a well-formed panel, a tree's rows hold the placeholder exactly when the
/// tree has a root, a new entry is being created in it and its anchor
/// directory is one of the tree's shown entries; otherwise it is left out.
pub proof fn lemma_placeholder_shown(panel: ProjectPanel, w: int)
    requires
        panel.wf(),
        0 <= w < panel.worktrees@.len(),
    ensures
        (exists|e: int| 0 <= e < panel.visible_entries@[w].entries@.len()
            && panel.visible_entries@[w].entries@[e].id == NEW_ENTRY_ID) <==> has_path(
            panel.worktrees@[w].view_entries(),
            seq![],
        ) && anchor_shown(
            panel.worktrees@[w].view_entries(),
            expansion_of(panel.expanded_dir_ids@, panel.worktrees@[w].id),
            new_entry_for(panel.edit_state, panel.worktrees@[w].id),
            panel.worktrees@[w].view_entries().len() as int,
        ),
{
    let ws = panel.worktrees@;
    let rows = entries_view(panel.visible_entries@[w].entries@);
    assert(ws[w].wf());
    lemma_tree_ids(ws[w]);
    lemma_projection_placeholders(rows, ws[w].view_entries(),
        expansion_of(panel.expanded_dir_ids@, ws[w].id), new_entry_for(panel.edit_state, ws[w].id));
    if exists|e: int| 0 <= e < panel.visible_entries@[w].entries@.len()
        && panel.visible_entries@[w].entries@[e].id == NEW_ENTRY_ID {
        let e = choose|e: int| 0 <= e < panel.visible_entries@[w].entries@.len()
            && panel.visible_entries@[w].entries@[e].id == NEW_ENTRY_ID;
        assert(rows[e].id == NEW_ENTRY_ID);
    }
    if exists|i: int| 0 <= i < rows.len() && rows[i].id == NEW_ENTRY_ID {
        let i = choose|i: int| 0 <= i < rows.len() && rows[i].id == NEW_ENTRY_ID;
        assert(panel.visible_entries@[w].entries@[i].id == NEW_ENTRY_ID);
    }
}

/// Every operation keeps the panel well formed, and a well-formed panel shows
/// at most one placeholder row across all its trees.
pub proof fn lemma_single_placeholder(panel: ProjectPanel, w1: int, e1: int, w2: int, e2: int)
    requires
        panel.wf(),
        0 <= w1 < panel.visible_entries@.len(),
        0 <= e1 < panel.visible_entries@[w1].entries@.len(),
        0 <= w2 < panel.visible_entries@.len(),
        0 <= e2 < panel.visible_entries@[w2].entries@.len(),
        panel.visible_entries@[w1].entries@[e1].id == NEW_ENTRY_ID,
        panel.visible_entries@[w2].entries@[e2].id == NEW_ENTRY_ID,
    ensures
        w1 == w2,
        e1 == e2,
{
    let ws = panel.worktrees@;
    let ve = panel.visible_entries@;
    assert(ws[w1].wf());
    assert(ws[w2].wf());
    lemma_tree_ids(ws[w1]);
    lemma_tree_ids(ws[w2]);
    let rows1 = entries_view(ve[w1].entries@);
    let rows2 = entries_view(ve[w2].entries@);
    assert(rows1[e1].id == NEW_ENTRY_ID);
    assert(rows2[e2].id == NEW_ENTRY_ID);
    lemma_projection_placeholders(rows1, ws[w1].view_entries(),
        expansion_of(panel.expanded_dir_ids@, ws[w1].id), new_entry_for(panel.edit_state, ws[w1].id));
    lemma_projection_placeholders(rows2, ws[w2].view_entries(),
        expansion_of(panel.expanded_dir_ids@, ws[w2].id), new_entry_for(panel.edit_state, ws[w2].id));
    if w1 != w2 {
        assert(new_entry_for(panel.edit_state, ws[w1].id) is Some);
        assert(new_entry_for(panel.edit_state, ws[w2].id) is Some);
        if w1 < w2 {
            assert(ws[w1].id != ws[w2].id);
        } else {
            assert(ws[w2].id != ws[w1].id);
        }
    }
}

pub(crate) proof fn lemma_tables_same_trans(a: Seq<ExpandedDirs>, b: Seq<ExpandedDirs>, c: Seq<ExpandedDirs>)
    requires
        tables_same(a, b),
        tables_same(b, c),
    ensures
        tables_same(a, c),
{
    assert forall|w2: WorktreeId| #[trigger] has_table(c, w2) == has_table(a, w2) && expansion_of(c, w2) == expansion_of(a, w2) by {
        assert(has_table(c, w2) == has_table(b, w2));
        assert(has_table(b, w2) == has_table(a, w2));
    }
}

/// What the panel tells its host.
#[derive(Clone, Debug)]
pub enum Event {
    OpenedEntry { entry_id: ProjectEntryId, focus_opened_item: bool },
    SplitEntry { entry_id: ProjectEntryId },
    Focus,
    NewSearchInDirectory { dir_entry: Entry },
    ActivatePanel,
}

/// A request to the file system layer to load the children of a directory
/// that was just expanded.
#[derive(Clone, Copy, Debug, PartialEq, Eq, Structural)]
pub struct ExpandRequest {
    pub worktree_id: WorktreeId,
    pub entry_id: ProjectEntryId,
}

/// The tree at `k` is the first one that holds the entry `id`.
pub open spec fn entry_tree(ws: Seq<Worktree>, id: ProjectEntryId, k: int) -> bool {
    &&& 0 <= k < ws.len()
    &&& crate::worktree::has_id(ws[k].view_entries(), id)
    &&& forall|j: int| 0 <= j < k ==> !crate::worktree::has_id(ws[j].view_entries(), id)
}

/// The entry `id` of the tree `wid` stands at `i` of the tree at `k`.
pub open spec fn located(ws: Seq<Worktree>, wid: WorktreeId, id: ProjectEntryId, k: int, i: int) -> bool {
    &&& 0 <= k < ws.len()
    &&& ws[k].id == wid
    &&& 0 <= i < ws[k].entries@.len()
    &&& ws[k].entries@[i].id == id
}

pub(crate) proof fn lemma_located_unique(ws: Seq<Worktree>, wid: WorktreeId, id: ProjectEntryId, k: int, i: int, k2: int, i2: int)
    requires
        forall|a: int| 0 <= a < ws.len() ==> (#[trigger] ws[a]).wf(),
        forall|a: int, b: int| 0 <= a < b < ws.len() ==> ws[a].id != ws[b].id,
        located(ws, wid, id, k, i),
        located(ws, wid, id, k2, i2),
    ensures
        k == k2,
        i == i2,
{
    if k != k2 {
        if k < k2 {
            assert(ws[k].id != ws[k2].id);
        } else {
            assert(ws[k2].id != ws[k].id);
        }
    }
    assert(ws[k].wf());
    if i != i2 {
        if i < i2 {
            assert(ws[k].entries@[i].id != ws[k].entries@[i2].id);
        } else {
            assert(ws[k].entries@[i2].id != ws[k].entries@[i].id);
        }
    }
}

/// The file-tree panel: trees, expansion, rows, selection, edit and clipboard.
pub struct ProjectPanel {
    pub worktrees: Vec<Worktree>,
    pub visible_entries: Vec<VisibleWorktree>,
    pub expanded_dir_ids: Vec<ExpandedDirs>,
    pub selection: Option<Selection>,
    pub edit_state: Option<EditState>,
    pub clipboard_entry: Option<ClipboardEntry>,
}

impl ProjectPanel {
    /// Well-formed trees and expansion tables, one table per tree at most.
    pub open spec fn wf_state(&self) -> bool {
        &&& forall|k: int| 0 <= k < self.worktrees@.len() ==> (#[trigger] self.worktrees@[k]).wf()
        &&& forall|k: int, l: int|
            0 <= k < l < self.worktrees@.len() ==> self.worktrees@[k].id != self.worktrees@[l].id
        &&& forall|i: int| 0 <= i < self.expanded_dir_ids@.len() ==> (#[trigger] self.expanded_dir_ids@[i]).wf()
        &&& forall|i: int, j: int|
            0 <= i < j < self.expanded_dir_ids@.len() ==> self.expanded_dir_ids@[i].worktree_id
                != self.expanded_dir_ids@[j].worktree_id
    }

    /// The rows are the projection of the trees under the current expansion and edit.
    pub open spec fn rows_current(&self) -> bool {
        &&& self.visible_entries@.len() == self.worktrees@.len()
        &&& forall|k: int|
            0 <= k < self.worktrees@.len() ==> {
                &&& (#[trigger] self.visible_entries@[k]).worktree_id == self.worktrees@[k].id
                &&& is_projection(
                    entries_view(self.visible_entries@[k].entries@),
                    self.worktrees@[k].view_entries(),
                    expansion_of(self.expanded_dir_ids@, self.worktrees@[k].id),
                    new_entry_for(self.edit_state, self.worktrees@[k].id),
                )
            }
    }

    /// Every tree with a root entry has an expansion table.
    pub open spec fn tables_complete(&self) -> bool {
        forall|k: int|
            0 <= k < self.worktrees@.len() && root_id(self.worktrees@[k]) is Some ==> #[trigger] has_table(
                self.expanded_dir_ids@,
                self.worktrees@[k].id,
            )
    }

    pub open spec fn wf(&self) -> bool {
        self.wf_state() && self.tables_complete() && self.rows_current()
    }

    pub open spec fn rows(&self) -> Seq<Seq<EntryView>> {
        rows_view(self.visible_entries@)
    }

    /// The new entry that the edit shows in the tree `wid`, if any.
    pub(crate) fn new_entry_in(&self, wid: WorktreeId) -> (r: Option<NewEntry>)
        ensures
            r == new_entry_for(self.edit_state, wid),
    {
        match &self.edit_state {
            Some(e) => if e.worktree_id == wid && e.is_new_entry {
                Some(NewEntry { anchor: e.entry_id, is_dir: e.is_dir })
            } else {
                None
            },
            None => None,
        }
    }

    /// Projects every tree under the current tables and edit.
    pub(crate) fn build_rows(&self) -> (r: Vec<VisibleWorktree>)
        requires
            self.wf_state(),
        ensures
            r@.len() == self.worktrees@.len(),
            forall|k: int|
                0 <= k < self.worktrees@.len() ==> {
                    &&& (#[trigger] r@[k]).worktree_id == self.worktrees@[k].id
                    &&& is_projection(
                        entries_view(r@[k].entries@),
                        self.worktrees@[k].view_entries(),
                        expansion_of(self.expanded_dir_ids@, self.worktrees@[k].id),
                        new_entry_for(self.edit_state, self.worktrees@[k].id),
                    )
                },
    {
        let mut out: Vec<VisibleWorktree> = Vec::new();
        let n = self.worktrees.len();
        let mut k: usize = 0;
        while k < n
            invariant
                n == self.worktrees@.len(),
                k <= n,
                self.wf_state(),
                out@.len() == k,
                forall|j: int|
                    0 <= j < k ==> {
                        &&& (#[trigger] out@[j]).worktree_id == self.worktrees@[j].id
                        &&& is_projection(
                            entries_view(out@[j].entries@),
                            self.worktrees@[j].view_entries(),
                            expansion_of(self.expanded_dir_ids@, self.worktrees@[j].id),
                            new_entry_for(self.edit_state, self.worktrees@[j].id),
                        )
                    },
            decreases n - k,
        {
            let w = &self.worktrees[k];
            let ne = self.new_entry_in(w.id);
            let entries = match table_index(&self.expanded_dir_ids, w.id) {
                Some(i) => {
                    proof {
                        lemma_expansion_at(self.expanded_dir_ids@, i as int);
                        assert(self.expanded_dir_ids@[i as int].wf());
                    }
                    project_worktree(w, &self.expanded_dir_ids[i], ne)
                },
                None => {
                    let empty = ExpandedDirs::new(w.id, None);
                    project_worktree(w, &empty, ne)
                },
            };
            out.push(VisibleWorktree { worktree_id: w.id, entries });
            k = k + 1;
        }
        out
    }

    /// Rebuilds the rows from the trees, the expansion tables and the edit;
    /// a tree seen for the first time gets its root expanded. A given
    /// selection replaces the current one.
    pub fn update_visible_entries(&mut self, new_selected_entry: Option<Selection>)
        requires
            old(self).wf_state(),
        ensures
            final(self).wf(),
            final(self).worktrees == old(self).worktrees,
            final(self).edit_state == old(self).edit_state,
            final(self).clipboard_entry == old(self).clipboard_entry,
            tables_initialized(old(self).expanded_dir_ids@, final(self).expanded_dir_ids@, final(self).worktrees@),
            final(self).selection == match new_selected_entry {
                Some(s) => Some(s),
                None => old(self).selection,
            },
    {
        self.init_tables();
        proof {
            assert forall|k: int|
                0 <= k < self.worktrees@.len() && root_id(self.worktrees@[k]) is Some implies #[trigger] has_table(
                    self.expanded_dir_ids@,
                    self.worktrees@[k].id,
                ) by {
                lemma_initial_root_at(self.worktrees@, k);
            }
        }
        self.visible_entries = self.build_rows();
        if let Some(s) = new_selected_entry {
            self.selection = Some(s);
        }
    }

    /// A panel over the given trees, with each root expanded.
    pub fn new(worktrees: Vec<Worktree>) -> (r: ProjectPanel)
        requires
            forall|k: int| 0 <= k < worktrees@.len() ==> (#[trigger] worktrees@[k]).wf(),
            forall|k: int, l: int| 0 <= k < l < worktrees@.len() ==> worktrees@[k].id != worktrees@[l].id,
        ensures
            r.wf(),
            r.worktrees == worktrees,
            r.selection is None,
            r.edit_state is None,
            r.clipboard_entry is None,
            forall|wid: WorktreeId| #[trigger] expansion_of(r.expanded_dir_ids@, wid) == match initial_root(worktrees@, wid) {
                Some(root) => seq![root],
                None => seq![],
            },
    {
        let mut panel = ProjectPanel {
            worktrees,
            visible_entries: Vec::new(),
            expanded_dir_ids: Vec::new(),
            selection: None,
            edit_state: None,
            clipboard_entry: None,
        };
        let ghost before = panel.expanded_dir_ids@;
        assert(before.len() == 0);
        panel.update_visible_entries(None);
        assert forall|wid: WorktreeId| #[trigger] expansion_of(panel.expanded_dir_ids@, wid) == match initial_root(panel.worktrees@, wid) {
            Some(root) => seq![root],
            None => seq![],
        } by {
            assert(has_table(panel.expanded_dir_ids@, wid) == (has_table(before, wid) || initial_root(panel.worktrees@, wid) is Some));
            assert(!has_table(before, wid));
        }
        panel
    }

    /// Takes the trees' new snapshots and rebuilds the rows.
    pub fn set_worktrees(&mut self, worktrees: Vec<Worktree>)
        requires
            old(self).wf_state(),
            forall|k: int| 0 <= k < worktrees@.len() ==> (#[trigger] worktrees@[k]).wf(),
            forall|k: int, l: int| 0 <= k < l < worktrees@.len() ==> worktrees@[k].id != worktrees@[l].id,
        ensures
            final(self).wf(),
            final(self).worktrees == worktrees,
            final(self).selection == old(self).selection,
            final(self).edit_state == old(self).edit_state,
            final(self).clipboard_entry == old(self).clipboard_entry,
            tables_initialized(old(self).expanded_dir_ids@, final(self).expanded_dir_ids@, worktrees@),
    {
        self.worktrees = worktrees;
        self.update_visible_entries(None);
    }

    /// Everything but the selection is as in `old`.
    pub open spec fn same_but_selection(&self, old: ProjectPanel) -> bool {
        &&& self.worktrees == old.worktrees
        &&& self.visible_entries == old.visible_entries
        &&& self.expanded_dir_ids == old.expanded_dir_ids
        &&& self.edit_state == old.edit_state
        &&& self.clipboard_entry == old.clipboard_entry
    }

    /// The selection names the entry at `i` of the tree at `k`.
    pub open spec fn selected_at(&self, k: int, i: int) -> bool {
        &&& self.selection is Some
        &&& 0 <= k < self.worktrees@.len()
        &&& self.worktrees@[k].id == self.selection->0.worktree_id
        &&& 0 <= i < self.worktrees@[k].entries@.len()
        &&& self.worktrees@[k].entries@[i].id == self.selection->0.entry_id
    }

    pub(crate) proof fn lemma_selected_unique(&self, k: int, i: int, k2: int, i2: int)
        requires
            self.wf(),
            self.selected_at(k, i),
            self.selected_at(k2, i2),
        ensures
            k == k2,
            i == i2,
    {
        if k != k2 {
            if k < k2 {
                assert(self.worktrees@[k].id != self.worktrees@[k2].id);
            } else {
                assert(self.worktrees@[k2].id != self.worktrees@[k].id);
            }
        }
        assert(self.worktrees@[k].wf());
        if i != i2 {
            if i < i2 {
                assert(self.worktrees@[k].entries@[i].id != self.worktrees@[k].entries@[i2].id);
            } else {
                assert(self.worktrees@[k].entries@[i2].id != self.worktrees@[k].entries@[i].id);
            }
        }
    }

    /// Position of the tree `wid`.
    pub fn worktree_index(&self, wid: WorktreeId) -> (r: Option<usize>)
        ensures
            r is Some ==> r->0 < self.worktrees@.len() && self.worktrees@[r->0 as int].id == wid,
            r is None ==> forall|k: int| 0 <= k < self.worktrees@.len() ==> self.worktrees@[k].id != wid,
    {
        let mut k: usize = 0;
        while k < self.worktrees.len()
            invariant
                k <= self.worktrees@.len(),
                forall|j: int| 0 <= j < k ==> self.worktrees@[j].id != wid,
            decreases self.worktrees@.len() - k,
        {
            if self.worktrees[k].id == wid {
                return Some(k);
            }
            k = k + 1;
        }
        None
    }

    /// Position of the first tree that holds the entry `id`.
    pub fn worktree_for_entry(&self, id: ProjectEntryId) -> (r: Option<usize>)
        ensures
            r is Some ==> entry_tree(self.worktrees@, id, r->0 as int),
            r is None ==> forall|k: int| 0 <= k < self.worktrees@.len() ==> !crate::worktree::has_id(self.worktrees@[k].view_entries(), id),
    {
        let mut k: usize = 0;
        while k < self.worktrees.len()
            invariant
                k <= self.worktrees@.len(),
                forall|j: int| 0 <= j < k ==> !crate::worktree::has_id(self.worktrees@[j].view_entries(), id),
            decreases self.worktrees@.len() - k,
        {
            if self.worktrees[k].index_for_id(id).is_some() {
                return Some(k);
            }
            k = k + 1;
        }
        None
    }

    /// Positions of the selected entry's tree and of the entry in it.
    pub fn selected_entry(&self) -> (r: Option<(usize, usize)>)
        requires
            self.wf(),
        ensures
            match r {
                Some((k, i)) => self.selected_at(k as int, i as int),
                None => forall|k: int, i: int| !self.selected_at(k, i),
            },
    {
        let sel = match self.selection {
            Some(s) => s,
            None => return None,
        };
        let k = match self.worktree_index(sel.worktree_id) {
            Some(k) => k,
            None => return None,
        };
        match self.worktrees[k].index_for_id(sel.entry_id) {
            Some(i) => Some((k, i)),
            None => {
                assert forall|k2: int, i: int| !self.selected_at(k2, i) by {
                    if self.selected_at(k2, i) {
                        if k2 != k {
                            if k2 < k {
                                assert(self.worktrees@[k2].id != self.worktrees@[k as int].id);
                            } else {
                                assert(self.worktrees@[k as int].id != self.worktrees@[k2].id);
                            }
                        }
                        assert(crate::worktree::index_of_id(self.worktrees@[k as int].view_entries(), sel.entry_id, i));
                    }
                }
                None
            },
        }
    }

    /// Rebuilds the rows when every tree with a root already has a table.
    pub(crate) fn refresh(&mut self, new_selected_entry: Option<Selection>)
        requires
            old(self).wf_state(),
            old(self).tables_complete(),
        ensures
            final(self).wf(),
            final(self).worktrees == old(self).worktrees,
            final(self).edit_state == old(self).edit_state,
            final(self).clipboard_entry == old(self).clipboard_entry,
            tables_same(old(self).expanded_dir_ids@, final(self).expanded_dir_ids@),
            final(self).selection == match new_selected_entry {
                Some(s) => Some(s),
                None => old(self).selection,
            },
    {
        let ghost before = self.expanded_dir_ids@;
        self.update_visible_entries(new_selected_entry);
        proof {
            assert forall|w2: WorktreeId| true implies #[trigger] has_table(self.expanded_dir_ids@, w2)
                == has_table(before, w2) && expansion_of(self.expanded_dir_ids@, w2) == expansion_of(before, w2) by {
                lemma_initialized_complete(before, self.expanded_dir_ids@, self.worktrees@, w2);
            }
        }
    }

    /// Adds `id` to the table at `i`.
    pub(crate) fn table_insert(&mut self, i: usize, id: u64) -> (r: bool)
        requires
            old(self).wf_state(),
            i < old(self).expanded_dir_ids@.len(),
        ensures
            final(self).wf_state(),
            old(self).tables_complete() ==> final(self).tables_complete(),
            final(self).worktrees == old(self).worktrees,
            final(self).visible_entries == old(self).visible_entries,
            final(self).selection == old(self).selection,
            final(self).edit_state == old(self).edit_state,
            final(self).clipboard_entry == old(self).clipboard_entry,
            tables_changed(
                old(self).expanded_dir_ids@,
                final(self).expanded_dir_ids@,
                old(self).expanded_dir_ids@[i as int].worktree_id,
                crate::expanded::sorted_insert(old(self).expanded_dir_ids@[i as int]@, id),
            ),
            r == !old(self).expanded_dir_ids@[i as int]@.contains(id),
            final(self).expanded_dir_ids@.len() == old(self).expanded_dir_ids@.len(),
            forall|j: int| 0 <= j < old(self).expanded_dir_ids@.len() ==> (#[trigger] final(self).expanded_dir_ids@[j]).worktree_id
                == old(self).expanded_dir_ids@[j].worktree_id,
    {
        let ghost before = self.expanded_dir_ids@;
        assert(before[i as int].wf());
        let mut t = self.expanded_dir_ids.remove(i);
        let r = t.insert(id);
        self.expanded_dir_ids.insert(i, t);
        proof {
            assert(self.expanded_dir_ids@ =~= before.update(i as int, t));
            assert forall|w2: WorktreeId| true implies #[trigger] has_table(self.expanded_dir_ids@, w2)
                == has_table(before, w2) && expansion_of(self.expanded_dir_ids@, w2) == if w2 == before[i as int].worktree_id {
                    t@
                } else {
                    expansion_of(before, w2)
                } by {
                lemma_expansion_update(before, i as int, t, w2);
            }
            lemma_expansion_update(before, i as int, t, 0);
            assert forall|j: int| 0 <= j < self.expanded_dir_ids@.len() implies (#[trigger] self.expanded_dir_ids@[j]).wf() by {
                if j != i {
                    assert(self.expanded_dir_ids@[j] == before[j]);
                }
            }
        }
        r
    }

    /// Removes `id` from the table at `i`.
    pub(crate) fn table_remove(&mut self, i: usize, id: u64) -> (r: bool)
        requires
            old(self).wf_state(),
            i < old(self).expanded_dir_ids@.len(),
        ensures
            final(self).wf_state(),
            old(self).tables_complete() ==> final(self).tables_complete(),
            final(self).worktrees == old(self).worktrees,
            final(self).visible_entries == old(self).visible_entries,
            final(self).selection == old(self).selection,
            final(self).edit_state == old(self).edit_state,
            final(self).clipboard_entry == old(self).clipboard_entry,
            tables_changed(
                old(self).expanded_dir_ids@,
                final(self).expanded_dir_ids@,
                old(self).expanded_dir_ids@[i as int].worktree_id,
                crate::expanded::sorted_remove(old(self).expanded_dir_ids@[i as int]@, id),
            ),
            r == old(self).expanded_dir_ids@[i as int]@.contains(id),
            final(self).expanded_dir_ids@.len() == old(self).expanded_dir_ids@.len(),
            forall|j: int| 0 <= j < old(self).expanded_dir_ids@.len() ==> (#[trigger] final(self).expanded_dir_ids@[j]).worktree_id
                == old(self).expanded_dir_ids@[j].worktree_id,
    {
        let ghost before = self.expanded_dir_ids@;
        assert(before[i as int].wf());
        let mut t = self.expanded_dir_ids.remove(i);
        let r = t.remove(id);
        self.expanded_dir_ids.insert(i, t);
        proof {
            assert(self.expanded_dir_ids@ =~= before.update(i as int, t));
            assert forall|w2: WorktreeId| true implies #[trigger] has_table(self.expanded_dir_ids@, w2)
                == has_table(before, w2) && expansion_of(self.expanded_dir_ids@, w2) == if w2 == before[i as int].worktree_id {
                    t@
                } else {
                    expansion_of(before, w2)
                } by {
                lemma_expansion_update(before, i as int, t, w2);
            }
            lemma_expansion_update(before, i as int, t, 0);
            assert forall|j: int| 0 <= j < self.expanded_dir_ids@.len() implies (#[trigger] self.expanded_dir_ids@[j]).wf() by {
                if j != i {
                    assert(self.expanded_dir_ids@[j] == before[j]);
                }
            }
        }
        r
    }

    /// Gives every tree seen for the first time a table with its root expanded.
    pub(crate) fn init_tables(&mut self)
        requires
            old(self).wf_state(),
        ensures
            final(self).wf_state(),
            final(self).worktrees == old(self).worktrees,
            final(self).visible_entries == old(self).visible_entries,
            final(self).selection == old(self).selection,
            final(self).edit_state == old(self).edit_state,
            final(self).clipboard_entry == old(self).clipboard_entry,
            tables_initialized(old(self).expanded_dir_ids@, final(self).expanded_dir_ids@, final(self).worktrees@),
    {
        let ghost old_tables = self.expanded_dir_ids@;
        let ghost ws = self.worktrees@;
        let n = self.worktrees.len();
        let mut k: usize = 0;
        while k < n
            invariant
                n == ws.len(),
                k <= n,
                ws == self.worktrees@,
                self.worktrees == old(self).worktrees,
                self.wf_state(),
                self.visible_entries == old(self).visible_entries,
                self.selection == old(self).selection,
                self.edit_state == old(self).edit_state,
                self.clipboard_entry == old(self).clipboard_entry,
                tables_initialized(old_tables, self.expanded_dir_ids@, ws.subrange(0, k as int)),
            decreases n - k,
        {
            let wid = self.worktrees[k].id;
            let ghost before = self.expanded_dir_ids@;
            proof {
                assert(ws[k as int].wf());
                assert forall|w2: WorktreeId| true implies #[trigger] initial_root(ws.subrange(0, k + 1), w2)
                    == if w2 == ws[k as int].id { root_id(ws[k as int]) } else { initial_root(ws.subrange(0, k as int), w2) } by {
                    lemma_initial_root_step(ws, k as int, w2);
                }
                lemma_initial_root_step(ws, k as int, wid);
            }
            match table_index(&self.expanded_dir_ids, wid) {
                Some(_) => {
                    proof {
                        assert(has_table(before, wid));
                        assert(has_table(old_tables, wid) || initial_root(ws.subrange(0, k as int), wid) is Some);
                        assert(!has_table(old_tables, wid) ==> initial_root(ws.subrange(0, k as int), wid) is Some);
                        assert(has_table(old_tables, wid));
                        assert forall|w2: WorktreeId| true implies #[trigger] has_table(self.expanded_dir_ids@, w2)
                            == (has_table(old_tables, w2) || initial_root(ws.subrange(0, k + 1), w2) is Some)
                            && expansion_of(self.expanded_dir_ids@, w2) == if has_table(old_tables, w2) {
                                expansion_of(old_tables, w2)
                            } else if initial_root(ws.subrange(0, k + 1), w2) is Some {
                                seq![initial_root(ws.subrange(0, k + 1), w2)->0]
                            } else {
                                seq![]
                            } by {
                            lemma_initial_root_step(ws, k as int, w2);
                        }
                        assert(tables_initialized(old_tables, self.expanded_dir_ids@, ws.subrange(0, k + 1)));
                    }
                },
                None => {
                    match self.worktrees[k].root_index() {
                        Some(ri) => {
                            let root = self.worktrees[k].entries[ri].id;
                            proof {
                                lemma_root_id_at(ws[k as int], ri as int);
                            }
                            let t = ExpandedDirs::new(wid, Some(root));
                            proof {
                                assert forall|w2: WorktreeId| true implies #[trigger] has_table(before.push(t), w2)
                                    == (has_table(before, w2) || w2 == wid) && expansion_of(before.push(t), w2)
                                    == if w2 == wid { t@ } else { expansion_of(before, w2) } by {
                                    lemma_expansion_push(before, t, w2);
                                }
                                lemma_expansion_push(before, t, wid);
                            }
                            self.expanded_dir_ids.push(t);
                            proof {
                                assert(self.expanded_dir_ids@ == before.push(t));
                                assert forall|i: int| 0 <= i < self.expanded_dir_ids@.len()
                                    implies (#[trigger] self.expanded_dir_ids@[i]).wf() by {
                                    if i < before.len() {
                                        assert(self.expanded_dir_ids@[i] == before[i]);
                                    }
                                }
                                assert forall|w2: WorktreeId| true implies #[trigger] has_table(self.expanded_dir_ids@, w2)
                                    == (has_table(old_tables, w2) || initial_root(ws.subrange(0, k + 1), w2) is Some)
                                    && expansion_of(self.expanded_dir_ids@, w2) == if has_table(old_tables, w2) {
                                        expansion_of(old_tables, w2)
                                    } else if initial_root(ws.subrange(0, k + 1), w2) is Some {
                                        seq![initial_root(ws.subrange(0, k + 1), w2)->0]
                                    } else {
                                        seq![]
                                    } by {
                                    lemma_initial_root_step(ws, k as int, w2);
                                    lemma_expansion_push(before, t, w2);
                                }
                                assert(tables_initialized(old_tables, self.expanded_dir_ids@, ws.subrange(0, k + 1)));
                            }
                        },
                        None => {
                            proof {
                                lemma_no_root(ws[k as int]);
                                lemma_tables_step_unchanged(old_tables, self.expanded_dir_ids@, ws, k as int);
                            }
                        },
                    }
                },
            }
            assert(tables_initialized(old_tables, self.expanded_dir_ids@, ws.subrange(0, k + 1)));
            k = k + 1;
        }
        proof {
            assert(ws.subrange(0, n as int) =~= ws);
        }
    }

    /// A tree left the project: its expansion table goes, and the rows are
    /// rebuilt from the given snapshots.
    pub fn worktree_removed(&mut self, wid: WorktreeId, worktrees: Vec<Worktree>)
        requires
            old(self).wf(),
            forall|k: int| 0 <= k < worktrees@.len() ==> (#[trigger] worktrees@[k]).wf(),
            forall|k: int, l: int| 0 <= k < l < worktrees@.len() ==> worktrees@[k].id != worktrees@[l].id,
        ensures
            final(self).wf(),
            final(self).worktrees == worktrees,
            final(self).selection == old(self).selection,
            final(self).edit_state == old(self).edit_state,
            final(self).clipboard_entry == old(self).clipboard_entry,
            forall|w2: WorktreeId| #[trigger] expansion_of(final(self).expanded_dir_ids@, w2) == if w2 != wid
                && has_table(old(self).expanded_dir_ids@, w2) {
                expansion_of(old(self).expanded_dir_ids@, w2)
            } else {
                match initial_root(worktrees@, w2) {
                    Some(root) => seq![root],
                    None => seq![],
                }
            },
    {
        let ghost t0 = self.expanded_dir_ids@;
        if let Some(t) = table_index(&self.expanded_dir_ids, wid) {
            let ghost before = self.expanded_dir_ids@;
            self.expanded_dir_ids.remove(t);
            proof {
                assert forall|w2: WorktreeId| #[trigger] has_table(self.expanded_dir_ids@, w2)
                    == (has_table(t0, w2) && w2 != wid) && (w2 != wid ==> expansion_of(self.expanded_dir_ids@, w2)
                    == expansion_of(t0, w2)) by {
                    lemma_expansion_remove(t0, t as int, w2);
                }
                assert forall|i: int| 0 <= i < self.expanded_dir_ids@.len() implies (#[trigger] self.expanded_dir_ids@[i]).wf() by {
                    if i >= t {
                        assert(self.expanded_dir_ids@[i] == before[i + 1]);
                    }
                }
                assert forall|i: int, j: int| 0 <= i < j < self.expanded_dir_ids@.len() implies self.expanded_dir_ids@[i].worktree_id
                    != self.expanded_dir_ids@[j].worktree_id by {
                    let i0 = if i >= t { i + 1 } else { i };
                    let j0 = if j >= t { j + 1 } else { j };
                    assert(self.expanded_dir_ids@[i] == before[i0]);
                    assert(self.expanded_dir_ids@[j] == before[j0]);
                }
            }
        } else {
            assert forall|w2: WorktreeId| #[trigger] has_table(self.expanded_dir_ids@, w2)
                == (has_table(t0, w2) && w2 != wid) && (w2 != wid ==> expansion_of(self.expanded_dir_ids@, w2)
                == expansion_of(t0, w2)) by {}
        }
        let ghost mid = self.expanded_dir_ids@;
        self.worktrees = worktrees;
        self.update_visible_entries(None);
        proof {
            assert forall|w2: WorktreeId| #[trigger] expansion_of(self.expanded_dir_ids@, w2) == if w2 != wid
                && has_table(t0, w2) {
                expansion_of(t0, w2)
            } else {
                match initial_root(self.worktrees@, w2) {
                    Some(root) => seq![root],
                    None => seq![],
                }
            } by {
                assert(has_table(self.expanded_dir_ids@, w2) == (has_table(mid, w2) || initial_root(self.worktrees@, w2) is Some));
                assert(has_table(mid, w2) == (has_table(t0, w2) && w2 != wid));
            }
        }
    }
}

} // verus!
