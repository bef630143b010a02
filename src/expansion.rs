//! Expanding and collapsing directories.

use vstd::prelude::*;
use crate::entry::{EntryKind, EntryView, ProjectEntryId, WorktreeId};
use crate::expanded::ExpandedDirs;
use crate::panel::{entry_tree, lemma_changed_same, lemma_expansion_push, root_id, ExpandRequest, expansion_of, has_table, initial_root, lemma_expansion_at, lemma_located_unique, located, ProjectPanel, Selection, table_index, tables_changed, tables_same};
use crate::worktree::{has_path, Worktree};

verus! {

/// The entry at `path` (meaningful when there is one).
pub open spec fn entry_at_path(es: Seq<EntryView>, path: Seq<Seq<char>>) -> EntryView {
    es[choose|i: int| 0 <= i < es.len() && es[i].path == path]
}

/// The id of the entry at `path` (meaningful when there is one).
pub open spec fn id_at_path(es: Seq<EntryView>, path: Seq<Seq<char>>) -> ProjectEntryId {
    entry_at_path(es, path).id
}

/// The directory that collapsing from `path` closes: the entry itself or the
/// nearest entry above it whose id is expanded, going up while entries exist.
pub open spec fn collapse_target(es: Seq<EntryView>, expanded: Seq<u64>, path: Seq<Seq<char>>) -> Option<ProjectEntryId>
    decreases path.len(),
{
    if !has_path(es, path) {
        None
    } else if expanded.contains(id_at_path(es, path)) {
        Some(id_at_path(es, path))
    } else if path.len() == 0 {
        None
    } else {
        collapse_target(es, expanded, path.drop_last())
    }
}

pub(crate) proof fn lemma_id_at_path(w: Worktree, i: int)
    requires
        w.wf(),
        0 <= i < w.entries@.len(),
    ensures
        has_path(w.view_entries(), w.entries@[i]@.path),
        id_at_path(w.view_entries(), w.entries@[i]@.path) == w.entries@[i].id,
        entry_at_path(w.view_entries(), w.entries@[i]@.path) == w.entries@[i]@,
{
    let es = w.view_entries();
    assert(es[i].path == w.entries@[i]@.path);
    let c = choose|c: int| 0 <= c < es.len() && es[c].path == w.entries@[i]@.path;
    if c != i {
        if c < i {
            assert(w.entries@[c]@.path != w.entries@[i]@.path);
        } else {
            assert(w.entries@[i]@.path != w.entries@[c]@.path);
        }
    }
}

/// Ids of the directories at the path and above it.
pub open spec fn is_dir_ancestor_id(es: Seq<EntryView>, path: Seq<Seq<char>>, x: u64) -> bool {
    exists|j: int|
        0 <= j < es.len() && es[j].kind == EntryKind::Dir && es[j].id == x && es[j].path.len() <= path.len()
            && path.subrange(0, es[j].path.len() as int) == es[j].path
}

/// The tables after the directories at `path` and above it in the tree `wid`
/// were expanded.
pub open spec fn expanded_to(
    old_tables: Seq<ExpandedDirs>,
    new_tables: Seq<ExpandedDirs>,
    wid: WorktreeId,
    es: Seq<EntryView>,
    path: Seq<Seq<char>>,
) -> bool {
    &&& forall|w2: WorktreeId| #[trigger] has_table(new_tables, w2) == (has_table(old_tables, w2) || w2 == wid)
    &&& forall|w2: WorktreeId| w2 != wid ==> #[trigger] expansion_of(new_tables, w2) == expansion_of(old_tables, w2)
    &&& forall|x: u64| #[trigger] expansion_of(new_tables, wid).contains(x) == (expansion_of(old_tables, wid).contains(x)
        || is_dir_ancestor_id(es, path, x))
}

pub(crate) proof fn lemma_expanded_to_same(
    old_tables: Seq<ExpandedDirs>,
    mid: Seq<ExpandedDirs>,
    fin: Seq<ExpandedDirs>,
    wid: WorktreeId,
    es: Seq<EntryView>,
    path: Seq<Seq<char>>,
)
    requires
        expanded_to(old_tables, mid, wid, es, path),
        tables_same(mid, fin),
    ensures
        expanded_to(old_tables, fin, wid, es, path),
{
    assert forall|w2: WorktreeId| #[trigger] has_table(fin, w2) == (has_table(old_tables, w2) || w2 == wid) by {
        assert(has_table(fin, w2) == has_table(mid, w2));
    }
    assert forall|w2: WorktreeId| w2 != wid implies #[trigger] expansion_of(fin, w2) == expansion_of(old_tables, w2) by {
        assert(has_table(fin, w2) == has_table(mid, w2));
        assert(expansion_of(mid, w2) == expansion_of(old_tables, w2));
    }
    assert(has_table(fin, wid) == has_table(mid, wid));
    assert forall|x: u64| #[trigger] expansion_of(fin, wid).contains(x) == (expansion_of(old_tables, wid).contains(x)
        || is_dir_ancestor_id(es, path, x)) by {
        assert(expansion_of(mid, wid).contains(x) == (expansion_of(old_tables, wid).contains(x)
            || is_dir_ancestor_id(es, path, x)));
    }
}

/// `x` is the id of the entry at `path` or of an entry above it, going up
/// while entries exist.
pub open spec fn in_chain(es: Seq<EntryView>, path: Seq<Seq<char>>, x: u64) -> bool
    decreases path.len(),
{
    has_path(es, path) && (id_at_path(es, path) == x || (path.len() > 0 && in_chain(es, path.drop_last(), x)))
}

/// The outcome of toggling the entry `entry_id` (`toggle_expanded`): in the
/// first tree that holds it, when that tree has a table, the entry is
/// selected and its id leaves or joins the tree's expansion set (joining asks
/// for its children); otherwise nothing changes.
pub open spec fn toggled(old: ProjectPanel, new: ProjectPanel, entry_id: ProjectEntryId, r: Option<ExpandRequest>) -> bool {
    let ws = old.worktrees@;
    if exists|k: int| entry_tree(ws, entry_id, k) && has_table(old.expanded_dir_ids@, ws[k].id) {
        let k = choose|k: int| entry_tree(ws, entry_id, k);
        let wid = ws[k].id;
        let exp = expansion_of(old.expanded_dir_ids@, wid);
        &&& new.selection == Some(Selection { worktree_id: wid, entry_id })
        &&& if exp.contains(entry_id) {
            &&& tables_changed(old.expanded_dir_ids@, new.expanded_dir_ids@, wid,
                crate::expanded::sorted_remove(exp, entry_id))
            &&& r is None
        } else {
            &&& tables_changed(old.expanded_dir_ids@, new.expanded_dir_ids@, wid,
                crate::expanded::sorted_insert(exp, entry_id))
            &&& r == Some(ExpandRequest { worktree_id: wid, entry_id })
        }
    } else {
        &&& new == old
        &&& r is None
    }
}

/// The tables after the entry `entry_id` of the tree `wid` and every entry
/// above it were expanded: that tree's set gains exactly those ids.
pub open spec fn chain_expanded(
    old_tables: Seq<ExpandedDirs>,
    new_tables: Seq<ExpandedDirs>,
    es: Seq<EntryView>,
    wid: WorktreeId,
    entry_id: ProjectEntryId,
) -> bool {
    &&& forall|w2: WorktreeId| #[trigger] has_table(new_tables, w2) == has_table(old_tables, w2)
    &&& forall|w2: WorktreeId| w2 != wid ==> #[trigger] expansion_of(new_tables, w2) == expansion_of(old_tables, w2)
    &&& forall|x: u64| #[trigger] expansion_of(new_tables, wid).contains(x) == (expansion_of(old_tables, wid).contains(x)
        || exists|i: int| crate::worktree::index_of_id(es, entry_id, i) && in_chain(es, es[i].path, x))
}

pub(crate) proof fn lemma_chain_same(
    t0: Seq<ExpandedDirs>,
    t1: Seq<ExpandedDirs>,
    t2: Seq<ExpandedDirs>,
    es: Seq<EntryView>,
    wid: WorktreeId,
    entry_id: ProjectEntryId,
)
    requires
        chain_expanded(t0, t1, es, wid, entry_id),
        tables_same(t1, t2),
    ensures
        chain_expanded(t0, t2, es, wid, entry_id),
{
    assert forall|w2: WorktreeId| #[trigger] has_table(t2, w2) == has_table(t0, w2) by {
        assert(has_table(t2, w2) == has_table(t1, w2));
    }
    assert forall|w2: WorktreeId| w2 != wid implies #[trigger] expansion_of(t2, w2) == expansion_of(t0, w2) by {
        assert(has_table(t2, w2) == has_table(t1, w2));
    }
    assert(has_table(t2, wid) == has_table(t1, wid));
    assert(expansion_of(t2, wid) == expansion_of(t1, wid));
}

/// Toggling a collapsed directory open and then closed again (the table
/// changes that `toggle_expanded` states) gives back every tree's expansion set.
pub proof fn lemma_toggle_twice(
    t0: Seq<ExpandedDirs>,
    t1: Seq<ExpandedDirs>,
    t2: Seq<ExpandedDirs>,
    wid: WorktreeId,
    id: ProjectEntryId,
)
    requires
        crate::expanded::strictly_sorted(expansion_of(t0, wid)),
        !expansion_of(t0, wid).contains(id),
        tables_changed(t0, t1, wid, crate::expanded::sorted_insert(expansion_of(t0, wid), id)),
        tables_changed(t1, t2, wid, crate::expanded::sorted_remove(expansion_of(t1, wid), id)),
    ensures
        tables_same(t0, t2),
{
    assert(has_table(t1, wid) == has_table(t0, wid));
    crate::expanded::lemma_expand_then_collapse(expansion_of(t0, wid), id);
    assert forall|w2: WorktreeId| #[trigger] has_table(t2, w2) == has_table(t0, w2) && expansion_of(t2, w2) == expansion_of(t0, w2) by {
        assert(has_table(t2, w2) == has_table(t1, w2));
        assert(has_table(t1, w2) == has_table(t0, w2));
    }
}

impl ProjectPanel {
    /// Expands a collapsed directory, or collapses an expanded one, and
    /// selects it. Expanding asks for the directory's children.
    pub fn toggle_expanded(&mut self, entry_id: ProjectEntryId) -> (r: Option<ExpandRequest>)
        requires
            old(self).wf(),
        ensures
            final(self).wf(),
            final(self).worktrees == old(self).worktrees,
            final(self).edit_state == old(self).edit_state,
            final(self).clipboard_entry == old(self).clipboard_entry,
            toggled(*old(self), *final(self), entry_id, r),
    {
        let ghost ws = self.worktrees@;
        let ghost tables = self.expanded_dir_ids@;
        let k = match self.worktree_for_entry(entry_id) {
            Some(k) => k,
            None => {
                return None;
            },
        };
        proof {
            let c = choose|c: int| entry_tree(ws, entry_id, c);
            if c != k {
                if c < k {
                    assert(!crate::worktree::has_id(ws[c].view_entries(), entry_id));
                } else {
                    assert(!crate::worktree::has_id(ws[k as int].view_entries(), entry_id));
                }
            }
        }
        let wid = self.worktrees[k].id;
        let t = match table_index(&self.expanded_dir_ids, wid) {
            Some(t) => t,
            None => {
                return None;
            },
        };
        proof {
            lemma_expansion_at(tables, t as int);
            assert(self.expanded_dir_ids@[t as int].wf());
        }
        let ghost exp = expansion_of(tables, wid);
        let was_expanded = self.expanded_dir_ids[t].contains(entry_id);
        let r = if was_expanded {
            self.table_remove(t, entry_id);
            None
        } else {
            self.table_insert(t, entry_id);
            Some(ExpandRequest { worktree_id: wid, entry_id })
        };
        let ghost changed = self.expanded_dir_ids@;
        self.refresh(Some(Selection { worktree_id: wid, entry_id }));
        proof {
            if was_expanded {
                lemma_changed_same(tables, changed, self.expanded_dir_ids@, wid, crate::expanded::sorted_remove(exp, entry_id));
            } else {
                lemma_changed_same(tables, changed, self.expanded_dir_ids@, wid, crate::expanded::sorted_insert(exp, entry_id));
            }
        }
        r
    }

    /// On a collapsed directory: expands it and asks for its children. On an
    /// expanded one: moves the selection down as `select_next` does.
    pub fn expand_selected_entry(&mut self) -> (r: Option<ExpandRequest>)
        requires
            old(self).wf(),
        ensures
            final(self).wf(),
            final(self).worktrees == old(self).worktrees,
            final(self).edit_state == old(self).edit_state,
            final(self).clipboard_entry == old(self).clipboard_entry,
            ({
                if exists|k: int, i: int| old(self).selected_at(k, i)
                    && old(self).worktrees@[k].entries@[i].kind == EntryKind::Dir
                    && has_table(old(self).expanded_dir_ids@, old(self).selection->0.worktree_id) {
                    let sel = old(self).selection->0;
                    let exp = expansion_of(old(self).expanded_dir_ids@, sel.worktree_id);
                    if exp.contains(sel.entry_id) {
                        &&& final(self).selection == old(self).next_selection()
                        &&& tables_same(old(self).expanded_dir_ids@, final(self).expanded_dir_ids@)
                        &&& r is None
                    } else {
                        &&& final(self).selection == old(self).selection
                        &&& tables_changed(old(self).expanded_dir_ids@, final(self).expanded_dir_ids@,
                            sel.worktree_id, crate::expanded::sorted_insert(exp, sel.entry_id))
                        &&& r == Some(ExpandRequest { worktree_id: sel.worktree_id, entry_id: sel.entry_id })
                    }
                } else {
                    &&& *final(self) == *old(self)
                    &&& r is None
                }
            }),
    {
        let (k, i) = match self.selected_entry() {
            Some(p) => p,
            None => return None,
        };
        if !self.worktrees[k].entries[i].is_dir() {
            return None;
        }
        let wid = self.worktrees[k].id;
        let entry_id = self.worktrees[k].entries[i].id;
        let ghost tables = self.expanded_dir_ids@;
        let t = match table_index(&self.expanded_dir_ids, wid) {
            Some(t) => t,
            None => return None,
        };
        proof {
            lemma_expansion_at(tables, t as int);
            assert(self.expanded_dir_ids@[t as int].wf());
        }
        if self.expanded_dir_ids[t].contains(entry_id) {
            self.select_next();
            proof {
                assert forall|w2: WorktreeId| true implies #[trigger] has_table(self.expanded_dir_ids@, w2)
                    == has_table(tables, w2) && expansion_of(self.expanded_dir_ids@, w2) == expansion_of(tables, w2) by {}
            }
            None
        } else {
            self.table_insert(t, entry_id);
            let ghost changed = self.expanded_dir_ids@;
            self.refresh(None);
            proof {
                assert forall|w2: WorktreeId| #[trigger] expansion_of(self.expanded_dir_ids@, w2) == expansion_of(changed, w2) by {
                    assert(has_table(self.expanded_dir_ids@, w2) == has_table(changed, w2));
                }
            }
            Some(ExpandRequest { worktree_id: wid, entry_id })
        }
    }

    /// Collapses the selected directory, or the nearest expanded directory
    /// above the selected entry, and selects it.
    pub fn collapse_selected_entry(&mut self)
        requires
            old(self).wf(),
        ensures
            final(self).wf(),
            final(self).worktrees == old(self).worktrees,
            final(self).edit_state == old(self).edit_state,
            final(self).clipboard_entry == old(self).clipboard_entry,
            ({
                if exists|k: int, i: int| old(self).selected_at(k, i)
                    && has_table(old(self).expanded_dir_ids@, old(self).selection->0.worktree_id)
                    && collapse_target(old(self).worktrees@[k].view_entries(),
                        expansion_of(old(self).expanded_dir_ids@, old(self).selection->0.worktree_id),
                        old(self).worktrees@[k].entries@[i]@.path) is Some {
                    let (k, i) = choose|p: (int, int)| old(self).selected_at(p.0, p.1);
                    let wid = old(self).selection->0.worktree_id;
                    let exp = expansion_of(old(self).expanded_dir_ids@, wid);
                    let target = collapse_target(old(self).worktrees@[k].view_entries(), exp,
                        old(self).worktrees@[k].entries@[i]@.path)->0;
                    &&& final(self).selection == Some(Selection { worktree_id: wid, entry_id: target })
                    &&& tables_changed(old(self).expanded_dir_ids@, final(self).expanded_dir_ids@, wid,
                        crate::expanded::sorted_remove(exp, target))
                } else {
                    *final(self) == *old(self)
                }
            }),
    {
        let (k, i) = match self.selected_entry() {
            Some(p) => p,
            None => return,
        };
        proof {
            let q = (k as int, i as int);
            assert(self.selected_at(q.0, q.1));
            let p = choose|p: (int, int)| self.selected_at(p.0, p.1);
            self.lemma_selected_unique(k as int, i as int, p.0, p.1);
            assert forall|k2: int, i2: int| self.selected_at(k2, i2) implies k2 == k && i2 == i by {
                self.lemma_selected_unique(k as int, i as int, k2, i2);
            }
        }
        let wid = self.worktrees[k].id;
        let ghost tables = self.expanded_dir_ids@;
        let ghost es = self.worktrees@[k as int].view_entries();
        let t = match table_index(&self.expanded_dir_ids, wid) {
            Some(t) => t,
            None => return,
        };
        proof {
            lemma_expansion_at(tables, t as int);
            assert(self.expanded_dir_ids@[t as int].wf());
            lemma_id_at_path(self.worktrees@[k as int], i as int);
        }
        let ghost exp = expansion_of(tables, wid);
        let ghost start = self.worktrees@[k as int].entries@[i as int]@.path;
        let mut path = crate::entry::clone_path(&self.worktrees[k].entries[i].path);
        let mut id = self.worktrees[k].entries[i].id;
        loop
            invariant
                self.wf(),
                *self == *old(self),
                old(self).selected_at(k as int, i as int),
                forall|k2: int, i2: int| old(self).selected_at(k2, i2) ==> k2 == k && i2 == i,
                (choose|p: (int, int)| old(self).selected_at(p.0, p.1)) == (k as int, i as int),
                start == old(self).worktrees@[k as int].entries@[i as int]@.path,
                exp == expansion_of(old(self).expanded_dir_ids@, wid),
                wid == old(self).selection->0.worktree_id,
                has_table(tables, wid),
                k < self.worktrees@.len(),
                t < self.expanded_dir_ids@.len(),
                self.expanded_dir_ids@ == tables,
                self.expanded_dir_ids@[t as int]@ == exp,
                self.expanded_dir_ids@[t as int].worktree_id == wid,
                self.worktrees@[k as int].id == wid,
                es == self.worktrees@[k as int].view_entries(),
                has_path(es, path.deep_view()),
                id == id_at_path(es, path.deep_view()),
                collapse_target(es, exp, start) == collapse_target(es, exp, path.deep_view()),
            decreases path@.len(),
        {
            if self.expanded_dir_ids[t].contains(id) {
                self.table_remove(t, id);
                let ghost changed = self.expanded_dir_ids@;
                self.refresh(Some(Selection { worktree_id: wid, entry_id: id }));
                proof {
                    assert forall|w2: WorktreeId| #[trigger] expansion_of(self.expanded_dir_ids@, w2) == expansion_of(changed, w2) by {
                        assert(has_table(self.expanded_dir_ids@, w2) == has_table(changed, w2));
                    }
                    assert(collapse_target(es, exp, path.deep_view()) == Some(id));
                }
                return;
            }
            let parent = match crate::entry::parent_path(&path) {
                Some(p) => p,
                None => {
                    assert(collapse_target(es, exp, start) is None);
                    return;
                },
            };
            match self.worktrees[k].index_for_path(&parent) {
                Some(j) => {
                    proof {
                        assert(self.worktrees@[k as int].wf());
                        lemma_id_at_path(self.worktrees@[k as int], j as int);
                    }
                    id = self.worktrees[k].entries[j].id;
                    path = parent;
                },
                None => {
                    assert(!exp.contains(id));
                    assert(path.deep_view().len() > 0);
                    assert(collapse_target(es, exp, path.deep_view()) == collapse_target(es, exp, parent.deep_view()));
                    assert(!has_path(es, parent.deep_view()));
                    assert(collapse_target(es, exp, start) is None);
                    return;
                },
            }
        }
    }

    /// Collapses every directory: each tree is left with only its root expanded.
    pub fn collapse_all_entries(&mut self)
        requires
            old(self).wf(),
        ensures
            final(self).wf(),
            final(self).worktrees == old(self).worktrees,
            final(self).selection == old(self).selection,
            final(self).edit_state == old(self).edit_state,
            final(self).clipboard_entry == old(self).clipboard_entry,
            forall|wid: WorktreeId| #[trigger] expansion_of(final(self).expanded_dir_ids@, wid) == match initial_root(old(self).worktrees@, wid) {
                Some(root) => seq![root],
                None => seq![],
            },
    {
        self.expanded_dir_ids.clear();
        let ghost before = self.expanded_dir_ids@;
        assert(before.len() == 0);
        self.update_visible_entries(None);
        assert forall|wid: WorktreeId| #[trigger] expansion_of(self.expanded_dir_ids@, wid) == match initial_root(self.worktrees@, wid) {
            Some(root) => seq![root],
            None => seq![],
        } by {
            assert(has_table(self.expanded_dir_ids@, wid) == (has_table(before, wid) || initial_root(self.worktrees@, wid) is Some));
            assert(!has_table(before, wid));
        }
    }

    /// Expands every directory at the selected entry's path and above it.
    pub(crate) fn expand_to_selection(&mut self) -> (r: Option<()>)
        requires
            old(self).wf_state(),
            old(self).tables_complete(),
        ensures
            final(self).wf_state(),
            final(self).tables_complete(),
            final(self).worktrees == old(self).worktrees,
            final(self).visible_entries == old(self).visible_entries,
            final(self).selection == old(self).selection,
            final(self).edit_state == old(self).edit_state,
            final(self).clipboard_entry == old(self).clipboard_entry,
            r is Some <==> old(self).selection is Some && exists|k: int, i: int| located(old(self).worktrees@,
                old(self).selection->0.worktree_id, old(self).selection->0.entry_id, k, i),
            ({
                if r is Some {
                    let (k, i) = choose|p: (int, int)| located(old(self).worktrees@,
                        old(self).selection->0.worktree_id, old(self).selection->0.entry_id, p.0, p.1);
                    expanded_to(old(self).expanded_dir_ids@, final(self).expanded_dir_ids@,
                        old(self).selection->0.worktree_id, old(self).worktrees@[k].view_entries(),
                        old(self).worktrees@[k].entries@[i]@.path)
                } else {
                    final(self).expanded_dir_ids == old(self).expanded_dir_ids
                }
            }),
    {
        let sel = match self.selection {
            Some(s) => s,
            None => return None,
        };
        let k = match self.worktree_index(sel.worktree_id) {
            Some(k) => k,
            None => {
                assert(!exists|k: int, i: int| located(self.worktrees@, sel.worktree_id, sel.entry_id, k, i));
                return None;
            },
        };
        let i = match self.worktrees[k].index_for_id(sel.entry_id) {
            Some(i) => i,
            None => {
                assert(!exists|k2: int, i: int| located(self.worktrees@, sel.worktree_id, sel.entry_id, k2, i)) by {
                    if exists|k2: int, i: int| located(self.worktrees@, sel.worktree_id, sel.entry_id, k2, i) {
                        let (k2, i2) = choose|k2: int, i: int| located(self.worktrees@, sel.worktree_id, sel.entry_id, k2, i);
                        if k2 != k {
                            if k2 < k {
                                assert(self.worktrees@[k2].id != self.worktrees@[k as int].id);
                            } else {
                                assert(self.worktrees@[k as int].id != self.worktrees@[k2].id);
                            }
                        }
                        assert(crate::worktree::index_of_id(self.worktrees@[k as int].view_entries(), sel.entry_id, i2));
                    }
                }
                return None;
            },
        };
        proof {
            let q = (k as int, i as int);
            assert(located(self.worktrees@, sel.worktree_id, sel.entry_id, q.0, q.1));
            let p = choose|p: (int, int)| located(self.worktrees@, sel.worktree_id, sel.entry_id, p.0, p.1);
            lemma_located_unique(self.worktrees@, sel.worktree_id, sel.entry_id, k as int, i as int, p.0, p.1);
        }
        let wid = sel.worktree_id;
        let ghost orig = self.expanded_dir_ids@;
        let ghost es = self.worktrees@[k as int].view_entries();
        let ghost target = self.worktrees@[k as int].entries@[i as int]@.path;
        let t = match table_index(&self.expanded_dir_ids, wid) {
            Some(t) => {
                proof {
                    lemma_expansion_at(orig, t as int);
                    assert forall|w2: WorktreeId| true implies #[trigger] has_table(self.expanded_dir_ids@, w2)
                        == (has_table(orig, w2) || w2 == wid) && expansion_of(self.expanded_dir_ids@, w2)
                        == expansion_of(orig, w2) by {}
                }
                t
            },
            None => {
                let fresh = ExpandedDirs::new(wid, None);
                proof {
                    assert forall|w2: WorktreeId| true implies #[trigger] has_table(orig.push(fresh), w2)
                        == (has_table(orig, w2) || w2 == wid) && expansion_of(orig.push(fresh), w2)
                        == if w2 == wid { fresh@ } else { expansion_of(orig, w2) } by {
                        lemma_expansion_push(orig, fresh, w2);
                    }
                    lemma_expansion_push(orig, fresh, wid);
                }
                self.expanded_dir_ids.push(fresh);
                proof {
                    assert(self.expanded_dir_ids@ == orig.push(fresh));
                    assert forall|j: int| 0 <= j < self.expanded_dir_ids@.len()
                        implies (#[trigger] self.expanded_dir_ids@[j]).wf() by {
                        if j < orig.len() {
                            assert(self.expanded_dir_ids@[j] == orig[j]);
                        }
                    }
                    assert forall|k2: int|
                        0 <= k2 < self.worktrees@.len() && root_id(self.worktrees@[k2]) is Some implies #[trigger] has_table(
                            self.expanded_dir_ids@,
                            self.worktrees@[k2].id,
                        ) by {
                        assert(has_table(orig, self.worktrees@[k2].id));
                    }
                    assert forall|w2: WorktreeId| true implies #[trigger] has_table(self.expanded_dir_ids@, w2)
                        == (has_table(orig, w2) || w2 == wid) && expansion_of(self.expanded_dir_ids@, w2)
                        == expansion_of(orig, w2) by {
                        lemma_expansion_push(orig, fresh, w2);
                    }
                }
                self.expanded_dir_ids.len() - 1
            },
        };
        let ghost tables = self.expanded_dir_ids@;
        proof {
            lemma_expansion_at(tables, t as int);
            assert forall|w2: WorktreeId| #[trigger] expansion_of(tables, w2) == expansion_of(orig, w2) by {
                assert(has_table(tables, w2) == (has_table(orig, w2) || w2 == wid));
            }
        }
        let n = self.worktrees[k].entries.len();
        let mut j: usize = 0;
        while j < n
            invariant
                self.wf_state(),
                self.tables_complete(),
                self.worktrees == old(self).worktrees,
                self.visible_entries == old(self).visible_entries,
                self.selection == old(self).selection,
                self.edit_state == old(self).edit_state,
                self.clipboard_entry == old(self).clipboard_entry,
                k < self.worktrees@.len(),
                i < self.worktrees@[k as int].entries@.len(),
                n == self.worktrees@[k as int].entries@.len(),
                es == self.worktrees@[k as int].view_entries(),
                target == self.worktrees@[k as int].entries@[i as int]@.path,
                t < self.expanded_dir_ids@.len(),
                self.expanded_dir_ids@[t as int].worktree_id == wid,
                j <= n,
                sel == old(self).selection->0,
                old(self).selection is Some,
                (choose|p: (int, int)| located(old(self).worktrees@, sel.worktree_id, sel.entry_id, p.0, p.1)) == (k as int, i as int),
                located(old(self).worktrees@, sel.worktree_id, sel.entry_id, k as int, i as int),
                wid == sel.worktree_id,
                orig == old(self).expanded_dir_ids@,
                forall|w2: WorktreeId| #[trigger] has_table(tables, w2) == (has_table(orig, w2) || w2 == wid),
                forall|w2: WorktreeId| #[trigger] expansion_of(tables, w2) == expansion_of(orig, w2),
                forall|w2: WorktreeId| #[trigger] has_table(self.expanded_dir_ids@, w2) == has_table(tables, w2),
                forall|w2: WorktreeId| w2 != wid ==> #[trigger] expansion_of(self.expanded_dir_ids@, w2) == expansion_of(tables, w2),
                forall|x: u64| #[trigger] expansion_of(self.expanded_dir_ids@, wid).contains(x) == (expansion_of(tables, wid).contains(x)
                    || is_dir_ancestor_id(es.subrange(0, j as int), target, x)),
            decreases n - j,
        {
            let e = &self.worktrees[k].entries[j];
            let target_path = &self.worktrees[k].entries[i].path;
            let above = crate::entry::path_eq(&e.path, target_path) || crate::entry::is_proper_prefix(&e.path, target_path);
            let ghost before = self.expanded_dir_ids@;
            let ghost sub = es.subrange(0, j as int);
            let ghost next = es.subrange(0, j + 1);
            proof {
                lemma_expansion_at(before, t as int);
                assert(next =~= sub.push(es[j as int]));
                assert forall|x: u64| #[trigger] is_dir_ancestor_id(next, target, x) == (is_dir_ancestor_id(sub, target, x)
                    || (es[j as int].kind == EntryKind::Dir && es[j as int].id == x && es[j as int].path.len() <= target.len()
                        && target.subrange(0, es[j as int].path.len() as int) == es[j as int].path)) by {
                    if is_dir_ancestor_id(sub, target, x) {
                        let a = choose|a: int| 0 <= a < sub.len() && sub[a].kind == EntryKind::Dir && sub[a].id == x
                            && sub[a].path.len() <= target.len() && target.subrange(0, sub[a].path.len() as int) == sub[a].path;
                        assert(next[a] == sub[a]);
                    }
                    if is_dir_ancestor_id(next, target, x) {
                        let a = choose|a: int| 0 <= a < next.len() && next[a].kind == EntryKind::Dir && next[a].id == x
                            && next[a].path.len() <= target.len() && target.subrange(0, next[a].path.len() as int) == next[a].path;
                        if a < j {
                            assert(sub[a] == next[a]);
                        }
                    }
                    if es[j as int].kind == EntryKind::Dir && es[j as int].id == x && es[j as int].path.len() <= target.len()
                        && target.subrange(0, es[j as int].path.len() as int) == es[j as int].path {
                        assert(next[j as int] == es[j as int]);
                    }
                }
                if es[j as int].path == target {
                    assert(target.subrange(0, target.len() as int) =~= target);
                }
            }
            if e.is_dir() && above {
                let id = e.id;
                self.table_insert(t, id);
                proof {
                    assert(has_table(self.expanded_dir_ids@, wid));
                    assert forall|x: u64| #[trigger] expansion_of(self.expanded_dir_ids@, wid).contains(x)
                        == (expansion_of(before, wid).contains(x) || x == id) by {
                        crate::expanded::lemma_sorted_insert_contains(before[t as int]@, id, x);
                    }
                }
            }
            proof {
                assert forall|w2: WorktreeId| w2 != wid implies #[trigger] expansion_of(self.expanded_dir_ids@, w2)
                    == expansion_of(before, w2) by {
                    assert(has_table(self.expanded_dir_ids@, w2) == has_table(before, w2));
                }
                assert forall|x: u64| #[trigger] expansion_of(self.expanded_dir_ids@, wid).contains(x) == (expansion_of(tables, wid).contains(x)
                    || is_dir_ancestor_id(next, target, x)) by {
                    assert(expansion_of(before, wid).contains(x) == (expansion_of(tables, wid).contains(x)
                        || is_dir_ancestor_id(sub, target, x)));
                    assert(is_dir_ancestor_id(next, target, x) == (is_dir_ancestor_id(sub, target, x)
                        || (es[j as int].kind == EntryKind::Dir && es[j as int].id == x && es[j as int].path.len() <= target.len()
                        && target.subrange(0, es[j as int].path.len() as int) == es[j as int].path)));
                    if es[j as int].path.len() <= target.len() && target.subrange(0, es[j as int].path.len() as int) == es[j as int].path
                        && es[j as int].path.len() == target.len() {
                        assert(es[j as int].path =~= target);
                    }
                }
            }
            j = j + 1;
        }
        proof {
            assert(es.subrange(0, n as int) =~= es);
            assert forall|w2: WorktreeId| w2 != wid implies #[trigger] expansion_of(self.expanded_dir_ids@, w2)
                == expansion_of(orig, w2) by {
                assert(expansion_of(tables, w2) == expansion_of(orig, w2));
            }
            assert forall|x: u64| #[trigger] expansion_of(self.expanded_dir_ids@, wid).contains(x)
                == (expansion_of(orig, wid).contains(x) || is_dir_ancestor_id(es, target, x)) by {
                assert(expansion_of(tables, wid) == expansion_of(orig, wid));
            }
            assert forall|w2: WorktreeId| #[trigger] has_table(self.expanded_dir_ids@, w2) == (has_table(orig, w2) || w2 == wid) by {
                assert(has_table(tables, w2) == (has_table(orig, w2) || w2 == wid));
            }
        }
        Some(())
    }

    /// Expands the entry of the tree `wid` and every entry above it, and asks
    /// for its children; nothing happens when the tree or its table is missing.
    pub fn expand_entry(&mut self, wid: WorktreeId, entry_id: ProjectEntryId) -> (r: Option<ExpandRequest>)
        requires
            old(self).wf_state(),
            old(self).tables_complete(),
        ensures
            final(self).wf_state(),
            final(self).tables_complete(),
            final(self).worktrees == old(self).worktrees,
            final(self).visible_entries == old(self).visible_entries,
            final(self).selection == old(self).selection,
            final(self).edit_state == old(self).edit_state,
            final(self).clipboard_entry == old(self).clipboard_entry,
            forall|w2: WorktreeId| #[trigger] has_table(final(self).expanded_dir_ids@, w2) == has_table(old(self).expanded_dir_ids@, w2),
            forall|w2: WorktreeId| w2 != wid ==> #[trigger] expansion_of(final(self).expanded_dir_ids@, w2) == expansion_of(old(self).expanded_dir_ids@, w2),
            ({
                if exists|k: int| 0 <= k < old(self).worktrees@.len() && old(self).worktrees@[k].id == wid && has_table(old(self).expanded_dir_ids@, wid) {
                    let k = choose|k: int| 0 <= k < old(self).worktrees@.len() && old(self).worktrees@[k].id == wid;
                    let es = old(self).worktrees@[k].view_entries();
                    &&& r == Some(ExpandRequest { worktree_id: wid, entry_id })
                    &&& forall|x: u64| #[trigger] expansion_of(final(self).expanded_dir_ids@, wid).contains(x)
                        == (expansion_of(old(self).expanded_dir_ids@, wid).contains(x)
                        || exists|i: int| crate::worktree::index_of_id(es, entry_id, i) && in_chain(es, es[i].path, x))
                } else {
                    &&& r is None
                    &&& final(self).expanded_dir_ids == old(self).expanded_dir_ids
                }
            }),
    {
        let k = match self.worktree_index(wid) {
            Some(k) => k,
            None => return None,
        };
        let ghost tables = self.expanded_dir_ids@;
        let ghost ws = self.worktrees@;
        proof {
            let c = choose|c: int| 0 <= c < ws.len() && ws[c].id == wid;
            if c != k {
                if c < k {
                    assert(ws[c].id != ws[k as int].id);
                } else {
                    assert(ws[k as int].id != ws[c].id);
                }
            }
            assert(ws[k as int].wf());
        }
        let t = match table_index(&self.expanded_dir_ids, wid) {
            Some(t) => t,
            None => return None,
        };
        proof {
            lemma_expansion_at(tables, t as int);
        }
        let ghost es = ws[k as int].view_entries();
        let i = match self.worktrees[k].index_for_id(entry_id) {
            Some(i) => i,
            None => {
                assert forall|x: u64| #[trigger] expansion_of(self.expanded_dir_ids@, wid).contains(x)
                    == (expansion_of(tables, wid).contains(x)
                    || exists|i: int| crate::worktree::index_of_id(es, entry_id, i) && in_chain(es, es[i].path, x)) by {
                    if exists|i: int| crate::worktree::index_of_id(es, entry_id, i) && in_chain(es, es[i].path, x) {
                        let i = choose|i: int| crate::worktree::index_of_id(es, entry_id, i) && in_chain(es, es[i].path, x);
                        assert(crate::worktree::has_id(es, entry_id));
                    }
                }
                return Some(ExpandRequest { worktree_id: wid, entry_id });
            },
        };
        proof {
            lemma_id_at_path(ws[k as int], i as int);
        }
        let ghost start = es[i as int].path;
        let mut path = crate::entry::clone_path(&self.worktrees[k].entries[i].path);
        let mut id = entry_id;
        loop
            invariant
                self.wf_state(),
                self.tables_complete(),
                self.worktrees == old(self).worktrees,
                self.visible_entries == old(self).visible_entries,
                self.selection == old(self).selection,
                self.edit_state == old(self).edit_state,
                self.clipboard_entry == old(self).clipboard_entry,
                ws == self.worktrees@,
                tables == old(self).expanded_dir_ids@,
                k < ws.len(),
                ws[k as int].id == wid,
                ws[k as int].wf(),
                es == ws[k as int].view_entries(),
                i < ws[k as int].entries@.len(),
                ws[k as int].entries@[i as int].id == entry_id,
                start == es[i as int].path,
                t < self.expanded_dir_ids@.len(),
                self.expanded_dir_ids@[t as int].worktree_id == wid,
                has_path(es, path.deep_view()),
                id == id_at_path(es, path.deep_view()),
                forall|w2: WorktreeId| #[trigger] has_table(self.expanded_dir_ids@, w2) == has_table(tables, w2),
                forall|w2: WorktreeId| w2 != wid ==> #[trigger] expansion_of(self.expanded_dir_ids@, w2) == expansion_of(tables, w2),
                forall|x: u64| expansion_of(tables, wid).contains(x) ==> #[trigger] expansion_of(self.expanded_dir_ids@, wid).contains(x),
                forall|x: u64| #[trigger] expansion_of(self.expanded_dir_ids@, wid).contains(x)
                    ==> expansion_of(tables, wid).contains(x) || in_chain(es, start, x),
                forall|x: u64| #[trigger] in_chain(es, start, x)
                    ==> expansion_of(self.expanded_dir_ids@, wid).contains(x) || in_chain(es, path.deep_view(), x),
                forall|x: u64| #[trigger] in_chain(es, path.deep_view(), x) ==> in_chain(es, start, x),
            decreases path@.len(),
        {
            let ghost before = self.expanded_dir_ids@;
            proof {
                lemma_expansion_at(before, t as int);
            }
            self.table_insert(t, id);
            proof {
                assert(has_table(self.expanded_dir_ids@, wid));
                assert forall|x: u64| #[trigger] expansion_of(self.expanded_dir_ids@, wid).contains(x)
                    == (expansion_of(before, wid).contains(x) || x == id) by {
                    crate::expanded::lemma_sorted_insert_contains(before[t as int]@, id, x);
                }
                assert forall|w2: WorktreeId| w2 != wid implies #[trigger] expansion_of(self.expanded_dir_ids@, w2)
                    == expansion_of(before, w2) by {
                    assert(has_table(self.expanded_dir_ids@, w2) == has_table(before, w2));
                }
            }
            let parent = match crate::entry::parent_path(&path) {
                Some(p) => p,
                None => {
                    proof {
                        assert forall|x: u64| #[trigger] expansion_of(self.expanded_dir_ids@, wid).contains(x)
                            == (expansion_of(tables, wid).contains(x) || in_chain(es, start, x)) by {
                            assert(in_chain(es, path.deep_view(), x) == (x == id));
                            assert(expansion_of(self.expanded_dir_ids@, wid).contains(x) == (expansion_of(before, wid).contains(x) || x == id));
                            if in_chain(es, start, x) {
                                assert(expansion_of(before, wid).contains(x) || in_chain(es, path.deep_view(), x));
                            }
                            if expansion_of(before, wid).contains(x) {
                                assert(expansion_of(tables, wid).contains(x) || in_chain(es, start, x));
                            }
                            if x == id {
                                assert(in_chain(es, path.deep_view(), x));
                            }
                        }
                        self.lemma_expand_entry_result(tables, wid, entry_id, k as int, i as int);
                    }
                    return Some(ExpandRequest { worktree_id: wid, entry_id });
                },
            };
            match self.worktrees[k].index_for_path(&parent) {
                Some(j) => {
                    let ghost old_path = path.deep_view();
                    let ghost old_id = id;
                    proof {
                        lemma_id_at_path(ws[k as int], j as int);
                        assert forall|x: u64| in_chain(es, old_path, x) == (x == old_id || in_chain(es, parent.deep_view(), x)) by {}
                        assert(parent.deep_view().len() == parent@.len());
                        assert(path.deep_view().len() == path@.len());
                        assert(parent@.len() < path@.len());
                    }
                    id = self.worktrees[k].entries[j].id;
                    path = parent;
                    proof {
                        assert forall|x: u64| #[trigger] in_chain(es, start, x)
                            implies expansion_of(self.expanded_dir_ids@, wid).contains(x) || in_chain(es, path.deep_view(), x) by {
                            assert(in_chain(es, old_path, x) == (x == old_id || in_chain(es, path.deep_view(), x)));
                            assert(expansion_of(self.expanded_dir_ids@, wid).contains(x) == (expansion_of(before, wid).contains(x) || x == old_id));
                        }
                        assert forall|x: u64| #[trigger] in_chain(es, path.deep_view(), x) implies in_chain(es, start, x) by {
                            assert(in_chain(es, old_path, x));
                        }
                        assert forall|x: u64| #[trigger] expansion_of(self.expanded_dir_ids@, wid).contains(x)
                            implies expansion_of(tables, wid).contains(x) || in_chain(es, start, x) by {
                            assert(expansion_of(self.expanded_dir_ids@, wid).contains(x) == (expansion_of(before, wid).contains(x) || x == old_id));
                            if x == old_id {
                                assert(in_chain(es, old_path, x));
                            }
                        }
                    }
                },
                None => {
                    proof {
                        assert forall|x: u64| #[trigger] expansion_of(self.expanded_dir_ids@, wid).contains(x)
                            == (expansion_of(tables, wid).contains(x) || in_chain(es, start, x)) by {
                            assert(!in_chain(es, parent.deep_view(), x));
                            assert(in_chain(es, path.deep_view(), x) == (x == id));
                            assert(expansion_of(self.expanded_dir_ids@, wid).contains(x) == (expansion_of(before, wid).contains(x) || x == id));
                            if in_chain(es, start, x) {
                                assert(expansion_of(before, wid).contains(x) || in_chain(es, path.deep_view(), x));
                            }
                            if expansion_of(before, wid).contains(x) {
                                assert(expansion_of(tables, wid).contains(x) || in_chain(es, start, x));
                            }
                            if x == id {
                                assert(in_chain(es, path.deep_view(), x));
                            }
                        }
                        self.lemma_expand_entry_result(tables, wid, entry_id, k as int, i as int);
                    }
                    return Some(ExpandRequest { worktree_id: wid, entry_id });
                },
            }
        }
    }

    pub(crate) proof fn lemma_expand_entry_result(&self, tables: Seq<ExpandedDirs>, wid: WorktreeId, entry_id: ProjectEntryId, k: int, i: int)
        requires
            0 <= k < self.worktrees@.len(),
            self.worktrees@[k].wf(),
            self.worktrees@[k].id == wid,
            0 <= i < self.worktrees@[k].entries@.len(),
            self.worktrees@[k].entries@[i].id == entry_id,
            forall|x: u64| #[trigger] expansion_of(self.expanded_dir_ids@, wid).contains(x)
                == (expansion_of(tables, wid).contains(x) || in_chain(self.worktrees@[k].view_entries(), self.worktrees@[k].view_entries()[i].path, x)),
        ensures
            forall|x: u64| #[trigger] expansion_of(self.expanded_dir_ids@, wid).contains(x)
                == (expansion_of(tables, wid).contains(x)
                || exists|i2: int| crate::worktree::index_of_id(self.worktrees@[k].view_entries(), entry_id, i2)
                    && in_chain(self.worktrees@[k].view_entries(), self.worktrees@[k].view_entries()[i2].path, x)),
    {
        let es = self.worktrees@[k].view_entries();
        assert forall|i2: int| crate::worktree::index_of_id(es, entry_id, i2) implies i2 == i by {
            if i2 != i {
                if i2 < i {
                    assert(self.worktrees@[k].entries@[i2].id != self.worktrees@[k].entries@[i].id);
                } else {
                    assert(self.worktrees@[k].entries@[i].id != self.worktrees@[k].entries@[i2].id);
                }
            }
        }
        assert(crate::worktree::index_of_id(es, entry_id, i));
    }

    /// The host made the entry active: the entries down to it are expanded,
    /// it is selected, and its children are asked for.
    pub fn reveal_entry(&mut self, entry_id: ProjectEntryId) -> (r: Option<ExpandRequest>)
        requires
            old(self).wf(),
        ensures
            final(self).wf(),
            final(self).worktrees == old(self).worktrees,
            final(self).edit_state == old(self).edit_state,
            final(self).clipboard_entry == old(self).clipboard_entry,
            ({
                let ws = old(self).worktrees@;
                if exists|k: int| entry_tree(ws, entry_id, k) {
                    let k = choose|k: int| entry_tree(ws, entry_id, k);
                    let wid = ws[k].id;
                    &&& final(self).selection == Some(Selection { worktree_id: wid, entry_id })
                    &&& if has_table(old(self).expanded_dir_ids@, wid) {
                        &&& r == Some(ExpandRequest { worktree_id: wid, entry_id })
                        &&& chain_expanded(old(self).expanded_dir_ids@, final(self).expanded_dir_ids@,
                            ws[k].view_entries(), wid, entry_id)
                    } else {
                        &&& r is None
                        &&& tables_same(old(self).expanded_dir_ids@, final(self).expanded_dir_ids@)
                    }
                } else {
                    &&& *final(self) == *old(self)
                    &&& r is None
                }
            }),
    {
        let k = match self.worktree_for_entry(entry_id) {
            Some(k) => k,
            None => return None,
        };
        proof {
            let q = choose|q: int| entry_tree(self.worktrees@, entry_id, q);
            if q != k {
                if q < k {
                    assert(!crate::worktree::has_id(self.worktrees@[q].view_entries(), entry_id));
                } else {
                    assert(!crate::worktree::has_id(self.worktrees@[k as int].view_entries(), entry_id));
                }
            }
        }
        let wid = self.worktrees[k].id;
        let ghost t0 = self.expanded_dir_ids@;
        let ghost ws = self.worktrees@;
        let r = self.expand_entry(wid, entry_id);
        let ghost t1 = self.expanded_dir_ids@;
        proof {
            if has_table(t0, wid) {
                assert(0 <= k < ws.len() && ws[k as int].id == wid);
                let c = choose|c: int| 0 <= c < ws.len() && ws[c].id == wid;
                if c != k {
                    if c < k {
                        assert(ws[c].id != ws[k as int].id);
                    } else {
                        assert(ws[k as int].id != ws[c].id);
                    }
                }
            }
        }
        self.refresh(Some(Selection { worktree_id: wid, entry_id }));
        proof {
            if has_table(t0, wid) {
                lemma_chain_same(t0, t1, self.expanded_dir_ids@, ws[k as int].view_entries(), wid, entry_id);
            } else {
                assert(t1 == t0);
            }
        }
        r
    }
}

} // verus!
