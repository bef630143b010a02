//! Creating and renaming entries in place.

use vstd::prelude::*;
use crate::entry::{EntryKind, EntryView, NEW_ENTRY_ID, ProjectEntryId, WorktreeId};
use crate::expansion::{entry_at_path, expanded_to, lemma_expanded_to_same, lemma_id_at_path};
use crate::panel::{lemma_changed_same, lemma_placeholder_shown, lemma_single_placeholder, new_entry_for, EditState, Event, expansion_of, has_table, lemma_expansion_at, lemma_located_unique, lemma_tables_same_trans, located, ProjectPanel, Selection, table_index, tables_changed, tables_same};
use crate::worktree::has_path;
use crate::projection::{anchor_shown, is_visible, NewEntry};
use crate::entry::proper_prefix;

verus! {

/// The directory that a new entry goes into when `path` is selected: the
/// entry itself if it is a directory, else the nearest directory above it,
/// going up while entries exist.
pub open spec fn enclosing_dir(es: Seq<EntryView>, path: Seq<Seq<char>>) -> Option<ProjectEntryId>
    decreases path.len(),
{
    if !has_path(es, path) {
        None
    } else if entry_at_path(es, path).kind == EntryKind::Dir {
        Some(entry_at_path(es, path).id)
    } else if path.len() == 0 {
        None
    } else {
        enclosing_dir(es, path.drop_last())
    }
}

/// Where an edit of the entry at `anchor` puts its result, given the typed
/// text: inside it for a new entry, beside it for a rename.
pub open spec fn edit_destination(anchor: Seq<Seq<char>>, is_new_entry: bool, text: Seq<char>) -> Seq<Seq<char>> {
    if is_new_entry {
        anchor + crate::entry::path_components(text)
    } else if anchor.len() > 0 {
        anchor.drop_last() + crate::entry::path_components(text)
    } else {
        crate::entry::path_components(text)
    }
}

/// An edit whose name was submitted and whose operation still runs.
pub open spec fn edit_locked(edit: Option<EditState>) -> bool {
    edit is Some && edit->0.processing_filename is Some
}

/// What the file system layer is asked to do when an edit is submitted.
pub enum EditRequest {
    Create { worktree_id: WorktreeId, path: Vec<String>, is_dir: bool },
    Rename { entry_id: ProjectEntryId, new_path: Vec<String> },
}

/// A submitted edit: the request, and what its completion needs.
pub struct PendingEdit {
    pub worktree_id: WorktreeId,
    pub edited_entry_id: ProjectEntryId,
    pub is_new_entry: bool,
    pub is_dir: bool,
    pub request: EditRequest,
}

/// The text that a rename starts with, and how much of it to select: the
/// name's stem, in characters.
pub struct RenameStart {
    pub text: String,
    pub selection_end: usize,
}

/// The outcome of starting a new entry (`add_entry`): outside a submitted
/// edit, when the selected entry resolves and has an enclosing directory,
/// the edit starts there, that directory is expanded and the placeholder is
/// selected; otherwise nothing changes.
pub open spec fn entry_added(old: ProjectPanel, new: ProjectPanel, is_dir: bool, r: bool) -> bool {
    if !edit_locked(old.edit_state) && exists|k: int, i: int| old.selected_at(k, i)
        && has_table(old.expanded_dir_ids@, old.selection->0.worktree_id)
        && enclosing_dir(old.worktrees@[k].view_entries(), old.worktrees@[k].entries@[i]@.path) is Some {
        let (k, i) = choose|p: (int, int)| old.selected_at(p.0, p.1);
        let wid = old.selection->0.worktree_id;
        let dir = enclosing_dir(old.worktrees@[k].view_entries(), old.worktrees@[k].entries@[i]@.path)->0;
        &&& r
        &&& new.edit_state == Some(EditState {
            worktree_id: wid,
            entry_id: dir,
            is_new_entry: true,
            is_dir,
            processing_filename: None,
        })
        &&& new.selection == Some(Selection { worktree_id: wid, entry_id: NEW_ENTRY_ID })
        &&& tables_changed(old.expanded_dir_ids@, new.expanded_dir_ids@, wid,
            crate::expanded::sorted_insert(expansion_of(old.expanded_dir_ids@, wid), dir))
    } else {
        &&& !r
        &&& new == old
    }
}

/// `p` is `q` or a path above it.
pub open spec fn prefix_or_same(p: Seq<Seq<char>>, q: Seq<Seq<char>>) -> bool {
    p.len() <= q.len() && q.subrange(0, p.len() as int) == p
}

proof fn lemma_enclosing_dir_above(es: Seq<EntryView>, path: Seq<Seq<char>>)
    requires
        enclosing_dir(es, path) is Some,
    ensures
        exists|j: int| 0 <= j < es.len() && es[j].id == enclosing_dir(es, path)->0 && prefix_or_same(es[j].path, path),
    decreases path.len(),
{
    if entry_at_path(es, path).kind == EntryKind::Dir {
        let j = choose|j: int| 0 <= j < es.len() && es[j].path == path;
        assert(path.subrange(0, path.len() as int) =~= path);
        assert(prefix_or_same(es[j].path, path));
    } else {
        lemma_enclosing_dir_above(es, path.drop_last());
        let j = choose|j: int|
            0 <= j < es.len() && es[j].id == enclosing_dir(es, path.drop_last())->0 && prefix_or_same(
                es[j].path,
                path.drop_last(),
            );
        assert(path.subrange(0, es[j].path.len() as int) =~= path.drop_last().subrange(0, es[j].path.len() as int));
    }
}

proof fn lemma_visible_above(es: Seq<EntryView>, expanded: Seq<u64>, wider: Seq<u64>, e: EntryView, a: EntryView)
    requires
        is_visible(es, expanded, e),
        prefix_or_same(a.path, e.path),
        forall|x: u64| expanded.contains(x) ==> #[trigger] wider.contains(x),
    ensures
        is_visible(es, wider, a),
{
    assert forall|j: int| 0 <= j < es.len() && proper_prefix(es[j].path, a.path) implies #[trigger] wider.contains(es[j].id) by {
        assert(e.path.subrange(0, es[j].path.len() as int) =~= a.path.subrange(0, es[j].path.len() as int));
        assert(proper_prefix(es[j].path, e.path));
        assert(expanded.contains(es[j].id));
    }
}

/// Starting a new entry from a shown entry of a tree with a root leaves
/// exactly one placeholder row across all trees, in that tree, and the edit
/// it replaced is gone: the one edit is the new, not yet submitted entry.
pub proof fn lemma_new_entry_shows_placeholder(old: ProjectPanel, new: ProjectPanel, is_dir: bool, k: int, i: int)
    requires
        old.wf(),
        new.wf(),
        new.worktrees == old.worktrees,
        entry_added(old, new, is_dir, true),
        old.selected_at(k, i),
        has_path(old.worktrees@[k].view_entries(), seq![]),
        is_visible(
            old.worktrees@[k].view_entries(),
            expansion_of(old.expanded_dir_ids@, old.worktrees@[k].id),
            old.worktrees@[k].entries@[i]@,
        ),
    ensures
        exists|e: int| 0 <= e < new.visible_entries@[k].entries@.len()
            && new.visible_entries@[k].entries@[e].id == NEW_ENTRY_ID,
        forall|w: int, e: int|
            0 <= w < new.visible_entries@.len() && 0 <= e < new.visible_entries@[w].entries@.len()
                && new.visible_entries@[w].entries@[e].id == NEW_ENTRY_ID ==> w == k,
        new.edit_state is Some,
        new.edit_state->0.is_new_entry,
        new.edit_state->0.processing_filename is None,
{
    let ws = old.worktrees@;
    let es = ws[k].view_entries();
    let wid = ws[k].id;
    let q = (k, i);
    assert(old.selected_at(q.0, q.1));
    let p = choose|p: (int, int)| old.selected_at(p.0, p.1);
    old.lemma_selected_unique(k, i, p.0, p.1);
    assert(es[i] == ws[k].entries@[i]@);
    let dir = enclosing_dir(es, es[i].path)->0;
    let exp = expansion_of(old.expanded_dir_ids@, wid);
    let wider = expansion_of(new.expanded_dir_ids@, wid);
    assert(has_table(new.expanded_dir_ids@, wid) == has_table(old.expanded_dir_ids@, wid));
    assert(wider == crate::expanded::sorted_insert(exp, dir));
    assert forall|x: u64| exp.contains(x) implies #[trigger] wider.contains(x) by {
        crate::expanded::lemma_sorted_insert_contains(exp, dir, x);
    }
    lemma_enclosing_dir_above(es, es[i].path);
    let j = choose|j: int| 0 <= j < es.len() && es[j].id == dir && prefix_or_same(es[j].path, es[i].path);
    lemma_visible_above(es, exp, wider, es[i], es[j]);
    assert(new_entry_for(new.edit_state, wid) == Some(NewEntry { anchor: dir, is_dir }));
    assert(anchor_shown(es, wider, new_entry_for(new.edit_state, wid), es.len() as int));
    lemma_placeholder_shown(new, k);
    let e0 = choose|e: int| 0 <= e < new.visible_entries@[k].entries@.len()
        && new.visible_entries@[k].entries@[e].id == NEW_ENTRY_ID;
    assert forall|w: int, e: int|
        0 <= w < new.visible_entries@.len() && 0 <= e < new.visible_entries@[w].entries@.len()
            && new.visible_entries@[w].entries@[e].id == NEW_ENTRY_ID implies w == k by {
        lemma_single_placeholder(new, w, e, k, e0);
    }
}

impl ProjectPanel {
    /// Starts creating an entry inside the selected directory, or inside the
    /// nearest directory above the selected file: that directory is expanded
    /// and the placeholder row is selected. Nothing happens while a submitted
    /// edit still runs. Returns whether the edit started.
    pub fn add_entry(&mut self, is_dir: bool) -> (r: bool)
        requires
            old(self).wf(),
        ensures
            final(self).wf(),
            final(self).worktrees == old(self).worktrees,
            final(self).clipboard_entry == old(self).clipboard_entry,
            entry_added(*old(self), *final(self), is_dir, r),
    {
        if let Some(e) = &self.edit_state {
            if e.processing_filename.is_some() {
                return false;
            }
        }
        let (k, i) = match self.selected_entry() {
            Some(p) => p,
            None => return false,
        };
        proof {
            let q = (k as int, i as int);
            assert(self.selected_at(q.0, q.1));
            let p = choose|p: (int, int)| self.selected_at(p.0, p.1);
            self.lemma_selected_unique(k as int, i as int, p.0, p.1);
            assert forall|k2: int, i2: int| self.selected_at(k2, i2) implies k2 == k && i2 == i by {
                self.lemma_selected_unique(k as int, i as int, k2, i2);
            }
            assert(self.worktrees@[k as int].wf());
            lemma_id_at_path(self.worktrees@[k as int], i as int);
        }
        let wid = self.worktrees[k].id;
        let ghost tables = self.expanded_dir_ids@;
        let ghost es = self.worktrees@[k as int].view_entries();
        let ghost start = self.worktrees@[k as int].entries@[i as int]@.path;
        let t = match table_index(&self.expanded_dir_ids, wid) {
            Some(t) => t,
            None => return false,
        };
        proof {
            lemma_expansion_at(tables, t as int);
        }
        let mut j: usize = i;
        let mut path = crate::entry::clone_path(&self.worktrees[k].entries[i].path);
        loop
            invariant
                self.wf(),
                *self == *old(self),
                !edit_locked(old(self).edit_state),
                old(self).selected_at(k as int, i as int),
                forall|k2: int, i2: int| old(self).selected_at(k2, i2) ==> k2 == k && i2 == i,
                (choose|p: (int, int)| old(self).selected_at(p.0, p.1)) == (k as int, i as int),
                start == old(self).worktrees@[k as int].entries@[i as int]@.path,
                wid == old(self).selection->0.worktree_id,
                wid == self.worktrees@[k as int].id,
                tables == self.expanded_dir_ids@,
                has_table(tables, wid),
                t < tables.len(),
                tables[t as int].worktree_id == wid,
                k < self.worktrees@.len(),
                j < self.worktrees@[k as int].entries@.len(),
                es == self.worktrees@[k as int].view_entries(),
                path.deep_view() == self.worktrees@[k as int].entries@[j as int]@.path,
                has_path(es, path.deep_view()),
                entry_at_path(es, path.deep_view()) == self.worktrees@[k as int].entries@[j as int]@,
                enclosing_dir(es, start) == enclosing_dir(es, path.deep_view()),
            ensures
                self.worktrees@[k as int].entries@[j as int].kind == EntryKind::Dir,
            decreases path@.len(),
        {
            if self.worktrees[k].entries[j].is_dir() {
                break;
            }
            let parent = match crate::entry::parent_path(&path) {
                Some(p) => p,
                None => {
                    assert(enclosing_dir(es, start) is None);
                    return false;
                },
            };
            match self.worktrees[k].index_for_path(&parent) {
                Some(pj) => {
                    proof {
                        assert(self.worktrees@[k as int].wf());
                        lemma_id_at_path(self.worktrees@[k as int], pj as int);
                    }
                    j = pj;
                    path = parent;
                },
                None => {
                    assert(enclosing_dir(es, path.deep_view()) == enclosing_dir(es, parent.deep_view()));
                    assert(enclosing_dir(es, start) is None);
                    return false;
                },
            }
        }
        let dir = self.worktrees[k].entries[j].id;
        assert(enclosing_dir(es, start) == Some(dir));
        let ghost exp = expansion_of(tables, wid);
        self.table_insert(t, dir);
        self.edit_state = Some(EditState {
            worktree_id: wid,
            entry_id: dir,
            is_new_entry: true,
            is_dir,
            processing_filename: None,
        });
        let ghost changed = self.expanded_dir_ids@;
        self.refresh(Some(Selection { worktree_id: wid, entry_id: NEW_ENTRY_ID }));
        proof {
            lemma_changed_same(tables, changed, self.expanded_dir_ids@, wid, crate::expanded::sorted_insert(exp, dir));
        }
        true
    }

    /// Starts creating a file; see `add_entry`.
    pub fn new_file(&mut self) -> (r: bool)
        requires
            old(self).wf(),
        ensures
            final(self).wf(),
            final(self).worktrees == old(self).worktrees,
            final(self).clipboard_entry == old(self).clipboard_entry,
            entry_added(*old(self), *final(self), false, r),
    {
        self.add_entry(false)
    }

    /// Starts creating a directory; see `add_entry`.
    pub fn new_directory(&mut self) -> (r: bool)
        requires
            old(self).wf(),
        ensures
            final(self).wf(),
            final(self).worktrees == old(self).worktrees,
            final(self).clipboard_entry == old(self).clipboard_entry,
            entry_added(*old(self), *final(self), true, r),
    {
        self.add_entry(true)
    }

    /// Starts renaming the selected entry: gives the text to edit, its name,
    /// with the stem selected. Nothing happens while a submitted edit still runs.
    pub fn rename(&mut self) -> (r: Option<RenameStart>)
        requires
            old(self).wf(),
        ensures
            final(self).wf(),
            final(self).worktrees == old(self).worktrees,
            final(self).selection == old(self).selection,
            final(self).clipboard_entry == old(self).clipboard_entry,
            tables_same(old(self).expanded_dir_ids@, final(self).expanded_dir_ids@),
            ({
                if !edit_locked(old(self).edit_state) && exists|k: int, i: int| old(self).selected_at(k, i) {
                    let (k, i) = choose|p: (int, int)| old(self).selected_at(p.0, p.1);
                    let e = old(self).worktrees@[k].entries@[i]@;
                    let name = if e.path.len() > 0 { e.path.last() } else { Seq::<char>::empty() };
                    &&& final(self).edit_state == Some(EditState {
                        worktree_id: old(self).selection->0.worktree_id,
                        entry_id: e.id,
                        is_new_entry: false,
                        is_dir: e.kind == EntryKind::Dir,
                        processing_filename: None,
                    })
                    &&& r is Some
                    &&& r->0.text@ == name
                    &&& r->0.selection_end == crate::naming::file_stem(name).len()
                } else {
                    &&& r is None
                    &&& final(self).edit_state == old(self).edit_state
                }
            }),
    {
        let ghost tables = self.expanded_dir_ids@;
        if let Some(e) = &self.edit_state {
            if e.processing_filename.is_some() {
                assert(tables_same(tables, self.expanded_dir_ids@));
                return None;
            }
        }
        let (k, i) = match self.selected_entry() {
            Some(p) => p,
            None => {
                assert(tables_same(tables, self.expanded_dir_ids@));
                return None;
            },
        };
        proof {
            let q = (k as int, i as int);
            assert(self.selected_at(q.0, q.1));
            let p = choose|p: (int, int)| self.selected_at(p.0, p.1);
            self.lemma_selected_unique(k as int, i as int, p.0, p.1);
        }
        let wid = self.worktrees[k].id;
        let entry = &self.worktrees[k].entries[i];
        let entry_id = entry.id;
        let is_dir = entry.is_dir();
        let n = entry.path.len();
        let name = if n > 0 {
            entry.path[n - 1].clone()
        } else {
            String::new()
        };
        let (stem, _) = crate::naming::split_extension(name.as_str());
        let selection_end = stem.as_str().unicode_len();
        self.edit_state = Some(EditState {
            worktree_id: wid,
            entry_id,
            is_new_entry: false,
            is_dir,
            processing_filename: None,
        });
        self.refresh(None);
        Some(RenameStart { text: name, selection_end })
    }

    /// Ends the edit without applying it.
    pub fn cancel(&mut self)
        requires
            old(self).wf(),
        ensures
            final(self).wf(),
            final(self).worktrees == old(self).worktrees,
            final(self).selection == old(self).selection,
            final(self).clipboard_entry == old(self).clipboard_entry,
            final(self).edit_state is None,
            tables_same(old(self).expanded_dir_ids@, final(self).expanded_dir_ids@),
    {
        self.edit_state = None;
        self.refresh(None);
    }

    /// The name field lost focus: an edit that was not submitted ends; a
    /// submitted one goes on.
    pub fn editor_blurred(&mut self)
        requires
            old(self).wf(),
        ensures
            final(self).wf(),
            final(self).worktrees == old(self).worktrees,
            final(self).selection == old(self).selection,
            final(self).clipboard_entry == old(self).clipboard_entry,
            tables_same(old(self).expanded_dir_ids@, final(self).expanded_dir_ids@),
            final(self).edit_state == if old(self).edit_state is Some && !edit_locked(old(self).edit_state) {
                None
            } else {
                old(self).edit_state
            },
    {
        let ghost tables = self.expanded_dir_ids@;
        let end = match &self.edit_state {
            Some(e) => e.processing_filename.is_none(),
            None => false,
        };
        if end {
            self.edit_state = None;
            self.refresh(None);
        } else {
            assert(tables_same(tables, self.expanded_dir_ids@));
        }
    }

    /// Completes a submitted edit, once the trees show its outcome: the edit
    /// ends; when the operation produced an entry and the edited entry was
    /// selected, the new entry is selected and the directories above it are
    /// expanded. A new file is then opened.
    pub fn finish_edit(&mut self, pending: &PendingEdit, new_entry_id: Option<ProjectEntryId>) -> (r: Option<Event>)
        requires
            old(self).wf(),
        ensures
            final(self).wf(),
            final(self).worktrees == old(self).worktrees,
            final(self).clipboard_entry == old(self).clipboard_entry,
            final(self).edit_state is None,
            ({
                match (new_entry_id, old(self).selection) {
                    (Some(id), Some(sel)) => if sel.entry_id == pending.edited_entry_id {
                        let ws = old(self).worktrees@;
                        let wid = pending.worktree_id;
                        &&& final(self).selection == Some(Selection { worktree_id: wid, entry_id: id })
                        &&& if exists|k: int, i: int| located(ws, wid, id, k, i) {
                            let (k, i) = choose|p: (int, int)| located(ws, wid, id, p.0, p.1);
                            expanded_to(old(self).expanded_dir_ids@, final(self).expanded_dir_ids@, wid,
                                ws[k].view_entries(), ws[k].entries@[i]@.path)
                        } else {
                            tables_same(old(self).expanded_dir_ids@, final(self).expanded_dir_ids@)
                        }
                    } else {
                        &&& final(self).selection == old(self).selection
                        &&& tables_same(old(self).expanded_dir_ids@, final(self).expanded_dir_ids@)
                    },
                    _ => {
                        &&& final(self).selection == old(self).selection
                        &&& tables_same(old(self).expanded_dir_ids@, final(self).expanded_dir_ids@)
                    },
                }
            }),
            match r {
                Some(Event::OpenedEntry { entry_id, focus_opened_item }) => new_entry_id == Some(entry_id)
                    && focus_opened_item && pending.is_new_entry && !pending.is_dir,
                Some(_) => false,
                None => !(new_entry_id is Some && pending.is_new_entry && !pending.is_dir),
            },
    {
        let ghost tables = self.expanded_dir_ids@;
        self.edit_state = None;
        let mut retargeted = false;
        if let Some(id) = new_entry_id {
            if let Some(sel) = self.selection {
                if sel.entry_id == pending.edited_entry_id {
                    self.selection = Some(Selection { worktree_id: pending.worktree_id, entry_id: id });
                    let _ = self.expand_to_selection();
                    retargeted = true;
                }
            }
        }
        let ghost mid = self.expanded_dir_ids@;
        proof {
            if !retargeted {
                assert(tables_same(tables, mid));
            }
        }
        self.refresh(None);
        proof {
            let fin = self.expanded_dir_ids@;
            if retargeted {
                let ws = old(self).worktrees@;
                let wid = pending.worktree_id;
                let id = new_entry_id->0;
                if exists|k: int, i: int| located(ws, wid, id, k, i) {
                    let (k, i) = choose|p: (int, int)| located(ws, wid, id, p.0, p.1);
                    lemma_expanded_to_same(tables, mid, fin, wid, ws[k].view_entries(), ws[k].entries@[i]@.path);
                } else {
                    assert(mid == tables);
                    assert(tables_same(tables, mid));
                    lemma_tables_same_trans(tables, mid, fin);
                }
            } else {
                lemma_tables_same_trans(tables, mid, fin);
            }
        }
        match new_entry_id {
            Some(id) => if pending.is_new_entry && !pending.is_dir {
                Some(Event::OpenedEntry { entry_id: id, focus_opened_item: true })
            } else {
                None
            },
            None => None,
        }
    }

    /// Submits the edit with the typed text. The destination is the text's
    /// path inside the anchor directory for a new entry, or beside the
    /// renamed entry. When an entry already has that path, nothing changes
    /// and `None` comes back: the edit stays open. Otherwise the edit is
    /// marked as running and the request comes back; a new entry's
    /// placeholder is selected.
    pub fn confirm_edit(&mut self, filename: &str) -> (r: Option<PendingEdit>)
        requires
            old(self).wf(),
        ensures
            final(self).wf(),
            final(self).worktrees == old(self).worktrees,
            final(self).visible_entries == old(self).visible_entries,
            final(self).expanded_dir_ids == old(self).expanded_dir_ids,
            final(self).clipboard_entry == old(self).clipboard_entry,
            ({
                let e = old(self).edit_state->0;
                if old(self).edit_state is Some && e.processing_filename is None
                    && exists|k: int, i: int| located(old(self).worktrees@, e.worktree_id, e.entry_id, k, i) {
                    let (k, i) = choose|p: (int, int)| located(old(self).worktrees@, e.worktree_id, e.entry_id, p.0, p.1);
                    let dest = edit_destination(old(self).worktrees@[k].entries@[i]@.path, e.is_new_entry, filename@);
                    if has_path(old(self).worktrees@[k].view_entries(), dest) {
                        &&& r is None
                        &&& *final(self) == *old(self)
                    } else {
                        &&& r is Some
                        &&& r->0.worktree_id == e.worktree_id
                        &&& r->0.edited_entry_id == if e.is_new_entry { NEW_ENTRY_ID } else { e.entry_id }
                        &&& r->0.is_new_entry == e.is_new_entry
                        &&& r->0.is_dir == e.is_dir
                        &&& match r->0.request {
                            EditRequest::Create { worktree_id, path, is_dir } => e.is_new_entry
                                && worktree_id == e.worktree_id && path.deep_view() == dest && is_dir == e.is_dir,
                            EditRequest::Rename { entry_id, new_path } => !e.is_new_entry
                                && entry_id == e.entry_id && new_path.deep_view() == dest,
                        }
                        &&& final(self).edit_state is Some
                        &&& final(self).edit_state->0.worktree_id == e.worktree_id
                        &&& final(self).edit_state->0.entry_id == e.entry_id
                        &&& final(self).edit_state->0.is_new_entry == e.is_new_entry
                        &&& final(self).edit_state->0.is_dir == e.is_dir
                        &&& final(self).edit_state->0.processing_filename is Some
                        &&& final(self).edit_state->0.processing_filename->0@ == filename@
                        &&& final(self).selection == if e.is_new_entry {
                            Some(Selection { worktree_id: e.worktree_id, entry_id: NEW_ENTRY_ID })
                        } else {
                            old(self).selection
                        }
                    }
                } else {
                    &&& r is None
                    &&& *final(self) == *old(self)
                }
            }),
    {
        let (wid, entry_id, is_new_entry, is_dir) = match &self.edit_state {
            Some(e) => {
                if e.processing_filename.is_some() {
                    return None;
                }
                (e.worktree_id, e.entry_id, e.is_new_entry, e.is_dir)
            },
            None => return None,
        };
        let k = match self.worktree_index(wid) {
            Some(k) => k,
            None => return None,
        };
        let i = match self.worktrees[k].index_for_id(entry_id) {
            Some(i) => i,
            None => {
                assert(!exists|k2: int, i: int| located(self.worktrees@, wid, entry_id, k2, i)) by {
                    if exists|k2: int, i: int| located(self.worktrees@, wid, entry_id, k2, i) {
                        let (k2, i2) = choose|k2: int, i: int| located(self.worktrees@, wid, entry_id, k2, i);
                        if k2 != k {
                            if k2 < k {
                                assert(self.worktrees@[k2].id != self.worktrees@[k as int].id);
                            } else {
                                assert(self.worktrees@[k as int].id != self.worktrees@[k2].id);
                            }
                        }
                        assert(crate::worktree::index_of_id(self.worktrees@[k as int].view_entries(), entry_id, i2));
                    }
                }
                return None;
            },
        };
        proof {
            let q = (k as int, i as int);
            assert(located(self.worktrees@, wid, entry_id, q.0, q.1));
            let p = choose|p: (int, int)| located(self.worktrees@, wid, entry_id, p.0, p.1);
            lemma_located_unique(self.worktrees@, wid, entry_id, k as int, i as int, p.0, p.1);
        }
        let anchor = &self.worktrees[k].entries[i].path;
        let parts = crate::entry::split_path_text(filename);
        let new_path = if is_new_entry {
            crate::entry::join_path(anchor, &parts)
        } else {
            match crate::entry::parent_path(anchor) {
                Some(parent) => crate::entry::join_path(&parent, &parts),
                None => parts,
            }
        };
        assert(new_path.deep_view() == edit_destination(self.worktrees@[k as int].entries@[i as int]@.path, is_new_entry, filename@));
        match self.worktrees[k].index_for_path(&new_path) {
            Some(j) => {
                assert(self.worktrees@[k as int].view_entries()[j as int].path == new_path.deep_view());
                return None;
            },
            None => {},
        }
        if is_new_entry {
            self.selection = Some(Selection { worktree_id: wid, entry_id: NEW_ENTRY_ID });
        }
        self.edit_state = Some(EditState {
            worktree_id: wid,
            entry_id,
            is_new_entry,
            is_dir,
            processing_filename: Some(String::from_str(filename)),
        });
        let request = if is_new_entry {
            EditRequest::Create { worktree_id: wid, path: new_path, is_dir }
        } else {
            EditRequest::Rename { entry_id, new_path }
        };
        Some(PendingEdit {
            worktree_id: wid,
            edited_entry_id: if is_new_entry { NEW_ENTRY_ID } else { entry_id },
            is_new_entry,
            is_dir,
            request,
        })
    }
}

} // verus!
