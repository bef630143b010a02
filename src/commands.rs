//! Clipboard, paths, events, the context menu and clicks on rows.

use vstd::prelude::*;
use crate::entry::{EntryKind, EntryView, NEW_ENTRY_ID, ProjectEntryId};
use crate::expansion::toggled;
use crate::panel::{ClipboardEntry, entry_tree, Event, ExpandRequest, ProjectPanel, Selection};

verus! {

/// A paste to perform: copy or move the entry to the new path.
pub struct PasteRequest {
    pub entry_id: ProjectEntryId,
    pub new_path: Vec<String>,
    pub is_cut: bool,
}

/// A deletion that waits for the user's confirmation.
pub struct DeletePrompt {
    pub entry_id: ProjectEntryId,
    pub file_name: String,
}

/// Whether the answer to the delete prompt confirms the deletion: only the
/// first button does; any other answer, or none, leaves everything as it is.
pub fn delete_confirmed(answer: Option<usize>) -> (r: bool)
    ensures
        r == (answer == Some(0usize)),
{
    match answer {
        Some(a) => a == 0,
        None => false,
    }
}

/// The directory that a paste onto `e` goes into: `e` itself, or the
/// directory holding it when it is a file.
pub open spec fn paste_dir(e: EntryView) -> Seq<Seq<char>> {
    if e.kind == EntryKind::File && e.path.len() > 0 {
        e.path.drop_last()
    } else {
        e.path
    }
}

/// The components of a path joined by '/'.
pub open spec fn joined(path: Seq<Seq<char>>) -> Seq<char>
    decreases path.len(),
{
    if path.len() == 0 {
        seq![]
    } else if path.len() == 1 {
        path[0]
    } else {
        joined(path.drop_last()) + seq!['/'] + path.last()
    }
}

/// An absolute path: the tree's location, then each component after a '/'.
pub open spec fn absolute(base: Seq<char>, path: Seq<Seq<char>>) -> Seq<char>
    decreases path.len(),
{
    if path.len() == 0 {
        base
    } else {
        absolute(base, path.drop_last()) + seq!['/'] + path.last()
    }
}

/// The components joined by '/'.
pub fn joined_path(path: &Vec<String>) -> (r: String)
    ensures
        r@ == joined(path.deep_view()),
{
    let sep = "/";
    proof {
        reveal_strlit("/");
    }
    assert(sep@ =~= seq!['/']);
    let mut r = String::new();
    let mut i: usize = 0;
    while i < path.len()
        invariant
            i <= path@.len(),
            sep@ == seq!['/'],
            r@ == joined(path.deep_view().subrange(0, i as int)),
        decreases path@.len() - i,
    {
        let ghost p = path.deep_view().subrange(0, i + 1);
        assert(p.drop_last() =~= path.deep_view().subrange(0, i as int));
        let ghost old_r = r@;
        assert(p.last() == path[i as int]@);
        if i > 0 {
            r.append(sep);
            assert(r@ =~= old_r + seq!['/']);
        }
        r.append(path[i].as_str());
        proof {
            if i == 0 {
                assert(r@ =~= joined(p));
            } else {
                assert(r@ =~= old_r + seq!['/'] + path[i as int]@);
                assert(r@ =~= joined(p));
            }
        }
        i = i + 1;
    }
    assert(path.deep_view().subrange(0, i as int) =~= path.deep_view());
    r
}

/// A tree's location followed by the components, each after a '/'.
pub fn absolute_path(base: &String, path: &Vec<String>) -> (r: String)
    ensures
        r@ == absolute(base@, path.deep_view()),
{
    let sep = "/";
    proof {
        reveal_strlit("/");
    }
    assert(sep@ =~= seq!['/']);
    let mut r = base.clone();
    let mut i: usize = 0;
    while i < path.len()
        invariant
            i <= path@.len(),
            sep@ == seq!['/'],
            r@ == absolute(base@, path.deep_view().subrange(0, i as int)),
        decreases path@.len() - i,
    {
        let ghost p = path.deep_view().subrange(0, i + 1);
        assert(p.drop_last() =~= path.deep_view().subrange(0, i as int));
        let ghost old_r = r@;
        assert(p.last() == path[i as int]@);
        r.append(sep);
        assert(r@ =~= old_r + seq!['/']);
        r.append(path[i].as_str());
        assert(r@ =~= old_r + seq!['/'] + path[i as int]@);
        assert(r@ =~= absolute(base@, p));
        i = i + 1;
    }
    assert(path.deep_view().subrange(0, i as int) =~= path.deep_view());
    r
}

/// An item of the context menu of an entry.
#[derive(Clone, Copy, Debug, PartialEq, Eq, Structural)]
pub enum ContextMenuItem {
    AddFolderToProject,
    RemoveFromProject,
    NewFile,
    NewFolder,
    Separator,
    Cut,
    Copy,
    Paste,
    CopyPath,
    CopyRelativePath,
    RevealInFinder,
    OpenInTerminal,
    SearchInside,
    Rename,
    Delete,
}

/// The context menu of an entry: project actions on a local project (removal
/// only for a tree's root), creation, clipboard (paste only when the
/// clipboard holds an entry of this tree), paths, directory actions, rename,
/// and delete for all but a root.
pub open spec fn menu_items(is_local: bool, is_root: bool, is_dir: bool, can_paste: bool) -> Seq<ContextMenuItem> {
    (if is_local {
        seq![ContextMenuItem::AddFolderToProject] + if is_root {
            seq![ContextMenuItem::RemoveFromProject]
        } else {
            seq![]
        }
    } else {
        seq![]
    }) + seq![
        ContextMenuItem::NewFile,
        ContextMenuItem::NewFolder,
        ContextMenuItem::Separator,
        ContextMenuItem::Cut,
        ContextMenuItem::Copy,
    ] + (if can_paste { seq![ContextMenuItem::Paste] } else { seq![] }) + seq![
        ContextMenuItem::Separator,
        ContextMenuItem::CopyPath,
        ContextMenuItem::CopyRelativePath,
        ContextMenuItem::Separator,
        ContextMenuItem::RevealInFinder,
    ] + (if is_dir {
        seq![ContextMenuItem::OpenInTerminal, ContextMenuItem::SearchInside]
    } else {
        seq![]
    }) + seq![ContextMenuItem::Separator, ContextMenuItem::Rename] + (if !is_root {
        seq![ContextMenuItem::Delete]
    } else {
        seq![]
    })
}

pub(crate) fn menu_part(items: Vec<ContextMenuItem>, shown: bool) -> (r: Vec<ContextMenuItem>)
    ensures
        r@ == if shown { items@ } else { Seq::<ContextMenuItem>::empty() },
{
    if shown {
        items
    } else {
        Vec::new()
    }
}

/// Builds the context menu; see `menu_items`.
pub fn build_menu(is_local: bool, is_root: bool, is_dir: bool, can_paste: bool) -> (r: Vec<ContextMenuItem>)
    ensures
        r@ == menu_items(is_local, is_root, is_dir, can_paste),
{
    let mut m = menu_part(vec![ContextMenuItem::AddFolderToProject], is_local);
    let mut p = menu_part(vec![ContextMenuItem::RemoveFromProject], is_local && is_root);
    m.append(&mut p);
    let ghost s1 = m@;
    assert(s1 =~= if is_local {
        seq![ContextMenuItem::AddFolderToProject] + if is_root {
            seq![ContextMenuItem::RemoveFromProject]
        } else {
            seq![]
        }
    } else {
        seq![]
    });
    let mut p = vec![
        ContextMenuItem::NewFile,
        ContextMenuItem::NewFolder,
        ContextMenuItem::Separator,
        ContextMenuItem::Cut,
        ContextMenuItem::Copy,
    ];
    m.append(&mut p);
    let mut p = menu_part(vec![ContextMenuItem::Paste], can_paste);
    m.append(&mut p);
    let mut p = vec![
        ContextMenuItem::Separator,
        ContextMenuItem::CopyPath,
        ContextMenuItem::CopyRelativePath,
        ContextMenuItem::Separator,
        ContextMenuItem::RevealInFinder,
    ];
    m.append(&mut p);
    let mut p = menu_part(vec![ContextMenuItem::OpenInTerminal, ContextMenuItem::SearchInside], is_dir);
    m.append(&mut p);
    let mut p = vec![ContextMenuItem::Separator, ContextMenuItem::Rename];
    m.append(&mut p);
    let mut p = menu_part(vec![ContextMenuItem::Delete], !is_root);
    m.append(&mut p);
    assert(m@ =~= menu_items(is_local, is_root, is_dir, can_paste));
    m
}

impl ProjectPanel {
    /// Remembers the selected entry for a move.
    pub fn cut(&mut self)
        requires
            old(self).wf(),
        ensures
            final(self).wf(),
            final(self).worktrees == old(self).worktrees,
            final(self).visible_entries == old(self).visible_entries,
            final(self).expanded_dir_ids == old(self).expanded_dir_ids,
            final(self).selection == old(self).selection,
            final(self).edit_state == old(self).edit_state,
            final(self).clipboard_entry == if exists|k: int, i: int| old(self).selected_at(k, i) {
                Some(ClipboardEntry::Cut {
                    worktree_id: old(self).selection->0.worktree_id,
                    entry_id: old(self).selection->0.entry_id,
                })
            } else {
                old(self).clipboard_entry
            },
    {
        if let Some((k, i)) = self.selected_entry() {
            self.clipboard_entry = Some(ClipboardEntry::Cut {
                worktree_id: self.worktrees[k].id,
                entry_id: self.worktrees[k].entries[i].id,
            });
        }
    }

    /// Remembers the selected entry for a copy.
    pub fn copy(&mut self)
        requires
            old(self).wf(),
        ensures
            final(self).wf(),
            final(self).worktrees == old(self).worktrees,
            final(self).visible_entries == old(self).visible_entries,
            final(self).expanded_dir_ids == old(self).expanded_dir_ids,
            final(self).selection == old(self).selection,
            final(self).edit_state == old(self).edit_state,
            final(self).clipboard_entry == if exists|k: int, i: int| old(self).selected_at(k, i) {
                Some(ClipboardEntry::Copied {
                    worktree_id: old(self).selection->0.worktree_id,
                    entry_id: old(self).selection->0.entry_id,
                })
            } else {
                old(self).clipboard_entry
            },
    {
        if let Some((k, i)) = self.selected_entry() {
            self.clipboard_entry = Some(ClipboardEntry::Copied {
                worktree_id: self.worktrees[k].id,
                entry_id: self.worktrees[k].entries[i].id,
            });
        }
    }

    /// Where the remembered entry goes when pasted onto the selection: into
    /// the selected directory, or the directory of the selected file, under
    /// its own name or the first free copy name. Only within one tree.
    pub fn paste(&self) -> (r: Option<PasteRequest>)
        requires
            self.wf(),
        ensures
            ({
                let c = self.clipboard_entry->0;
                if exists|k: int, i: int| self.selected_at(k, i) && self.clipboard_entry is Some
                    && c.spec_worktree_id() == self.selection->0.worktree_id
                    && exists|k2: int| entry_tree(self.worktrees@, c.spec_entry_id(), k2) {
                    let (k, i) = choose|p: (int, int)| self.selected_at(p.0, p.1);
                    let k2 = choose|k2: int| entry_tree(self.worktrees@, c.spec_entry_id(), k2);
                    let src = self.worktrees@[k2].entries@[choose|j: int|
                        crate::worktree::index_of_id(self.worktrees@[k2].view_entries(), c.spec_entry_id(), j)]@.path;
                    let dir = paste_dir(self.worktrees@[k].entries@[i]@);
                    if src.len() > 0 {
                        &&& r is Some
                        &&& r->0.entry_id == c.spec_entry_id()
                        &&& r->0.is_cut == (c is Cut)
                        &&& r->0.new_path.deep_view().len() == dir.len() + 1
                        &&& r->0.new_path.deep_view().drop_last() == dir
                        &&& crate::naming::first_free(
                            crate::naming::child_names(self.worktrees@[k].view_entries(), dir),
                            src.last(),
                            r->0.new_path.deep_view().last(),
                        )
                    } else {
                        r is None
                    }
                } else {
                    r is None
                }
            }),
    {
        let (k, i) = match self.selected_entry() {
            Some(p) => p,
            None => return None,
        };
        proof {
            let q = (k as int, i as int);
            assert(self.selected_at(q.0, q.1));
            let p = choose|p: (int, int)| self.selected_at(p.0, p.1);
            self.lemma_selected_unique(k as int, i as int, p.0, p.1);
        }
        let c = match self.clipboard_entry {
            Some(c) => c,
            None => return None,
        };
        if c.worktree_id() != self.worktrees[k].id {
            return None;
        }
        let k2 = match self.worktree_for_entry(c.entry_id()) {
            Some(k2) => k2,
            None => return None,
        };
        proof {
            let q = choose|q: int| entry_tree(self.worktrees@, c.spec_entry_id(), q);
            if q != k2 {
                if q < k2 {
                    assert(!crate::worktree::has_id(self.worktrees@[q].view_entries(), c.spec_entry_id()));
                } else {
                    assert(!crate::worktree::has_id(self.worktrees@[k2 as int].view_entries(), c.spec_entry_id()));
                }
            }
        }
        let j = match self.worktrees[k2].index_for_id(c.entry_id()) {
            Some(j) => j,
            None => return None,
        };
        proof {
            let q = choose|q: int| crate::worktree::index_of_id(self.worktrees@[k2 as int].view_entries(), c.spec_entry_id(), q);
            assert(self.worktrees@[k2 as int].wf());
            if q != j {
                if q < j {
                    assert(self.worktrees@[k2 as int].entries@[q].id != self.worktrees@[k2 as int].entries@[j as int].id);
                } else {
                    assert(self.worktrees@[k2 as int].entries@[j as int].id != self.worktrees@[k2 as int].entries@[q].id);
                }
            }
        }
        let src = &self.worktrees[k2].entries[j].path;
        if src.len() == 0 {
            return None;
        }
        let name = &src[src.len() - 1];
        let entry = &self.worktrees[k].entries[i];
        let dir = if entry.is_file() && entry.path.len() > 0 {
            match crate::entry::parent_path(&entry.path) {
                Some(p) => p,
                None => crate::entry::clone_path(&entry.path),
            }
        } else {
            crate::entry::clone_path(&entry.path)
        };
        let dest = crate::naming::paste_destination(&self.worktrees[k], &dir, name);
        let mut new_path = crate::entry::clone_path(&dir);
        let ghost before = new_path@;
        new_path.push(dest);
        assert(new_path@ == before.push(dest));
        assert(new_path.deep_view() =~= dir.deep_view().push(dest@));
        Some(PasteRequest { entry_id: c.entry_id(), new_path, is_cut: c.is_cut() })
    }

    /// Asks to delete the selected entry: its id and file name for the
    /// confirmation prompt. The root of a tree has no name and is not offered.
    pub fn delete(&self) -> (r: Option<DeletePrompt>)
        requires
            self.wf(),
        ensures
            ({
                let sel = self.selection->0;
                if self.selection is Some && exists|k: int| entry_tree(self.worktrees@, sel.entry_id, k) {
                    let k = choose|k: int| entry_tree(self.worktrees@, sel.entry_id, k);
                    let path = self.worktrees@[k].entries@[choose|j: int|
                        crate::worktree::index_of_id(self.worktrees@[k].view_entries(), sel.entry_id, j)]@.path;
                    if path.len() > 0 {
                        &&& r is Some
                        &&& r->0.entry_id == sel.entry_id
                        &&& r->0.file_name@ == path.last()
                    } else {
                        r is None
                    }
                } else {
                    r is None
                }
            }),
    {
        let sel = match self.selection {
            Some(s) => s,
            None => return None,
        };
        let k = match self.worktree_for_entry(sel.entry_id) {
            Some(k) => k,
            None => return None,
        };
        proof {
            let q = choose|q: int| entry_tree(self.worktrees@, sel.entry_id, q);
            if q != k {
                if q < k {
                    assert(!crate::worktree::has_id(self.worktrees@[q].view_entries(), sel.entry_id));
                } else {
                    assert(!crate::worktree::has_id(self.worktrees@[k as int].view_entries(), sel.entry_id));
                }
            }
        }
        let j = match self.worktrees[k].index_for_id(sel.entry_id) {
            Some(j) => j,
            None => return None,
        };
        proof {
            let q = choose|q: int| crate::worktree::index_of_id(self.worktrees@[k as int].view_entries(), sel.entry_id, q);
            assert(self.worktrees@[k as int].wf());
            if q != j {
                if q < j {
                    assert(self.worktrees@[k as int].entries@[q].id != self.worktrees@[k as int].entries@[j as int].id);
                } else {
                    assert(self.worktrees@[k as int].entries@[j as int].id != self.worktrees@[k as int].entries@[q].id);
                }
            }
        }
        let path = &self.worktrees[k].entries[j].path;
        if path.len() == 0 {
            return None;
        }
        Some(DeletePrompt { entry_id: sel.entry_id, file_name: path[path.len() - 1].clone() })
    }

    /// The selected entry's path relative to its tree, components joined by '/'.
    pub fn copy_relative_path(&self) -> (r: Option<String>)
        requires
            self.wf(),
        ensures
            r is Some <==> exists|k: int, i: int| self.selected_at(k, i),
            r is Some ==> {
                let (k, i) = choose|p: (int, int)| self.selected_at(p.0, p.1);
                r->0@ == joined(self.worktrees@[k].entries@[i]@.path)
            },
    {
        let (k, i) = match self.selected_entry() {
            Some(p) => p,
            None => return None,
        };
        proof {
            let q = (k as int, i as int);
            assert(self.selected_at(q.0, q.1));
            let p = choose|p: (int, int)| self.selected_at(p.0, p.1);
            self.lemma_selected_unique(k as int, i as int, p.0, p.1);
        }
        Some(joined_path(&self.worktrees[k].entries[i].path))
    }

    /// The selected entry's absolute path: its tree's location, then its
    /// components, each after a '/'.
    pub fn copy_path(&self) -> (r: Option<String>)
        requires
            self.wf(),
        ensures
            r is Some <==> exists|k: int, i: int| self.selected_at(k, i),
            r is Some ==> {
                let (k, i) = choose|p: (int, int)| self.selected_at(p.0, p.1);
                r->0@ == absolute(self.worktrees@[k].abs_path@, self.worktrees@[k].entries@[i]@.path)
            },
    {
        let (k, i) = match self.selected_entry() {
            Some(p) => p,
            None => return None,
        };
        proof {
            let q = (k as int, i as int);
            assert(self.selected_at(q.0, q.1));
            let p = choose|p: (int, int)| self.selected_at(p.0, p.1);
            self.lemma_selected_unique(k as int, i as int, p.0, p.1);
        }
        Some(absolute_path(&self.worktrees[k].abs_path, &self.worktrees[k].entries[i].path))
    }

    /// The absolute path to show in the file manager; see `copy_path`.
    pub fn reveal_in_finder(&self) -> (r: Option<String>)
        requires
            self.wf(),
        ensures
            r is Some <==> exists|k: int, i: int| self.selected_at(k, i),
            r is Some ==> {
                let (k, i) = choose|p: (int, int)| self.selected_at(p.0, p.1);
                r->0@ == absolute(self.worktrees@[k].abs_path@, self.worktrees@[k].entries@[i]@.path)
            },
    {
        self.copy_path()
    }

    /// Opens the selected entry when it is a file, focusing it.
    pub fn open_file(&self) -> (r: Option<Event>)
        requires
            self.wf(),
        ensures
            match r {
                Some(Event::OpenedEntry { entry_id, focus_opened_item }) => focus_opened_item
                    && self.selection == Some(Selection { worktree_id: self.selection->0.worktree_id, entry_id })
                    && exists|k: int, i: int| self.selected_at(k, i) && self.worktrees@[k].entries@[i].kind == EntryKind::File,
                Some(_) => false,
                None => !exists|k: int, i: int| self.selected_at(k, i) && self.worktrees@[k].entries@[i].kind == EntryKind::File,
            },
    {
        match self.selected_entry() {
            Some((k, i)) => {
                if self.worktrees[k].entries[i].is_file() {
                    Some(Self::open_entry(self.worktrees[k].entries[i].id, true))
                } else {
                    proof {
                        assert forall|k2: int, i2: int| self.selected_at(k2, i2) implies self.worktrees@[k2].entries@[i2].kind != EntryKind::File by {
                            self.lemma_selected_unique(k as int, i as int, k2, i2);
                        }
                    }
                    None
                }
            },
            None => None,
        }
    }

    /// The event that opens an entry.
    pub fn open_entry(entry_id: ProjectEntryId, focus_opened_item: bool) -> (r: Event)
        ensures
            r == (Event::OpenedEntry { entry_id, focus_opened_item }),
    {
        Event::OpenedEntry { entry_id, focus_opened_item }
    }

    /// The event that opens an entry in a split.
    pub fn split_entry(entry_id: ProjectEntryId) -> (r: Event)
        ensures
            r == (Event::SplitEntry { entry_id }),
    {
        Event::SplitEntry { entry_id }
    }

    /// The event of the panel gaining focus, unless it held it already.
    pub fn focus_in(already_focused: bool) -> (r: Option<Event>)
        ensures
            r is Some <==> !already_focused,
            r is Some ==> r->0 is Focus,
    {
        if already_focused {
            None
        } else {
            Some(Event::Focus)
        }
    }

    /// Starts a search inside the selected entry when it is a directory.
    pub fn new_search_in_directory(&self) -> (r: Option<Event>)
        requires
            self.wf(),
        ensures
            match r {
                Some(Event::NewSearchInDirectory { dir_entry }) => exists|k: int, i: int| self.selected_at(k, i)
                    && self.worktrees@[k].entries@[i].kind == EntryKind::Dir
                    && dir_entry@ == self.worktrees@[k].entries@[i]@,
                Some(_) => false,
                None => !exists|k: int, i: int| self.selected_at(k, i) && self.worktrees@[k].entries@[i].kind == EntryKind::Dir,
            },
    {
        match self.selected_entry() {
            Some((k, i)) => {
                if self.worktrees[k].entries[i].is_dir() {
                    Some(Event::NewSearchInDirectory { dir_entry: self.worktrees[k].entries[i].duplicate() })
                } else {
                    proof {
                        assert forall|k2: int, i2: int| self.selected_at(k2, i2) implies self.worktrees@[k2].entries@[i2].kind != EntryKind::Dir by {
                            self.lemma_selected_unique(k as int, i as int, k2, i2);
                        }
                    }
                    None
                }
            },
            None => None,
        }
    }

    /// Selects the entry and gives its context menu; `is_local` tells
    /// whether the project is on this machine.
    pub fn deploy_context_menu(&mut self, entry_id: ProjectEntryId, is_local: bool) -> (r: Option<Vec<ContextMenuItem>>)
        requires
            old(self).wf(),
        ensures
            final(self).wf(),
            final(self).same_but_selection(*old(self)),
            ({
                let ws = old(self).worktrees@;
                if exists|k: int| entry_tree(ws, entry_id, k) {
                    let k = choose|k: int| entry_tree(ws, entry_id, k);
                    let e = ws[k].entries@[choose|j: int| crate::worktree::index_of_id(ws[k].view_entries(), entry_id, j)]@;
                    let can_paste = old(self).clipboard_entry is Some
                        && old(self).clipboard_entry->0.spec_worktree_id() == ws[k].id;
                    &&& final(self).selection == Some(Selection { worktree_id: ws[k].id, entry_id })
                    &&& r is Some
                    &&& r->0@ == menu_items(is_local, e.path.len() == 0, e.kind == EntryKind::Dir, can_paste)
                } else {
                    &&& final(self).selection == old(self).selection
                    &&& r is None
                }
            }),
    {
        let k = match self.worktree_for_entry(entry_id) {
            Some(k) => k,
            None => return None,
        };
        proof {
            let q = choose|q: int| entry_tree(self.worktrees@, entry_id, q);
            if q != k {
                if q < k {
                    assert(!crate::worktree::has_id(self.worktrees@[q].view_entries(), entry_id));
                } else {
                    assert(!crate::worktree::has_id(self.worktrees@[k as int].view_entries(), entry_id));
                }
            }
        }
        let j = match self.worktrees[k].index_for_id(entry_id) {
            Some(j) => j,
            None => return None,
        };
        proof {
            let q = choose|q: int| crate::worktree::index_of_id(self.worktrees@[k as int].view_entries(), entry_id, q);
            assert(self.worktrees@[k as int].wf());
            if q != j {
                if q < j {
                    assert(self.worktrees@[k as int].entries@[q].id != self.worktrees@[k as int].entries@[j as int].id);
                } else {
                    assert(self.worktrees@[k as int].entries@[j as int].id != self.worktrees@[k as int].entries@[q].id);
                }
            }
        }
        let wid = self.worktrees[k].id;
        self.selection = Some(Selection { worktree_id: wid, entry_id });
        let entry = &self.worktrees[k].entries[j];
        let can_paste = match self.clipboard_entry {
            Some(c) => c.worktree_id() == wid,
            None => false,
        };
        Some(build_menu(is_local, entry.path.len() == 0, entry.is_dir(), can_paste))
    }

    /// The row of `entry_id` shows the name editor: it is being edited and
    /// the edit was not submitted yet.
    pub open spec fn shows_editor(&self, entry_id: ProjectEntryId) -> bool {
        &&& self.edit_state is Some
        &&& self.edit_state->0.processing_filename is None
        &&& if self.edit_state->0.is_new_entry {
            entry_id == NEW_ENTRY_ID
        } else {
            entry_id == self.edit_state->0.entry_id
        }
    }

    /// A click on the row of `entry_id`. The right button, and a click on the
    /// row that shows the name editor, do nothing. A directory is toggled as
    /// `toggle_expanded` does; a file is opened, focused on a double click,
    /// or opened in a split when the command key is held.
    pub fn entry_clicked(
        &mut self,
        entry_id: ProjectEntryId,
        right_button: bool,
        command_held: bool,
        click_count: usize,
    ) -> (r: (Option<ExpandRequest>, Option<Event>))
        requires
            old(self).wf(),
        ensures
            final(self).wf(),
            final(self).worktrees == old(self).worktrees,
            final(self).edit_state == old(self).edit_state,
            final(self).clipboard_entry == old(self).clipboard_entry,
            ({
                let ws = old(self).worktrees@;
                if !right_button && !old(self).shows_editor(entry_id) && exists|k: int| entry_tree(ws, entry_id, k) {
                    let k = choose|k: int| entry_tree(ws, entry_id, k);
                    let e = ws[k].entries@[choose|j: int| crate::worktree::index_of_id(ws[k].view_entries(), entry_id, j)]@;
                    if e.kind == EntryKind::Dir {
                        &&& r.1 is None
                        &&& toggled(*old(self), *final(self), entry_id, r.0)
                    } else {
                        &&& *final(self) == *old(self)
                        &&& r.0 is None
                        &&& r.1 == Some(if command_held {
                            Event::SplitEntry { entry_id }
                        } else {
                            Event::OpenedEntry { entry_id, focus_opened_item: click_count > 1 }
                        })
                    }
                } else {
                    &&& *final(self) == *old(self)
                    &&& r.0 is None
                    &&& r.1 is None
                }
            }),
    {
        if right_button {
            return (None, None);
        }
        let editing = match &self.edit_state {
            Some(e) => e.processing_filename.is_none() && if e.is_new_entry {
                entry_id == NEW_ENTRY_ID
            } else {
                entry_id == e.entry_id
            },
            None => false,
        };
        if editing {
            return (None, None);
        }
        let k = match self.worktree_for_entry(entry_id) {
            Some(k) => k,
            None => return (None, None),
        };
        proof {
            let q = choose|q: int| entry_tree(self.worktrees@, entry_id, q);
            if q != k {
                if q < k {
                    assert(!crate::worktree::has_id(self.worktrees@[q].view_entries(), entry_id));
                } else {
                    assert(!crate::worktree::has_id(self.worktrees@[k as int].view_entries(), entry_id));
                }
            }
        }
        let j = match self.worktrees[k].index_for_id(entry_id) {
            Some(j) => j,
            None => return (None, None),
        };
        proof {
            let q = choose|q: int| crate::worktree::index_of_id(self.worktrees@[k as int].view_entries(), entry_id, q);
            assert(self.worktrees@[k as int].wf());
            if q != j {
                if q < j {
                    assert(self.worktrees@[k as int].entries@[q].id != self.worktrees@[k as int].entries@[j as int].id);
                } else {
                    assert(self.worktrees@[k as int].entries@[j as int].id != self.worktrees@[k as int].entries@[q].id);
                }
            }
        }
        if self.worktrees[k].entries[j].is_dir() {
            let request = self.toggle_expanded(entry_id);
            (request, None)
        } else if command_held {
            (None, Some(Self::split_entry(entry_id)))
        } else {
            (None, Some(Self::open_entry(entry_id, click_count > 1)))
        }
    }
}

} // verus!
