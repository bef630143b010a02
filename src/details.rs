//! What each row of a window of the rows shows.

use vstd::prelude::*;
use crate::entry::{entries_view, EntryKind, EntryView, GitFileStatus, NEW_ENTRY_ID, ProjectEntryId};
use crate::navigation::{flat_offset, lemma_flat_offset_mono, lemma_flat_offset_step};
use crate::panel::{expansion_of, lemma_expansion_at, ProjectPanel, Selection, table_index};

verus! {

/// What a row shows.
pub struct EntryDetails {
    pub filename: String,
    pub path: Vec<String>,
    pub depth: usize,
    pub kind: EntryKind,
    pub is_ignored: bool,
    pub is_expanded: bool,
    pub is_selected: bool,
    pub is_editing: bool,
    pub is_processing: bool,
    pub is_cut: bool,
    pub git_status: Option<GitFileStatus>,
}

/// Position (tree, row) of index `f` of all the rows laid end to end.
pub open spec fn flat_position(rows: Seq<Seq<EntryView>>, f: int) -> Option<(int, int)>
    decreases rows.len(),
{
    if rows.len() == 0 || f < 0 {
        None
    } else if f < rows[0].len() {
        Some((0, f))
    } else {
        match flat_position(rows.drop_first(), f - rows[0].len()) {
            Some(p) => Some((p.0 + 1, p.1)),
            None => None,
        }
    }
}

pub(crate) proof fn lemma_flat_position_at(rows: Seq<Seq<EntryView>>, w: int, e: int)
    requires
        0 <= w < rows.len(),
        0 <= e < rows[w].len(),
    ensures
        flat_position(rows, flat_offset(rows, w) + e) == Some((w, e)),
    decreases w,
{
    if w > 0 {
        lemma_flat_position_at(rows.drop_first(), w - 1, e);
        assert(rows.drop_first()[w - 1] == rows[w]);
        assert(flat_offset(rows.drop_first(), w - 1) >= 0) by {
            if w - 1 > 0 {
                lemma_flat_offset_step(rows.drop_first(), w - 2);
            }
        }
    }
}

pub open spec fn pos_tree(p: Option<(int, int)>) -> int {
    match p {
        Some((w, _)) => w,
        None => 0,
    }
}

pub open spec fn pos_row(p: Option<(int, int)>) -> int {
    match p {
        Some((_, e)) => e,
        None => 0,
    }
}

/// How many rows a window `[start, end)` holds when there are `total`.
pub open spec fn window_len(total: int, start: int, end: int) -> int {
    let stop = if end < total { end } else { total };
    if stop > start {
        stop - start
    } else {
        0
    }
}

impl ProjectPanel {
    /// `d` is what row `e` of tree `w` shows.
    pub open spec fn details_ok(&self, d: EntryDetails, w: int, e: int, show_git_status: bool) -> bool {
        let ve = self.visible_entries@;
        let wid = ve[w].worktree_id;
        let row = ve[w].entries@[e]@;
        let edit = self.edit_state->0;
        let edited = self.edit_state is Some && if edit.is_new_entry {
            row.id == NEW_ENTRY_ID
        } else {
            row.id == edit.entry_id
        };
        let name = if row.path.len() > 0 {
            row.path.last()
        } else {
            self.worktrees@[w].root_name@
        };
        &&& d.path.deep_view() == row.path
        &&& d.depth == row.path.len()
        &&& d.kind == row.kind
        &&& d.is_ignored == row.is_ignored
        &&& d.is_expanded == expansion_of(self.expanded_dir_ids@, wid).contains(row.id)
        &&& d.is_selected == (self.selection == Some(Selection { worktree_id: wid, entry_id: row.id }))
        &&& d.is_cut == (self.clipboard_entry is Some && self.clipboard_entry->0 is Cut
            && self.clipboard_entry->0.spec_entry_id() == row.id)
        &&& d.git_status == if show_git_status { row.git_status } else { None }
        &&& d.is_processing == (edited && edit.processing_filename is Some)
        &&& d.is_editing == (edited && edit.processing_filename is None)
        &&& d.filename@ == if edited && edit.processing_filename is Some {
            edit.processing_filename->0@
        } else if edited && edit.is_new_entry {
            Seq::<char>::empty()
        } else {
            name
        }
    }

    /// `item` is the id and the details of the row at index `f` of all the rows.
    pub open spec fn window_item_ok(&self, item: (ProjectEntryId, EntryDetails), f: int, show_git_status: bool) -> bool {
        let p = flat_position(self.rows(), f);
        &&& p is Some
        &&& item.0 == self.visible_entries@[pos_tree(p)].entries@[pos_row(p)].id
        &&& self.details_ok(item.1, pos_tree(p), pos_row(p), show_git_status)
    }

    /// What row `e` of tree `w` shows.
    pub(crate) fn entry_details(&self, w: usize, e: usize, show_git_status: bool) -> (r: EntryDetails)
        requires
            self.wf(),
            w < self.visible_entries@.len(),
            e < self.visible_entries@[w as int].entries@.len(),
        ensures
            self.details_ok(r, w as int, e as int, show_git_status),
    {
        let vw = &self.visible_entries[w];
        let entry = &vw.entries[e];
        assert(vw.worktree_id == self.worktrees@[w as int].id);
        let is_expanded = match table_index(&self.expanded_dir_ids, vw.worktree_id) {
            Some(t) => {
                proof {
                    lemma_expansion_at(self.expanded_dir_ids@, t as int);
                    assert(self.expanded_dir_ids@[t as int].wf());
                }
                self.expanded_dir_ids[t].contains(entry.id)
            },
            None => false,
        };
        let is_selected = match self.selection {
            Some(s) => s.worktree_id == vw.worktree_id && s.entry_id == entry.id,
            None => false,
        };
        let is_cut = match self.clipboard_entry {
            Some(c) => c.is_cut() && c.entry_id() == entry.id,
            None => false,
        };
        let n = entry.path.len();
        let mut filename = if n > 0 {
            entry.path[n - 1].clone()
        } else {
            self.worktrees[w].root_name.clone()
        };
        let mut is_editing = false;
        let mut is_processing = false;
        if let Some(edit) = &self.edit_state {
            let edited = if edit.is_new_entry {
                entry.id == NEW_ENTRY_ID
            } else {
                entry.id == edit.entry_id
            };
            if edited {
                match &edit.processing_filename {
                    Some(name) => {
                        is_processing = true;
                        filename = name.clone();
                    },
                    None => {
                        if edit.is_new_entry {
                            filename = String::new();
                        }
                        is_editing = true;
                    },
                }
            }
        }
        EntryDetails {
            filename,
            path: crate::entry::clone_path(&entry.path),
            depth: n,
            kind: entry.kind,
            is_ignored: entry.is_ignored,
            is_expanded,
            is_selected,
            is_editing,
            is_processing,
            is_cut,
            git_status: if show_git_status { entry.git_status } else { None },
        }
    }

    /// What the rows with indices in `[start, end)` of all the rows laid end
    /// to end show, with their ids, in order. Details are built only for
    /// those rows; the trees after the window are not walked.
    pub fn visible_entry_details(&self, start: usize, end: usize, show_git_status: bool) -> (r: Vec<(ProjectEntryId, EntryDetails)>)
        requires
            self.wf(),
        ensures
            r@.len() == window_len(flat_offset(self.rows(), self.rows().len() as int), start as int, end as int),
            forall|q: int| 0 <= q < r@.len() ==> self.window_item_ok(#[trigger] r@[q], start + q, show_git_status),
    {
        let ghost rows = self.rows();
        let n = self.visible_entries.len();
        let mut out: Vec<(ProjectEntryId, EntryDetails)> = Vec::new();
        let mut offset: usize = 0;
        let mut w: usize = 0;
        while w < n
            invariant
                self.wf(),
                rows == self.rows(),
                n == rows.len(),
                w <= n,
                offset == flat_offset(rows, w as int),
                out@.len() == window_len(offset as int, start as int, end as int),
                forall|q: int| 0 <= q < out@.len() ==> self.window_item_ok(#[trigger] out@[q], start + q, show_git_status),
            decreases n - w,
        {
            if offset >= end {
                proof {
                    lemma_flat_offset_mono(rows, w as int, n as int);
                }
                return out;
            }
            let len = self.visible_entries[w].entries.len();
            assert(rows[w as int] == entries_view(self.visible_entries@[w as int].entries@));
            let mut e: usize = 0;
            while e < len && e < end - offset
                invariant
                    self.wf(),
                    rows == self.rows(),
                    n == rows.len(),
                    w < n,
                    offset < end,
                    len == rows[w as int].len(),
                    len == self.visible_entries@[w as int].entries@.len(),
                    offset == flat_offset(rows, w as int),
                    e <= len,
                    e <= end - offset,
                    out@.len() == window_len(offset + e, start as int, end as int),
                    forall|q: int| 0 <= q < out@.len() ==> self.window_item_ok(#[trigger] out@[q], start + q, show_git_status),
                decreases len - e,
            {
                let f = offset + e;
                if f >= start {
                    let d = self.entry_details(w, e, show_git_status);
                    let id = self.visible_entries[w].entries[e].id;
                    proof {
                        lemma_flat_position_at(rows, w as int, e as int);
                    }
                    out.push((id, d));
                }
                e = e + 1;
            }
            if e < len {
                proof {
                    lemma_flat_offset_step(rows, w as int);
                    lemma_flat_offset_mono(rows, w + 1, n as int);
                }
                return out;
            }
            proof {
                lemma_flat_offset_step(rows, w as int);
            }
            offset = offset + len;
            w = w + 1;
        }
        out
    }
}

} // verus!
