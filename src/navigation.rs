//! Positions of rows, the selection's index, and moving the selection.

use vstd::prelude::*;
use crate::entry::{entries_view, EntryView, ProjectEntryId};
use crate::panel::{lemma_no_root, lemma_root_id_at, ProjectPanel, root_id, rows_view, Selection, VisibleWorktree};
use crate::worktree::Worktree;

verus! {

/// Number of rows in the first `k` trees.
pub open spec fn flat_offset(rows: Seq<Seq<EntryView>>, k: int) -> int
    decreases k,
{
    if k <= 0 || rows.len() == 0 {
        0
    } else {
        rows[0].len() + flat_offset(rows.drop_first(), k - 1)
    }
}

/// The row at position `f` of all the trees' rows laid end to end.
pub open spec fn flat_entry(rows: Seq<Seq<EntryView>>, f: int) -> Option<EntryView>
    decreases rows.len(),
{
    if rows.len() == 0 || f < 0 {
        None
    } else if f < rows[0].len() {
        Some(rows[0][f])
    } else {
        flat_entry(rows.drop_first(), f - rows[0].len())
    }
}

pub(crate) proof fn lemma_flat_offset_step(rows: Seq<Seq<EntryView>>, k: int)
    requires
        0 <= k < rows.len(),
    ensures
        flat_offset(rows, k + 1) == flat_offset(rows, k) + rows[k].len(),
        flat_offset(rows, k) >= 0,
    decreases k,
{
    let t = rows.drop_first();
    if k > 0 {
        lemma_flat_offset_step(t, k - 1);
        assert(t[k - 1] == rows[k]);
        assert(flat_offset(rows, k + 1) == rows[0].len() + flat_offset(t, k));
        assert(flat_offset(rows, k) == rows[0].len() + flat_offset(t, k - 1));
    } else {
        assert(flat_offset(t, 0) == 0);
        assert(flat_offset(rows, 1) == rows[0].len() + flat_offset(t, 0));
    }
}

pub(crate) proof fn lemma_flat_offset_mono(rows: Seq<Seq<EntryView>>, a: int, b: int)
    requires
        0 <= a <= b <= rows.len(),
    ensures
        flat_offset(rows, a) <= flat_offset(rows, b),
    decreases b - a,
{
    if a < b {
        lemma_flat_offset_step(rows, a);
        lemma_flat_offset_mono(rows, a + 1, b);
    }
}

/// The position that the index of a visible row gives leads back to that row.
pub proof fn lemma_flat_index_round_trip(rows: Seq<Seq<EntryView>>, w: int, e: int)
    requires
        0 <= w < rows.len(),
        0 <= e < rows[w].len(),
    ensures
        flat_entry(rows, flat_offset(rows, w) + e) == Some(rows[w][e]),
    decreases w,
{
    if w > 0 {
        lemma_flat_index_round_trip(rows.drop_first(), w - 1, e);
        lemma_flat_offset_step(rows.drop_first(), 0);
        assert(flat_offset(rows.drop_first(), w - 1) >= 0) by {
            if w - 1 > 0 {
                lemma_flat_offset_step(rows.drop_first(), w - 2);
            }
        }
    }
}

/// The selected entry stands at row `e` of the tree at `w`, the first tree
/// with the selection's tree id, and no earlier row there has its id.
pub open spec fn found_at(ve: Seq<VisibleWorktree>, sel: Selection, w: int, e: int) -> bool {
    &&& 0 <= w < ve.len()
    &&& ve[w].worktree_id == sel.worktree_id
    &&& forall|k: int| 0 <= k < w ==> ve[k].worktree_id != sel.worktree_id
    &&& 0 <= e < ve[w].entries@.len()
    &&& ve[w].entries@[e].id == sel.entry_id
    &&& forall|j: int| 0 <= j < e ==> ve[w].entries@[j].id != sel.entry_id
}

/// Where navigation starts from: the selection's position, or the very first
/// row when the selection is not among the rows.
pub open spec fn resolved(ve: Seq<VisibleWorktree>, sel: Selection) -> (int, int) {
    if exists|p: (int, int)| found_at(ve, sel, p.0, p.1) {
        choose|p: (int, int)| found_at(ve, sel, p.0, p.1)
    } else {
        (0, 0)
    }
}

/// Selection of row `e` of the tree at `w`, if there is such a row.
pub open spec fn selection_at(ve: Seq<VisibleWorktree>, w: int, e: int) -> Option<Selection> {
    if 0 <= w < ve.len() && 0 <= e < ve[w].entries@.len() {
        Some(Selection { worktree_id: ve[w].worktree_id, entry_id: ve[w].entries@[e].id })
    } else {
        None
    }
}

/// The row after row `e` of tree `w`, crossing into the next tree.
pub open spec fn next_after(ve: Seq<VisibleWorktree>, w: int, e: int) -> Option<Selection> {
    if 0 <= w < ve.len() {
        if e + 1 < ve[w].entries@.len() {
            selection_at(ve, w, e + 1)
        } else {
            selection_at(ve, w + 1, 0)
        }
    } else {
        selection_at(ve, w, e)
    }
}

/// The row before row `e` of tree `w`, crossing into the previous tree.
pub open spec fn prev_before(ve: Seq<VisibleWorktree>, w: int, e: int) -> Option<Selection> {
    if e > 0 {
        selection_at(ve, w, e - 1)
    } else if w > 0 && 0 < w < ve.len() + 1 {
        selection_at(ve, w - 1, ve[w - 1].entries@.len() - 1)
    } else {
        None
    }
}

pub(crate) proof fn lemma_found_unique(ve: Seq<VisibleWorktree>, sel: Selection, w: int, e: int)
    requires
        found_at(ve, sel, w, e),
    ensures
        resolved(ve, sel) == (w, e),
{
    let q = (w, e);
    assert(found_at(ve, sel, q.0, q.1));
    let p = choose|p: (int, int)| found_at(ve, sel, p.0, p.1);
    assert(found_at(ve, sel, p.0, p.1));
    if p.0 < w {
        assert(ve[p.0].worktree_id != sel.worktree_id);
    } else if p.0 > w {
        assert(ve[w].worktree_id != sel.worktree_id);
    }
    if p.1 < e {
        assert(ve[w].entries@[p.1].id != sel.entry_id);
    } else if p.1 > e {
        assert(ve[w].entries@[e].id != sel.entry_id);
    }
}

/// For a selection among the rows, the index that `index_for_selection`
/// gives for it leads back to the selected entry.
pub proof fn lemma_selection_index_round_trip(ve: Seq<VisibleWorktree>, sel: Selection, w: int, e: int, f: int)
    requires
        found_at(ve, sel, w, e),
        f == flat_offset(rows_view(ve), w) + e,
    ensures
        flat_entry(rows_view(ve), f) is Some,
        flat_entry(rows_view(ve), f)->0.id == sel.entry_id,
{
    let rows = rows_view(ve);
    assert(rows[w] == entries_view(ve[w].entries@));
    lemma_flat_index_round_trip(rows, w, e);
}

/// The first tree's root entry, the selection that navigation starts with.
pub open spec fn first_selection(worktrees: Seq<Worktree>) -> Option<Selection> {
    if worktrees.len() > 0 && root_id(worktrees[0]) is Some {
        Some(Selection { worktree_id: worktrees[0].id, entry_id: root_id(worktrees[0])->0 })
    } else {
        None
    }
}

impl ProjectPanel {
    /// Id of the entry at a position of all the rows laid end to end.
    pub fn entry_id_at(&self, ix: usize) -> (r: Option<ProjectEntryId>)
        ensures
            r is Some <==> flat_entry(self.rows(), ix as int) is Some,
            r is Some ==> r->0 == flat_entry(self.rows(), ix as int)->0.id,
    {
        let ghost all = self.rows();
        let mut rest: usize = ix;
        let mut k: usize = 0;
        assert(all.subrange(0, all.len() as int) =~= all);
        while k < self.visible_entries.len()
            invariant
                all == self.rows(),
                k <= all.len(),
                flat_entry(all, ix as int) == flat_entry(all.subrange(k as int, all.len() as int), rest as int),
            decreases all.len() - k,
        {
            let len = self.visible_entries[k].entries.len();
            proof {
                let sub = all.subrange(k as int, all.len() as int);
                assert(sub[0] == all[k as int]);
                assert(sub.drop_first() =~= all.subrange(k + 1, all.len() as int));
            }
            if rest < len {
                return Some(self.visible_entries[k].entries[rest].id);
            }
            rest = rest - len;
            k = k + 1;
        }
        None
    }

    /// Selects the first tree's root entry, if there is one.
    pub fn select_first(&mut self)
        requires
            old(self).wf(),
        ensures
            final(self).wf(),
            final(self).same_but_selection(*old(self)),
            final(self).selection == match first_selection(old(self).worktrees@) {
                Some(s) => Some(s),
                None => old(self).selection,
            },
    {
        if self.worktrees.len() > 0 {
            match self.worktrees[0].root_index() {
                Some(ri) => {
                    proof {
                        assert(self.worktrees@[0].wf());
                        lemma_root_id_at(self.worktrees@[0], ri as int);
                    }
                    let s = Selection { worktree_id: self.worktrees[0].id, entry_id: self.worktrees[0].entries[ri].id };
                    self.selection = Some(s);
                },
                None => {
                    proof {
                        lemma_no_root(self.worktrees@[0]);
                    }
                },
            }
        }
    }

    /// Moves the selection to the next row, into the next tree past the end of
    /// one; from nowhere, to the first tree's root.
    pub fn select_next(&mut self)
        requires
            old(self).wf(),
        ensures
            final(self).wf(),
            final(self).same_but_selection(*old(self)),
            final(self).selection == old(self).next_selection(),
    {
        match self.selection {
            None => self.select_first(),
            Some(sel) => {
                let (mut w, mut e) = match self.position_of(sel) {
                    Some((w, e)) => {
                        proof {
                            lemma_found_unique(self.visible_entries@, sel, w as int, e as int);
                        }
                        (w, e)
                    },
                    None => {
                        assert(!exists|p: (int, int)| found_at(self.visible_entries@, sel, p.0, p.1)) by {
                            if exists|p: (int, int)| found_at(self.visible_entries@, sel, p.0, p.1) {
                                let p = choose|p: (int, int)| found_at(self.visible_entries@, sel, p.0, p.1);
                                assert(!found_at(self.visible_entries@, sel, p.0, p.1));
                            }
                        }
                        (0, 0)
                    },
                };
                let ghost ve = self.visible_entries@;
                let ghost target = next_after(ve, w as int, e as int);
                if w < self.visible_entries.len() {
                    let len = self.visible_entries[w].entries.len();
                    if len > 0 && e < len - 1 {
                        e = e + 1;
                    } else {
                        w = w + 1;
                        e = 0;
                    }
                }
                if w < self.visible_entries.len() && e < self.visible_entries[w].entries.len() {
                    let s = Selection {
                        worktree_id: self.visible_entries[w].worktree_id,
                        entry_id: self.visible_entries[w].entries[e].id,
                    };
                    assert(target == Some(s));
                    self.selection = Some(s);
                } else {
                    assert(target is None);
                }
            },
        }
    }

    /// Moves the selection to the previous row, into the previous tree's last
    /// row before the start of one; from nowhere, to the first tree's root.
    pub fn select_prev(&mut self)
        requires
            old(self).wf(),
        ensures
            final(self).wf(),
            final(self).same_but_selection(*old(self)),
            final(self).selection == match old(self).selection {
                None => match first_selection(old(self).worktrees@) {
                    Some(s) => Some(s),
                    None => old(self).selection,
                },
                Some(sel) => {
                    let p = resolved(old(self).visible_entries@, sel);
                    match prev_before(old(self).visible_entries@, p.0, p.1) {
                        Some(s) => Some(s),
                        None => old(self).selection,
                    }
                },
            },
    {
        match self.selection {
            None => self.select_first(),
            Some(sel) => {
                let (w, e) = match self.position_of(sel) {
                    Some((w, e)) => {
                        proof {
                            lemma_found_unique(self.visible_entries@, sel, w as int, e as int);
                        }
                        (w, e)
                    },
                    None => {
                        assert(!exists|p: (int, int)| found_at(self.visible_entries@, sel, p.0, p.1)) by {
                            if exists|p: (int, int)| found_at(self.visible_entries@, sel, p.0, p.1) {
                                let p = choose|p: (int, int)| found_at(self.visible_entries@, sel, p.0, p.1);
                                assert(!found_at(self.visible_entries@, sel, p.0, p.1));
                            }
                        }
                        (0, 0)
                    },
                };
                let ghost ve = self.visible_entries@;
                let ghost target = prev_before(ve, w as int, e as int);
                if e > 0 {
                    let s = Selection {
                        worktree_id: self.visible_entries[w].worktree_id,
                        entry_id: self.visible_entries[w].entries[e - 1].id,
                    };
                    assert(target == Some(s));
                    self.selection = Some(s);
                } else if w > 0 && w <= self.visible_entries.len() {
                    let len = self.visible_entries[w - 1].entries.len();
                    if len > 0 {
                        let s = Selection {
                            worktree_id: self.visible_entries[w - 1].worktree_id,
                            entry_id: self.visible_entries[w - 1].entries[len - 1].id,
                        };
                        assert(target == Some(s));
                        self.selection = Some(s);
                    } else {
                        assert(target is None);
                    }
                } else {
                    assert(target is None);
                }
            },
        }
    }

    /// What `select_next` selects.
    pub open spec fn next_selection(&self) -> Option<Selection> {
        match self.selection {
            None => match first_selection(self.worktrees@) {
                Some(s) => Some(s),
                None => self.selection,
            },
            Some(sel) => {
                let p = resolved(self.visible_entries@, sel);
                match next_after(self.visible_entries@, p.0, p.1) {
                    Some(s) => Some(s),
                    None => self.selection,
                }
            },
        }
    }

    /// Position of the selected entry among the rows.
    pub fn position_of(&self, sel: Selection) -> (r: Option<(usize, usize)>)
        ensures
            match r {
                Some((w, e)) => found_at(self.visible_entries@, sel, w as int, e as int),
                None => forall|w: int, e: int| !found_at(self.visible_entries@, sel, w, e),
            },
    {
        let ghost ve = self.visible_entries@;
        let n = self.visible_entries.len();
        let mut k: usize = 0;
        while k < n
            invariant
                n == ve.len(),
                ve == self.visible_entries@,
                k <= n,
                forall|j: int| 0 <= j < k ==> ve[j].worktree_id != sel.worktree_id,
            decreases n - k,
        {
            let vw = &self.visible_entries[k];
            if vw.worktree_id == sel.worktree_id {
                let m = vw.entries.len();
                let mut i: usize = 0;
                while i < m
                    invariant
                        m == vw.entries@.len(),
                        *vw == ve[k as int],
                        ve == self.visible_entries@,
                        k < n,
                        n == ve.len(),
                        ve[k as int].worktree_id == sel.worktree_id,
                        forall|j: int| 0 <= j < k ==> ve[j].worktree_id != sel.worktree_id,
                        i <= m,
                        forall|j: int| 0 <= j < i ==> vw.entries@[j].id != sel.entry_id,
                    decreases m - i,
                {
                    if vw.entries[i].id == sel.entry_id {
                        return Some((k, i));
                    }
                    i = i + 1;
                }
                assert forall|w: int, e: int| !found_at(ve, sel, w, e) by {
                    if found_at(ve, sel, w, e) {
                        if w > k {
                            assert(ve[k as int].worktree_id != sel.worktree_id);
                        }
                    }
                }
                return None;
            }
            k = k + 1;
        }
        None
    }

    /// The selected position and its index in all the rows laid end to end;
    /// `None` when the selection is not among the rows, or its index does not
    /// fit in a `usize`.
    pub fn index_for_selection(&self, sel: Selection) -> (r: Option<(usize, usize, usize)>)
        ensures
            match r {
                Some((w, e, f)) => found_at(self.visible_entries@, sel, w as int, e as int)
                    && f == flat_offset(self.rows(), w as int) + e,
                None => forall|w: int, e: int| found_at(self.visible_entries@, sel, w, e)
                    ==> flat_offset(self.rows(), w) + e > usize::MAX,
            },
    {
        let ghost rows = self.rows();
        match self.position_of(sel) {
            None => None,
            Some((w, e)) => {
                let mut offset: usize = 0;
                let mut k: usize = 0;
                while k < w
                    invariant
                        w < self.visible_entries@.len(),
                        found_at(self.visible_entries@, sel, w as int, e as int),
                        rows == self.rows(),
                        k <= w,
                        offset == flat_offset(rows, k as int),
                    decreases w - k,
                {
                    proof {
                        lemma_flat_offset_step(rows, k as int);
                    }
                    let len = self.visible_entries[k].entries.len();
                    match offset.checked_add(len) {
                        Some(o) => { offset = o; },
                        None => {
                            proof {
                                lemma_flat_offset_mono(rows, k + 1, w as int);
                                lemma_found_unique(self.visible_entries@, sel, w as int, e as int);
                                assert forall|w2: int, e2: int| found_at(self.visible_entries@, sel, w2, e2)
                                    implies flat_offset(self.rows(), w2) + e2 > usize::MAX by {
                                    lemma_found_unique(self.visible_entries@, sel, w2, e2);
                                }
                            }
                            return None;
                        },
                    }
                    k = k + 1;
                }
                match offset.checked_add(e) {
                    Some(f) => Some((w, e, f)),
                    None => {
                        proof {
                            assert forall|w2: int, e2: int| found_at(self.visible_entries@, sel, w2, e2)
                                implies flat_offset(self.rows(), w2) + e2 > usize::MAX by {
                                lemma_found_unique(self.visible_entries@, sel, w2, e2);
                                lemma_found_unique(self.visible_entries@, sel, w as int, e as int);
                            }
                        }
                        None
                    },
                }
            },
        }
    }

    /// The index of all the rows laid end to end to scroll to: the selection's.
    pub fn autoscroll(&self) -> (r: Option<usize>)
        ensures
            self.selection is None ==> r is None,
            self.selection is Some ==> match r {
                Some(f) => exists|w: int, e: int| found_at(self.visible_entries@, self.selection->0, w, e)
                    && f == flat_offset(self.rows(), w) + e,
                None => forall|w: int, e: int| found_at(self.visible_entries@, self.selection->0, w, e)
                    ==> flat_offset(self.rows(), w) + e > usize::MAX,
            },
    {
        match self.selection {
            Some(sel) => match self.index_for_selection(sel) {
                Some((_, _, f)) => Some(f),
                None => None,
            },
            None => None,
        }
    }
}

} // verus!
