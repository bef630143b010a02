use vstd::prelude::*;
use crate::entry::{
    entries_view, is_proper_prefix, path_eq, proper_prefix, Entry, EntryKind, EntryView,
    GitFileStatus, ProjectEntryId, WorktreeId, NEW_ENTRY_ID,
};

verus! {

/// A snapshot of one mounted directory tree, as the file system layer hands it
/// over: its entries in any order.
pub struct Worktree {
    pub id: WorktreeId,
    pub root_name: String,
    pub abs_path: String,
    pub entries: Vec<Entry>,
}

/// Some file below `dir` has the status `st`.
pub open spec fn descendant_file_has(es: Seq<EntryView>, dir: Seq<Seq<char>>, st: GitFileStatus) -> bool {
    exists|i: int|
        0 <= i < es.len() && es[i].kind == EntryKind::File && proper_prefix(dir, es[i].path)
            && es[i].git_status == Some(st)
}

/// Status of a directory: the most severe status among the files below it.
pub open spec fn aggregate_status(es: Seq<EntryView>, dir: Seq<Seq<char>>) -> Option<GitFileStatus> {
    if descendant_file_has(es, dir, GitFileStatus::Conflict) {
        Some(GitFileStatus::Conflict)
    } else if descendant_file_has(es, dir, GitFileStatus::Modified) {
        Some(GitFileStatus::Modified)
    } else if descendant_file_has(es, dir, GitFileStatus::Added) {
        Some(GitFileStatus::Added)
    } else {
        None
    }
}

pub open spec fn index_of_id(es: Seq<EntryView>, id: ProjectEntryId, i: int) -> bool {
    0 <= i < es.len() && es[i].id == id
}

pub open spec fn has_id(es: Seq<EntryView>, id: ProjectEntryId) -> bool {
    exists|i: int| index_of_id(es, id, i)
}

pub open spec fn has_path(es: Seq<EntryView>, path: Seq<Seq<char>>) -> bool {
    exists|i: int| 0 <= i < es.len() && es[i].path == path
}

impl Worktree {
    pub open spec fn view_entries(&self) -> Seq<EntryView> {
        entries_view(self.entries@)
    }

    /// Ids are unique and never the placeholder's; paths are unique.
    pub open spec fn wf(&self) -> bool {
        &&& forall|i: int| 0 <= i < self.entries@.len() ==> self.entries@[i].id != NEW_ENTRY_ID
        &&& forall|i: int, j: int|
            0 <= i < j < self.entries@.len() ==> self.entries@[i].id != self.entries@[j].id
        &&& forall|i: int, j: int|
            0 <= i < j < self.entries@.len() ==> self.entries@[i]@.path != self.entries@[j]@.path
    }

    /// Position of the entry with the given id.
    pub fn index_for_id(&self, id: ProjectEntryId) -> (r: Option<usize>)
        ensures
            r is Some ==> index_of_id(self.view_entries(), id, r->0 as int),
            r is None ==> !has_id(self.view_entries(), id),
    {
        let mut i: usize = 0;
        while i < self.entries.len()
            invariant
                i <= self.entries@.len(),
                forall|j: int| 0 <= j < i ==> self.entries@[j].id != id,
            decreases self.entries@.len() - i,
        {
            if self.entries[i].id == id {
                return Some(i);
            }
            i = i + 1;
        }
        assert(!has_id(self.view_entries(), id)) by {
            if has_id(self.view_entries(), id) {
                let j = choose|j: int| index_of_id(self.view_entries(), id, j);
                assert(self.entries@[j].id == id);
            }
        }
        None
    }

    /// Position of the entry with the given path.
    pub fn index_for_path(&self, path: &Vec<String>) -> (r: Option<usize>)
        ensures
            r is Some ==> r->0 < self.entries@.len() && self.entries@[r->0 as int]@.path == path.deep_view(),
            r is None ==> !has_path(self.view_entries(), path.deep_view()),
    {
        let mut i: usize = 0;
        while i < self.entries.len()
            invariant
                i <= self.entries@.len(),
                forall|j: int| 0 <= j < i ==> self.entries@[j]@.path != path.deep_view(),
            decreases self.entries@.len() - i,
        {
            if path_eq(&self.entries[i].path, path) {
                return Some(i);
            }
            i = i + 1;
        }
        assert(!has_path(self.view_entries(), path.deep_view())) by {
            if has_path(self.view_entries(), path.deep_view()) {
                let j = choose|j: int|
                    0 <= j < self.view_entries().len() && self.view_entries()[j].path == path.deep_view();
                assert(self.entries@[j]@.path == path.deep_view());
            }
        }
        None
    }

    /// Position of the root entry, the one with the empty path.
    pub fn root_index(&self) -> (r: Option<usize>)
        ensures
            r is Some ==> r->0 < self.entries@.len() && self.entries@[r->0 as int]@.path.len() == 0,
            r is None ==> !has_path(self.view_entries(), Seq::<Seq<char>>::empty()),
    {
        let empty: Vec<String> = Vec::new();
        let r = self.index_for_path(&empty);
        assert(empty.deep_view() =~= Seq::<Seq<char>>::empty());
        r
    }

    /// Status of a directory, from the files below it. The file system layer
    /// that owns the snapshots offers this aggregation too; it is not a
    /// dependency of this library, so the snapshot computes it from its own
    /// entries, by the rule that `aggregate_status` states.
    pub fn aggregate_git_status(&self, dir: &Vec<String>) -> (r: Option<GitFileStatus>)
        ensures
            r == aggregate_status(self.view_entries(), dir.deep_view()),
    {
        let ghost es = self.view_entries();
        let ghost d = dir.deep_view();
        let mut conflict = false;
        let mut modified = false;
        let mut added = false;
        let mut i: usize = 0;
        while i < self.entries.len()
            invariant
                es == self.view_entries(),
                d == dir.deep_view(),
                i <= self.entries@.len(),
                conflict == descendant_file_has(es.subrange(0, i as int), d, GitFileStatus::Conflict),
                modified == descendant_file_has(es.subrange(0, i as int), d, GitFileStatus::Modified),
                added == descendant_file_has(es.subrange(0, i as int), d, GitFileStatus::Added),
            decreases self.entries@.len() - i,
        {
            let e = &self.entries[i];
            let below = e.is_file() && is_proper_prefix(dir, &e.path);
            let ghost pre = es.subrange(0, i as int);
            let ghost next = es.subrange(0, i + 1);
            assert(next =~= pre.push(es[i as int]));
            if below {
                match e.git_status {
                    Some(GitFileStatus::Conflict) => { conflict = true; },
                    Some(GitFileStatus::Modified) => { modified = true; },
                    Some(GitFileStatus::Added) => { added = true; },
                    None => {},
                }
            }
            proof {
                assert forall|st: GitFileStatus| #[trigger] descendant_file_has(next, d, st)
                    == (descendant_file_has(pre, d, st) || (below && es[i as int].git_status == Some(st))) by {
                    if descendant_file_has(next, d, st) {
                        let j = choose|j: int| 0 <= j < next.len() && next[j].kind == EntryKind::File
                            && proper_prefix(d, next[j].path) && next[j].git_status == Some(st);
                        if j < i {
                            assert(pre[j] == next[j]);
                        }
                    }
                    if descendant_file_has(pre, d, st) {
                        let j = choose|j: int| 0 <= j < pre.len() && pre[j].kind == EntryKind::File
                            && proper_prefix(d, pre[j].path) && pre[j].git_status == Some(st);
                        assert(next[j] == pre[j]);
                    }
                    if below && es[i as int].git_status == Some(st) {
                        assert(next[i as int] == es[i as int]);
                    }
                }
            }
            i = i + 1;
        }
        assert(es.subrange(0, i as int) =~= es);
        if conflict {
            Some(GitFileStatus::Conflict)
        } else if modified {
            Some(GitFileStatus::Modified)
        } else if added {
            Some(GitFileStatus::Added)
        } else {
            None
        }
    }
}

} // verus!
