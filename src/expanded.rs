use vstd::prelude::*;

verus! {

/// Strictly increasing: sorted and without duplicates.
pub open spec fn strictly_sorted(s: Seq<u64>) -> bool {
    forall|i: int, j: int| 0 <= i < j < s.len() ==> s[i] < s[j]
}

/// `s` with `x` added at its sorted place, unless it is already there.
pub open spec fn sorted_insert(s: Seq<u64>, x: u64) -> Seq<u64>
    decreases s.len(),
{
    if s.len() == 0 {
        seq![x]
    } else if s[0] == x {
        s
    } else if x < s[0] {
        seq![x] + s
    } else {
        seq![s[0]] + sorted_insert(s.drop_first(), x)
    }
}

/// `s` without `x`.
pub open spec fn sorted_remove(s: Seq<u64>, x: u64) -> Seq<u64>
    decreases s.len(),
{
    if s.len() == 0 {
        s
    } else if s[0] == x {
        s.drop_first()
    } else {
        seq![s[0]] + sorted_remove(s.drop_first(), x)
    }
}

proof fn lemma_insert_at(s: Seq<u64>, x: u64, p: int)
    requires
        strictly_sorted(s),
        0 <= p <= s.len(),
        forall|j: int| 0 <= j < p ==> s[j] < x,
        forall|j: int| p <= j < s.len() ==> s[j] > x,
    ensures
        sorted_insert(s, x) == s.insert(p, x),
    decreases s.len(),
{
    if s.len() == 0 {
        assert(s.insert(p, x) =~= seq![x]);
    } else if p == 0 {
        assert(s.insert(p, x) =~= seq![x] + s);
    } else {
        let t = s.drop_first();
        assert forall|j: int| 0 <= j < p - 1 implies t[j] < x by {
            assert(t[j] == s[j + 1]);
        }
        lemma_insert_at(t, x, p - 1);
        assert(s.insert(p, x) =~= seq![s[0]] + t.insert(p - 1, x));
    }
}

proof fn lemma_remove_at(s: Seq<u64>, p: int)
    requires
        strictly_sorted(s),
        0 <= p < s.len(),
    ensures
        sorted_remove(s, s[p]) == s.remove(p),
    decreases s.len(),
{
    if p == 0 {
        assert(s.remove(p) =~= s.drop_first());
    } else {
        let t = s.drop_first();
        assert(t[p - 1] == s[p]);
        lemma_remove_at(t, p - 1);
        assert(s.remove(p) =~= seq![s[0]] + t.remove(p - 1));
    }
}

proof fn lemma_remove_absent(s: Seq<u64>, x: u64)
    requires
        !s.contains(x),
    ensures
        sorted_remove(s, x) == s,
    decreases s.len(),
{
    if s.len() > 0 {
        assert(!s.drop_first().contains(x)) by {
            if s.drop_first().contains(x) {
                let j = choose|j: int| 0 <= j < s.drop_first().len() && s.drop_first()[j] == x;
                assert(s[j + 1] == x);
            }
        }
        assert(s[0] != x);
        lemma_remove_absent(s.drop_first(), x);
        assert(seq![s[0]] + s.drop_first() =~= s);
    }
}

/// Expanding a directory that was collapsed and then collapsing it again gives
/// back the expansion set that was there before.
pub proof fn lemma_expand_then_collapse(s: Seq<u64>, x: u64)
    requires
        strictly_sorted(s),
        !s.contains(x),
    ensures
        sorted_remove(sorted_insert(s, x), x) == s,
    decreases s.len(),
{
    if s.len() == 0 {
        assert(seq![x].drop_first() =~= s);
    } else if x < s[0] {
        assert((seq![x] + s).drop_first() =~= s);
    } else {
        let t = s.drop_first();
        assert(s[0] != x);
        assert(!t.contains(x)) by {
            if t.contains(x) {
                let j = choose|j: int| 0 <= j < t.len() && t[j] == x;
                assert(s[j + 1] == x);
            }
        }
        lemma_expand_then_collapse(t, x);
        let u = seq![s[0]] + sorted_insert(t, x);
        assert(u[0] == s[0]);
        assert(u.drop_first() =~= sorted_insert(t, x));
        assert(seq![s[0]] + t =~= s);
    }
}

/// `sorted_insert` adds exactly the one id.
pub proof fn lemma_sorted_insert_contains(s: Seq<u64>, x: u64, y: u64)
    ensures
        sorted_insert(s, x).contains(y) == (s.contains(y) || y == x),
    decreases s.len(),
{
    if s.len() == 0 {
        assert(seq![x][0] == x);
    } else if s[0] == x {
        if y == x {
            assert(s[0] == y);
        }
    } else if x < s[0] {
        let r = seq![x] + s;
        assert(r[0] == x);
        if s.contains(y) {
            let j = choose|j: int| 0 <= j < s.len() && s[j] == y;
            assert(r[j + 1] == y);
        }
        if r.contains(y) {
            let j = choose|j: int| 0 <= j < r.len() && r[j] == y;
            if j > 0 {
                assert(s[j - 1] == y);
            }
        }
    } else {
        let t = s.drop_first();
        lemma_sorted_insert_contains(t, x, y);
        let r = seq![s[0]] + sorted_insert(t, x);
        if s.contains(y) {
            let j = choose|j: int| 0 <= j < s.len() && s[j] == y;
            if j == 0 {
                assert(r[0] == y);
            } else {
                assert(t[j - 1] == y);
                let m = choose|m: int| 0 <= m < sorted_insert(t, x).len() && sorted_insert(t, x)[m] == y;
                assert(r[m + 1] == y);
            }
        }
        if y == x {
            let m = choose|m: int| 0 <= m < sorted_insert(t, x).len() && sorted_insert(t, x)[m] == y;
            assert(r[m + 1] == y);
        }
        if r.contains(y) {
            let j = choose|j: int| 0 <= j < r.len() && r[j] == y;
            if j == 0 {
                assert(s[0] == y);
            } else {
                assert(sorted_insert(t, x)[j - 1] == y);
                if t.contains(y) {
                    let m = choose|m: int| 0 <= m < t.len() && t[m] == y;
                    assert(s[m + 1] == y);
                }
            }
        }
    }
}

/// The expanded directories of one tree: ids in increasing order.
pub struct ExpandedDirs {
    pub worktree_id: u64,
    pub ids: Vec<u64>,
}

impl View for ExpandedDirs {
    type V = Seq<u64>;

    open spec fn view(&self) -> Seq<u64> {
        self.ids@
    }
}

impl ExpandedDirs {
    pub open spec fn wf(&self) -> bool {
        strictly_sorted(self@)
    }

    /// A table that holds the given ids.
    pub fn new(worktree_id: u64, initial: Option<u64>) -> (r: ExpandedDirs)
        ensures
            r.wf(),
            r.worktree_id == worktree_id,
            initial is None ==> r@ == Seq::<u64>::empty(),
            initial is Some ==> r@ == seq![initial->0],
    {
        let mut ids: Vec<u64> = Vec::new();
        if let Some(id) = initial {
            ids.push(id);
        }
        proof {
            if initial is None {
                assert(ids@ =~= Seq::<u64>::empty());
            } else {
                assert(ids@ =~= seq![initial->0]);
            }
        }
        ExpandedDirs { worktree_id, ids }
    }

    /// Position of `id`, or the position where it would be inserted.
    pub fn binary_search(&self, id: u64) -> (r: Result<usize, usize>)
        requires
            self.wf(),
        ensures
            r is Ok ==> r->Ok_0 < self@.len() && self@[r->Ok_0 as int] == id,
            r is Err ==> {
                let p = r->Err_0 as int;
                &&& p <= self@.len()
                &&& forall|j: int| 0 <= j < p ==> self@[j] < id
                &&& forall|j: int| p <= j < self@.len() ==> self@[j] > id
            },
    {
        let mut lo: usize = 0;
        let mut hi: usize = self.ids.len();
        while lo < hi
            invariant
                lo <= hi <= self.ids@.len(),
                strictly_sorted(self.ids@),
                forall|j: int| 0 <= j < lo ==> self.ids@[j] < id,
                forall|j: int| hi <= j < self.ids@.len() ==> self.ids@[j] > id,
            decreases hi - lo,
        {
            let mid = lo + (hi - lo) / 2;
            let v = self.ids[mid];
            if v == id {
                return Ok(mid);
            } else if v < id {
                lo = mid + 1;
            } else {
                hi = mid;
            }
        }
        Err(lo)
    }

    pub fn contains(&self, id: u64) -> (r: bool)
        requires
            self.wf(),
        ensures
            r == self@.contains(id),
    {
        match self.binary_search(id) {
            Ok(_) => true,
            Err(_) => {
                assert(!self@.contains(id)) by {
                    if self@.contains(id) {
                        let j = choose|j: int| 0 <= j < self@.len() && self@[j] == id;
                    }
                }
                false
            },
        }
    }

    /// Adds `id`; returns whether it was absent.
    pub fn insert(&mut self, id: u64) -> (r: bool)
        requires
            old(self).wf(),
        ensures
            final(self).wf(),
            final(self).worktree_id == old(self).worktree_id,
            final(self)@ == sorted_insert(old(self)@, id),
            r == !old(self)@.contains(id),
    {
        match self.binary_search(id) {
            Ok(ix) => {
                proof {
                    lemma_found_insert(self@, ix as int);
                }
                false
            },
            Err(ix) => {
                proof {
                    lemma_insert_at(self@, id, ix as int);
                }
                self.ids.insert(ix, id);
                assert(!old(self)@.contains(id)) by {
                    if old(self)@.contains(id) {
                        let j = choose|j: int| 0 <= j < old(self)@.len() && old(self)@[j] == id;
                    }
                }
                assert(strictly_sorted(self@)) by {
                    assert forall|i: int, j: int| 0 <= i < j < self@.len() implies self@[i] < self@[j] by {
                        if j < ix {
                        } else if j == ix {
                        } else if i < ix {
                        } else if i == ix {
                            assert(self@[j] == old(self)@[j - 1]);
                        } else {
                            assert(self@[j] == old(self)@[j - 1]);
                            assert(self@[i] == old(self)@[i - 1]);
                        }
                    }
                }
                true
            },
        }
    }

    /// Removes `id`; returns whether it was there.
    pub fn remove(&mut self, id: u64) -> (r: bool)
        requires
            old(self).wf(),
        ensures
            final(self).wf(),
            final(self).worktree_id == old(self).worktree_id,
            final(self)@ == sorted_remove(old(self)@, id),
            r == old(self)@.contains(id),
    {
        match self.binary_search(id) {
            Ok(ix) => {
                proof {
                    lemma_remove_at(self@, ix as int);
                }
                self.ids.remove(ix);
                assert(strictly_sorted(self@)) by {
                    assert forall|i: int, j: int| 0 <= i < j < self@.len() implies self@[i] < self@[j] by {
                        if i >= ix {
                            assert(self@[i] == old(self)@[i + 1]);
                        }
                        if j >= ix {
                            assert(self@[j] == old(self)@[j + 1]);
                        }
                    }
                }
                true
            },
            Err(_) => {
                assert(!old(self)@.contains(id)) by {
                    if old(self)@.contains(id) {
                        let j = choose|j: int| 0 <= j < old(self)@.len() && old(self)@[j] == id;
                    }
                }
                proof {
                    lemma_remove_absent(self@, id);
                }
                false
            },
        }
    }

    /// Removes every id.
    pub fn clear(&mut self)
        ensures
            final(self).wf(),
            final(self).worktree_id == old(self).worktree_id,
            final(self)@ == Seq::<u64>::empty(),
    {
        self.ids.clear();
    }
}

proof fn lemma_found_insert(s: Seq<u64>, p: int)
    requires
        strictly_sorted(s),
        0 <= p < s.len(),
    ensures
        sorted_insert(s, s[p]) == s,
    decreases s.len(),
{
    if p > 0 {
        let t = s.drop_first();
        assert(t[p - 1] == s[p]);
        assert(s[0] < s[p]);
        lemma_found_insert(t, p - 1);
        assert(seq![s[0]] + t =~= s);
    }
}

} // verus!
