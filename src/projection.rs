use vstd::prelude::*;
use crate::entry::{
    entries_view, proper_prefix, Entry, EntryKind, EntryView, ProjectEntryId, NEW_ENTRY_ID,
};
use crate::expanded::ExpandedDirs;
use crate::sort_key::{
    component_key, folded_case, key_le, lemma_lex_antisymmetric, lemma_lex_common_prefix,
    lemma_lex_total, lemma_lex_trans, lemma_name_key_injective, lex_le, make_path_key, name_key,
    names_in_order, path_key,
};
use crate::worktree::{aggregate_status, has_path, Worktree};

verus! {

broadcast use {
    vstd::seq_lib::to_multiset_insert,
    vstd::seq_lib::to_multiset_remove,
    vstd::seq_lib::to_multiset_build,
    vstd::seq_lib::to_multiset_len,
    vstd::seq_lib::to_multiset_contains,
};

/// A new entry being created inside the directory `anchor`.
#[derive(Clone, Copy, Debug, PartialEq, Eq, Structural)]
pub struct NewEntry {
    pub anchor: ProjectEntryId,
    pub is_dir: bool,
}

/// An entry is shown when every directory above it is expanded.
pub open spec fn is_visible(es: Seq<EntryView>, expanded: Seq<u64>, e: EntryView) -> bool {
    forall|j: int|
        0 <= j < es.len() && proper_prefix(es[j].path, e.path) ==> #[trigger] expanded.contains(es[j].id)
}

/// The entry as shown: a directory carries the aggregated status of its files.
pub open spec fn with_status(es: Seq<EntryView>, e: EntryView) -> EntryView {
    if e.kind == EntryKind::Dir {
        EntryView { git_status: aggregate_status(es, e.path), ..e }
    } else {
        e
    }
}

/// The placeholder row of an entry being created inside `anchor`.
pub open spec fn placeholder_of(anchor: EntryView, is_dir: bool) -> EntryView {
    EntryView {
        id: NEW_ENTRY_ID,
        kind: if is_dir { EntryKind::Dir } else { EntryKind::File },
        path: anchor.path.push(seq!['\0']),
        is_ignored: false,
        git_status: anchor.git_status,
    }
}

/// The rows of the first `n` entries of a tree, in the tree's order: the visible
/// entries, each followed by the placeholder when it is the anchor of a new entry.
pub open spec fn collected(
    es: Seq<EntryView>,
    expanded: Seq<u64>,
    new_entry: Option<NewEntry>,
    n: int,
) -> Seq<EntryView>
    decreases n,
{
    if n <= 0 {
        seq![]
    } else {
        let prev = collected(es, expanded, new_entry, n - 1);
        let e = es[n - 1];
        if is_visible(es, expanded, e) {
            let with_e = prev.push(with_status(es, e));
            if new_entry is Some && new_entry->0.anchor == e.id {
                with_e.push(with_status(es, placeholder_of(e, new_entry->0.is_dir)))
            } else {
                with_e
            }
        } else {
            prev
        }
    }
}

/// Sort key of a row.
pub open spec fn entry_key(e: EntryView) -> Seq<u64> {
    path_key(e.path, e.kind == EntryKind::File, e.id == NEW_ENTRY_ID)
}

pub open spec fn sorted_by_key(rows: Seq<EntryView>) -> bool {
    forall|i: int, j: int| 0 <= i < j < rows.len() ==> lex_le(entry_key(rows[i]), entry_key(rows[j]))
}

/// The projection of one tree: exactly the rows it shows (none before it has
/// a root entry), the root first, sorted by key, and rows with equal keys
/// (siblings whose names fold alike) in the tree's order.
pub open spec fn is_projection(
    rows: Seq<EntryView>,
    es: Seq<EntryView>,
    expanded: Seq<u64>,
    new_entry: Option<NewEntry>,
) -> bool {
    &&& rows.to_multiset() == shown_rows(es, expanded, new_entry).to_multiset()
    &&& !has_path(es, seq![]) ==> rows.len() == 0
    &&& rows.len() > 0 ==> rows[0].path.len() == 0
    &&& sorted_by_key(rows)
    &&& exists|src: Seq<int>| stable_rearrangement(rows, shown_rows(es, expanded, new_entry), src)
}

/// `out` holds the rows of `rows` rearranged: its row `k` is the row
/// `src[k]` of `rows`, no row is taken twice, and rows with equal keys keep
/// their order.
pub open spec fn stable_rearrangement(out: Seq<EntryView>, rows: Seq<EntryView>, src: Seq<int>) -> bool {
    &&& src.len() == out.len()
    &&& forall|k: int| 0 <= k < out.len() ==> 0 <= #[trigger] src[k] < rows.len() && out[k] == rows[src[k]]
    &&& forall|a: int, b: int| 0 <= a < b < out.len() ==> src[a] != src[b]
    &&& forall|a: int, b: int|
        0 <= a < b < out.len() && entry_key(out[a]) == entry_key(out[b]) ==> src[a] < src[b]
}

proof fn lemma_collected_contains(
    es: Seq<EntryView>,
    expanded: Seq<u64>,
    new_entry: Option<NewEntry>,
    n: int,
    j: int,
)
    requires
        0 <= j < n <= es.len(),
        is_visible(es, expanded, es[j]),
    ensures
        collected(es, expanded, new_entry, n).contains(with_status(es, es[j])),
    decreases n,
{
    let prev = collected(es, expanded, new_entry, n - 1);
    let x = with_status(es, es[j]);
    if j < n - 1 {
        lemma_collected_contains(es, expanded, new_entry, n - 1, j);
        let q = choose|q: int| 0 <= q < prev.len() && prev[q] == x;
        let with_e = prev.push(with_status(es, es[n - 1]));
        assert(with_e[q] == x);
        if new_entry is Some && new_entry->0.anchor == es[n - 1].id {
            assert(with_e.push(with_status(es, placeholder_of(es[n - 1], new_entry->0.is_dir)))[q] == x);
        }
    } else {
        let with_e = prev.push(x);
        assert(with_e[prev.len() as int] == x);
        if new_entry is Some && new_entry->0.anchor == es[n - 1].id {
            assert(with_e.push(with_status(es, placeholder_of(es[n - 1], new_entry->0.is_dir)))[prev.len() as int] == x);
        }
    }
}

proof fn lemma_path_key_nonempty(path: Seq<Seq<char>>, is_file: bool, is_placeholder: bool)
    requires
        path.len() > 0,
    ensures
        path_key(path, is_file, is_placeholder).len() > 0,
{
    assert(component_key(path.last(), is_file, is_placeholder).len() >= 2);
}

/// The rows that a tree shows, in the tree's order: none until the tree has
/// a root entry, else the collected rows of all its entries.
pub open spec fn shown_rows(es: Seq<EntryView>, expanded: Seq<u64>, new_entry: Option<NewEntry>) -> Seq<EntryView> {
    if has_path(es, seq![]) {
        collected(es, expanded, new_entry, es.len() as int)
    } else {
        seq![]
    }
}

/// Two rows of a sorted projection that lie in the same directory: a
/// subdirectory never follows a file, two rows of the same kind come in
/// case-insensitive order of their names, strictly when their folded names
/// differ, and the placeholder of a new entry comes before every real entry
/// of its kind there. The placeholder's key does not depend on its name, so
/// this last order holds whatever its name folds to.
pub proof fn lemma_siblings_in_order(rows: Seq<EntryView>, i: int, j: int)
    requires
        sorted_by_key(rows),
        0 <= i < j < rows.len(),
        rows[i].path.len() > 0,
        rows[j].path.len() > 0,
        rows[i].path.drop_last() == rows[j].path.drop_last(),
    ensures
        !(rows[i].kind == EntryKind::File && rows[j].kind == EntryKind::Dir),
        rows[i].id != NEW_ENTRY_ID && rows[j].id != NEW_ENTRY_ID && rows[i].kind == rows[j].kind
            ==> names_in_order(rows[i].path.last(), rows[j].path.last()),
        rows[i].id != NEW_ENTRY_ID && rows[j].id == NEW_ENTRY_ID ==> rows[i].kind == EntryKind::Dir
            && rows[j].kind == EntryKind::File,
        rows[i].id != NEW_ENTRY_ID && rows[j].id != NEW_ENTRY_ID && rows[i].kind == rows[j].kind
            && folded_case(rows[i].path.last()) != folded_case(rows[j].path.last())
            ==> !names_in_order(rows[j].path.last(), rows[i].path.last()),
{
    let a = rows[i];
    let b = rows[j];
    let fa = a.kind == EntryKind::File;
    let fb = b.kind == EntryKind::File;
    let pa = a.id == NEW_ENTRY_ID;
    let pb = b.id == NEW_ENTRY_ID;
    let prefix = path_key(a.path.drop_last(), false, false);
    let ca = component_key(a.path.last(), fa, pa);
    let cb = component_key(b.path.last(), fb, pb);
    assert(lex_le(entry_key(a), entry_key(b)));
    lemma_lex_common_prefix(prefix, ca, cb);
    assert(lex_le(ca, cb));
    if fa == fb {
        assert(ca[0] == cb[0]);
        assert(lex_le(ca.drop_first(), cb.drop_first()));
        if !pa && pb {
            assert(ca.drop_first()[0] == 1u64);
            assert(cb.drop_first()[0] == 0u64);
        }
        if !pa && !pb {
            assert(lex_le(ca.drop_first().drop_first(), cb.drop_first().drop_first()));
        }
    }
    if !pa && !pb && fa == fb {
        let na = name_key(folded_case(a.path.last()));
        let nb = name_key(folded_case(b.path.last()));
        assert(ca.drop_first().drop_first() =~= na);
        assert(cb.drop_first().drop_first() =~= nb);
        if folded_case(a.path.last()) != folded_case(b.path.last()) && lex_le(nb, na) {
            lemma_lex_antisymmetric(na, nb);
            lemma_name_key_injective(folded_case(a.path.last()), folded_case(b.path.last()));
        }
    }
}

/// Number of placeholder rows.
pub open spec fn count_new(s: Seq<EntryView>) -> nat
    decreases s.len(),
{
    if s.len() == 0 {
        0
    } else {
        count_new(s.drop_last()) + if s.last().id == NEW_ENTRY_ID {
            1nat
        } else {
            0nat
        }
    }
}

proof fn lemma_count_remove(s: Seq<EntryView>, i: int)
    requires
        0 <= i < s.len(),
    ensures
        count_new(s) == count_new(s.remove(i)) + if s[i].id == NEW_ENTRY_ID {
            1nat
        } else {
            0nat
        },
    decreases s.len(),
{
    if i == s.len() - 1 {
        assert(s.remove(i) =~= s.drop_last());
    } else {
        lemma_count_remove(s.drop_last(), i);
        assert(s.remove(i).drop_last() =~= s.drop_last().remove(i));
        assert(s.remove(i).last() == s.last());
    }
}

/// Rows that are the same up to order hold as many placeholders.
proof fn lemma_count_permutation(a: Seq<EntryView>, b: Seq<EntryView>)
    requires
        a.to_multiset() == b.to_multiset(),
    ensures
        count_new(a) == count_new(b),
    decreases a.len(),
{
    if a.len() == 0 {
        assert(a.to_multiset().len() == a.len());
        assert(b.to_multiset().len() == b.len());
        assert(b.len() == 0);
    } else {
        let x = a.last();
        assert(a.drop_last().push(x) =~= a);
        assert(b.to_multiset().count(x) > 0);
        assert(b.contains(x));
        let j = choose|j: int| 0 <= j < b.len() && b[j] == x;
        assert(b.remove(j).to_multiset() =~= a.drop_last().to_multiset());
        lemma_count_permutation(a.drop_last(), b.remove(j));
        lemma_count_remove(b, j);
    }
}

proof fn lemma_two_placeholders(s: Seq<EntryView>, i: int, j: int)
    requires
        0 <= i < j < s.len(),
        s[i].id == NEW_ENTRY_ID,
        s[j].id == NEW_ENTRY_ID,
    ensures
        count_new(s) >= 2,
{
    lemma_count_remove(s, j);
    let t = s.remove(j);
    assert(t[i] == s[i]);
    lemma_count_remove(t, i);
}

/// The anchor of the new entry is among the first `n` entries and is shown.
pub open spec fn anchor_shown(es: Seq<EntryView>, expanded: Seq<u64>, new_entry: Option<NewEntry>, n: int) -> bool {
    new_entry is Some && exists|j: int|
        0 <= j < n && es[j].id == new_entry->0.anchor && is_visible(es, expanded, #[trigger] es[j])
}

proof fn lemma_count_positive(s: Seq<EntryView>)
    requires
        count_new(s) > 0,
    ensures
        exists|i: int| 0 <= i < s.len() && s[i].id == NEW_ENTRY_ID,
    decreases s.len(),
{
    if s.last().id != NEW_ENTRY_ID {
        lemma_count_positive(s.drop_last());
        let i = choose|i: int| 0 <= i < s.drop_last().len() && s.drop_last()[i].id == NEW_ENTRY_ID;
        assert(s[i] == s.drop_last()[i]);
    } else {
        assert(s[s.len() - 1].id == NEW_ENTRY_ID);
    }
}

proof fn lemma_collected_count(
    es: Seq<EntryView>,
    expanded: Seq<u64>,
    new_entry: Option<NewEntry>,
    n: int,
)
    requires
        0 <= n <= es.len(),
        forall|i: int| 0 <= i < es.len() ==> es[i].id != NEW_ENTRY_ID,
        forall|i: int, j: int| 0 <= i < j < es.len() ==> es[i].id != es[j].id,
    ensures
        count_new(collected(es, expanded, new_entry, n)) <= 1,
        new_entry is None ==> count_new(collected(es, expanded, new_entry, n)) == 0,
        count_new(collected(es, expanded, new_entry, n)) == 1 <==> anchor_shown(es, expanded, new_entry, n),
    decreases n,
{
    if n > 0 {
        lemma_collected_count(es, expanded, new_entry, n - 1);
        let prev = collected(es, expanded, new_entry, n - 1);
        let e = es[n - 1];
        if is_visible(es, expanded, e) {
            let with_e = prev.push(with_status(es, e));
            assert(with_e.drop_last() == prev);
            assert(count_new(with_e) == count_new(prev));
            if new_entry is Some && new_entry->0.anchor == e.id {
                let full = with_e.push(with_status(es, placeholder_of(e, new_entry->0.is_dir)));
                assert(full.drop_last() == with_e);
                if count_new(prev) == 1 {
                    let j = choose|j: int|
                        0 <= j < n - 1 && es[j].id == new_entry->0.anchor && is_visible(es, expanded, #[trigger] es[j]);
                    assert(es[j].id != es[n - 1].id);
                }
            }
        }
        if anchor_shown(es, expanded, new_entry, n - 1) {
            let j = choose|j: int|
                0 <= j < n - 1 && es[j].id == new_entry->0.anchor && is_visible(es, expanded, #[trigger] es[j]);
            assert(anchor_shown(es, expanded, new_entry, n));
        }
        if anchor_shown(es, expanded, new_entry, n) && !anchor_shown(es, expanded, new_entry, n - 1) {
            let j = choose|j: int|
                0 <= j < n && es[j].id == new_entry->0.anchor && is_visible(es, expanded, #[trigger] es[j]);
            assert(j == n - 1);
        }
    } else {
        assert(!anchor_shown(es, expanded, new_entry, 0));
    }
}

/// A projection holds at most one placeholder row, and none when no entry is
/// being created in its tree; it holds one exactly when the tree has a root
/// and the anchor of the new entry is one of the tree's shown entries.
pub proof fn lemma_projection_placeholders(
    rows: Seq<EntryView>,
    es: Seq<EntryView>,
    expanded: Seq<u64>,
    new_entry: Option<NewEntry>,
)
    requires
        is_projection(rows, es, expanded, new_entry),
        forall|i: int| 0 <= i < es.len() ==> es[i].id != NEW_ENTRY_ID,
        forall|i: int, j: int| 0 <= i < j < es.len() ==> es[i].id != es[j].id,
    ensures
        forall|i: int, j: int|
            0 <= i < rows.len() && 0 <= j < rows.len() && rows[i].id == NEW_ENTRY_ID && rows[j].id
                == NEW_ENTRY_ID ==> i == j,
        new_entry is None ==> forall|i: int| 0 <= i < rows.len() ==> rows[i].id != NEW_ENTRY_ID,
        (exists|i: int| 0 <= i < rows.len() && rows[i].id == NEW_ENTRY_ID) <==> has_path(es, seq![])
            && anchor_shown(es, expanded, new_entry, es.len() as int),
{
    lemma_collected_count(es, expanded, new_entry, es.len() as int);
    lemma_count_permutation(rows, shown_rows(es, expanded, new_entry));
    assert(count_new(Seq::<EntryView>::empty()) == 0);
    assert forall|i: int, j: int|
        0 <= i < rows.len() && 0 <= j < rows.len() && rows[i].id == NEW_ENTRY_ID && rows[j].id
            == NEW_ENTRY_ID implies i == j by {
        if i < j {
            lemma_two_placeholders(rows, i, j);
        } else if j < i {
            lemma_two_placeholders(rows, j, i);
        }
    }
    assert forall|i: int| 0 <= i < rows.len() && new_entry is None implies rows[i].id != NEW_ENTRY_ID by {
        if rows[i].id == NEW_ENTRY_ID {
            lemma_count_remove(rows, i);
        }
    }
    if exists|i: int| 0 <= i < rows.len() && rows[i].id == NEW_ENTRY_ID {
        let i = choose|i: int| 0 <= i < rows.len() && rows[i].id == NEW_ENTRY_ID;
        lemma_count_remove(rows, i);
    }
    if has_path(es, seq![]) && anchor_shown(es, expanded, new_entry, es.len() as int) {
        lemma_count_positive(rows);
    }
}

/// Whether every directory above the entry at `ix` is expanded.
fn entry_is_visible(worktree: &Worktree, expanded: &ExpandedDirs, ix: usize) -> (r: bool)
    requires
        expanded.wf(),
        ix < worktree.entries@.len(),
    ensures
        r == is_visible(worktree.view_entries(), expanded@, worktree.entries@[ix as int]@),
{
    let ghost es = worktree.view_entries();
    let e = &worktree.entries[ix];
    let mut j: usize = 0;
    while j < worktree.entries.len()
        invariant
            es == worktree.view_entries(),
            e@ == es[ix as int],
            *e == worktree.entries@[ix as int],
            expanded.wf(),
            j <= worktree.entries@.len(),
            forall|k: int| 0 <= k < j && proper_prefix(es[k].path, e@.path) ==> #[trigger] expanded@.contains(es[k].id),
        decreases worktree.entries@.len() - j,
    {
        let a = &worktree.entries[j];
        if crate::entry::is_proper_prefix(&a.path, &e.path) && !expanded.contains(a.id) {
            assert(es[j as int] == a@);
            assert(!is_visible(es, expanded@, e@)) by {
                assert(proper_prefix(es[j as int].path, e@.path) && !expanded@.contains(es[j as int].id));
            }
            return false;
        }
        j = j + 1;
    }
    true
}

/// The row of an entry, with a directory's status aggregated from its files.
fn row_of(worktree: &Worktree, e: &Entry) -> (r: Entry)
    ensures
        r@ == with_status(worktree.view_entries(), e@),
{
    let mut row = e.duplicate();
    if row.is_dir() {
        row.git_status = worktree.aggregate_git_status(&e.path);
    }
    row
}

fn placeholder_row(anchor: &Entry, is_dir: bool) -> (r: Entry)
    ensures
        r@ == placeholder_of(anchor@, is_dir),
{
    let mut path = crate::entry::clone_path(&anchor.path);
    proof {
        reveal_strlit("\0");
    }
    let sentinel = String::from_str("\0");
    assert(sentinel@ =~= seq!['\0']);
    let ghost before = path@;
    path.push(sentinel);
    assert(path@ == before.push(sentinel));
    assert(path.deep_view() =~= anchor@.path.push(seq!['\0']));
    Entry {
        id: NEW_ENTRY_ID,
        kind: if is_dir { EntryKind::Dir } else { EntryKind::File },
        path,
        is_ignored: false,
        git_status: anchor.git_status,
    }
}

/// Walks a tree and collects its rows in the tree's order.
fn collect_rows(
    worktree: &Worktree,
    expanded: &ExpandedDirs,
    new_entry: Option<NewEntry>,
) -> (r: Vec<Entry>)
    requires
        expanded.wf(),
    ensures
        entries_view(r@) == collected(
            worktree.view_entries(),
            expanded@,
            new_entry,
            worktree.entries@.len() as int,
        ),
{
    let ghost es = worktree.view_entries();
    let mut rows: Vec<Entry> = Vec::new();
    let mut i: usize = 0;
    while i < worktree.entries.len()
        invariant
            es == worktree.view_entries(),
            expanded.wf(),
            i <= worktree.entries@.len(),
            entries_view(rows@) == collected(es, expanded@, new_entry, i as int),
        decreases worktree.entries@.len() - i,
    {
        let e = &worktree.entries[i];
        assert(e@ == es[i as int]);
        if entry_is_visible(worktree, expanded, i) {
            let row = row_of(worktree, e);
            rows.push(row);
            assert(entries_view(rows@) =~= collected(es, expanded@, new_entry, i as int).push(
                with_status(es, e@),
            ));
            if let Some(NewEntry { anchor: anchor_id, is_dir }) = new_entry {
                if anchor_id == e.id {
                    let p = placeholder_row(e, is_dir);
                    let p_row = row_of(worktree, &p);
                    rows.push(p_row);
                    assert(entries_view(rows@) =~= collected(es, expanded@, new_entry, i as int).push(
                        with_status(es, e@),
                    ).push(with_status(es, placeholder_of(e@, is_dir))));
                }
            }
        }
        i = i + 1;
    }
    rows
}

/// Sorts rows by key, keeping rows with equal keys in their order.
fn sort_rows(rows: Vec<Entry>) -> (r: Vec<Entry>)
    ensures
        entries_view(r@).to_multiset() == entries_view(rows@).to_multiset(),
        sorted_by_key(entries_view(r@)),
        exists|src: Seq<int>| stable_rearrangement(entries_view(r@), entries_view(rows@), src),
{
    let mut out: Vec<Entry> = Vec::new();
    let mut out_keys: Vec<Vec<u64>> = Vec::new();
    let ghost mut src: Seq<int> = Seq::empty();
    let mut i: usize = 0;
    assert(entries_view(out@) =~= entries_view(rows@.subrange(0, 0)));
    while i < rows.len()
        invariant
            i <= rows@.len(),
            out_keys@.len() == out@.len(),
            forall|k: int| 0 <= k < out@.len() ==> #[trigger] out_keys@[k]@ == entry_key(out@[k]@),
            sorted_by_key(entries_view(out@)),
            entries_view(out@).to_multiset() == entries_view(rows@.subrange(0, i as int)).to_multiset(),
            stable_rearrangement(entries_view(out@), entries_view(rows@), src),
            forall|q: int| 0 <= q < src.len() ==> #[trigger] src[q] < i,
        decreases rows@.len() - i,
    {
        let row = rows[i].duplicate();
        let key = make_path_key(&row.path, row.is_file(), row.id == NEW_ENTRY_ID);
        let ghost k = key@;
        assert(k == entry_key(row@));
        let mut p: usize = out.len();
        while p > 0 && !key_le(&out_keys[p - 1], &key)
            invariant
                p <= out@.len(),
                out_keys@.len() == out@.len(),
                forall|q: int| 0 <= q < out@.len() ==> #[trigger] out_keys@[q]@ == entry_key(out@[q]@),
                key@ == k,
                forall|q: int| p <= q < out@.len() ==> !lex_le(#[trigger] entry_key(out@[q]@), k),
            decreases p,
        {
            p = p - 1;
        }
        let ghost old_out = entries_view(out@);
        let ghost old_keys = out_keys@;
        proof {
            assert forall|q: int| 0 <= q < p implies lex_le(#[trigger] entry_key(old_out[q]), k) by {
                assert(lex_le(entry_key(old_out[p - 1]), k));
                if q < p - 1 {
                    lemma_lex_trans(entry_key(old_out[q]), entry_key(old_out[p - 1]), k);
                }
            }
            assert forall|q: int| p <= q < old_out.len() implies lex_le(k, #[trigger] entry_key(old_out[q])) by {
                lemma_lex_total(k, entry_key(old_out[q]));
            }
        }
        let ghost old_src = src;
        out.insert(p, row);
        out_keys.insert(p, key);
        proof {
            src = old_src.insert(p as int, i as int);
            let nv = entries_view(out@);
            let all = entries_view(rows@);
            assert(nv =~= old_out.insert(p as int, rows@[i as int]@));
            assert forall|q: int| 0 <= q < nv.len() implies 0 <= #[trigger] src[q] < all.len() && nv[q] == all[src[q]]
                && src[q] < i + 1 by {
                if q > p {
                    assert(src[q] == old_src[q - 1]);
                    assert(nv[q] == old_out[q - 1]);
                } else if q < p {
                    assert(src[q] == old_src[q]);
                }
            }
            assert forall|a: int, b: int| 0 <= a < b < nv.len() implies src[a] != src[b] by {
                let a0 = if a > p { a - 1 } else { a };
                let b0 = if b > p { b - 1 } else { b };
                if a != p && b != p {
                    assert(src[a] == old_src[a0]);
                    assert(src[b] == old_src[b0]);
                } else if a == p {
                    assert(src[b] == old_src[b0]);
                } else {
                    assert(src[a] == old_src[a0]);
                }
            }
            assert forall|a: int, b: int| 0 <= a < b < nv.len() && entry_key(nv[a]) == entry_key(nv[b])
                implies src[a] < src[b] by {
                if a != p && b != p {
                    let a0 = if a > p { a - 1 } else { a };
                    let b0 = if b > p { b - 1 } else { b };
                    assert(src[a] == old_src[a0] && nv[a] == old_out[a0]);
                    assert(src[b] == old_src[b0] && nv[b] == old_out[b0]);
                } else if a == p {
                    assert(nv[b] == old_out[b - 1]);
                    assert(!lex_le(entry_key(old_out[b - 1]), k));
                    lemma_lex_total(k, k);
                } else {
                    assert(src[a] == old_src[a]);
                }
            }
            assert(nv =~= old_out.insert(p as int, rows@[i as int]@));
            assert(rows@.subrange(0, i + 1) =~= rows@.subrange(0, i as int).push(rows@[i as int]));
            assert(entries_view(rows@.subrange(0, i + 1)) =~= entries_view(rows@.subrange(0, i as int)).push(
                rows@[i as int]@,
            ));
            assert(entries_view(rows@.subrange(0, i as int)).push(rows@[i as int]@)
                =~= entries_view(rows@.subrange(0, i as int)).insert(i as int, rows@[i as int]@));
            assert forall|a: int, b: int| 0 <= a < b < nv.len() implies lex_le(entry_key(nv[a]), entry_key(nv[b])) by {
                if b < p {
                } else if b == p {
                } else if a < p {
                    assert(nv[b] == old_out[b - 1]);
                } else if a == p {
                    assert(nv[b] == old_out[b - 1]);
                } else {
                    assert(nv[b] == old_out[b - 1]);
                    assert(nv[a] == old_out[a - 1]);
                }
            }
            assert forall|q: int| 0 <= q < out@.len() implies #[trigger] out_keys@[q]@ == entry_key(out@[q]@) by {
                if q > p {
                    assert(out_keys@[q] == old_keys[q - 1]);
                }
            }
        }
        i = i + 1;
    }
    assert(rows@.subrange(0, i as int) =~= rows@);
    out
}

/// The visible rows of one tree: its visible entries with directory statuses
/// aggregated, the placeholder of a new entry after its anchor, sorted so that
/// within each directory subdirectories precede files and names compare
/// case-insensitively.
pub fn project_worktree(
    worktree: &Worktree,
    expanded: &ExpandedDirs,
    new_entry: Option<NewEntry>,
) -> (r: Vec<Entry>)
    requires
        expanded.wf(),
    ensures
        is_projection(entries_view(r@), worktree.view_entries(), expanded@, new_entry),
{
    match worktree.root_index() {
        None => {
            let none: Vec<Entry> = Vec::new();
            assert(entries_view(none@) =~= Seq::<EntryView>::empty());
            assert(stable_rearrangement(entries_view(none@), shown_rows(worktree.view_entries(), expanded@, new_entry),
                Seq::<int>::empty()));
            return none;
        },
        Some(ri) => {
            assert(worktree.view_entries()[ri as int].path =~= Seq::<Seq<char>>::empty());
        },
    }
    let rows = collect_rows(worktree, expanded, new_entry);
    let ghost collected_rows = entries_view(rows@);
    let r = sort_rows(rows);
    proof {
        let es = worktree.view_entries();
        let out = entries_view(r@);
        let ri = choose|i: int| 0 <= i < es.len() && es[i].path == Seq::<Seq<char>>::empty();
        assert(is_visible(es, expanded@, es[ri]));
        lemma_collected_contains(es, expanded@, new_entry, es.len() as int, ri);
        let root_row = with_status(es, es[ri]);
        assert(collected_rows.to_multiset().count(root_row) > 0);
        assert(out.to_multiset().count(root_row) > 0);
        assert(out.contains(root_row));
        let q = choose|q: int| 0 <= q < out.len() && out[q] == root_row;
        assert(out[q].path.len() == 0);
        assert(entry_key(out[q]) =~= Seq::<u64>::empty());
        if out[0].path.len() > 0 {
            lemma_path_key_nonempty(out[0].path, out[0].kind == EntryKind::File, out[0].id == NEW_ENTRY_ID);
            if q > 0 {
                assert(lex_le(entry_key(out[0]), entry_key(out[q])));
            }
        }
    }
    r
}

} // verus!
