use vstd::prelude::*;
use vstd::set_lib::{lemma_int_range, lemma_len_subset, set_int_range};
use crate::entry::clone_path;
use crate::worktree::{has_path, Worktree};

verus! {

/// Position of the last '.' among the first `n` characters, or -1.
pub open spec fn last_dot_before(s: Seq<char>, n: int) -> int
    decreases n,
{
    if n <= 0 {
        -1
    } else if s[n - 1] == '.' {
        n - 1
    } else {
        last_dot_before(s, n - 1)
    }
}

proof fn lemma_last_dot_range(s: Seq<char>, n: int)
    requires
        0 <= n <= s.len(),
    ensures
        -1 <= last_dot_before(s, n) < n,
        last_dot_before(s, n) >= 0 ==> s[last_dot_before(s, n)] == '.',
    decreases n,
{
    if n > 0 {
        lemma_last_dot_range(s, n - 1);
    }
}

/// Position of the dot that starts a file name's extension: the last dot,
/// unless it is the first character or the name is "..".
pub open spec fn extension_dot(name: Seq<char>) -> Option<int> {
    let d = last_dot_before(name, name.len() as int);
    if name == seq!['.', '.'] || d <= 0 {
        None
    } else {
        Some(d)
    }
}

/// The file name without its extension.
pub open spec fn file_stem(name: Seq<char>) -> Seq<char> {
    match extension_dot(name) {
        None => name,
        Some(d) => name.subrange(0, d),
    }
}

/// The text after the extension dot, if there is one.
pub open spec fn extension(name: Seq<char>) -> Option<Seq<char>> {
    match extension_dot(name) {
        None => None,
        Some(d) => Some(name.subrange(d + 1, name.len() as int)),
    }
}

pub open spec fn digit_char(d: int) -> char {
    seq!['0', '1', '2', '3', '4', '5', '6', '7', '8', '9'][d]
}

/// Decimal digits of a number.
pub open spec fn decimal(n: nat) -> Seq<char>
    decreases n,
{
    if n < 10 {
        seq![digit_char(n as int)]
    } else {
        decimal(n / 10).push(digit_char((n % 10) as int))
    }
}

/// The name of the `k`-th copy: `stem copy`, then `stem copy 1`, `stem copy 2`, ...,
/// each keeping the extension of the pasted name.
pub open spec fn copy_name(stem: Seq<char>, ext: Option<Seq<char>>, k: nat) -> Seq<char> {
    stem + seq![' ', 'c', 'o', 'p', 'y'] + copy_number(k) + extension_suffix(ext)
}

pub open spec fn copy_number(k: nat) -> Seq<char> {
    if k == 0 {
        seq![]
    } else {
        seq![' '] + decimal(k)
    }
}

pub open spec fn extension_suffix(ext: Option<Seq<char>>) -> Seq<char> {
    match ext {
        None => seq![],
        Some(e) => seq!['.'] + e,
    }
}

/// The `j`-th name tried when pasting `name`: the name itself, then its copies.
/// The stem and the extension are always those of the pasted name.
pub open spec fn paste_candidate(name: Seq<char>, j: nat) -> Seq<char> {
    if j == 0 {
        name
    } else {
        copy_name(file_stem(name), extension(name), (j - 1) as nat)
    }
}

/// `r` is the first of the pasted name's candidates that `taken` lacks.
pub open spec fn first_free(taken: Set<Seq<char>>, name: Seq<char>, r: Seq<char>) -> bool {
    exists|k: nat|
        r == paste_candidate(name, k) && !taken.contains(paste_candidate(name, k))
            && forall|j: nat| j < k ==> taken.contains(#[trigger] paste_candidate(name, j))
}

proof fn lemma_decimal_len(n: nat)
    ensures
        n < 10 ==> decimal(n).len() == 1,
        n >= 10 ==> decimal(n).len() >= 2,
    decreases n,
{
    if n >= 10 {
        lemma_decimal_len(n / 10);
    }
}

proof fn lemma_decimal_injective(a: nat, b: nat)
    requires
        decimal(a) == decimal(b),
    ensures
        a == b,
    decreases a,
{
    lemma_decimal_len(a);
    lemma_decimal_len(b);
    if a < 10 {
        assert(decimal(a)[0] == digit_char(a as int));
        assert(decimal(b)[0] == digit_char(b as int));
    } else {
        let da = decimal(a);
        let db = decimal(b);
        assert(da.last() == digit_char((a % 10) as int));
        assert(db.last() == digit_char((b % 10) as int));
        assert(da.drop_last() =~= decimal(a / 10));
        assert(db.drop_last() =~= decimal(b / 10));
        lemma_decimal_injective(a / 10, b / 10);
    }
}

proof fn lemma_name_from_parts(name: Seq<char>)
    ensures
        name == file_stem(name) + extension_suffix(extension(name)),
{
    lemma_last_dot_range(name, name.len() as int);
    match extension_dot(name) {
        None => {
            assert(name =~= file_stem(name) + extension_suffix(extension(name)));
        },
        Some(d) => {
            assert(name =~= file_stem(name) + extension_suffix(extension(name)));
        },
    }
}

proof fn lemma_cancel_ends(p: Seq<char>, m1: Seq<char>, m2: Seq<char>, e: Seq<char>)
    requires
        p + m1 + e == p + m2 + e,
    ensures
        m1 == m2,
{
    let x = p + m1 + e;
    let y = p + m2 + e;
    assert(x.len() == p.len() + m1.len() + e.len());
    assert(y.len() == p.len() + m2.len() + e.len());
    assert(m1.len() == m2.len());
    assert(m1 =~= x.subrange(p.len() as int, (p.len() + m1.len()) as int));
    assert(m2 =~= y.subrange(p.len() as int, (p.len() + m2.len()) as int));
    assert(m1 =~= m2);
}

/// Different attempts give different names.
pub proof fn lemma_candidates_distinct(name: Seq<char>, a: nat, b: nat)
    requires
        a != b,
    ensures
        paste_candidate(name, a) != paste_candidate(name, b),
{
    let stem = file_stem(name);
    let ext = extension(name);
    let p = stem + seq![' ', 'c', 'o', 'p', 'y'];
    let e = extension_suffix(ext);
    lemma_name_from_parts(name);
    if a == 0 || b == 0 {
        let k = if a == 0 { (b - 1) as nat } else { (a - 1) as nat };
        assert(copy_name(stem, ext, k).len() > name.len());
    } else {
        let ka = (a - 1) as nat;
        let kb = (b - 1) as nat;
        if paste_candidate(name, a) == paste_candidate(name, b) {
            lemma_cancel_ends(p, copy_number(ka), copy_number(kb), e);
            if ka == 0 || kb == 0 {
                lemma_decimal_len(ka);
                lemma_decimal_len(kb);
            } else {
                assert(decimal(ka) =~= copy_number(ka).drop_first());
                assert(decimal(kb) =~= copy_number(kb).drop_first());
                lemma_decimal_injective(ka, kb);
            }
        }
    }
}

/// When the directory already holds the name and its first `k` copies but not
/// the next one, pasting picks `stem copy k` (`stem copy` when `k` is 0).
pub proof fn lemma_paste_picks_next_copy(taken: Set<Seq<char>>, name: Seq<char>, k: nat, r: Seq<char>)
    requires
        forall|j: nat| j <= k ==> taken.contains(#[trigger] paste_candidate(name, j)),
        !taken.contains(paste_candidate(name, k + 1)),
        first_free(taken, name, r),
    ensures
        r == copy_name(file_stem(name), extension(name), k),
{
    let m = choose|m: nat|
        r == paste_candidate(name, m) && !taken.contains(paste_candidate(name, m))
            && forall|j: nat| j < m ==> taken.contains(#[trigger] paste_candidate(name, j));
    if m <= k {
        assert(taken.contains(paste_candidate(name, m)));
    }
    if m > k + 1 {
        assert(taken.contains(paste_candidate(name, k + 1)));
    }
    assert(m == k + 1);
}

/// Pasting again once the first paste's name exists gives a name that differs
/// from it and from every name that was there before: repeated pastes of one
/// source give pairwise distinct names.
pub proof fn lemma_paste_again_distinct(taken: Set<Seq<char>>, name: Seq<char>, r1: Seq<char>, r2: Seq<char>)
    requires
        first_free(taken, name, r1),
        first_free(taken.insert(r1), name, r2),
    ensures
        r2 != r1,
        !taken.contains(r2),
        !taken.contains(r1),
{
}

/// The names given by the first `k` of a run of pastes.
pub open spec fn pasted_before(rs: Seq<Seq<char>>, k: int) -> Set<Seq<char>> {
    Set::new(|n: Seq<char>| exists|m: int| 0 <= m < k && rs[m] == n)
}

/// Pasting one source again and again, each result added to the directory
/// before the next paste, gives names that are pairwise distinct and none of
/// which was in the directory before the first paste.
pub proof fn lemma_repeated_pastes_distinct(taken: Set<Seq<char>>, name: Seq<char>, rs: Seq<Seq<char>>)
    requires
        forall|k: int| 0 <= k < rs.len() ==> first_free(taken.union(pasted_before(rs, k)), name, #[trigger] rs[k]),
    ensures
        forall|i: int, j: int| 0 <= i < j < rs.len() ==> rs[i] != rs[j],
        forall|k: int| 0 <= k < rs.len() ==> !taken.contains(#[trigger] rs[k]),
{
    assert forall|i: int, j: int| 0 <= i < j < rs.len() implies rs[i] != rs[j] by {
        assert(first_free(taken.union(pasted_before(rs, j)), name, rs[j]));
        assert(pasted_before(rs, j).contains(rs[i]));
    }
    assert forall|k: int| 0 <= k < rs.len() implies !taken.contains(#[trigger] rs[k]) by {
        assert(first_free(taken.union(pasted_before(rs, k)), name, rs[k]));
    }
}

/// Text of one decimal digit.
fn digit_str(d: u64) -> (r: &'static str)
    requires
        d < 10,
    ensures
        r@ == seq![digit_char(d as int)],
{
    proof {
        reveal_strlit("0");
        reveal_strlit("1");
        reveal_strlit("2");
        reveal_strlit("3");
        reveal_strlit("4");
        reveal_strlit("5");
        reveal_strlit("6");
        reveal_strlit("7");
        reveal_strlit("8");
        reveal_strlit("9");
    }
    let r = if d == 0 {
        "0"
    } else if d == 1 {
        "1"
    } else if d == 2 {
        "2"
    } else if d == 3 {
        "3"
    } else if d == 4 {
        "4"
    } else if d == 5 {
        "5"
    } else if d == 6 {
        "6"
    } else if d == 7 {
        "7"
    } else if d == 8 {
        "8"
    } else {
        "9"
    };
    assert(r@ =~= seq![digit_char(d as int)]);
    r
}

/// Decimal text of a number.
pub fn decimal_string(n: u64) -> (r: String)
    ensures
        r@ == decimal(n as nat),
{
    let mut s = String::new();
    let mut m: u64 = n;
    while m >= 10
        invariant
            decimal(n as nat) == decimal(m as nat) + s@,
        decreases m,
    {
        let d = digit_str(m % 10);
        let ghost old_s = s@;
        s = String::from_str(d).concat(s.as_str());
        assert(decimal(m as nat) == decimal((m / 10) as nat).push(digit_char((m % 10) as int)));
        assert(decimal((m / 10) as nat) + s@ =~= decimal(m as nat) + old_s);
        m = m / 10;
    }
    let d = digit_str(m);
    let r = String::from_str(d).concat(s.as_str());
    assert(r@ =~= decimal(n as nat));
    r
}

/// Position of the last '.' in a name.
fn last_dot(s: &str) -> (r: Option<usize>)
    ensures
        r is None ==> last_dot_before(s@, s@.len() as int) == -1,
        r is Some ==> r->0 == last_dot_before(s@, s@.len() as int),
{
    let n = s.unicode_len();
    let mut i: usize = n;
    while i > 0
        invariant
            n == s@.len(),
            i <= n,
            last_dot_before(s@, n as int) == last_dot_before(s@, i as int),
        decreases i,
    {
        if s.get_char(i - 1) == '.' {
            return Some(i - 1);
        }
        i = i - 1;
    }
    None
}

/// Splits a file name into its stem and its extension, as `Path::file_stem`
/// and `Path::extension` do.
pub fn split_extension(name: &str) -> (r: (String, Option<String>))
    ensures
        r.0@ == file_stem(name@),
        r.1 is None <==> extension(name@) is None,
        r.1 is Some ==> r.1->0@ == extension(name@)->0,
{
    let n = name.unicode_len();
    let d = last_dot(name);
    proof {
        lemma_last_dot_range(name@, name@.len() as int);
    }
    let is_dot_dot = n == 2 && name.get_char(0) == '.' && name.get_char(1) == '.';
    proof {
        if is_dot_dot {
            assert(name@ =~= seq!['.', '.']);
        }
        if name@ == seq!['.', '.'] {
            assert(name@[0] == '.' && name@[1] == '.');
        }
    }
    match d {
        Some(d) if !is_dot_dot && d > 0 => {
            let stem = name.substring_char(0, d);
            let ext = name.substring_char(d + 1, n);
            (String::from_str(stem), Some(String::from_str(ext)))
        },
        _ => (String::from_str(name), None),
    }
}

/// The `k`-th copy's name of a file with the given stem and extension.
pub fn make_copy_name(stem: &String, ext: &Option<String>, k: u64) -> (r: String)
    ensures
        r@ == copy_name(stem@, match ext { None => None, Some(e) => Some(e@) }, k as nat),
{
    proof {
        reveal_strlit(" copy");
        reveal_strlit(" ");
        reveal_strlit(".");
    }
    let mut r = stem.clone();
    r.append(" copy");
    if k > 0 {
        r.append(" ");
        let digits = decimal_string(k);
        r.append(digits.as_str());
    }
    if let Some(e) = ext {
        r.append(".");
        r.append(e.as_str());
    }
    assert(r@ =~= copy_name(stem@, match ext { None => None, Some(e) => Some(e@) }, k as nat));
    r
}

/// Names of the entries directly inside `dir`.
pub open spec fn child_names(es: Seq<crate::entry::EntryView>, dir: Seq<Seq<char>>) -> Set<Seq<char>> {
    Set::new(|n: Seq<char>| has_path(es, dir.push(n)))
}

/// Indices of the entries inside `dir` whose name is one of the candidates from the `k`-th on.
spec fn taken_from(es: Seq<crate::entry::EntryView>, dir: Seq<Seq<char>>, name: Seq<char>, k: nat) -> Set<int> {
    Set::new(|i: int| 0 <= i < es.len() && exists|j: nat| j >= k && es[i].path == dir.push(#[trigger] paste_candidate(name, j)))
}

/// The `j`-th candidate name for pasting `name`.
fn make_candidate(name: &String, stem: &String, ext: &Option<String>, j: u64) -> (r: String)
    requires
        stem@ == file_stem(name@),
        ext is None <==> extension(name@) is None,
        ext is Some ==> ext->0@ == extension(name@)->0,
    ensures
        r@ == paste_candidate(name@, j as nat),
{
    if j == 0 {
        name.clone()
    } else {
        let r = make_copy_name(stem, ext, j - 1);
        assert(match ext { None => None, Some(e) => Some(e@) } == extension(name@));
        r
    }
}

/// The name under which `name` is pasted into the directory `dir` of the
/// tree: the name itself if it is free there, else the first free one of
/// `stem copy`, `stem copy 1`, `stem copy 2`, ...
pub fn paste_destination(worktree: &Worktree, dir: &Vec<String>, name: &String) -> (r: String)
    ensures
        first_free(child_names(worktree.view_entries(), dir.deep_view()), name@, r@),
{
    let ghost es = worktree.view_entries();
    let ghost d = dir.deep_view();
    let ghost taken = child_names(es, d);
    let (stem, ext) = split_extension(name.as_str());
    let n = worktree.entries.len();
    proof {
        lemma_int_range(0, n as int);
        lemma_len_subset(taken_from(es, d, name@, 0), set_int_range(0, n as int));
    }
    let mut k: u64 = 0;
    loop
        invariant
            es == worktree.view_entries(),
            d == dir.deep_view(),
            taken == child_names(es, d),
            n == es.len(),
            stem@ == file_stem(name@),
            ext is None <==> extension(name@) is None,
            ext is Some ==> ext->0@ == extension(name@)->0,
            forall|j: nat| j < k ==> taken.contains(#[trigger] paste_candidate(name@, j)),
            taken_from(es, d, name@, k as nat).finite(),
            k + taken_from(es, d, name@, k as nat).len() <= n,
        decreases taken_from(es, d, name@, k as nat).len(),
    {
        let candidate = make_candidate(name, &stem, &ext, k);
        let mut path = clone_path(dir);
        let ghost before = path@;
        path.push(candidate.clone());
        assert(path@ == before.push(candidate));
        assert(path.deep_view() =~= d.push(candidate@));
        match worktree.index_for_path(&path) {
            None => {
                assert(!taken.contains(paste_candidate(name@, k as nat)));
                return candidate;
            },
            Some(ix) => {
                let ghost g = taken_from(es, d, name@, k as nat);
                let ghost g2 = taken_from(es, d, name@, (k + 1) as nat);
                proof {
                    assert(es[ix as int].path == d.push(paste_candidate(name@, k as nat)));
                    assert(g.contains(ix as int));
                    assert(taken.contains(paste_candidate(name@, k as nat)));
                    assert forall|i: int| g2.contains(i) implies g.remove(ix as int).contains(i) by {
                        let j = choose|j: nat| j >= k + 1 && es[i].path == d.push(#[trigger] paste_candidate(name@, j));
                        if i == ix as int {
                            assert(d.push(paste_candidate(name@, j)).last() == paste_candidate(name@, j));
                            assert(d.push(paste_candidate(name@, k as nat)).last() == paste_candidate(name@, k as nat));
                            lemma_candidates_distinct(name@, j, k as nat);
                        }
                    }
                    lemma_len_subset(g2, g.remove(ix as int));
                }
                k = k + 1;
            },
        }
    }
}

} // verus!
