use vstd::prelude::*;

verus! {

/// Unicode case folding of a text, as `unicase` computes it.
pub uninterp spec fn folded_case(s: Seq<char>) -> Seq<char>;

/// Relies on `unicase::UniCase::to_folded_case`: the case-folded form of the
/// text. `UniCase`'s ordering compares exactly these folded characters, so
/// comparing folded texts orders names as `UniCase` does.
#[verifier::external_body]
pub(crate) fn fold_case(s: &str) -> (r: String)
    ensures
        r@ == folded_case(s@),
{
    unicase::UniCase::new(s).to_folded_case()
}

/// Lexicographic order on keys; a proper prefix comes first.
pub open spec fn lex_le(a: Seq<u64>, b: Seq<u64>) -> bool
    decreases a.len(),
{
    if a.len() == 0 {
        true
    } else if b.len() == 0 {
        false
    } else if a[0] < b[0] {
        true
    } else if a[0] > b[0] {
        false
    } else {
        lex_le(a.drop_first(), b.drop_first())
    }
}

pub proof fn lemma_lex_total(a: Seq<u64>, b: Seq<u64>)
    ensures
        lex_le(a, b) || lex_le(b, a),
    decreases a.len(),
{
    if a.len() > 0 && b.len() > 0 && a[0] == b[0] {
        lemma_lex_total(a.drop_first(), b.drop_first());
    }
}

pub proof fn lemma_lex_trans(a: Seq<u64>, b: Seq<u64>, c: Seq<u64>)
    requires
        lex_le(a, b),
        lex_le(b, c),
    ensures
        lex_le(a, c),
    decreases a.len(),
{
    if a.len() > 0 && b.len() > 0 && c.len() > 0 && a[0] == b[0] && b[0] == c[0] {
        lemma_lex_trans(a.drop_first(), b.drop_first(), c.drop_first());
    }
}

pub proof fn lemma_lex_antisymmetric(a: Seq<u64>, b: Seq<u64>)
    requires
        lex_le(a, b),
        lex_le(b, a),
    ensures
        a == b,
    decreases a.len(),
{
    if a.len() > 0 && b.len() > 0 {
        lemma_lex_antisymmetric(a.drop_first(), b.drop_first());
        assert(a =~= seq![a[0]] + a.drop_first());
        assert(b =~= seq![b[0]] + b.drop_first());
    } else {
        assert(a.len() == 0 && b.len() == 0);
        assert(a =~= b);
    }
}

/// Different names have different keys.
pub proof fn lemma_name_key_injective(a: Seq<char>, b: Seq<char>)
    requires
        name_key(a) == name_key(b),
    ensures
        a == b,
{
    assert(name_key(a).len() == a.len() + 1);
    assert(a.len() == b.len());
    assert forall|k: int| 0 <= k < a.len() implies a[k] == b[k] by {
        assert(name_key(a)[k] == char_code(a[k]));
        assert(name_key(b)[k] == char_code(b[k]));
        assert((a[k] as u32) == (b[k] as u32));
        vstd::utf8::char_u32_cast(a[k], a[k] as u32);
        vstd::utf8::char_u32_cast(b[k], b[k] as u32);
    }
    assert(a =~= b);
}

/// A shared prefix does not change how two keys compare.
pub proof fn lemma_lex_common_prefix(p: Seq<u64>, a: Seq<u64>, b: Seq<u64>)
    ensures
        lex_le(p + a, p + b) == lex_le(a, b),
    decreases p.len(),
{
    if p.len() > 0 {
        assert((p + a).drop_first() =~= p.drop_first() + a);
        assert((p + b).drop_first() =~= p.drop_first() + b);
        lemma_lex_common_prefix(p.drop_first(), a, b);
    }
}

/// Compares two keys.
pub fn key_le(a: &Vec<u64>, b: &Vec<u64>) -> (r: bool)
    ensures
        r == lex_le(a@, b@),
{
    let mut i: usize = 0;
    proof {
        assert(a@.subrange(0, a@.len() as int) =~= a@);
        assert(b@.subrange(0, b@.len() as int) =~= b@);
    }
    while i < a.len() && i < b.len()
        invariant
            i <= a@.len(),
            i <= b@.len(),
            lex_le(a@, b@) == lex_le(a@.subrange(i as int, a@.len() as int), b@.subrange(i as int, b@.len() as int)),
        decreases a@.len() - i,
    {
        if a[i] < b[i] {
            return true;
        }
        if a[i] > b[i] {
            return false;
        }
        proof {
            let sa = a@.subrange(i as int, a@.len() as int);
            let sb = b@.subrange(i as int, b@.len() as int);
            assert(sa.drop_first() =~= a@.subrange(i + 1, a@.len() as int));
            assert(sb.drop_first() =~= b@.subrange(i + 1, b@.len() as int));
        }
        i = i + 1;
    }
    i == a.len()
}

/// Key of one character of a folded name: above the component terminator.
pub open spec fn char_code(c: char) -> u64 {
    (c as u32 as u64 + 1) as u64
}

/// Key of a name: its characters, then a terminator below every character,
/// so that a name sorts before every longer name that it begins.
pub open spec fn name_key(s: Seq<char>) -> Seq<u64> {
    s.map_values(|c: char| char_code(c)).push(0)
}

/// Key of one path component. Directories (and the components above the last
/// one) come before files; the placeholder of a new entry comes before every
/// real name of its kind; real names compare case-insensitively.
/// The placeholder's key does not depend on its name.
pub open spec fn component_key(name: Seq<char>, is_file: bool, is_placeholder: bool) -> Seq<u64> {
    folded_component_key(folded_case(name), is_file, is_placeholder)
}

/// Key of one path component whose name is already case-folded.
pub open spec fn folded_component_key(folded: Seq<char>, is_file: bool, is_placeholder: bool) -> Seq<u64> {
    if is_placeholder {
        seq![if is_file { 2u64 } else { 1u64 }, 0u64, 0u64]
    } else {
        seq![if is_file { 2u64 } else { 1u64 }, 1u64] + name_key(folded)
    }
}

/// Key of a path whose components are already case-folded.
pub open spec fn folded_path_key_of(folded: Seq<Seq<char>>, is_file: bool, is_placeholder: bool) -> Seq<u64>
    decreases folded.len(),
{
    if folded.len() == 0 {
        seq![]
    } else {
        folded_path_key_of(folded.drop_last(), false, false) + folded_component_key(
            folded.last(),
            is_file,
            is_placeholder,
        )
    }
}

/// Each component of a path, case-folded.
pub open spec fn fold_path(path: Seq<Seq<char>>) -> Seq<Seq<char>> {
    path.map_values(|c: Seq<char>| folded_case(c))
}

/// Keying a path is folding its components, then keying the folded path.
pub proof fn lemma_path_key_folds(path: Seq<Seq<char>>, is_file: bool, is_placeholder: bool)
    ensures
        path_key(path, is_file, is_placeholder) == folded_path_key_of(fold_path(path), is_file, is_placeholder),
    decreases path.len(),
{
    if path.len() > 0 {
        lemma_path_key_folds(path.drop_last(), false, false);
        assert(fold_path(path).drop_last() =~= fold_path(path.drop_last()));
        assert(fold_path(path).last() == folded_case(path.last()));
    }
}

/// Key of a whole path: the keys of its components in order, so that sorting
/// the flat list by key gives a pre-order of the sorted tree.
pub open spec fn path_key(path: Seq<Seq<char>>, is_file: bool, is_placeholder: bool) -> Seq<u64>
    decreases path.len(),
{
    if path.len() == 0 {
        seq![]
    } else {
        path_key(path.drop_last(), false, false) + component_key(path.last(), is_file, is_placeholder)
    }
}

/// Case-insensitive order of two names: folded, then compared character by character.
pub open spec fn names_in_order(a: Seq<char>, b: Seq<char>) -> bool {
    lex_le(name_key(folded_case(a)), name_key(folded_case(b)))
}

fn push_name_key(key: &mut Vec<u64>, s: &str)
    ensures
        final(key)@ == old(key)@ + name_key(s@),
{
    let n = s.unicode_len();
    let mut i: usize = 0;
    while i < n
        invariant
            n == s@.len(),
            i <= n,
            key@ == old(key)@ + s@.subrange(0, i as int).map_values(|c: char| char_code(c)),
        decreases n - i,
    {
        let c = s.get_char(i);
        key.push(c as u32 as u64 + 1);
        proof {
            assert(s@.subrange(0, i + 1).map_values(|c: char| char_code(c))
                =~= s@.subrange(0, i as int).map_values(|c: char| char_code(c)).push(char_code(c)));
        }
        i = i + 1;
    }
    key.push(0);
    proof {
        assert(s@.subrange(0, n as int) =~= s@);
        assert(final(key)@ =~= old(key)@ + name_key(s@));
    }
}

/// Computes the sort key of a path whose components are already case-folded.
pub fn folded_path_key(folded: &Vec<String>, is_file: bool, is_placeholder: bool) -> (r: Vec<u64>)
    ensures
        r@ == folded_path_key_of(folded.deep_view(), is_file, is_placeholder),
{
    let mut key: Vec<u64> = Vec::new();
    let n = folded.len();
    let mut i: usize = 0;
    while i < n
        invariant
            n == folded@.len(),
            i <= n,
            i < n ==> key@ == folded_path_key_of(folded.deep_view().subrange(0, i as int), false, false),
            i == n ==> key@ == folded_path_key_of(folded.deep_view(), is_file, is_placeholder),
        decreases n - i,
    {
        let last = i + 1 == n;
        let file_flag: u64 = if last && is_file { 2 } else { 1 };
        proof {
            let p = folded.deep_view().subrange(0, i + 1);
            assert(p.drop_last() =~= folded.deep_view().subrange(0, i as int));
        }
        if last && is_placeholder {
            key.push(file_flag);
            key.push(0);
            key.push(0);
        } else {
            key.push(file_flag);
            key.push(1);
            push_name_key(&mut key, folded[i].as_str());
        }
        proof {
            let p = folded.deep_view().subrange(0, i + 1);
            assert(p.last() == folded[i as int]@);
            if !last {
                assert(key@ =~= folded_path_key_of(p, false, false));
            } else {
                assert(p =~= folded.deep_view());
                assert(key@ =~= folded_path_key_of(p, is_file, is_placeholder));
            }
        }
        i = i + 1;
    }
    key
}

/// Computes the sort key of an entry's path: its components are folded, then keyed.
pub fn make_path_key(path: &Vec<String>, is_file: bool, is_placeholder: bool) -> (r: Vec<u64>)
    ensures
        r@ == path_key(path.deep_view(), is_file, is_placeholder),
{
    let mut folded: Vec<String> = Vec::new();
    let mut i: usize = 0;
    while i < path.len()
        invariant
            i <= path@.len(),
            folded@.len() == i,
            forall|j: int| 0 <= j < i ==> folded@[j]@ == folded_case(path@[j]@),
        decreases path@.len() - i,
    {
        folded.push(fold_case(path[i].as_str()));
        i = i + 1;
    }
    proof {
        assert(folded.deep_view() =~= fold_path(path.deep_view()));
        lemma_path_key_folds(path.deep_view(), is_file, is_placeholder);
    }
    folded_path_key(&folded, is_file, is_placeholder)
}

} // verus!
