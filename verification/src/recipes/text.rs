//! Small utilities shared by the recipe modules: literal comparison, lookups
//! in lists of ids, keeping lists of ids distinct, counting unset flags, and
//! the two string operations of std that the recipe logic relies on (prefix
//! stripping and lowercasing).
use vstd::prelude::*;

verus! {

broadcast use vstd::string::group_string_axioms;

/// The character sequences of a list of strings.
pub open spec fn views(v: Seq<String>) -> Seq<Seq<char>> {
    v.map_values(|s: String| s@)
}

/// No two strings of the list spell the same id.
pub open spec fn distinct_views(v: Seq<String>) -> bool {
    forall|i: int, j: int| 0 <= i < v.len() && 0 <= j < v.len() && i != j ==> v[i]@ != v[j]@
}

/// The set of ids spelled by a list of strings.
pub open spec fn view_set(v: Seq<String>) -> Set<Seq<char>> {
    Set::new(|x: Seq<char>| exists|i: int| 0 <= i < v.len() && v[i]@ == x)
}

/// Whether `s` spells exactly the literal `lit`.
pub fn eq_literal(s: &String, lit: &str) -> (r: bool)
    ensures
        r == (s@ == lit@),
{
    let t = lit.to_string();
    *s == t
}

/// Index of the first string of `v` that spells the same id as `s`.
pub fn position_of(v: &Vec<String>, s: &String) -> (r: Option<usize>)
    ensures
        match r {
            Some(i) => i < v.len() && v@[i as int]@ == s@ && forall|j: int|
                0 <= j < i ==> v@[j]@ != s@,
            None => forall|j: int| 0 <= j < v.len() ==> v@[j]@ != s@,
        },
{
    let mut i: usize = 0;
    while i < v.len()
        invariant
            i <= v.len(),
            forall|j: int| 0 <= j < i ==> v@[j]@ != s@,
        decreases v.len() - i,
    {
        if v[i] == *s {
            return Some(i);
        }
        i = i + 1;
    }
    None
}

/// Whether some string of `v` spells the same id as `s`.
pub fn contains_str(v: &Vec<String>, s: &String) -> (r: bool)
    ensures
        r == view_set(v@).contains(s@),
{
    match position_of(v, s) {
        Some(i) => {
            assert(view_set(v@).contains(s@)) by {
                assert(v@[i as int]@ == s@);
            }
            true
        },
        None => false,
    }
}

/// The ids of a list with one more string are those of the list and the id
/// that string spells.
pub proof fn lemma_view_set_push(v: Seq<String>, s: String)
    ensures
        view_set(v.push(s)) == view_set(v).insert(s@),
{
    let w = v.push(s);
    assert forall|x: Seq<char>| view_set(w).contains(x) <==> view_set(v).insert(s@).contains(x) by {
        if view_set(w).contains(x) {
            let q = choose|q: int| 0 <= q < w.len() && w[q]@ == x;
            if q < v.len() {
                assert(w[q] == v[q]);
            }
        }
        if view_set(v).contains(x) {
            let q = choose|q: int| 0 <= q < v.len() && v[q]@ == x;
            assert(w[q] == v[q]);
        }
        if x == s@ {
            assert(w[v.len() as int] == s);
        }
    }
    assert(view_set(w) =~= view_set(v).insert(s@));
}

/// Appending a string whose id a list of distinct ids does not spell keeps
/// the ids distinct and adds that id to the list's ids.
pub proof fn lemma_push_distinct(v: Seq<String>, s: String)
    requires
        distinct_views(v),
        !view_set(v).contains(s@),
    ensures
        distinct_views(v.push(s)),
        view_set(v.push(s)) == view_set(v).insert(s@),
{
    let w = v.push(s);
    assert forall|a: int, b: int| 0 <= a < w.len() && 0 <= b < w.len() && a != b implies w[a]@ != w[b]@ by {
        if a < v.len() && b < v.len() {
            assert(w[a] == v[a] && w[b] == v[b]);
        } else if a < v.len() {
            assert(w[a] == v[a]);
            assert(view_set(v).contains(w[a]@));
        } else {
            assert(w[b] == v[b]);
            assert(view_set(v).contains(w[b]@));
        }
    }
    lemma_view_set_push(v, s);
}

/// Appends `s` to `v` unless some string of `v` already spells its id.
pub fn push_distinct(v: &mut Vec<String>, s: String)
    requires
        distinct_views(old(v)@),
    ensures
        distinct_views(final(v)@),
        view_set(final(v)@) == view_set(old(v)@).insert(s@),
        final(v)@ == if view_set(old(v)@).contains(s@) {
            old(v)@
        } else {
            old(v)@.push(s)
        },
{
    if contains_str(v, &s) {
        assert(view_set(v@).insert(s@) =~= view_set(v@));
    } else {
        let ghost before = v@;
        proof {
            lemma_push_distinct(before, s);
        }
        v.push(s);
    }
}

/// The ids of `v`, each once, in order of first appearance.
pub fn distinct_options(v: &Vec<String>) -> (r: Vec<String>)
    ensures
        distinct_views(r@),
        view_set(r@) == view_set(v@),
{
    let mut r: Vec<String> = Vec::new();
    let mut i: usize = 0;
    assert(view_set(r@) =~= view_set(v@.take(0)));
    while i < v.len()
        invariant
            i <= v.len(),
            distinct_views(r@),
            view_set(r@) == view_set(v@.take(i as int)),
        decreases v.len() - i,
    {
        proof {
            assert(v@.take(i + 1) =~= v@.take(i as int).push(v@[i as int]));
            lemma_view_set_push(v@.take(i as int), v@[i as int]);
        }
        push_distinct(&mut r, v[i].clone());
        i = i + 1;
    }
    assert(v@.take(v.len() as int) =~= v@);
    r
}

/// Whether `v` holds the index `x`.
pub fn contains_index(v: &Vec<usize>, x: usize) -> (r: bool)
    ensures
        r == v@.contains(x),
{
    let mut i: usize = 0;
    while i < v.len()
        invariant
            i <= v.len(),
            forall|j: int| 0 <= j < i ==> v@[j] != x,
        decreases v.len() - i,
    {
        if v[i] == x {
            return true;
        }
        i = i + 1;
    }
    false
}

/// Number of `false` entries.
pub open spec fn count_false(s: Seq<bool>) -> nat
    decreases s.len(),
{
    if s.len() == 0 {
        0
    } else {
        count_false(s.drop_last()) + if s.last() {
            0nat
        } else {
            1nat
        }
    }
}

/// Setting an unset flag lowers the count of unset flags by one.
pub proof fn lemma_count_false_set(s: Seq<bool>, i: int)
    requires
        0 <= i < s.len(),
        !s[i],
    ensures
        count_false(s.update(i, true)) + 1 == count_false(s),
    decreases s.len(),
{
    let t = s.update(i, true);
    if i == s.len() - 1 {
        assert(t.drop_last() =~= s.drop_last());
    } else {
        assert(t.drop_last() =~= s.drop_last().update(i, true));
        lemma_count_false_set(s.drop_last(), i);
    }
}

/// `s` with its first character removed, when that character is `c`.
///
/// Calls `str::strip_prefix` with the pattern `c`. Its documentation: it
/// returns the rest of the string when the string starts with the pattern,
/// and `None` otherwise. A `char` pattern matches one character, so the rest
/// is the string without its first character. The contract claims exactly
/// that, over characters.
#[verifier::external_body]
pub(crate) fn strip_char_prefix(s: &str, c: char) -> (r: Option<&str>)
    ensures
        r is Some <==> (s@.len() > 0 && s@[0] == c),
        r matches Some(rest) ==> rest@ == s@.drop_first(),
{
    s.strip_prefix(c)
}

/// What `str::to_lowercase` returns for a string: the Unicode lowercase
/// mapping of each character, which can change a string's length.
pub uninterp spec fn lowercase_of(s: Seq<char>) -> Seq<char>;

/// The lowercase form of `s`.
///
/// Calls `str::to_lowercase`. The contract claims only that the result is a
/// function of the characters of `s` (named `lowercase_of`); the Unicode
/// mapping itself is left unstated.
#[verifier::external_body]
pub(crate) fn to_lowercase(s: &str) -> (r: String)
    ensures
        r@ == lowercase_of(s@),
{
    s.to_lowercase()
}

} // verus!
