//! Character searches and the std string functions that the parsing relies on.

use vstd::prelude::*;

use crate::matching::words;

verus! {

/// Index of the first `c` in `s` at or after `from`, or `s.len()` when there is none.
pub open spec fn find_char(s: Seq<char>, c: char, from: int) -> int
    decreases s.len() - from,
{
    if from >= s.len() {
        s.len() as int
    } else if s[from] == c {
        from
    } else {
        find_char(s, c, from + 1)
    }
}

pub proof fn lemma_find_char_bounds(s: Seq<char>, c: char, from: int)
    requires
        0 <= from,
    ensures
        from <= s.len() ==> from <= find_char(s, c, from) <= s.len(),
        from < find_char(s, c, from) ==> find_char(s, c, from) == find_char(s, c, from + 1),
    decreases s.len() - from,
{
    if from < s.len() && s[from] != c {
        lemma_find_char_bounds(s, c, from + 1);
    }
}

/// Returns the index of the first `c` in `s` at or after `from`, or the length of `s`.
pub fn char_index(s: &str, len: usize, c: char, from: usize) -> (i: usize)
    requires
        len == s@.len(),
        from <= len,
    ensures
        i == find_char(s@, c, from as int),
        from <= i <= len,
{
    let mut i: usize = from;
    while i < len && s.get_char(i) != c
        invariant
            from <= i <= len,
            len == s@.len(),
            find_char(s@, c, i as int) == find_char(s@, c, from as int),
        decreases len - i,
    {
        i = i + 1;
    }
    i
}


/// What `str::trim` returns for the characters `s`.
pub uninterp spec fn trimmed(s: Seq<char>) -> Seq<char>;

/// What `str::split_whitespace` yields for the characters `s`.
pub uninterp spec fn words_of(s: Seq<char>) -> Seq<Seq<char>>;

/// Relies on `str::trim`: `s` without its leading and trailing whitespace, which depends
/// on the characters of `s` alone.
#[verifier::external_body]
pub(crate) fn trim(s: &str) -> (r: &str)
    ensures
        r@ == trimmed(s@),
{
    s.trim()
}

/// Relies on `str::split_whitespace`: the whitespace-separated words of `s`, in order,
/// which depend on the characters of `s` alone.
#[verifier::external_body]
pub(crate) fn split_words(s: &str) -> (r: Vec<String>)
    ensures
        words(r@) == words_of(s@),
{
    s.split_whitespace().map(String::from).collect()
}

/// A copy of `v`.
pub(crate) fn clone_words(v: &Vec<String>) -> (r: Vec<String>)
    ensures
        words(r@) == words(v@),
{
    let mut r: Vec<String> = Vec::new();
    let mut i: usize = 0;
    while i < v.len()
        invariant
            i <= v.len(),
            r@.len() == i,
            forall|j: int| 0 <= j < i ==> #[trigger] r@[j]@ == v@[j]@,
        decreases v.len() - i,
    {
        r.push(v[i].clone());
        i = i + 1;
    }
    assert(words(r@) =~= words(v@));
    r
}

} // verus!
