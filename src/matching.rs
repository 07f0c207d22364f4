//! Which file names an extension query selects.

use vstd::prelude::*;

use crate::text::{char_index, find_char};

verus! {

/// The extension of a file name: what follows its first dot, or, for a name that starts
/// with a dot, what follows its second dot. `file.tar.gz` gives `tar.gz`, `.file.lock`
/// gives `lock`; a name without such a dot has no extension.
pub open spec fn file_ext(name: Seq<char>) -> Option<Seq<char>> {
    let i = find_char(name, '.', 0);
    if i >= name.len() {
        None
    } else if i > 0 {
        Some(name.subrange(i + 1, name.len() as int))
    } else {
        let j = find_char(name, '.', 1);
        if j >= name.len() {
            None
        } else {
            Some(name.subrange(j + 1, name.len() as int))
        }
    }
}

/// The character sequences of a list of strings.
pub open spec fn words(v: Seq<String>) -> Seq<Seq<char>> {
    Seq::new(v.len(), |i: int| v[i]@)
}

/// `s` with a dot in front.
pub open spec fn dotted(s: Seq<char>) -> Seq<char> {
    seq!['.'] + s
}

/// `s` ends with `suffix`.
pub open spec fn ends_with(s: Seq<char>, suffix: Seq<char>) -> bool {
    suffix.len() <= s.len() && s.subrange(s.len() - suffix.len(), s.len() as int) == suffix
}

/// A file name matches a requested extension `ext` when `.name` ends with `.ext`:
/// `file.tar.gz` matches `gz` and `tar.gz`, but neither `tar` nor `z`; `txt` and `.txt`
/// match `txt`.
pub open spec fn ext_matches(name: Seq<char>, ext: Seq<char>) -> bool {
    ends_with(dotted(name), dotted(ext))
}

/// Some requested extension matches the file name `name`.
pub open spec fn any_ext_matches(exts: Seq<Seq<char>>, name: Seq<char>) -> bool {
    exists|k: int| 0 <= k < exts.len() && ext_matches(name, #[trigger] exts[k])
}

/// Whether a file named `name` is selected: some of `exts` matches it, or, with
/// `invert`, none of them does.
pub open spec fn name_selected(exts: Seq<Seq<char>>, name: Seq<char>, invert: bool) -> bool {
    invert != any_ext_matches(exts, name)
}

/// Every character of `s` is a lowercase ASCII letter.
pub open spec fn is_lowercase_word(s: Seq<char>) -> bool {
    forall|i: int| 0 <= i < s.len() ==> 'a' <= #[trigger] s[i] && s[i] <= 'z'
}

pub open spec fn all_lowercase_words(exts: Seq<Seq<char>>) -> bool {
    forall|k: int| 0 <= k < exts.len() ==> is_lowercase_word(#[trigger] exts[k])
}

/// Returns the extension of `filename` as `file_ext` defines it: the longest one, so
/// `file.tar.gz` gives `tar.gz`.
pub fn get_fileext(filename: &String) -> (r: Option<&str>)
    ensures
        r is None <==> file_ext(filename@) is None,
        r is Some ==> file_ext(filename@) == Some(r->0@),
{
    let s = filename.as_str();
    let len = s.unicode_len();
    let i = char_index(s, len, '.', 0);
    if i >= len {
        None
    } else if i > 0 {
        Some(s.substring_char(i + 1, len))
    } else {
        let j = char_index(s, len, '.', 1);
        if j >= len {
            None
        } else {
            Some(s.substring_char(j + 1, len))
        }
    }
}

/// Whether `.name` ends with `.ext`.
pub fn ext_matches_exec(name: &str, ext: &str) -> (r: bool)
    ensures
        r == ext_matches(name@, ext@),
{
    let n = name.unicode_len();
    let m = ext.unicode_len();
    if m > n {
        return false;
    }
    let ghost a = dotted(name@);
    let ghost b = dotted(ext@);
    let ghost tail = a.subrange(n - m, n + 1);
    assert(tail[0] == a[n - m]);
    if n > m && name.get_char(n - m - 1) != '.' {
        assert(tail[0] != b[0]);
        return false;
    }
    let mut j: usize = 0;
    while j < m
        invariant
            n == name@.len(),
            m == ext@.len(),
            m <= n,
            j <= m,
            tail == dotted(name@).subrange(n - m, n + 1),
            b == dotted(ext@),
            forall|i: int| 0 <= i < j ==> name@[n - m + i] == ext@[i],
        decreases m - j,
    {
        if name.get_char(n - m + j) != ext.get_char(j) {
            assert(tail[j + 1] != b[j + 1]);
            return false;
        }
        j = j + 1;
    }
    assert(tail =~= b);
    true
}

/// Whether `invert` differs from "some of `extensions` matches the name `name`".
pub fn keeps_ext(extensions: &Vec<String>, name: &str, invert: bool) -> (r: bool)
    ensures
        r == (invert != any_ext_matches(words(extensions@), name@)),
{
    let mut k: usize = 0;
    while k < extensions.len()
        invariant
            k <= extensions.len(),
            forall|j: int| 0 <= j < k ==> !ext_matches(name@, #[trigger] words(extensions@)[j]),
        decreases extensions.len() - k,
    {
        if ext_matches_exec(name, extensions[k].as_str()) {
            assert(ext_matches(name@, words(extensions@)[k as int]));
            return !invert;
        }
        k = k + 1;
    }
    assert(!any_ext_matches(words(extensions@), name@)) by {
        assert forall|j: int| 0 <= j < words(extensions@).len() implies !ext_matches(
            name@,
            #[trigger] words(extensions@)[j],
        ) by {}
    }
    invert
}

/// Whether a file named `name` is selected by `extensions` (negated by `invert`).
pub fn name_selected_exec(extensions: &Vec<String>, name: &String, invert: bool) -> (r: bool)
    ensures
        r == name_selected(words(extensions@), name@, invert),
{
    keeps_ext(extensions, name.as_str(), invert)
}

/// Whether every extension holds only the letters `a` to `z`.
pub fn are_extensions_valid(extensions: &Vec<String>) -> (r: bool)
    ensures
        r == all_lowercase_words(words(extensions@)),
{
    let mut k: usize = 0;
    while k < extensions.len()
        invariant
            k <= extensions.len(),
            forall|j: int| 0 <= j < k ==> is_lowercase_word(#[trigger] words(extensions@)[j]),
        decreases extensions.len() - k,
    {
        let s = extensions[k].as_str();
        let n = s.unicode_len();
        let mut i: usize = 0;
        while i < n
            invariant
                k < extensions.len(),
                n == s@.len(),
                s@ == words(extensions@)[k as int],
                i <= n,
                forall|j: int| 0 <= j < i ==> 'a' <= #[trigger] s@[j] && s@[j] <= 'z',
            decreases n - i,
        {
            let c = s.get_char(i);
            if c < 'a' || c > 'z' {
                assert(!is_lowercase_word(words(extensions@)[k as int]));
                return false;
            }
            i = i + 1;
        }
        k = k + 1;
    }
    true
}

/// A requested extension matches by true dotted suffix: the name `name` is the extension
/// itself, or ends with a dot followed by it.
pub proof fn lemma_match_is_dotted_suffix(name: Seq<char>, ext: Seq<char>)
    ensures
        ext_matches(name, ext) <==> (name == ext || ends_with(name, dotted(ext))),
{
    let a = dotted(name);
    let b = dotted(ext);
    if ext.len() == name.len() {
        assert(a.subrange(0, a.len() as int) =~= a);
        assert(name =~= a.subrange(1, a.len() as int));
        assert(ext =~= b.subrange(1, b.len() as int));
    } else if ext.len() < name.len() {
        assert(a.subrange(a.len() - b.len(), a.len() as int) =~= name.subrange(
            name.len() - b.len(),
            name.len() as int,
        ));
    }
}

/// With one requested extension and no inversion, a file is selected exactly when its
/// name, dotted, ends with the requested extension, dotted.
pub proof fn lemma_single_extension(ext: Seq<char>, name: Seq<char>)
    ensures
        name_selected(seq![ext], name, false) <==> ends_with(dotted(name), dotted(ext)),
{
    if ext_matches(name, ext) {
        assert(ext_matches(name, seq![ext][0]));
    }
}

/// Inverting the selection selects exactly the files that are not selected otherwise.
pub proof fn lemma_invert_is_complement(exts: Seq<Seq<char>>, name: Seq<char>)
    ensures
        name_selected(exts, name, true) <==> !name_selected(exts, name, false),
{
}

} // verus!
