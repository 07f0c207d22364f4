//! Presets: named lists of extensions, one `preset <name>=<ext> <ext> ...` line each.

use vstd::prelude::*;

use crate::matching::words;
use crate::text::{
    char_index, find_char, lemma_find_char_bounds, split_words, trim, trimmed, words_of,
};

verus! {

/// Why a preset could not be read from the configuration text.
#[derive(Clone, Copy, Debug, PartialEq, Eq, Structural)]
pub enum PresetError {
    /// No line starts with `preset <name>`.
    NotFound,
    /// The preset's line does not hold exactly one `=`.
    Malformed,
    /// The preset's line names no extension.
    NoExtensions,
}

/// The line of `s` that starts at `pos`: up to the next newline, without it, and without
/// a carriage return just before it.
pub open spec fn line_at(s: Seq<char>, pos: int) -> Seq<char> {
    let e = find_char(s, '\n', pos);
    let raw = s.subrange(pos, e);
    if e < s.len() && raw.len() > 0 && raw.last() == '\r' {
        raw.drop_last()
    } else {
        raw
    }
}

/// `s` begins with `prefix`.
pub open spec fn starts_with(s: Seq<char>, prefix: Seq<char>) -> bool {
    prefix.len() <= s.len() && s.subrange(0, prefix.len() as int) == prefix
}

/// The name that a preset line gives, from what follows its `preset `: the text before
/// its first `=` (all of it, without one), trimmed.
pub open spec fn preset_key(rest: Seq<char>) -> Seq<char> {
    trimmed(rest.subrange(0, find_char(rest, '=', 0)))
}

/// `line` is a preset line that names `name`.
pub open spec fn names_preset(line: Seq<char>, name: Seq<char>) -> bool {
    starts_with(line, preset_word()) && preset_key(line.subrange(7, line.len() as int)) == name
}

/// The first line of `s`, from the one that starts at `pos` on, that is the line of the
/// preset `name`.
pub open spec fn line_of_preset(s: Seq<char>, name: Seq<char>, pos: int) -> Option<Seq<char>>
    decreases s.len() - pos,
{
    if pos < 0 || pos >= s.len() {
        None
    } else if names_preset(line_at(s, pos), name) {
        Some(line_at(s, pos))
    } else if find_char(s, '\n', pos) < s.len() {
        proof {
            lemma_find_char_bounds(s, '\n', pos);
        }
        line_of_preset(s, name, find_char(s, '\n', pos) + 1)
    } else {
        None
    }
}

/// Number of `c` in `s`.
pub open spec fn count_char(s: Seq<char>, c: char) -> nat
    decreases s.len(),
{
    if s.len() == 0 {
        0
    } else {
        count_char(s.drop_last(), c) + if s.last() == c {
            1nat
        } else {
            0nat
        }
    }
}

/// What follows the first `=` of `line`.
pub open spec fn after_equals(line: Seq<char>) -> Seq<char> {
    line.subrange(find_char(line, '=', 0) + 1, line.len() as int)
}

/// The result of looking up preset `name` in the configuration text `data`.
pub open spec fn preset_result(name: Seq<char>, data: Seq<char>) -> Result<
    Seq<Seq<char>>,
    PresetError,
> {
    match line_of_preset(data, name, 0) {
        None => Err(PresetError::NotFound),
        Some(line) => if count_char(line, '=') != 1 {
            Err(PresetError::Malformed)
        } else if words_of(trimmed(after_equals(line))).len() == 0 {
            Err(PresetError::NoExtensions)
        } else {
            Ok(words_of(trimmed(after_equals(line))))
        },
    }
}

fn preset_word_chars() -> (r: Vec<char>)
    ensures
        r@ == preset_word(),
{
    let mut r: Vec<char> = Vec::new();
    r.push('p');
    r.push('r');
    r.push('e');
    r.push('s');
    r.push('e');
    r.push('t');
    r.push(' ');
    assert(r@ =~= preset_word());
    r
}

/// Whether `a` and `b` hold the same characters.
fn same_chars(a: &str, b: &str) -> (r: bool)
    ensures
        r == (a@ == b@),
{
    let n = a.unicode_len();
    if n != b.unicode_len() {
        return false;
    }
    let mut i: usize = 0;
    while i < n
        invariant
            n == a@.len(),
            n == b@.len(),
            i <= n,
            forall|j: int| 0 <= j < i ==> a@[j] == b@[j],
        decreases n - i,
    {
        if a.get_char(i) != b.get_char(i) {
            return false;
        }
        i = i + 1;
    }
    assert(a@ =~= b@);
    true
}

/// Whether `line` is the line of preset `name`.
fn names_preset_exec(line: &str, name: &String) -> (r: bool)
    ensures
        r == names_preset(line@, name@),
{
    let len = line.unicode_len();
    let word = preset_word_chars();
    if !slice_starts_with(line, 0, len, &word) {
        assert(line@.subrange(0, len as int) =~= line@);
        return false;
    }
    assert(line@.subrange(0, len as int) =~= line@);
    let rest = line.substring_char(7, len);
    let k = char_index(rest, len - 7, '=', 0);
    let key = trim(rest.substring_char(0, k));
    same_chars(key, name.as_str())
}

/// Whether the characters of `s` from `from` to `to` begin with `prefix`.
fn slice_starts_with(s: &str, from: usize, to: usize, prefix: &Vec<char>) -> (r: bool)
    requires
        from <= to <= s@.len(),
    ensures
        r == starts_with(s@.subrange(from as int, to as int), prefix@),
{
    let ghost line = s@.subrange(from as int, to as int);
    if prefix.len() > to - from {
        return false;
    }
    let mut k: usize = 0;
    while k < prefix.len()
        invariant
            from <= to <= s@.len(),
            prefix.len() <= to - from,
            line == s@.subrange(from as int, to as int),
            k <= prefix.len(),
            forall|j: int| 0 <= j < k ==> line[j] == prefix@[j],
        decreases prefix.len() - k,
    {
        if s.get_char(from + k) != prefix[k] {
            assert(line.subrange(0, prefix.len() as int)[k as int] != prefix@[k as int]);
            return false;
        }
        k = k + 1;
    }
    assert(line.subrange(0, prefix.len() as int) =~= prefix@);
    true
}

/// Counts the `=` of `s`.
fn count_equals(s: &str, len: usize) -> (r: usize)
    requires
        len == s@.len(),
    ensures
        r == count_char(s@, '='),
{
    let mut cnt: usize = 0;
    let mut i: usize = 0;
    while i < len
        invariant
            len == s@.len(),
            i <= len,
            cnt <= i,
            cnt == count_char(s@.subrange(0, i as int), '='),
        decreases len - i,
    {
        assert(s@.subrange(0, i + 1).drop_last() =~= s@.subrange(0, i as int));
        if s.get_char(i) == '=' {
            cnt = cnt + 1;
        }
        i = i + 1;
    }
    assert(s@.subrange(0, len as int) =~= s@);
    cnt
}

/// The extensions that a preset names, from the words of its line: an error when there
/// are none.
pub fn check_preset_words(extensions: Vec<String>) -> (r: Result<Vec<String>, PresetError>)
    ensures
        extensions.len() == 0 ==> r == Err::<Vec<String>, PresetError>(PresetError::NoExtensions),
        extensions.len() > 0 ==> r == Ok::<Vec<String>, PresetError>(extensions),
{
    if extensions.len() == 0 {
        Err(PresetError::NoExtensions)
    } else {
        Ok(extensions)
    }
}

/// Reads a preset's line: exactly one `=`, followed by the extensions.
pub fn parse_preset_line(line: &str) -> (r: Result<Vec<String>, PresetError>)
    ensures
        match r {
            Ok(v) => count_char(line@, '=') == 1 && words(v@) == words_of(
                trimmed(after_equals(line@)),
            ) && v.len() > 0,
            Err(e) => (count_char(line@, '=') != 1 && e == PresetError::Malformed) || (count_char(
                line@,
                '=',
            ) == 1 && words_of(trimmed(after_equals(line@))).len() == 0 && e
                == PresetError::NoExtensions),
        },
{
    let len = line.unicode_len();
    if count_equals(line, len) != 1 {
        return Err(PresetError::Malformed);
    }
    let k = char_index(line, len, '=', 0);
    if k >= len {
        // a line with one `=` has it before its end
        proof {
            lemma_count_zero_without(line@, '=');
        }
        return Err(PresetError::Malformed);
    }
    let rest = line.substring_char(k + 1, len);
    let extensions = split_words(trim(rest));
    check_preset_words(extensions)
}

/// A sequence without `c` from `from` on counts no `c` after `from`.
proof fn lemma_count_zero_without(s: Seq<char>, c: char)
    requires
        find_char(s, c, 0) >= s.len(),
    ensures
        count_char(s, c) == 0,
{
    assert forall|i: int| 0 <= i < s.len() implies s[i] != c by {
        lemma_no_char_before(s, c, 0, i);
    }
    lemma_count_zero(s, c);
}

proof fn lemma_no_char_before(s: Seq<char>, c: char, from: int, i: int)
    requires
        0 <= from <= i < s.len(),
        find_char(s, c, from) >= s.len(),
    ensures
        s[i] != c,
    decreases i - from,
{
    if from < i {
        lemma_no_char_before(s, c, from + 1, i);
    }
}

proof fn lemma_count_zero(s: Seq<char>, c: char)
    requires
        forall|i: int| 0 <= i < s.len() ==> s[i] != c,
    ensures
        count_char(s, c) == 0,
    decreases s.len(),
{
    if s.len() > 0 {
        lemma_count_zero(s.drop_last(), c);
    }
}

/// Looks up preset `preset` in the configuration text `data`: the first line
/// `preset <name>=...` whose name is `preset`, which must hold exactly one `=` followed
/// by at least one extension.
pub fn parse(preset: &String, data: &str) -> (r: Result<Vec<String>, PresetError>)
    ensures
        match r {
            Ok(v) => preset_result(preset@, data@) == Ok::<Seq<Seq<char>>, PresetError>(
                words(v@),
            ),
            Err(e) => preset_result(preset@, data@) == Err::<Seq<Seq<char>>, PresetError>(e),
        },
{
    let n = data.unicode_len();
    let mut pos: usize = 0;
    while pos < n
        invariant
            n == data@.len(),
            pos <= n,
            line_of_preset(data@, preset@, 0) == line_of_preset(data@, preset@, pos as int),
        decreases n - pos,
    {
        let e = char_index(data, n, '\n', pos);
        let end = if e < n && e > pos && data.get_char(e - 1) == '\r' {
            e - 1
        } else {
            e
        };
        assert(data@.subrange(pos as int, end as int) == line_at(data@, pos as int)) by {
            if end < e {
                assert(data@.subrange(pos as int, e as int).drop_last() =~= data@.subrange(
                    pos as int,
                    end as int,
                ));
            }
        }
        let line = data.substring_char(pos, end);
        if names_preset_exec(line, preset) {
            return parse_preset_line(line);
        }
        if e >= n {
            return Err(PresetError::NotFound);
        }
        pos = e + 1;
    }
    Err(PresetError::NotFound)
}

/// One `preset ` line of the configuration, as it is shown to the user.
#[derive(Debug, PartialEq, Eq)]
pub enum PresetListing {
    /// The line, after `preset `, does not hold exactly one `=`.
    Malformed(String),
    /// The named preset has no extension.
    Empty(String),
    /// The named preset and its extensions.
    Valid(String, Vec<String>),
}

/// What a `PresetListing` holds, as characters.
pub enum ListingView {
    Malformed(Seq<char>),
    Empty(Seq<char>),
    Valid(Seq<char>, Seq<Seq<char>>),
}

/// The characters that `l` holds.
pub open spec fn listing_view(l: PresetListing) -> ListingView {
    match l {
        PresetListing::Malformed(r) => ListingView::Malformed(r@),
        PresetListing::Empty(n) => ListingView::Empty(n@),
        PresetListing::Valid(n, w) => ListingView::Valid(n@, words(w@)),
    }
}

/// The lines of `s` from the one that starts at `pos` on; a final newline ends the last
/// line and starts none.
pub open spec fn lines_from(s: Seq<char>, pos: int) -> Seq<Seq<char>>
    decreases s.len() - pos,
{
    if pos < 0 || pos >= s.len() {
        seq![]
    } else if find_char(s, '\n', pos) < s.len() {
        proof {
            lemma_find_char_bounds(s, '\n', pos);
        }
        seq![line_at(s, pos)] + lines_from(s, find_char(s, '\n', pos) + 1)
    } else {
        seq![line_at(s, pos)]
    }
}

/// `preset `: how a preset line begins.
pub open spec fn preset_word() -> Seq<char> {
    seq!['p', 'r', 'e', 's', 'e', 't', ' ']
}

/// How a preset line shows, from what follows its `preset `.
pub open spec fn listing_of(rest: Seq<char>) -> ListingView {
    let t = trimmed(rest);
    if count_char(t, '=') != 1 {
        ListingView::Malformed(rest)
    } else if words_of(trimmed(after_equals(t))).len() == 0 {
        ListingView::Empty(t.subrange(0, find_char(t, '=', 0)))
    } else {
        ListingView::Valid(t.subrange(0, find_char(t, '=', 0)), words_of(trimmed(after_equals(t))))
    }
}

/// How the preset lines among `lines` show, in order.
pub open spec fn listings(lines: Seq<Seq<char>>) -> Seq<ListingView>
    decreases lines.len(),
{
    if lines.len() == 0 {
        seq![]
    } else {
        let prev = listings(lines.drop_last());
        let l = lines.last();
        if starts_with(l, preset_word()) {
            prev.push(listing_of(l.subrange(7, l.len() as int)))
        } else {
            prev
        }
    }
}

fn listing_for(rest: &str) -> (r: PresetListing)
    ensures
        listing_view(r) == listing_of(rest@),
{
    let t = trim(rest);
    let len = t.unicode_len();
    if count_equals(t, len) != 1 {
        return PresetListing::Malformed(rest.to_owned());
    }
    let k = char_index(t, len, '=', 0);
    if k >= len {
        proof {
            lemma_count_zero_without(t@, '=');
        }
        return PresetListing::Malformed(rest.to_owned());
    }
    let name = t.substring_char(0, k).to_owned();
    let extensions = split_words(trim(t.substring_char(k + 1, len)));
    if extensions.len() == 0 {
        PresetListing::Empty(name)
    } else {
        PresetListing::Valid(name, extensions)
    }
}

/// Every preset line of the configuration text `data`, in order, and how it shows:
/// malformed, without extensions, or a preset name with its extensions.
pub fn show(data: &str) -> (r: Vec<PresetListing>)
    ensures
        Seq::new(r@.len(), |i: int| listing_view(r@[i])) == listings(lines_from(data@, 0)),
{
    let prefix = preset_word_chars();
    let n = data.unicode_len();
    let mut out: Vec<PresetListing> = Vec::new();
    let ghost mut done: Seq<Seq<char>> = seq![];
    let mut pos: usize = 0;
    while pos < n
        invariant
            n == data@.len(),
            pos <= n,
            prefix@ == preset_word(),
            lines_from(data@, 0) == done + lines_from(data@, pos as int),
            Seq::new(out@.len(), |i: int| listing_view(out@[i])) == listings(done),
        decreases n - pos,
    {
        let e = char_index(data, n, '\n', pos);
        let end = if e < n && e > pos && data.get_char(e - 1) == '\r' {
            e - 1
        } else {
            e
        };
        let ghost line = line_at(data@, pos as int);
        assert(data@.subrange(pos as int, end as int) == line) by {
            if end < e {
                assert(data@.subrange(pos as int, e as int).drop_last() =~= data@.subrange(
                    pos as int,
                    end as int,
                ));
            }
        }
        let ghost out0 = out@;
        if slice_starts_with(data, pos, end, &prefix) {
            let l = listing_for(data.substring_char(pos + 7, end));
            assert(data@.subrange(pos + 7, end as int) =~= line.subrange(7, line.len() as int));
            out.push(l);
        }
        assert(done.push(line).drop_last() =~= done);
        assert(Seq::new(out@.len(), |i: int| listing_view(out@[i])) =~= listings(done.push(line)))
            by {
            if out@.len() > out0.len() {
                assert(out@[out0.len() as int] == out@.last());
            }
            assert(forall|i: int| 0 <= i < out0.len() ==> out@[i] == out0[i]);
        }
        if e >= n {
            proof {
                assert(lines_from(data@, pos as int) =~= seq![line]);
                done = done.push(line);
                assert(lines_from(data@, 0) =~= done);
                assert(lines_from(data@, n as int) =~= seq![]);
                assert(lines_from(data@, 0) =~= done + lines_from(data@, n as int));
            }
            pos = n;
        } else {
            proof {
                assert(lines_from(data@, pos as int) =~= seq![line] + lines_from(data@, e + 1));
                assert(done + lines_from(data@, pos as int) =~= done.push(line) + lines_from(
                    data@,
                    e + 1,
                ));
                done = done.push(line);
            }
            pos = e + 1;
        }
    }
    assert(lines_from(data@, pos as int) =~= seq![]);
    assert(done + seq![] =~= done);
    out
}

} // verus!
