//! Walking a directory tree, one listing at a time, and selecting its files.

use vstd::prelude::*;

use crate::arguments::CollectOptions;
use crate::matching::{name_selected, name_selected_exec, words};
use crate::text::clone_words;
use vstd::view::View;

verus! {

/// The type of a directory entry, read without following symbolic links: a link to a
/// directory is `Other`.
#[derive(Clone, Copy, Debug, PartialEq, Eq, Structural)]
pub enum EntryKind {
    File,
    Dir,
    Other,
}

/// One entry of a directory listing.
#[derive(Debug)]
pub struct Entry {
    pub name: String,
    pub kind: EntryKind,
}

/// What one directory listing yields: the names of the selected files and the names of
/// the subdirectories to walk next, both in listing order.
#[derive(Debug)]
pub struct Selection {
    pub files: Vec<String>,
    pub dirs: Vec<String>,
}

/// A name that starts with a dot.
pub open spec fn is_hidden(name: Seq<char>) -> bool {
    name.len() > 0 && name[0] == '.'
}

/// An entry is visited unless it is hidden and hidden entries are not wanted.
pub open spec fn visible(name: Seq<char>, o: CollectOptions) -> bool {
    o.all || !is_hidden(name)
}

/// The walk descends into `e`.
pub open spec fn descends(e: Entry, o: CollectOptions) -> bool {
    visible(e.name@, o) && o.recurse && e.kind == EntryKind::Dir
}

/// `e` is a selected file.
pub open spec fn picks(exts: Seq<Seq<char>>, e: Entry, o: CollectOptions) -> bool {
    visible(e.name@, o) && e.kind == EntryKind::File && name_selected(exts, e.name@, o.invert)
}

/// Names of the selected files among `entries`, in order.
pub open spec fn picked(exts: Seq<Seq<char>>, entries: Seq<Entry>, o: CollectOptions) -> Seq<
    Seq<char>,
>
    decreases entries.len(),
{
    if entries.len() == 0 {
        seq![]
    } else {
        let prev = picked(exts, entries.drop_last(), o);
        if picks(exts, entries.last(), o) {
            prev.push(entries.last().name@)
        } else {
            prev
        }
    }
}

/// Names of the subdirectories among `entries` that the walk descends into, in order.
pub open spec fn descended(entries: Seq<Entry>, o: CollectOptions) -> Seq<Seq<char>>
    decreases entries.len(),
{
    if entries.len() == 0 {
        seq![]
    } else {
        let prev = descended(entries.drop_last(), o);
        if descends(entries.last(), o) {
            prev.push(entries.last().name@)
        } else {
            prev
        }
    }
}

/// Sorts the entries of one directory: the files selected by `extensions` under `options`,
/// and the subdirectories to descend into.
pub fn collect_matching_files(
    extensions: &Vec<String>,
    entries: &Vec<Entry>,
    options: &CollectOptions,
) -> (r: Selection)
    ensures
        words(r.files@) == picked(words(extensions@), entries@, *options),
        words(r.dirs@) == descended(entries@, *options),
{
    let ghost exts = words(extensions@);
    let mut files: Vec<String> = Vec::new();
    let mut dirs: Vec<String> = Vec::new();
    let mut i: usize = 0;
    while i < entries.len()
        invariant
            i <= entries.len(),
            exts == words(extensions@),
            words(files@) == picked(exts, entries@.subrange(0, i as int), *options),
            words(dirs@) == descended(entries@.subrange(0, i as int), *options),
        decreases entries.len() - i,
    {
        let e = &entries[i];
        let ghost prefix = entries@.subrange(0, i + 1);
        assert(prefix.drop_last() =~= entries@.subrange(0, i as int));
        assert(prefix.last() == *e);
        let hidden = !e.name.as_str().is_empty() && e.name.as_str().get_char(0) == '.';
        let seen = options.all || !hidden;
        if seen && options.recurse && e.kind == EntryKind::Dir {
            dirs.push(e.name.clone());
            assert(words(dirs@) =~= descended(prefix, *options));
        } else if seen && e.kind == EntryKind::File && name_selected_exec(
            extensions,
            &e.name,
            options.invert,
        ) {
            files.push(e.name.clone());
            assert(words(files@) =~= picked(exts, prefix, *options));
        }
        i = i + 1;
    }
    assert(entries@.subrange(0, entries.len() as int) =~= entries@);
    Selection { files, dirs }
}

/// Paths below the walk's root, each as its components.
pub open spec fn paths(v: Seq<Vec<String>>) -> Seq<Seq<Seq<char>>> {
    Seq::new(v.len(), |i: int| words(v[i]@))
}

/// `d` extended by each of `names`.
pub open spec fn children(d: Seq<Seq<char>>, names: Seq<Seq<char>>) -> Seq<Seq<Seq<char>>> {
    Seq::new(names.len(), |i: int| d.push(names[i]))
}

pub open spec fn reversed<A>(s: Seq<A>) -> Seq<A> {
    Seq::new(s.len(), |i: int| s[s.len() - 1 - i])
}

/// A directory that the walk may list: every component is visible, and without
/// recursion it is the root itself.
pub open spec fn dir_in_scope(p: Seq<Seq<char>>, o: CollectOptions) -> bool {
    &&& forall|i: int| 0 <= i < p.len() ==> visible(#[trigger] p[i], o)
    &&& !o.recurse ==> p.len() == 0
}

/// A file that the walk may select: it stands in a directory in scope, its name is
/// visible and selected by the extensions.
pub open spec fn file_in_scope(p: Seq<Seq<char>>, exts: Seq<Seq<char>>, o: CollectOptions) -> bool {
    &&& p.len() >= 1
    &&& dir_in_scope(p.drop_last(), o)
    &&& visible(p.last(), o)
    &&& name_selected(exts, p.last(), o.invert)
}

/// The state of a walk: the extensions and options it was made with, the directories
/// still to list (the last one next), the directory being listed, the files found, and
/// each directory listed so far with the entries it was handed for it.
pub struct WalkView {
    pub extensions: Seq<Seq<char>>,
    pub options: CollectOptions,
    pub pending: Seq<Seq<Seq<char>>>,
    pub current: Option<Seq<Seq<char>>>,
    pub found: Seq<Seq<Seq<char>>>,
    pub listed: Seq<(Seq<Seq<char>>, Seq<Entry>)>,
}

/// The files selected in the listings `h`, in order.
pub open spec fn found_in(
    h: Seq<(Seq<Seq<char>>, Seq<Entry>)>,
    exts: Seq<Seq<char>>,
    o: CollectOptions,
) -> Seq<Seq<Seq<char>>>
    decreases h.len(),
{
    if h.len() == 0 {
        seq![]
    } else {
        found_in(h.drop_last(), exts, o) + children(h.last().0, picked(exts, h.last().1, o))
    }
}

/// The directories that the listings `h` lead to: the root, and each subdirectory
/// descended into from a listing.
pub open spec fn reached(h: Seq<(Seq<Seq<char>>, Seq<Entry>)>, o: CollectOptions) -> Seq<
    Seq<Seq<char>>,
>
    decreases h.len(),
{
    if h.len() == 0 {
        seq![seq![]]
    } else {
        reached(h.drop_last(), o) + children(h.last().0, descended(h.last().1, o))
    }
}

/// `d` is one of the directories listed in `h`.
pub open spec fn listed_dir(h: Seq<(Seq<Seq<char>>, Seq<Entry>)>, d: Seq<Seq<char>>) -> bool {
    exists|k: int| 0 <= k < h.len() && (#[trigger] h[k]).0 == d
}

/// The files found are those selected in the listings so far; each directory reached is
/// listed, being listed or still to list; and a directory is listed only once reached.
pub open spec fn walk_history_ok(v: WalkView) -> bool {
    &&& v.found == found_in(v.listed, v.extensions, v.options)
    &&& forall|d: Seq<Seq<char>>|
        #![trigger reached(v.listed, v.options).contains(d)]
        #![trigger listed_dir(v.listed, d)]
        #![trigger v.pending.contains(d)]
        reached(v.listed, v.options).contains(d) <==> (listed_dir(v.listed, d) || v.pending.contains(
            d,
        ) || v.current == Some(d))
    &&& forall|k: int|
        0 <= k < v.listed.len() ==> reached(v.listed.subrange(0, k), v.options).contains(
            (#[trigger] v.listed[k]).0,
        )
}

/// Every directory and file that the walk holds is in scope.
pub open spec fn walk_in_scope(v: WalkView) -> bool {
    &&& forall|k: int| 0 <= k < v.pending.len() ==> dir_in_scope(#[trigger] v.pending[k], v.options)
    &&& (v.current matches Some(d) ==> dir_in_scope(d, v.options))
    &&& forall|k: int|
        0 <= k < v.found.len() ==> file_in_scope(#[trigger] v.found[k], v.extensions, v.options)
}

/// A walk of a directory tree that does no I/O itself: it hands out the next directory
/// to list, takes that directory's entries, and gathers the selected files. Directories
/// are listed depth first, each one's files before those of its subdirectories.
pub struct Walk {
    extensions: Vec<String>,
    options: CollectOptions,
    pending: Vec<Vec<String>>,
    current: Option<Vec<String>>,
    found: Vec<Vec<String>>,
    listed: Ghost<Seq<(Seq<Seq<char>>, Seq<Entry>)>>,
}

impl View for Walk {
    type V = WalkView;

    closed spec fn view(&self) -> WalkView {
        WalkView {
            extensions: words(self.extensions@),
            options: self.options,
            pending: paths(self.pending@),
            current: match self.current {
                Some(d) => Some(words(d@)),
                None => None,
            },
            found: paths(self.found@),
            listed: self.listed@,
        }
    }
}

proof fn lemma_picked_selected(exts: Seq<Seq<char>>, entries: Seq<Entry>, o: CollectOptions)
    ensures
        forall|i: int|
            0 <= i < picked(exts, entries, o).len() ==> visible(
                #[trigger] picked(exts, entries, o)[i],
                o,
            ) && name_selected(exts, picked(exts, entries, o)[i], o.invert),
    decreases entries.len(),
{
    if entries.len() > 0 {
        let prev = picked(exts, entries.drop_last(), o);
        lemma_picked_selected(exts, entries.drop_last(), o);
        assert forall|i: int| 0 <= i < picked(exts, entries, o).len() implies visible(
            #[trigger] picked(exts, entries, o)[i],
            o,
        ) && name_selected(exts, picked(exts, entries, o)[i], o.invert) by {
            if i < prev.len() {
                assert(picked(exts, entries, o)[i] == prev[i]);
            }
        }
    }
}

proof fn lemma_descended_visible(entries: Seq<Entry>, o: CollectOptions)
    ensures
        forall|i: int|
            0 <= i < descended(entries, o).len() ==> visible(#[trigger] descended(entries, o)[i], o),
        descended(entries, o).len() > 0 ==> o.recurse,
    decreases entries.len(),
{
    if entries.len() > 0 {
        let prev = descended(entries.drop_last(), o);
        lemma_descended_visible(entries.drop_last(), o);
        assert forall|i: int| 0 <= i < descended(entries, o).len() implies visible(
            #[trigger] descended(entries, o)[i],
            o,
        ) by {
            if i < prev.len() {
                assert(descended(entries, o)[i] == prev[i]);
            }
        }
    }
}

fn child_path(d: &Vec<String>, name: &String) -> (r: Vec<String>)
    ensures
        words(r@) == words(d@).push(name@),
{
    let mut r = clone_words(d);
    let ghost r0 = r@;
    assert(r0.len() == d@.len()) by {
        assert(words(r0).len() == words(d@).len());
    }
    r.push(name.clone());
    assert forall|j: int| 0 <= j < d@.len() implies #[trigger] r@[j]@ == d@[j]@ by {
        assert(r@[j] == r0[j]);
        assert(words(r0)[j] == words(d@)[j]);
    }
    assert(words(r@) =~= words(d@).push(name@));
    r
}

proof fn lemma_concat_contains<A>(a: Seq<A>, b: Seq<A>, x: A)
    ensures
        (a + b).contains(x) <==> (a.contains(x) || b.contains(x)),
{
    if (a + b).contains(x) {
        let i = choose|i: int| 0 <= i < (a + b).len() && (a + b)[i] == x;
        if i < a.len() {
            assert(a[i] == x);
        } else {
            assert(b[i - a.len()] == x);
        }
    }
    if a.contains(x) {
        let i = choose|i: int| 0 <= i < a.len() && a[i] == x;
        assert((a + b)[i] == x);
    }
    if b.contains(x) {
        let i = choose|i: int| 0 <= i < b.len() && b[i] == x;
        assert((a + b)[i + a.len()] == x);
    }
}

proof fn lemma_children_contains(d: Seq<Seq<char>>, names: Seq<Seq<char>>, x: Seq<Seq<char>>)
    ensures
        children(d, names).contains(x) <==> (x.len() >= 1 && x.drop_last() == d && names.contains(
            x.last(),
        )),
{
    if children(d, names).contains(x) {
        let i = choose|i: int| 0 <= i < children(d, names).len() && children(d, names)[i] == x;
        assert(x == d.push(names[i]));
        assert(x.drop_last() =~= d);
    }
    if x.len() >= 1 && x.drop_last() == d && names.contains(x.last()) {
        let i = choose|i: int| 0 <= i < names.len() && names[i] == x.last();
        assert(children(d, names)[i] =~= x);
    }
}

proof fn lemma_reversed_contains<A>(s: Seq<A>, x: A)
    ensures
        reversed(s).contains(x) <==> s.contains(x),
{
    if reversed(s).contains(x) {
        let i = choose|i: int| 0 <= i < reversed(s).len() && reversed(s)[i] == x;
        assert(s[s.len() - 1 - i] == x);
    }
    if s.contains(x) {
        let i = choose|i: int| 0 <= i < s.len() && s[i] == x;
        assert(reversed(s)[s.len() - 1 - i] == x);
    }
}

impl Walk {
    pub open spec fn wf(&self) -> bool {
        walk_in_scope(self@) && walk_history_ok(self@)
    }

    /// A walk that will list the root first.
    pub fn new(extensions: &Vec<String>, options: &CollectOptions) -> (w: Walk)
        ensures
            w.wf(),
            w@ == (WalkView {
                extensions: words(extensions@),
                options: *options,
                pending: seq![seq![]],
                current: None,
                found: seq![],
                listed: seq![],
            }),
    {
        let root: Vec<String> = Vec::new();
        assert(words(root@) =~= seq![]);
        let mut pending: Vec<Vec<String>> = Vec::new();
        pending.push(root);
        let w = Walk {
            extensions: clone_words(extensions),
            options: *options,
            pending,
            current: None,
            found: Vec::new(),
            listed: Ghost(Seq::empty()),
        };
        assert(w@.pending =~= seq![seq![]]);
        assert(w@.found =~= seq![]);
        assert(reached(w@.listed, w@.options) =~= seq![seq![]]);
        w
    }

    /// Returns the directory to list next: the one being listed if its entries have not
    /// come yet, else the next one still to list, which it takes; `None` once the walk is
    /// over.
    pub fn next_dir(&mut self) -> (r: Option<Vec<String>>)
        requires
            old(self).wf(),
        ensures
            final(self).wf(),
            old(self)@.current matches Some(d) ==> r is Some && words(r->0@) == d
                && final(self)@ == old(self)@,
            old(self)@.current is None && old(self)@.pending.len() == 0 ==> r is None
                && final(self)@ == old(self)@,
            old(self)@.current is None && old(self)@.pending.len() > 0 ==> r is Some
                && words(r->0@) == old(self)@.pending.last() && final(self)@ == (WalkView {
                pending: old(self)@.pending.drop_last(),
                current: Some(old(self)@.pending.last()),
                ..old(self)@
            }),
    {
        let ghost v = self@;
        if let Some(d) = &self.current {
            return Some(clone_words(d));
        }
        match self.pending.pop() {
            Some(d) => {
                let c = clone_words(&d);
                self.current = Some(d);
                assert(self@.pending =~= v.pending.drop_last());
                proof {
                    let p = v.pending;
                    assert forall|x: Seq<Seq<char>>| p.contains(x) <==> (
                    p.drop_last().contains(x) || x == p.last()) by {
                        if p.contains(x) {
                            let i = choose|i: int| 0 <= i < p.len() && p[i] == x;
                            if i < p.len() - 1 {
                                assert(p.drop_last()[i] == x);
                            }
                        }
                        if p.drop_last().contains(x) {
                            let i = choose|i: int| 0 <= i < p.len() - 1 && p.drop_last()[i] == x;
                            assert(p[i] == x);
                        }
                    }
                }
                Some(c)
            },
            None => None,
        }
    }

    /// Takes the entries of the directory being listed: the selected files join the
    /// files found, and the subdirectories to descend into are listed next, in their
    /// order. Returns the files that were added.
    pub fn visit(&mut self, entries: &Vec<Entry>) -> (added: Vec<Vec<String>>)
        requires
            old(self).wf(),
        ensures
            final(self).wf(),
            old(self)@.current is None ==> final(self)@ == old(self)@ && added@.len() == 0,
            old(self)@.current is Some ==> {
                let v = old(self)@;
                let d = v.current->0;
                &&& paths(added@) == children(d, picked(v.extensions, entries@, v.options))
                &&& final(self)@ == (WalkView {
                    pending: v.pending + children(d, reversed(descended(entries@, v.options))),
                    current: None,
                    found: v.found + paths(added@),
                    listed: v.listed.push((d, entries@)),
                    ..v
                })
            },
    {
        let ghost v = self@;
        let d = match &self.current {
            Some(d) => clone_words(d),
            None => {
                return Vec::new();
            },
        };
        self.current = None;
        let sel = collect_matching_files(&self.extensions, entries, &self.options);
        let ghost names = picked(v.extensions, entries@, v.options);
        let ghost subdirs = descended(entries@, v.options);
        proof {
            lemma_picked_selected(v.extensions, entries@, v.options);
            lemma_descended_visible(entries@, v.options);
        }
        let mut added: Vec<Vec<String>> = Vec::new();
        let mut i: usize = 0;
        while i < sel.files.len()
            invariant
                i <= sel.files.len(),
                words(sel.files@) == names,
                added@.len() == i,
                forall|m: int|
                    0 <= m < i ==> words(#[trigger] added@[m]@) == words(d@).push(names[m]),
            decreases sel.files.len() - i,
        {
            let p = child_path(&d, &sel.files[i]);
            assert(names[i as int] == sel.files@[i as int]@);
            added.push(p);
            i = i + 1;
        }
        assert(paths(added@) =~= children(words(d@), names));
        let ghost found0 = self.found@;
        let mut k: usize = 0;
        while k < added.len()
            invariant
                k <= added.len(),
                self.extensions == old(self).extensions,
                self.options == old(self).options,
                self.pending == old(self).pending,
                self.current is None,
                found0 == old(self).found@,
                self.found@.len() == found0.len() + k,
                forall|m: int| 0 <= m < found0.len() ==> #[trigger] self.found@[m] == found0[m],
                forall|m: int|
                    0 <= m < k ==> words(#[trigger] self.found@[found0.len() + m]@) == words(
                        added@[m]@,
                    ),
            decreases added.len() - k,
        {
            let p = clone_words(&added[k]);
            self.found.push(p);
            k = k + 1;
        }
        assert(self@.found =~= v.found + paths(added@)) by {
            assert forall|m: int| 0 <= m < self@.found.len() implies #[trigger] self@.found[m] == (
            v.found + paths(added@))[m] by {
                if m < found0.len() {
                    assert(self.found@[m] == found0[m]);
                } else {
                    assert(words(self.found@[found0.len() + (m - found0.len())]@) == words(
                        added@[m - found0.len()]@,
                    ));
                }
            }
        }
        let ghost pending0 = self.pending@;
        let mut j: usize = sel.dirs.len();
        while j > 0
            invariant
                j <= sel.dirs.len(),
                self.extensions == old(self).extensions,
                self.options == old(self).options,
                self.current is None,
                words(sel.dirs@) == subdirs,
                pending0 == old(self).pending@,
                self@.found == v.found + paths(added@),
                self.pending@.len() == pending0.len() + (sel.dirs.len() - j),
                forall|m: int| 0 <= m < pending0.len() ==> #[trigger] self.pending@[m] == pending0[m],
                forall|m: int|
                    0 <= m < sel.dirs.len() - j ==> words(#[trigger] self.pending@[pending0.len() + m]@)
                        == words(d@).push(reversed(subdirs)[m]),
            decreases j,
        {
            let p = child_path(&d, &sel.dirs[j - 1]);
            assert(reversed(subdirs)[sel.dirs.len() - j] == sel.dirs@[j - 1]@);
            self.pending.push(p);
            j = j - 1;
        }
        let ghost new_dirs = children(words(d@), reversed(subdirs));
        assert(self@.pending =~= v.pending + new_dirs) by {
            assert forall|m: int| 0 <= m < self@.pending.len() implies #[trigger] self@.pending[m] == (
            v.pending + new_dirs)[m] by {
                if m < pending0.len() {
                    assert(self.pending@[m] == pending0[m]);
                } else {
                    assert(words(self.pending@[pending0.len() + (m - pending0.len())]@) == words(
                        d@,
                    ).push(reversed(subdirs)[m - pending0.len()]));
                }
            }
        }
        assert(walk_in_scope(self@)) by {
            let dv = words(d@);
            assert forall|m: int| 0 <= m < self@.found.len() implies file_in_scope(
                #[trigger] self@.found[m],
                v.extensions,
                v.options,
            ) by {
                if m < v.found.len() {
                    assert(self@.found[m] == v.found[m]);
                } else {
                    let t = m - v.found.len();
                    assert(self@.found[m] == dv.push(names[t]));
                    assert(dv.push(names[t]).drop_last() =~= dv);
                }
            }
            assert forall|m: int| 0 <= m < self@.pending.len() implies dir_in_scope(
                #[trigger] self@.pending[m],
                v.options,
            ) by {
                if m < v.pending.len() {
                    assert(self@.pending[m] == v.pending[m]);
                } else {
                    let t = m - v.pending.len();
                    let n = subdirs[subdirs.len() - 1 - t];
                    assert(self@.pending[m] == dv.push(n));
                    assert forall|c: int| 0 <= c < dv.push(n).len() implies visible(
                        #[trigger] dv.push(n)[c],
                        v.options,
                    ) by {
                        if c < dv.len() {
                            assert(dv.push(n)[c] == dv[c]);
                        }
                    }
                }
            }
        }
        let ghost h = v.listed;
        let ghost h2 = h.push((words(d@), entries@));
        self.listed = Ghost(h2);
        proof {
            let dv = words(d@);
            let o = v.options;
            assert(h2.drop_last() =~= h);
            assert(self@.found == found_in(h2, v.extensions, o));
            let c = children(dv, subdirs);
            let rc = children(dv, reversed(subdirs));
            assert(reached(h2, o) == reached(h, o) + c);
            assert forall|x: Seq<Seq<char>>|
                #![trigger reached(h2, o).contains(x)]
                #![trigger listed_dir(h2, x)]
                #![trigger self@.pending.contains(x)]
                reached(h2, o).contains(x) <==> (listed_dir(h2, x) || self@.pending.contains(x)
                    || self@.current == Some(x)) by {
                lemma_concat_contains(reached(h, o), c, x);
                lemma_concat_contains(v.pending, rc, x);
                lemma_children_contains(dv, subdirs, x);
                lemma_children_contains(dv, reversed(subdirs), x);
                if x.len() >= 1 {
                    lemma_reversed_contains(subdirs, x.last());
                }
                assert(listed_dir(h2, x) <==> (listed_dir(h, x) || x == dv)) by {
                    if listed_dir(h2, x) {
                        let k = choose|k: int| 0 <= k < h2.len() && (#[trigger] h2[k]).0 == x;
                        if k < h.len() {
                            assert(h2[k] == h[k]);
                        }
                    }
                    if listed_dir(h, x) {
                        let k = choose|k: int| 0 <= k < h.len() && (#[trigger] h[k]).0 == x;
                        assert(h2[k] == h[k]);
                    }
                    if x == dv {
                        assert(h2[h.len() as int].0 == dv);
                    }
                }
                assert(reached(h, o).contains(x) <==> (listed_dir(h, x) || v.pending.contains(x)
                    || v.current == Some(x)));
            }
            assert forall|k: int| 0 <= k < h2.len() implies reached(h2.subrange(0, k), o).contains(
                (#[trigger] h2[k]).0,
            ) by {
                if k < h.len() {
                    assert(h2.subrange(0, k) =~= h.subrange(0, k));
                    assert(h2[k] == h[k]);
                } else {
                    assert(h2.subrange(0, k) =~= h);
                    assert(reached(h, o).contains(dv) <==> (listed_dir(h, dv) || v.pending.contains(
                        dv,
                    ) || v.current == Some(dv)));
                }
            }
        }
        added
    }

    /// The files found so far, in the order in which they were found.
    pub fn into_found(self) -> (r: Vec<Vec<String>>)
        ensures
            paths(r@) == self@.found,
    {
        self.found
    }
}

/// Inverting the selection within one listing: among the visible regular files, the
/// inverted selection holds exactly those that the plain one leaves out.
pub proof fn lemma_inverted_selection(exts: Seq<Seq<char>>, e: Entry, o: CollectOptions)
    ensures
        picks(exts, e, CollectOptions { invert: true, ..o }) <==> (visible(e.name@, o) && e.kind
            == EntryKind::File && !picks(exts, e, CollectOptions { invert: false, ..o })),
{
}

/// Without `all`, no file that the walk finds, and no directory that it is still to
/// list, has a hidden component in its path, at any depth.
pub proof fn lemma_hidden_entries_excluded(w: &Walk)
    requires
        w.wf(),
        !w@.options.all,
    ensures
        forall|k: int, i: int|
            0 <= k < w@.found.len() && 0 <= i < w@.found[k].len() ==> !is_hidden(
                #[trigger] w@.found[k][i],
            ),
        forall|k: int, i: int|
            0 <= k < w@.pending.len() && 0 <= i < w@.pending[k].len() ==> !is_hidden(
                #[trigger] w@.pending[k][i],
            ),
{
    let v = w@;
    assert forall|k: int, i: int|
        0 <= k < v.found.len() && 0 <= i < v.found[k].len() implies !is_hidden(
            #[trigger] v.found[k][i],
        ) by {
        let p = v.found[k];
        assert(file_in_scope(p, v.extensions, v.options));
        if i < p.len() - 1 {
            assert(p[i] == p.drop_last()[i]);
        }
    }
    assert forall|k: int, i: int|
        0 <= k < v.pending.len() && 0 <= i < v.pending[k].len() implies !is_hidden(
            #[trigger] v.pending[k][i],
        ) by {
        assert(dir_in_scope(v.pending[k], v.options));
    }
}

/// With `all`, hidden entries are treated like any other: a file is selected, and a
/// directory descended into, whatever its name begins with.
pub proof fn lemma_all_includes_hidden_entries(exts: Seq<Seq<char>>, e: Entry, o: CollectOptions)
    requires
        o.all,
    ensures
        picks(exts, e, o) <==> (e.kind == EntryKind::File && name_selected(exts, e.name@, o.invert)),
        descends(e, o) <==> (o.recurse && e.kind == EntryKind::Dir),
{
}

/// Without `recurse`, the walk never leaves the root: every file found is a child of
/// the root, and the only directory ever listed is the root.
pub proof fn lemma_flat_walk_stays_at_root(w: &Walk)
    requires
        w.wf(),
        !w@.options.recurse,
    ensures
        forall|k: int| 0 <= k < w@.found.len() ==> (#[trigger] w@.found[k]).len() == 1,
        forall|k: int| 0 <= k < w@.pending.len() ==> (#[trigger] w@.pending[k]).len() == 0,
        w@.current matches Some(d) ==> d.len() == 0,
{
    let v = w@;
    assert forall|k: int| 0 <= k < v.found.len() implies (#[trigger] v.found[k]).len() == 1 by {
        assert(file_in_scope(v.found[k], v.extensions, v.options));
    }
    assert forall|k: int| 0 <= k < v.pending.len() implies (#[trigger] v.pending[k]).len() == 0 by {
        assert(dir_in_scope(v.pending[k], v.options));
    }
}

/// `n` is the name of an entry of `entries` that is a directory itself.
pub open spec fn names_directory(entries: Seq<Entry>, n: Seq<char>) -> bool {
    exists|j: int| 0 <= j < entries.len() && entries[j].kind == EntryKind::Dir && entries[j].name@ == n
}

/// The walk descends into an entry only if it is a directory itself (a symbolic link to
/// a directory is not), and, with `recurse`, into every visible directory.
pub proof fn lemma_descends_only_into_directories(entries: Seq<Entry>, o: CollectOptions)
    ensures
        forall|i: int|
            0 <= i < descended(entries, o).len() ==> names_directory(
                entries,
                #[trigger] descended(entries, o)[i],
            ),
        forall|j: int|
            0 <= j < entries.len() && descends(#[trigger] entries[j], o) ==> descended(
                entries,
                o,
            ).contains(entries[j].name@),
    decreases entries.len(),
{
    if entries.len() > 0 {
        let init = entries.drop_last();
        let prev = descended(init, o);
        let all = descended(entries, o);
        lemma_descends_only_into_directories(init, o);
        assert forall|i: int| 0 <= i < all.len() implies names_directory(
            entries,
            #[trigger] all[i],
        ) by {
            if i < prev.len() {
                assert(all[i] == prev[i]);
                assert(names_directory(init, prev[i]));
                let j = choose|j: int|
                    0 <= j < init.len() && init[j].kind == EntryKind::Dir && init[j].name@
                        == prev[i];
                assert(entries[j] == init[j]);
            } else {
                let j = entries.len() - 1;
                assert(descends(entries.last(), o));
                assert(all == prev.push(entries.last().name@));
                assert(entries[j] == entries.last());
                assert(entries[j].kind == EntryKind::Dir && entries[j].name@ == all[i]);
            }
        }
        assert forall|j: int| 0 <= j < entries.len() && descends(#[trigger] entries[j], o) implies all.contains(
            entries[j].name@,
        ) by {
            if j < init.len() {
                assert(init[j] == entries[j]);
                let i = choose|i: int| 0 <= i < prev.len() && prev[i] == entries[j].name@;
                assert(all[i] == prev[i]);
            } else {
                assert(all[all.len() - 1] == entries.last().name@);
            }
        }
    }
}

/// `d` can be reached from the root of the tree whose listings `fs` gives: each of its
/// components is a subdirectory that the walk descends into from the one before.
pub open spec fn reachable(
    fs: spec_fn(Seq<Seq<char>>) -> Seq<Entry>,
    o: CollectOptions,
    d: Seq<Seq<char>>,
) -> bool
    decreases d.len(),
{
    if d.len() == 0 {
        true
    } else {
        reachable(fs, o, d.drop_last()) && descended(fs(d.drop_last()), o).contains(d.last())
    }
}

/// `p` is a file that a complete walk of the tree `fs` selects: it stands in a reachable
/// directory, and that directory's listing selects it.
pub open spec fn walk_result(
    fs: spec_fn(Seq<Seq<char>>) -> Seq<Entry>,
    exts: Seq<Seq<char>>,
    o: CollectOptions,
    p: Seq<Seq<char>>,
) -> bool {
    p.len() >= 1 && reachable(fs, o, p.drop_last()) && picked(exts, fs(p.drop_last()), o).contains(
        p.last(),
    )
}

/// Every listing in `h` is the one that the tree `fs` gives for its directory.
pub open spec fn listings_from(
    h: Seq<(Seq<Seq<char>>, Seq<Entry>)>,
    fs: spec_fn(Seq<Seq<char>>) -> Seq<Entry>,
) -> bool {
    forall|k: int| 0 <= k < h.len() ==> (#[trigger] h[k]).1 == fs(h[k].0)
}

proof fn lemma_found_in_contains(
    h: Seq<(Seq<Seq<char>>, Seq<Entry>)>,
    exts: Seq<Seq<char>>,
    o: CollectOptions,
    p: Seq<Seq<char>>,
)
    ensures
        found_in(h, exts, o).contains(p) <==> (p.len() >= 1 && exists|k: int|
            0 <= k < h.len() && (#[trigger] h[k]).0 == p.drop_last() && picked(
                exts,
                h[k].1,
                o,
            ).contains(p.last())),
    decreases h.len(),
{
    if h.len() > 0 {
        let h0 = h.drop_last();
        lemma_found_in_contains(h0, exts, o, p);
        lemma_concat_contains(found_in(h0, exts, o), children(h.last().0, picked(exts, h.last().1, o)), p);
        lemma_children_contains(h.last().0, picked(exts, h.last().1, o), p);
        if p.len() >= 1 && exists|k: int|
            0 <= k < h.len() && (#[trigger] h[k]).0 == p.drop_last() && picked(
                exts,
                h[k].1,
                o,
            ).contains(p.last()) {
            let k = choose|k: int|
                0 <= k < h.len() && (#[trigger] h[k]).0 == p.drop_last() && picked(
                    exts,
                    h[k].1,
                    o,
                ).contains(p.last());
            if k < h0.len() {
                assert(h0[k] == h[k]);
            }
        }
        if found_in(h0, exts, o).contains(p) {
            let k = choose|k: int|
                0 <= k < h0.len() && (#[trigger] h0[k]).0 == p.drop_last() && picked(
                    exts,
                    h0[k].1,
                    o,
                ).contains(p.last());
            assert(h[k] == h0[k]);
        }
        if children(h.last().0, picked(exts, h.last().1, o)).contains(p) {
            assert(h[h.len() - 1] == h.last());
        }
    }
}

proof fn lemma_reached_contains(h: Seq<(Seq<Seq<char>>, Seq<Entry>)>, o: CollectOptions, x: Seq<Seq<char>>)
    ensures
        reached(h, o).contains(x) <==> (x.len() == 0 || exists|k: int|
            0 <= k < h.len() && (#[trigger] h[k]).0 == x.drop_last() && descended(
                h[k].1,
                o,
            ).contains(x.last())),
    decreases h.len(),
{
    if h.len() == 0 {
        if x.len() == 0 {
            assert(x =~= seq![]);
            assert(reached(h, o)[0] == x);
        }
    } else {
        let h0 = h.drop_last();
        lemma_reached_contains(h0, o, x);
        lemma_concat_contains(reached(h0, o), children(h.last().0, descended(h.last().1, o)), x);
        lemma_children_contains(h.last().0, descended(h.last().1, o), x);
        if x.len() > 0 && exists|k: int|
            0 <= k < h.len() && (#[trigger] h[k]).0 == x.drop_last() && descended(
                h[k].1,
                o,
            ).contains(x.last()) {
            let k = choose|k: int|
                0 <= k < h.len() && (#[trigger] h[k]).0 == x.drop_last() && descended(
                    h[k].1,
                    o,
                ).contains(x.last());
            if k < h0.len() {
                assert(h0[k] == h[k]);
            }
        }
        if x.len() > 0 && reached(h0, o).contains(x) {
            let k = choose|k: int|
                0 <= k < h0.len() && (#[trigger] h0[k]).0 == x.drop_last() && descended(
                    h0[k].1,
                    o,
                ).contains(x.last());
            assert(h[k] == h0[k]);
        }
        if children(h.last().0, descended(h.last().1, o)).contains(x) {
            assert(h[h.len() - 1] == h.last());
        }
    }
}

/// Every directory that listings taken from `fs` lead to is reachable in `fs`.
proof fn lemma_reached_is_reachable(
    h: Seq<(Seq<Seq<char>>, Seq<Entry>)>,
    o: CollectOptions,
    fs: spec_fn(Seq<Seq<char>>) -> Seq<Entry>,
    x: Seq<Seq<char>>,
)
    requires
        listings_from(h, fs),
        forall|k: int|
            0 <= k < h.len() ==> reached(h.subrange(0, k), o).contains((#[trigger] h[k]).0),
        reached(h, o).contains(x),
    ensures
        reachable(fs, o, x),
    decreases h.len(), x.len(),
{
    lemma_reached_contains(h, o, x);
    if x.len() > 0 {
        let k = choose|k: int|
            0 <= k < h.len() && (#[trigger] h[k]).0 == x.drop_last() && descended(
                h[k].1,
                o,
            ).contains(x.last());
        let hk = h.subrange(0, k);
        assert forall|j: int| 0 <= j < hk.len() implies #[trigger] hk[j].1 == fs(hk[j].0) by {
            assert(hk[j] == h[j]);
        }
        assert forall|j: int|
            0 <= j < hk.len() implies reached(hk.subrange(0, j), o).contains((#[trigger] hk[j]).0) by {
            assert(hk[j] == h[j]);
            assert(hk.subrange(0, j) =~= h.subrange(0, j));
        }
        assert(reached(hk, o).contains(h[k].0));
        lemma_reached_is_reachable(hk, o, fs, x.drop_last());
        assert(h[k].1 == fs(h[k].0));
    }
}

/// A reachable directory has been listed by a walk that is over.
proof fn lemma_reachable_is_listed(
    h: Seq<(Seq<Seq<char>>, Seq<Entry>)>,
    o: CollectOptions,
    fs: spec_fn(Seq<Seq<char>>) -> Seq<Entry>,
    d: Seq<Seq<char>>,
)
    requires
        listings_from(h, fs),
        forall|x: Seq<Seq<char>>| #[trigger] reached(h, o).contains(x) ==> listed_dir(h, x),
        reachable(fs, o, d),
    ensures
        listed_dir(h, d),
    decreases d.len(),
{
    lemma_reached_contains(h, o, d);
    if d.len() > 0 {
        lemma_reachable_is_listed(h, o, fs, d.drop_last());
        let k = choose|k: int| 0 <= k < h.len() && (#[trigger] h[k]).0 == d.drop_last();
        assert(h[k].1 == fs(h[k].0));
    }
    assert(reached(h, o).contains(d));
}

/// Once a walk is over, having been handed the listings of the tree `fs`, it has found
/// exactly the files that a complete walk of `fs` selects: those of every reachable
/// directory, at every depth, and no others.
pub proof fn lemma_finished_walk(w: &Walk, fs: spec_fn(Seq<Seq<char>>) -> Seq<Entry>)
    requires
        w.wf(),
        w@.pending.len() == 0,
        w@.current is None,
        listings_from(w@.listed, fs),
    ensures
        forall|p: Seq<Seq<char>>|
            w@.found.contains(p) <==> walk_result(fs, w@.extensions, w@.options, p),
{
    let v = w@;
    let h = v.listed;
    let o = v.options;
    let exts = v.extensions;
    assert forall|x: Seq<Seq<char>>| #[trigger] reached(h, o).contains(x) implies listed_dir(h, x) by {
        assert(reached(h, o).contains(x) <==> (listed_dir(h, x) || v.pending.contains(x)
            || v.current == Some(x)));
    }
    assert forall|p: Seq<Seq<char>>| v.found.contains(p) <==> walk_result(fs, exts, o, p) by {
        lemma_found_in_contains(h, exts, o, p);
        if v.found.contains(p) {
            let k = choose|k: int|
                0 <= k < h.len() && (#[trigger] h[k]).0 == p.drop_last() && picked(
                    exts,
                    h[k].1,
                    o,
                ).contains(p.last());
            assert(h[k].1 == fs(h[k].0));
            assert(listed_dir(h, p.drop_last()));
            assert(reached(h, o).contains(p.drop_last()) <==> (listed_dir(h, p.drop_last())
                || v.pending.contains(p.drop_last()) || v.current == Some(p.drop_last())));
            lemma_reached_is_reachable(h, o, fs, p.drop_last());
        }
        if walk_result(fs, exts, o, p) {
            lemma_reachable_is_listed(h, o, fs, p.drop_last());
            let k = choose|k: int| 0 <= k < h.len() && (#[trigger] h[k]).0 == p.drop_last();
            assert(h[k].1 == fs(h[k].0));
        }
    }
}

proof fn lemma_descended_contains(entries: Seq<Entry>, o: CollectOptions, n: Seq<char>)
    ensures
        descended(entries, o).contains(n) <==> exists|j: int|
            0 <= j < entries.len() && (#[trigger] entries[j]).name@ == n && descends(entries[j], o),
    decreases entries.len(),
{
    if entries.len() > 0 {
        let e0 = entries.drop_last();
        lemma_descended_contains(e0, o, n);
        let prev = descended(e0, o);
        if descends(entries.last(), o) {
            lemma_concat_contains(prev, seq![entries.last().name@], n);
            assert(prev.push(entries.last().name@) =~= prev + seq![entries.last().name@]);
            if n == entries.last().name@ {
                assert(seq![entries.last().name@][0] == n);
            }
            if seq![entries.last().name@].contains(n) {
                let i = choose|i: int| 0 <= i < 1 && seq![entries.last().name@][i] == n;
                assert(n == entries.last().name@);
            }
        }
        if exists|j: int|
            0 <= j < entries.len() && (#[trigger] entries[j]).name@ == n && descends(entries[j], o) {
            let j = choose|j: int|
                0 <= j < entries.len() && (#[trigger] entries[j]).name@ == n && descends(
                    entries[j],
                    o,
                );
            if j < e0.len() {
                assert(e0[j] == entries[j]);
            } else {
                assert(entries[j] == entries.last());
            }
        }
        if exists|j: int| 0 <= j < e0.len() && (#[trigger] e0[j]).name@ == n && descends(e0[j], o) {
            let j = choose|j: int|
                0 <= j < e0.len() && (#[trigger] e0[j]).name@ == n && descends(e0[j], o);
            assert(entries[j] == e0[j]);
        }
    }
}

proof fn lemma_picked_contains(exts: Seq<Seq<char>>, entries: Seq<Entry>, o: CollectOptions, n: Seq<char>)
    ensures
        picked(exts, entries, o).contains(n) <==> exists|j: int|
            0 <= j < entries.len() && (#[trigger] entries[j]).name@ == n && picks(
                exts,
                entries[j],
                o,
            ),
    decreases entries.len(),
{
    if entries.len() > 0 {
        let e0 = entries.drop_last();
        lemma_picked_contains(exts, e0, o, n);
        let prev = picked(exts, e0, o);
        if picks(exts, entries.last(), o) {
            lemma_concat_contains(prev, seq![entries.last().name@], n);
            assert(prev.push(entries.last().name@) =~= prev + seq![entries.last().name@]);
            if n == entries.last().name@ {
                assert(seq![entries.last().name@][0] == n);
            }
            if seq![entries.last().name@].contains(n) {
                let i = choose|i: int| 0 <= i < 1 && seq![entries.last().name@][i] == n;
                assert(n == entries.last().name@);
            }
        }
        if exists|j: int|
            0 <= j < entries.len() && (#[trigger] entries[j]).name@ == n && picks(
                exts,
                entries[j],
                o,
            ) {
            let j = choose|j: int|
                0 <= j < entries.len() && (#[trigger] entries[j]).name@ == n && picks(
                    exts,
                    entries[j],
                    o,
                );
            if j < e0.len() {
                assert(e0[j] == entries[j]);
            } else {
                assert(entries[j] == entries.last());
            }
        }
        if exists|j: int|
            0 <= j < e0.len() && (#[trigger] e0[j]).name@ == n && picks(exts, e0[j], o) {
            let j = choose|j: int|
                0 <= j < e0.len() && (#[trigger] e0[j]).name@ == n && picks(exts, e0[j], o);
            assert(entries[j] == e0[j]);
        }
    }
}

/// Without `recurse`, a complete walk selects only files that stand directly in the root.
pub proof fn lemma_walk_without_recursion(
    fs: spec_fn(Seq<Seq<char>>) -> Seq<Entry>,
    exts: Seq<Seq<char>>,
    o: CollectOptions,
    p: Seq<Seq<char>>,
)
    requires
        !o.recurse,
        walk_result(fs, exts, o, p),
    ensures
        p.len() == 1,
{
    let d = p.drop_last();
    if d.len() > 0 {
        lemma_descended_visible(fs(d.drop_last()), o);
        let s = descended(fs(d.drop_last()), o);
        assert(s.contains(d.last()));
        let i = choose|i: int| 0 <= i < s.len() && #[trigger] s[i] == d.last();
        assert(s.len() > 0);
    }
}

proof fn lemma_reachable_with_all(
    fs: spec_fn(Seq<Seq<char>>) -> Seq<Entry>,
    o: CollectOptions,
    d: Seq<Seq<char>>,
)
    requires
        !o.all,
    ensures
        reachable(fs, o, d) ==> reachable(fs, CollectOptions { all: true, ..o }, d),
        reachable(fs, o, d) ==> forall|i: int| 0 <= i < d.len() ==> !is_hidden(#[trigger] d[i]),
        reachable(fs, CollectOptions { all: true, ..o }, d) && (forall|i: int|
            0 <= i < d.len() ==> !is_hidden(#[trigger] d[i])) ==> reachable(fs, o, d),
    decreases d.len(),
{
    let ot = CollectOptions { all: true, ..o };
    if d.len() > 0 {
        let d0 = d.drop_last();
        let n = d.last();
        let es = fs(d0);
        lemma_reachable_with_all(fs, o, d0);
        lemma_descended_contains(es, o, n);
        lemma_descended_contains(es, ot, n);
        if descended(es, o).contains(n) {
            let j = choose|j: int|
                0 <= j < es.len() && (#[trigger] es[j]).name@ == n && descends(es[j], o);
            assert(descends(es[j], ot));
        }
        if descended(es, ot).contains(n) && !is_hidden(n) {
            let j = choose|j: int|
                0 <= j < es.len() && (#[trigger] es[j]).name@ == n && descends(es[j], ot);
            assert(descends(es[j], o));
        }
        if reachable(fs, o, d) {
            assert forall|i: int| 0 <= i < d.len() implies !is_hidden(#[trigger] d[i]) by {
                if i < d0.len() {
                    assert(d[i] == d0[i]);
                }
            }
        }
        if forall|i: int| 0 <= i < d.len() ==> !is_hidden(#[trigger] d[i]) {
            assert forall|i: int| 0 <= i < d0.len() implies !is_hidden(#[trigger] d0[i]) by {
                assert(d[i] == d0[i]);
            }
            assert(!is_hidden(d[d.len() - 1]));
        }
    }
}

/// With `all`, a complete walk selects every file that it selects without `all`, and
/// the files it selects besides are exactly those with a hidden component in their path.
pub proof fn lemma_walk_with_all(
    fs: spec_fn(Seq<Seq<char>>) -> Seq<Entry>,
    exts: Seq<Seq<char>>,
    o: CollectOptions,
    p: Seq<Seq<char>>,
)
    requires
        !o.all,
    ensures
        walk_result(fs, exts, o, p) ==> walk_result(fs, exts, CollectOptions { all: true, ..o }, p),
        walk_result(fs, exts, CollectOptions { all: true, ..o }, p) ==> (!walk_result(fs, exts, o, p)
            <==> exists|i: int| 0 <= i < p.len() && is_hidden(#[trigger] p[i])),
{
    let ot = CollectOptions { all: true, ..o };
    if p.len() >= 1 {
        let d = p.drop_last();
        let n = p.last();
        let es = fs(d);
        lemma_reachable_with_all(fs, o, d);
        lemma_picked_contains(exts, es, o, n);
        lemma_picked_contains(exts, es, ot, n);
        if picked(exts, es, o).contains(n) {
            let j = choose|j: int|
                0 <= j < es.len() && (#[trigger] es[j]).name@ == n && picks(exts, es[j], o);
            assert(picks(exts, es[j], ot));
        }
        if picked(exts, es, ot).contains(n) && !is_hidden(n) {
            let j = choose|j: int|
                0 <= j < es.len() && (#[trigger] es[j]).name@ == n && picks(exts, es[j], ot);
            assert(picks(exts, es[j], o));
        }
        if walk_result(fs, exts, o, p) {
            assert forall|i: int| 0 <= i < p.len() implies !is_hidden(#[trigger] p[i]) by {
                if i < d.len() {
                    assert(p[i] == d[i]);
                }
            }
        }
        if forall|i: int| 0 <= i < p.len() ==> !is_hidden(#[trigger] p[i]) {
            assert forall|i: int| 0 <= i < d.len() implies !is_hidden(#[trigger] d[i]) by {
                assert(p[i] == d[i]);
            }
            assert(!is_hidden(p[p.len() - 1]));
        }
    }
}

} // verus!
