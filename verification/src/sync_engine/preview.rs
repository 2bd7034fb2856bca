//! A look ahead at what a list of patterns would leave out of a folder.

use vstd::prelude::*;

use crate::error::OpenBoltError;
use crate::error::OpenBoltResult;
use crate::ignore;
use crate::paths;
use crate::sync_engine::request;
use crate::text;

verus! {

/// The most paths that are shown.
pub const MAX_MATCHES: usize = 200;

/// A search through a local folder for the paths that are left out.
pub struct IgnorePreview {
    pub root: String,
    pub patterns: Vec<String>,
    pub globset: Option<globset::GlobSet>,
    /// The folders that are still to be searched.
    pub ahead: Vec<String>,
    /// The paths that are left out, below the folder.
    pub matched: Vec<String>,
}

/// A path below the folder as it is shown.
pub open spec fn shown_path(rel: Seq<char>) -> Seq<char> {
    text::map_char(rel, '\\', '/')
}

impl IgnorePreview {
    /// The globs among the patterns, as the set of paths that they match.
    pub open spec fn globs(self) -> Option<Set<Seq<char>>> {
        match self.globset {
            Some(s) => Some(ignore::set_paths(s)),
            None => None,
        }
    }

    /// The path `rel` below the folder is left out.
    pub open spec fn leaves_out(self, rel: Seq<char>) -> bool {
        ignore::ignored(ignore::path_key(rel), text::views(self.patterns@), self.globs())
    }

    /// Nothing but the folders ahead and the paths found differs.
    pub open spec fn same_setup(self, other: IgnorePreview) -> bool {
        &&& self.root == other.root
        &&& self.patterns == other.patterns
        &&& self.globset == other.globset
    }

    /// Whether there is room for more paths.
    pub open spec fn wf(self) -> bool {
        self.matched@.len() < MAX_MATCHES
    }

    /// The folder that is searched next.
    pub fn next_folder(&mut self) -> (r: Option<String>)
        ensures
            final(self).same_setup(*old(self)),
            final(self).matched == old(self).matched,
            if old(self).ahead@.len() == 0 {
                r is None && final(self).ahead@.len() == 0
            } else {
                r == Some(old(self).ahead@.last()) && final(self).ahead@ == old(
                    self,
                ).ahead@.drop_last()
            },
    {
        self.ahead.pop()
    }

    /// Takes in an entry that is seen from the folder as `rel`: it is shown if
    /// it is left out, and searched if it is a folder that is not. Gives whether
    /// the search goes on.
    pub fn see_relative(&mut self, rel: &str, path: String, is_dir: bool) -> (go_on: bool)
        requires
            old(self).wf(),
        ensures
            final(self).same_setup(*old(self)),
            seen(*old(self), *final(self), rel@, path@, is_dir),
            final(self).matched@.len() <= MAX_MATCHES,
            go_on == final(self).wf(),
    {
        let ghost matched0 = self.matched@;
        if ignore::ignores(rel, &self.patterns, self.globset.as_ref()) {
            let name: String = text::replace_char(rel, '\\', '/');
            self.matched.push(name);
            proof {
                text::lemma_views_push(matched0, name);
            }
            self.matched.len() < MAX_MATCHES
        } else {
            if is_dir {
                let ghost ahead0 = self.ahead@;
                self.ahead.push(path);
                proof {
                    text::lemma_views_push(ahead0, path);
                }
            }
            true
        }
    }

    /// Takes in the entry `path` of a folder, as `see_relative` does.
    pub fn see(&mut self, path: String, is_dir: bool) -> (go_on: bool)
        requires
            old(self).wf(),
        ensures
            final(self).same_setup(*old(self)),
            exists|rel: Seq<char>|
                ignore::seen_from(rel, path@, old(self).root@) && #[trigger] seen(
                    *old(self),
                    *final(self),
                    rel,
                    path@,
                    is_dir,
                ),
            final(self).matched@.len() <= MAX_MATCHES,
            go_on == final(self).wf(),
    {
        let rel: String = ignore::relative_or_self(path.as_str(), self.root.as_str());
        self.see_relative(rel.as_str(), path, is_dir)
    }

    /// The paths that a search has found.
    pub fn finish(self) -> (r: Vec<String>)
        ensures
            r@ == self.matched@,
    {
        self.matched
    }
}

/// `after` is `before` after the entry `path` was taken in.
pub open spec fn seen(
    before: IgnorePreview,
    after: IgnorePreview,
    rel: Seq<char>,
    path: Seq<char>,
    is_dir: bool,
) -> bool {
    if before.leaves_out(rel) {
        &&& text::views(after.matched@) == text::views(before.matched@).push(shown_path(rel))
        &&& after.ahead@ == before.ahead@
    } else {
        &&& after.matched@ == before.matched@
        &&& if is_dir {
            text::views(after.ahead@) == text::views(before.ahead@).push(path)
        } else {
            after.ahead@ == before.ahead@
        }
    }
}

/// The search for what `patterns` leave out of `local_dir`, at its start; there
/// is none in a folder that does not exist.
pub fn preview_ignore_patterns(local_dir: String, patterns: Vec<String>, exists_now: bool) -> (r:
    OpenBoltResult<IgnorePreview>)
    ensures
        match r {
            Ok(p) => {
                &&& exists_now
                &&& p.wf()
                &&& p.root == local_dir
                &&& p.patterns == patterns
                &&& text::views(p.ahead@) == seq![local_dir@]
                &&& p.matched@.len() == 0
                &&& p.globs() matches Some(set) ==> ignore::globs_cover(
                    text::views(patterns@),
                    set,
                ) && ignore::simple_cover(text::views(patterns@), set)
                &&& ignore::built_when(text::views(patterns@), p.globs())
            },
            Err(e) => !exists_now && request::failed_with(e, "directory does not exist"@),
        },
{
    if !exists_now {
        return Err(OpenBoltError::CommandFailed("directory does not exist".to_string()));
    }
    let globset = ignore::build_globset(&patterns);
    let mut ahead: Vec<String> = Vec::new();
    ahead.push(local_dir.clone());
    assert(text::views(ahead@) =~= seq![local_dir@]);
    Ok(IgnorePreview { root: local_dir, patterns, globset, ahead, matched: Vec::new() })
}

// ------------------------------------------------------------- a whole preview

/// An entry of a folder: how it is seen from the folder of the preview, its
/// path, and whether it is a folder.
pub struct EntryView {
    pub rel: Seq<char>,
    pub path: Seq<char>,
    pub is_dir: bool,
}

/// The paths among `entries` that are shown.
pub open spec fn shown_in(p: IgnorePreview, entries: Seq<EntryView>) -> Seq<Seq<char>>
    decreases entries.len(),
{
    if entries.len() == 0 {
        Seq::empty()
    } else if p.leaves_out(entries.last().rel) {
        shown_in(p, entries.drop_last()).push(shown_path(entries.last().rel))
    } else {
        shown_in(p, entries.drop_last())
    }
}

/// The folders among `entries` that are searched.
pub open spec fn opened_in(p: IgnorePreview, entries: Seq<EntryView>) -> Seq<Seq<char>>
    decreases entries.len(),
{
    if entries.len() == 0 {
        Seq::empty()
    } else if !p.leaves_out(entries.last().rel) && entries.last().is_dir {
        opened_in(p, entries.drop_last()).push(entries.last().path)
    } else {
        opened_in(p, entries.drop_last())
    }
}

/// `after` is the preview `before` after one more entry was taken in.
pub open spec fn takes_in(before: IgnorePreview, after: IgnorePreview, e: EntryView) -> bool {
    after.same_setup(before) && seen(before, after, e.rel, e.path, e.is_dir)
}

/// The entries of a folder, taken in one after the other, add what is to be
/// shown of them and what is to be searched.
pub proof fn law_folder_is_taken_in(states: Seq<IgnorePreview>, entries: Seq<EntryView>)
    requires
        states.len() == entries.len() + 1,
        forall|i: int|
            0 <= i < entries.len() ==> takes_in(states[i], states[i + 1], #[trigger] entries[i]),
    ensures
        states.last().same_setup(states[0]),
        text::views(states.last().matched@) == text::views(states[0].matched@) + shown_in(
            states[0],
            entries,
        ),
        text::views(states.last().ahead@) == text::views(states[0].ahead@) + opened_in(
            states[0],
            entries,
        ),
    decreases entries.len(),
{
    let n = entries.len() - 1;
    if entries.len() > 0 {
        let some = entries.drop_last();
        let first = states.drop_last();
        assert forall|i: int| 0 <= i < some.len() implies takes_in(
            first[i],
            first[i + 1],
            #[trigger] some[i],
        ) by {
            assert(some[i] == entries[i]);
            assert(first[i] == states[i] && first[i + 1] == states[i + 1]);
        }
        law_folder_is_taken_in(first, some);
        assert(first.last() == states[n]);
        assert(entries[n] == entries.last());
        assert(states[n + 1] == states.last());
    }
    assert(text::views(states.last().matched@) =~= text::views(states[0].matched@) + shown_in(
        states[0],
        entries,
    ));
    assert(text::views(states.last().ahead@) =~= text::views(states[0].ahead@) + opened_in(
        states[0],
        entries,
    ));
}

/// A preview: the folders that lie ahead, and the paths that are shown.
pub struct PreviewView {
    pub ahead: Seq<Seq<char>>,
    pub matched: Seq<Seq<char>>,
}

/// `after` is the preview `before` after its next folder was taken in.
pub open spec fn explored(
    p: IgnorePreview,
    before: PreviewView,
    after: PreviewView,
    listing: spec_fn(Seq<char>) -> Seq<EntryView>,
) -> bool {
    &&& before.ahead.len() > 0
    &&& after.ahead == before.ahead.drop_last() + opened_in(p, listing(before.ahead.last()))
    &&& after.matched == before.matched + shown_in(p, listing(before.ahead.last()))
}

/// `steps` is a preview of the folder `root`, as far as it went.
pub open spec fn preview_run(
    p: IgnorePreview,
    steps: Seq<PreviewView>,
    root: Seq<char>,
    listing: spec_fn(Seq<char>) -> Seq<EntryView>,
) -> bool {
    &&& steps.len() > 0
    &&& steps[0].ahead == seq![root]
    &&& steps[0].matched.len() == 0
    &&& forall|i: int|
        0 <= i < steps.len() - 1 ==> explored(p, #[trigger] steps[i], steps[i + 1], listing)
}

/// `steps` is a whole preview of the folder `root`: it goes on until no folder
/// lies ahead.
pub open spec fn whole_preview(
    p: IgnorePreview,
    steps: Seq<PreviewView>,
    root: Seq<char>,
    listing: spec_fn(Seq<char>) -> Seq<EntryView>,
) -> bool {
    preview_run(p, steps, root, listing) && steps.last().ahead.len() == 0
}

/// `chain` leads from the folder `root` downwards: each entry lies in the folder
/// before it.
pub open spec fn leads_down(
    chain: Seq<EntryView>,
    root: Seq<char>,
    listing: spec_fn(Seq<char>) -> Seq<EntryView>,
) -> bool {
    &&& chain.len() > 0
    &&& listing(root).contains(chain[0])
    &&& forall|k: int|
        0 <= k < chain.len() - 1 ==> (#[trigger] chain[k]).is_dir && listing(
            chain[k].path,
        ).contains(chain[k + 1])
}

proof fn lemma_taken(p: IgnorePreview, entries: Seq<EntryView>, e: EntryView)
    requires
        entries.contains(e),
    ensures
        p.leaves_out(e.rel) ==> shown_in(p, entries).contains(shown_path(e.rel)),
        !p.leaves_out(e.rel) && e.is_dir ==> opened_in(p, entries).contains(e.path),
    decreases entries.len(),
{
    let some = entries.drop_last();
    if entries.last() == e {
        let s = shown_in(p, entries);
        let o = opened_in(p, entries);
        if p.leaves_out(e.rel) {
            assert(s[s.len() - 1] == shown_path(e.rel));
        } else if e.is_dir {
            assert(o[o.len() - 1] == e.path);
        }
    } else {
        let k = choose|k: int| 0 <= k < entries.len() && entries[k] == e;
        assert(some[k] == e);
        lemma_taken(p, some, e);
        if p.leaves_out(e.rel) {
            let s = shown_in(p, some);
            let i = choose|i: int| 0 <= i < s.len() && s[i] == shown_path(e.rel);
            assert(shown_in(p, entries)[i] == s[i]);
        } else if e.is_dir {
            let o = opened_in(p, some);
            let i = choose|i: int| 0 <= i < o.len() && o[i] == e.path;
            assert(opened_in(p, entries)[i] == o[i]);
        }
    }
}

proof fn lemma_shown_is_left_out(p: IgnorePreview, entries: Seq<EntryView>, i: int)
    requires
        0 <= i < shown_in(p, entries).len(),
    ensures
        exists|e: EntryView| #[trigger]
            entries.contains(e) && p.leaves_out(e.rel) && shown_in(p, entries)[i] == shown_path(
                e.rel,
            ),
    decreases entries.len(),
{
    let some = entries.drop_last();
    let last = entries.last();
    assert(entries[entries.len() - 1] == last);
    if i < shown_in(p, some).len() {
        lemma_shown_is_left_out(p, some, i);
        let e = choose|e: EntryView| #[trigger]
            some.contains(e) && p.leaves_out(e.rel) && shown_in(p, some)[i] == shown_path(e.rel);
        let k = choose|k: int| 0 <= k < some.len() && some[k] == e;
        assert(entries[k] == e);
        assert(entries.contains(e));
    } else {
        assert(entries.contains(last));
    }
}

/// The folder that is taken in after the first `m` steps.
spec fn taken_in(steps: Seq<PreviewView>, m: int, dir: Seq<char>) -> bool {
    0 <= m < steps.len() - 1 && steps[m].ahead.len() > 0 && steps[m].ahead.last() == dir
}

proof fn lemma_ahead_is_taken_in(
    p: IgnorePreview,
    steps: Seq<PreviewView>,
    root: Seq<char>,
    listing: spec_fn(Seq<char>) -> Seq<EntryView>,
    n: int,
    i: int,
)
    requires
        whole_preview(p, steps, root, listing),
        0 <= n < steps.len(),
        0 <= i < steps[n].ahead.len(),
    ensures
        exists|m: int| taken_in(steps, m, steps[n].ahead[i]),
    decreases steps.len() - n,
{
    assert(n < steps.len() - 1);
    assert(explored(p, steps[n], steps[n + 1], listing));
    if i == steps[n].ahead.len() - 1 {
        assert(taken_in(steps, n, steps[n].ahead[i]));
    } else {
        assert(steps[n + 1].ahead[i] == steps[n].ahead[i]);
        lemma_ahead_is_taken_in(p, steps, root, listing, n + 1, i);
    }
}

proof fn lemma_matched_stays(
    p: IgnorePreview,
    steps: Seq<PreviewView>,
    root: Seq<char>,
    listing: spec_fn(Seq<char>) -> Seq<EntryView>,
    n: int,
    x: Seq<char>,
)
    requires
        whole_preview(p, steps, root, listing),
        0 <= n < steps.len(),
        steps[n].matched.contains(x),
    ensures
        steps.last().matched.contains(x),
    decreases steps.len() - n,
{
    if n < steps.len() - 1 {
        assert(explored(p, steps[n], steps[n + 1], listing));
        let i = choose|i: int| 0 <= i < steps[n].matched.len() && steps[n].matched[i] == x;
        assert(steps[n + 1].matched[i] == x);
        lemma_matched_stays(p, steps, root, listing, n + 1, x);
    }
}

/// The entry at `k` of `chain` is left out, and is shown at the end.
pub open spec fn shown_on_the_way(
    p: IgnorePreview,
    steps: Seq<PreviewView>,
    chain: Seq<EntryView>,
    k: int,
) -> bool {
    &&& 0 <= k < chain.len()
    &&& p.leaves_out(chain[k].rel)
    &&& steps.last().matched.contains(shown_path(chain[k].rel))
}

proof fn lemma_left_out_is_shown(
    p: IgnorePreview,
    steps: Seq<PreviewView>,
    root: Seq<char>,
    listing: spec_fn(Seq<char>) -> Seq<EntryView>,
    dir: Seq<char>,
    m: int,
    e: EntryView,
)
    requires
        whole_preview(p, steps, root, listing),
        taken_in(steps, m, dir),
        listing(dir).contains(e),
        p.leaves_out(e.rel),
    ensures
        steps.last().matched.contains(shown_path(e.rel)),
{
    assert(explored(p, steps[m], steps[m + 1], listing));
    lemma_taken(p, listing(dir), e);
    let s = shown_in(p, listing(dir));
    let i = choose|i: int| 0 <= i < s.len() && s[i] == shown_path(e.rel);
    assert(steps[m + 1].matched[steps[m].matched.len() + i] == shown_path(e.rel));
    lemma_matched_stays(p, steps, root, listing, m + 1, shown_path(e.rel));
}

proof fn lemma_folder_is_searched(
    p: IgnorePreview,
    steps: Seq<PreviewView>,
    root: Seq<char>,
    listing: spec_fn(Seq<char>) -> Seq<EntryView>,
    dir: Seq<char>,
    m: int,
    e: EntryView,
)
    requires
        whole_preview(p, steps, root, listing),
        taken_in(steps, m, dir),
        listing(dir).contains(e),
        !p.leaves_out(e.rel),
        e.is_dir,
    ensures
        exists|next: int| taken_in(steps, next, e.path),
{
    assert(explored(p, steps[m], steps[m + 1], listing));
    lemma_taken(p, listing(dir), e);
    let o = opened_in(p, listing(dir));
    let i = choose|i: int| 0 <= i < o.len() && o[i] == e.path;
    let at = steps[m].ahead.len() - 1 + i;
    assert(steps[m + 1].ahead[at] == e.path);
    lemma_ahead_is_taken_in(p, steps, root, listing, m + 1, at);
}

proof fn lemma_chain(
    p: IgnorePreview,
    steps: Seq<PreviewView>,
    root: Seq<char>,
    listing: spec_fn(Seq<char>) -> Seq<EntryView>,
    dir: Seq<char>,
    m: int,
    chain: Seq<EntryView>,
)
    requires
        whole_preview(p, steps, root, listing),
        taken_in(steps, m, dir),
        leads_down(chain, dir, listing),
        p.leaves_out(chain.last().rel),
    ensures
        exists|k: int| shown_on_the_way(p, steps, chain, k),
    decreases chain.len(),
{
    let e = chain[0];
    if p.leaves_out(e.rel) {
        lemma_left_out_is_shown(p, steps, root, listing, dir, m, e);
        assert(shown_on_the_way(p, steps, chain, 0));
    } else {
        assert(chain.len() > 1);
        assert(chain[0].is_dir);
        lemma_folder_is_searched(p, steps, root, listing, dir, m, e);
        let next = choose|next: int| taken_in(steps, next, e.path);
        let rest = chain.skip(1);
        assert(leads_down(rest, e.path, listing)) by {
            assert(rest[0] == chain[1]);
            assert forall|k: int| 0 <= k < rest.len() - 1 implies (#[trigger] rest[k]).is_dir
                && listing(rest[k].path).contains(rest[k + 1]) by {
                assert(rest[k] == chain[k + 1] && rest[k + 1] == chain[k + 2]);
            }
        }
        assert(rest.last() == chain.last());
        lemma_chain(p, steps, root, listing, e.path, next, rest);
        let k = choose|k: int| shown_on_the_way(p, steps, rest, k);
        assert(chain[k + 1] == rest[k]);
        assert(shown_on_the_way(p, steps, chain, k + 1));
    }
}

/// A whole preview shows all that the patterns leave out: an entry that is left
/// out is shown, or one that leads to it is.
pub proof fn law_whole_preview_shows_what_is_left_out(
    p: IgnorePreview,
    steps: Seq<PreviewView>,
    root: Seq<char>,
    listing: spec_fn(Seq<char>) -> Seq<EntryView>,
    chain: Seq<EntryView>,
)
    requires
        whole_preview(p, steps, root, listing),
        leads_down(chain, root, listing),
        p.leaves_out(chain.last().rel),
    ensures
        exists|k: int| shown_on_the_way(p, steps, chain, k),
{
    assert(steps.len() > 1) by {
        assert(steps[0].ahead.len() == 1);
    }
    assert(taken_in(steps, 0, root));
    lemma_chain(p, steps, root, listing, root, 0, chain);
}

/// A whole preview shows nothing else: every path that is shown is that of an
/// entry which is left out, in a folder that was searched.
pub proof fn law_whole_preview_shows_nothing_else(
    p: IgnorePreview,
    steps: Seq<PreviewView>,
    root: Seq<char>,
    listing: spec_fn(Seq<char>) -> Seq<EntryView>,
    n: int,
    i: int,
)
    requires
        whole_preview(p, steps, root, listing),
        0 <= n < steps.len(),
        0 <= i < steps[n].matched.len(),
    ensures
        exists|m: int, e: EntryView|
            0 <= m < n && #[trigger] listing(steps[m].ahead.last()).contains(e) && p.leaves_out(
                e.rel,
            ) && steps[n].matched[i] == shown_path(e.rel),
    decreases n,
{
    if n > 0 {
        let m = n - 1;
        assert(explored(p, steps[m], steps[m + 1], listing));
        let before = steps[m].matched;
        if i < before.len() {
            law_whole_preview_shows_nothing_else(p, steps, root, listing, m, i);
            let (k, e) = choose|k: int, e: EntryView|
                0 <= k < m && #[trigger] listing(steps[k].ahead.last()).contains(e)
                    && p.leaves_out(e.rel) && steps[m].matched[i] == shown_path(e.rel);
            assert(listing(steps[k].ahead.last()).contains(e));
        } else {
            let entries = listing(steps[m].ahead.last());
            lemma_shown_is_left_out(p, entries, i - before.len());
            let e = choose|e: EntryView| #[trigger]
                entries.contains(e) && p.leaves_out(e.rel) && shown_in(p, entries)[i
                    - before.len()] == shown_path(e.rel);
            assert(listing(steps[m].ahead.last()).contains(e));
        }
    }
}

// ---------------------------------------------------------- nothing shown twice

/// `a` and `b` differ, and neither lies below the other.
pub open spec fn apart(a: Seq<char>, b: Seq<char>) -> bool {
    &&& a != b
    &&& !text::begins(a, b.push('/'))
    &&& !text::begins(b, a.push('/'))
}

/// Every two of `s` are apart.
pub open spec fn all_apart(s: Seq<Seq<char>>) -> bool {
    forall|i: int, j: int| 0 <= i < j < s.len() ==> apart(#[trigger] s[i], #[trigger] s[j])
}

/// `dir` is the folder `root`, or lies below it.
pub open spec fn under(root: Seq<char>, dir: Seq<char>, sep: char) -> bool {
    dir == root || text::begins(dir, root.push(sep))
}

/// The name of a file or folder.
pub open spec fn entry_name(name: Seq<char>) -> bool {
    name.len() > 0 && !name.contains('/') && !name.contains('\\')
}

/// `e` is an entry of the folder `dir`, seen from the folder `root`.
pub open spec fn entry_of(e: EntryView, dir: Seq<char>, root: Seq<char>, sep: char) -> bool {
    &&& exists|name: Seq<char>| entry_name(name) && e.path == #[trigger] (dir.push(sep) + name)
    &&& e.path == root.push(sep) + e.rel
}

/// Every folder below `root` lists its own entries, each once.
pub open spec fn tidy_tree(
    root: Seq<char>,
    listing: spec_fn(Seq<char>) -> Seq<EntryView>,
    sep: char,
) -> bool {
    forall|dir: Seq<char>| #[trigger] under(root, dir, sep) ==> tidy_entries(listing(dir), dir, root, sep)
}

/// `entries` are entries of the folder `dir`, each once.
pub open spec fn tidy_entries(
    entries: Seq<EntryView>,
    dir: Seq<char>,
    root: Seq<char>,
    sep: char,
) -> bool {
    &&& forall|i: int| 0 <= i < entries.len() ==> entry_of(#[trigger] entries[i], dir, root, sep)
    &&& forall|i: int, j: int|
        0 <= i < j < entries.len() ==> (#[trigger] entries[i]).path != (
        #[trigger] entries[j]).path
}

/// The paths that are shown, from the root of the disk on.
spec fn shown_spots(root: Seq<char>, matched: Seq<Seq<char>>) -> Seq<Seq<char>> {
    Seq::new(matched.len(), |i: int| shown_path(root).push('/') + matched[i])
}

/// The folders that lie ahead, with slashes.
spec fn ahead_spots(ahead: Seq<Seq<char>>) -> Seq<Seq<char>> {
    Seq::new(ahead.len(), |i: int| shown_path(ahead[i]))
}

spec fn cross_apart(s: Seq<Seq<char>>, t: Seq<Seq<char>>) -> bool {
    forall|i: int, j: int|
        0 <= i < s.len() && 0 <= j < t.len() ==> apart(#[trigger] s[i], #[trigger] t[j])
}

/// Every one of `s` is an entry of `d`.
spec fn children(s: Seq<Seq<char>>, d: Seq<char>) -> bool {
    forall|i: int| 0 <= i < s.len() ==> child(#[trigger] s[i], d)
}

spec fn child(x: Seq<char>, d: Seq<char>) -> bool {
    exists|name: Seq<char>| entry_name(name) && x == #[trigger] (d.push('/') + name)
}

proof fn lemma_prefix(a: Seq<char>, b: Seq<char>, i: int)
    requires
        text::begins(a, b),
        0 <= i < b.len(),
    ensures
        a[i] == b[i],
{
    assert(a.take(b.len() as int)[i] == a[i]);
}

proof fn lemma_siblings_apart(d: Seq<char>, a: Seq<char>, b: Seq<char>)
    requires
        entry_name(a),
        entry_name(b),
        a != b,
    ensures
        apart(d.push('/') + a, d.push('/') + b),
{
    let x = d.push('/') + a;
    let y = d.push('/') + b;
    let n = d.len() as int + 1;
    assert(x.skip(n) =~= a && y.skip(n) =~= b);
    if text::begins(x, y.push('/')) {
        lemma_prefix(x, y.push('/'), y.len() as int);
        assert(x[y.len() as int] == a[y.len() - n]);
        assert(a.contains('/'));
    }
    if text::begins(y, x.push('/')) {
        lemma_prefix(y, x.push('/'), x.len() as int);
        assert(y[x.len() as int] == b[x.len() - n]);
        assert(b.contains('/'));
    }
}

proof fn lemma_child_apart(o: Seq<char>, d: Seq<char>, x: Seq<char>)
    requires
        apart(o, d),
        child(x, d),
    ensures
        apart(o, x),
        apart(x, o),
{
    let name = choose|name: Seq<char>| entry_name(name) && x == #[trigger] (d.push('/') + name);
    let n = d.len() as int;
    assert(x.take(n + 1) =~= d.push('/'));
    if text::begins(o, x) {
        assert(o.take(n + 1) =~= o.take(x.len() as int).take(n + 1));
        assert(text::begins(o, d.push('/')));
    }
    if o == x {
        assert(o.take(x.len() as int) =~= x);
    }
    if text::begins(o, x.push('/')) {
        assert(o.take(x.len() as int) =~= x.push('/').take(x.len() as int));
        assert(x.push('/').take(x.len() as int) =~= x);
    }
    if text::begins(x, o.push('/')) {
        let m = o.len() as int;
        lemma_prefix(x, o.push('/'), m);
        if m > n {
            assert(x[m] == name[m - n - 1]);
            assert(name.contains('/'));
        } else {
            assert(x.take(m + 1) == o.push('/'));
            if m == n {
                assert(o =~= d) by {
                    assert(x.take(m + 1).take(m) =~= d);
                    assert(o.push('/').take(m) =~= o);
                }
            } else {
                assert(d.take(m + 1) =~= x.take(m + 1));
            }
        }
    }
}

proof fn lemma_concat_apart(s: Seq<Seq<char>>, t: Seq<Seq<char>>)
    requires
        all_apart(s),
        all_apart(t),
        cross_apart(s, t),
    ensures
        all_apart(s + t),
{
    let u = s + t;
    assert forall|i: int, j: int| 0 <= i < j < u.len() implies apart(
        #[trigger] u[i],
        #[trigger] u[j],
    ) by {
        if j < s.len() {
            assert(u[i] == s[i] && u[j] == s[j]);
        } else if i < s.len() {
            assert(u[i] == s[i] && u[j] == t[j - s.len()]);
        } else {
            assert(u[i] == t[i - s.len()] && u[j] == t[j - s.len()]);
        }
    }
}

proof fn lemma_children_apart(s: Seq<Seq<char>>, t: Seq<Seq<char>>, d: Seq<char>)
    requires
        children(t, d),
        forall|i: int| 0 <= i < s.len() ==> apart(#[trigger] s[i], d),
    ensures
        cross_apart(s, t),
        cross_apart(t, s),
{
    assert forall|i: int, j: int| 0 <= i < s.len() && 0 <= j < t.len() implies apart(
        #[trigger] s[i],
        #[trigger] t[j],
    ) by {
        lemma_child_apart(s[i], d, t[j]);
    }
    assert forall|j: int, i: int| 0 <= j < t.len() && 0 <= i < s.len() implies apart(
        #[trigger] t[j],
        #[trigger] s[i],
    ) by {
        lemma_child_apart(s[i], d, t[j]);
    }
}

proof fn lemma_entry_spot(e: EntryView, dir: Seq<char>, root: Seq<char>, sep: char)
    requires
        paths::separator(sep),
        under(root, dir, sep),
        entry_of(e, dir, root, sep),
    ensures
        child(shown_path(e.path), shown_path(dir)),
        shown_path(e.path) == shown_path(root).push('/') + shown_path(e.rel),
        under(root, e.path, sep),
{
    let name = choose|name: Seq<char>| entry_name(name) && e.path == #[trigger] (dir.push(sep) + name);
    assert(shown_path(e.path) =~= shown_path(root).push('/') + shown_path(e.rel));
    assert(shown_path(name) =~= name) by {
        assert forall|i: int| 0 <= i < name.len() implies name[i] != '\\' by {
            assert(name.contains(name[i]));
        }
    }
    assert(shown_path(e.path) =~= shown_path(dir).push('/') + name);
    assert(e.path.take(root.len() as int + 1) =~= root.push(sep));
}

proof fn lemma_two_entries(
    a: EntryView,
    b: EntryView,
    dir: Seq<char>,
    root: Seq<char>,
    sep: char,
)
    requires
        paths::separator(sep),
        under(root, dir, sep),
        entry_of(a, dir, root, sep),
        entry_of(b, dir, root, sep),
        a.path != b.path,
    ensures
        apart(shown_path(a.path), shown_path(b.path)),
{
    let x = choose|x: Seq<char>| entry_name(x) && a.path == #[trigger] (dir.push(sep) + x);
    let y = choose|y: Seq<char>| entry_name(y) && b.path == #[trigger] (dir.push(sep) + y);
    assert(shown_path(x) =~= x) by {
        assert forall|i: int| 0 <= i < x.len() implies x[i] != '\\' by {
            assert(x.contains(x[i]));
        }
    }
    assert(shown_path(y) =~= y) by {
        assert forall|i: int| 0 <= i < y.len() implies y[i] != '\\' by {
            assert(y.contains(y[i]));
        }
    }
    assert(shown_path(a.path) =~= shown_path(dir).push('/') + x);
    assert(shown_path(b.path) =~= shown_path(dir).push('/') + y);
    lemma_siblings_apart(shown_path(dir), x, y);
}

/// Every one of `s` is the spot of one of `entries`.
spec fn spots_of(s: Seq<Seq<char>>, entries: Seq<EntryView>) -> bool {
    forall|i: int| 0 <= i < s.len() ==> spot_of(#[trigger] s[i], entries)
}

spec fn spot_of(x: Seq<char>, entries: Seq<EntryView>) -> bool {
    exists|k: int| 0 <= k < entries.len() && x == shown_path((#[trigger] entries[k]).path)
}

proof fn lemma_entries_apart(
    p: IgnorePreview,
    entries: Seq<EntryView>,
    dir: Seq<char>,
    root: Seq<char>,
    sep: char,
)
    requires
        paths::separator(sep),
        under(root, dir, sep),
        tidy_entries(entries, dir, root, sep),
    ensures
        ({
            let s = shown_spots(root, shown_in(p, entries));
            let o = ahead_spots(opened_in(p, entries));
            &&& all_apart(s)
            &&& all_apart(o)
            &&& cross_apart(s, o)
            &&& spots_of(s, entries)
            &&& spots_of(o, entries)
            &&& forall|i: int|
                0 <= i < opened_in(p, entries).len() ==> under(
                    root,
                    #[trigger] opened_in(p, entries)[i],
                    sep,
                )
        }),
    decreases entries.len(),
{
    if entries.len() > 0 {
        let some = entries.drop_last();
        let e = entries.last();
        let n = entries.len() - 1;
        assert(entries[n] == e);
        assert forall|i: int| 0 <= i < some.len() implies entry_of(
            #[trigger] some[i],
            dir,
            root,
            sep,
        ) by {
            assert(some[i] == entries[i]);
        }
        assert forall|i: int, j: int| 0 <= i < j < some.len() implies (#[trigger] some[i]).path != (
        #[trigger] some[j]).path by {
            assert(some[i] == entries[i] && some[j] == entries[j]);
        }
        lemma_entries_apart(p, some, dir, root, sep);
        let s = shown_spots(root, shown_in(p, some));
        let o = ahead_spots(opened_in(p, some));
        let x = shown_path(e.path);
        lemma_entry_spot(e, dir, root, sep);
        assert forall|y: Seq<char>| #[trigger] spot_of(y, some) implies apart(y, x) && apart(x, y)
            && spot_of(y, entries) by {
            let k = choose|k: int| 0 <= k < some.len() && y == shown_path((#[trigger] some[k]).path);
            assert(some[k] == entries[k]);
            assert(entries[k].path != entries[n].path);
            lemma_two_entries(entries[k], e, dir, root, sep);
        }
        assert(spot_of(x, entries));
        let one = seq![x];
        if p.leaves_out(e.rel) {
            assert(shown_spots(root, shown_in(p, entries)) =~= s + one);
            assert(opened_in(p, entries) == opened_in(p, some));
            assert(cross_apart(s, one)) by {
                assert forall|i: int, j: int|
                    0 <= i < s.len() && 0 <= j < one.len() implies apart(
                    #[trigger] s[i],
                    #[trigger] one[j],
                ) by {
                    assert(spot_of(s[i], some));
                }
            }
            lemma_concat_apart(s, one);
            let t = s + one;
            assert forall|i: int, j: int| 0 <= i < t.len() && 0 <= j < o.len() implies apart(
                #[trigger] t[i],
                #[trigger] o[j],
            ) by {
                assert(spot_of(o[j], some));
                if i < s.len() {
                    assert(t[i] == s[i]);
                }
            }
            assert forall|i: int| 0 <= i < t.len() implies spot_of(#[trigger] t[i], entries) by {
                if i < s.len() {
                    assert(t[i] == s[i]);
                    assert(spot_of(s[i], some));
                }
            }
            assert forall|i: int| 0 <= i < o.len() implies spot_of(#[trigger] o[i], entries) by {
                assert(spot_of(o[i], some));
            }
        } else {
            assert forall|i: int| 0 <= i < s.len() implies spot_of(#[trigger] s[i], entries) by {
                assert(spot_of(s[i], some));
            }
            assert forall|i: int| 0 <= i < o.len() implies spot_of(#[trigger] o[i], entries) by {
                assert(spot_of(o[i], some));
            }
            if e.is_dir {
                let t = o + one;
                assert(ahead_spots(opened_in(p, entries)) =~= t);
                assert(cross_apart(o, one)) by {
                    assert forall|i: int, j: int|
                        0 <= i < o.len() && 0 <= j < one.len() implies apart(
                        #[trigger] o[i],
                        #[trigger] one[j],
                    ) by {
                        assert(spot_of(o[i], some));
                    }
                }
                lemma_concat_apart(o, one);
                assert forall|i: int, j: int| 0 <= i < s.len() && 0 <= j < t.len() implies apart(
                    #[trigger] s[i],
                    #[trigger] t[j],
                ) by {
                    assert(spot_of(s[i], some));
                    if j < o.len() {
                        assert(t[j] == o[j]);
                    }
                }
                assert forall|i: int| 0 <= i < t.len() implies spot_of(#[trigger] t[i], entries) by {
                    if i < o.len() {
                        assert(t[i] == o[i]);
                    }
                }
                assert forall|i: int| 0 <= i < opened_in(p, entries).len() implies under(
                    root,
                    #[trigger] opened_in(p, entries)[i],
                    sep,
                ) by {
                    if i < opened_in(p, some).len() {
                        assert(opened_in(p, entries)[i] == opened_in(p, some)[i]);
                    }
                }
            }
        }
    }
}

/// What is shown and what lies ahead is apart, and lies below the folder.
spec fn spread(v: PreviewView, root: Seq<char>, sep: char) -> bool {
    let m = shown_spots(root, v.matched);
    let a = ahead_spots(v.ahead);
    &&& all_apart(m)
    &&& all_apart(a)
    &&& cross_apart(m, a)
    &&& forall|i: int| 0 <= i < v.ahead.len() ==> under(root, #[trigger] v.ahead[i], sep)
}

proof fn lemma_spread_step(
    p: IgnorePreview,
    before: PreviewView,
    after: PreviewView,
    root: Seq<char>,
    listing: spec_fn(Seq<char>) -> Seq<EntryView>,
    sep: char,
)
    requires
        paths::separator(sep),
        tidy_tree(root, listing, sep),
        explored(p, before, after, listing),
        spread(before, root, sep),
    ensures
        spread(after, root, sep),
{
    let dir = before.ahead.last();
    let n = before.ahead.len() - 1;
    assert(before.ahead[n] == dir);
    assert(under(root, dir, sep));
    let entries = listing(dir);
    let rest = before.ahead.drop_last();
    let more = opened_in(p, entries);
    let m = shown_spots(root, before.matched);
    let a = ahead_spots(before.ahead);
    let kept = ahead_spots(rest);
    let s = shown_spots(root, shown_in(p, entries));
    let o = ahead_spots(more);
    let d = shown_path(dir);
    lemma_entries_apart(p, entries, dir, root, sep);
    assert forall|x: Seq<char>| #[trigger] spot_of(x, entries) implies child(x, d) by {
        let k = choose|k: int| 0 <= k < entries.len() && x == shown_path((#[trigger] entries[k]).path);
        lemma_entry_spot(entries[k], dir, root, sep);
    }
    assert(children(s, d)) by {
        assert forall|i: int| 0 <= i < s.len() implies child(#[trigger] s[i], d) by {
            assert(spot_of(s[i], entries));
        }
    }
    assert(children(o, d)) by {
        assert forall|i: int| 0 <= i < o.len() implies child(#[trigger] o[i], d) by {
            assert(spot_of(o[i], entries));
        }
    }
    assert(a[n] == d);
    assert forall|i: int| 0 <= i < m.len() implies apart(#[trigger] m[i], d) by {
        assert(apart(m[i], a[n]));
    }
    assert forall|i: int| 0 <= i < kept.len() implies kept[i] == a[i] && apart(
        #[trigger] kept[i],
        d,
    ) by {
        assert(apart(a[i], a[n]));
    }
    lemma_children_apart(m, s, d);
    lemma_children_apart(m, o, d);
    lemma_children_apart(kept, s, d);
    lemma_children_apart(kept, o, d);
    assert(all_apart(kept)) by {
        assert forall|i: int, j: int| 0 <= i < j < kept.len() implies apart(
            #[trigger] kept[i],
            #[trigger] kept[j],
        ) by {
            assert(apart(a[i], a[j]));
        }
    }
    lemma_concat_apart(m, s);
    lemma_concat_apart(kept, o);
    let u = m + s;
    let w = kept + o;
    assert(shown_spots(root, after.matched) =~= u);
    assert(ahead_spots(after.ahead) =~= w);
    assert(cross_apart(u, w)) by {
        assert forall|i: int, j: int| 0 <= i < u.len() && 0 <= j < w.len() implies apart(
            #[trigger] u[i],
            #[trigger] w[j],
        ) by {
            if i < m.len() {
                assert(u[i] == m[i]);
                if j < kept.len() {
                    assert(w[j] == kept[j] && kept[j] == a[j]);
                    assert(apart(m[i], a[j]));
                } else {
                    assert(w[j] == o[j - kept.len()]);
                }
            } else {
                assert(u[i] == s[i - m.len()]);
                if j < kept.len() {
                    assert(w[j] == kept[j]);
                } else {
                    assert(w[j] == o[j - kept.len()]);
                }
            }
        }
    }
    assert forall|i: int| 0 <= i < after.ahead.len() implies under(
        root,
        #[trigger] after.ahead[i],
        sep,
    ) by {
        if i < rest.len() {
            assert(after.ahead[i] == before.ahead[i]);
        } else {
            assert(after.ahead[i] == more[i - rest.len()]);
        }
    }
}

proof fn lemma_spread(
    p: IgnorePreview,
    steps: Seq<PreviewView>,
    root: Seq<char>,
    listing: spec_fn(Seq<char>) -> Seq<EntryView>,
    sep: char,
    n: int,
)
    requires
        paths::separator(sep),
        tidy_tree(root, listing, sep),
        preview_run(p, steps, root, listing),
        0 <= n < steps.len(),
    ensures
        spread(steps[n], root, sep),
    decreases n,
{
    if n > 0 {
        lemma_spread(p, steps, root, listing, sep, n - 1);
        assert(explored(p, steps[n - 1], steps[n - 1 + 1], listing));
        lemma_spread_step(p, steps[n - 1], steps[n], root, listing, sep);
    }
}

/// A preview shows no path twice, and none that lies below another that is
/// shown, however far it went. Stated for folders that list their own entries,
/// each once, under names without slashes of either kind.
pub proof fn law_preview_shows_nothing_twice(
    p: IgnorePreview,
    steps: Seq<PreviewView>,
    root: Seq<char>,
    listing: spec_fn(Seq<char>) -> Seq<EntryView>,
    sep: char,
    n: int,
)
    requires
        paths::separator(sep),
        tidy_tree(root, listing, sep),
        preview_run(p, steps, root, listing),
        0 <= n < steps.len(),
    ensures
        all_apart(steps[n].matched),
{
    lemma_spread(p, steps, root, listing, sep, n);
    let v = steps[n].matched;
    let m = shown_spots(root, v);
    let head = shown_path(root).push('/');
    assert forall|i: int, j: int| 0 <= i < j < v.len() implies apart(
        #[trigger] v[i],
        #[trigger] v[j],
    ) by {
        assert(apart(m[i], m[j]));
        assert(m[i] == head + v[i] && m[j] == head + v[j]);
        lemma_below_the_head(head, v[i], v[j]);
        lemma_below_the_head(head, v[j], v[i]);
    }
}

proof fn lemma_below_the_head(head: Seq<char>, a: Seq<char>, b: Seq<char>)
    ensures
        text::begins(a, b.push('/')) ==> text::begins(head + a, (head + b).push('/')),
{
    let n = b.len() as int + 1;
    if text::begins(a, b.push('/')) {
        assert(a.take(n) == b.push('/'));
        assert((head + a).take(head.len() + n) =~= head + a.take(n));
        assert(head + b.push('/') =~= (head + b).push('/'));
    }
}

/// A path is shown as it is, with slashes for backslashes.
pub proof fn law_path_is_shown_as_it_is(rel: Seq<char>, i: int)
    requires
        0 <= i < rel.len(),
    ensures
        shown_path(rel).len() == rel.len(),
        rel[i] == '\\' ==> shown_path(rel)[i] == '/',
        rel[i] != '\\' ==> shown_path(rel)[i] == rel[i],
{
}

/// An entry that is left out is shown and not searched; one that is not is never
/// shown, and searched exactly if it is a folder.
pub proof fn law_entry_is_shown_or_searched(
    before: IgnorePreview,
    after: IgnorePreview,
    rel: Seq<char>,
    path: Seq<char>,
    is_dir: bool,
)
    requires
        seen(before, after, rel, path, is_dir),
    ensures
        before.leaves_out(rel) ==> text::views(after.matched@) == text::views(
            before.matched@,
        ).push(shown_path(rel)) && after.ahead@ == before.ahead@,
        !before.leaves_out(rel) ==> after.matched@ == before.matched@,
        !before.leaves_out(rel) && is_dir ==> text::views(after.ahead@) == text::views(
            before.ahead@,
        ).push(path),
        !before.leaves_out(rel) && !is_dir ==> after.ahead@ == before.ahead@,
        before.leaves_out(rel) <==> ignore::ignored(
            ignore::path_key(rel),
            text::views(before.patterns@),
            if before.globset is Some {
                Some(ignore::set_paths(before.globset->0))
            } else {
                None
            },
        ),
{
}

/// Where two states of a preview have one setup, only what lies ahead and what
/// was found differs; there is room for up to two hundred paths.
pub proof fn law_preview_setup_stays(a: IgnorePreview, b: IgnorePreview)
    ensures
        a.same_setup(b) <==> a.root == b.root && a.patterns == b.patterns && a.globset
            == b.globset,
        a.wf() <==> a.matched@.len() < 200,
{
}

} // verus!
