//! Which files stay out of synchronisation: glob patterns and plain fragments.

use vstd::prelude::*;

use crate::paths;
use crate::text;

verus! {

/// `globset::Glob`, a parsed pattern.
#[verifier::external_type_specification]
#[verifier::external_body]
pub struct ExGlob(globset::Glob);

/// `globset::GlobSetBuilder`, the patterns that a set is made of.
#[verifier::external_type_specification]
#[verifier::external_body]
pub struct ExGlobSetBuilder(globset::GlobSetBuilder);

/// `globset::GlobSet`, a set of patterns that are tried together.
#[verifier::external_type_specification]
#[verifier::external_body]
pub struct ExGlobSet(globset::GlobSet);

/// `globset::Error`, why a pattern or a set was refused.
#[verifier::external_type_specification]
#[verifier::external_body]
pub struct ExGlobError(globset::Error);

/// The paths that a pattern text matches, or nothing where it is no pattern.
/// The text and the paths are without backslashes, whose meaning differs
/// between platforms.
pub uninterp spec fn glob_language(pattern: Seq<char>) -> Option<Set<Seq<char>>>;

/// The paths that a parsed pattern matches.
pub uninterp spec fn glob_paths(glob: globset::Glob) -> Set<Seq<char>>;

/// The text of a parsed pattern.
pub uninterp spec fn glob_text(glob: globset::Glob) -> Seq<char>;

/// The texts of a builder's patterns, in the order in which they were added.
pub uninterp spec fn builder_texts(builder: globset::GlobSetBuilder) -> Seq<Seq<char>>;

/// The paths that some pattern of a builder matches.
pub uninterp spec fn builder_paths(builder: globset::GlobSetBuilder) -> Set<Seq<char>>;

/// The paths that some pattern of a set matches.
pub uninterp spec fn set_paths(set: globset::GlobSet) -> Set<Seq<char>>;

/// A character that stands for itself in a pattern.
pub open spec fn stands_for_itself(c: char) -> bool {
    c != '?' && c != '*' && c != '[' && c != '{' && c != '}' && c != '\\'
}

/// A pattern that asks for one text.
pub open spec fn literal(pattern: Seq<char>) -> bool {
    &&& pattern.len() > 0
    &&& forall|i: int| 0 <= i < pattern.len() ==> stands_for_itself(#[trigger] pattern[i])
}

/// A pattern that asks for an extension: a star, a dot, and one or more
/// characters that stand for themselves, none of which is a dot or a slash.
pub open spec fn extension(pattern: Seq<char>) -> bool {
    &&& pattern.len() >= 3
    &&& pattern[0] == '*'
    &&& pattern[1] == '.'
    &&& forall|i: int|
        2 <= i < pattern.len() ==> stands_for_itself(#[trigger] pattern[i]) && pattern[i] != '.'
            && pattern[i] != '/'
}

/// A pattern that asks for an end: a star, and a text that is neither a slash nor
/// a dot alone.
pub open spec fn ending(pattern: Seq<char>) -> bool {
    &&& pattern.len() >= 2
    &&& pattern[0] == '*'
    &&& literal(pattern.skip(1))
    &&& pattern.skip(1) != seq!['/']
    &&& pattern.skip(1) != seq!['.']
}

/// A pattern that asks for a beginning: a text and a star.
pub open spec fn beginning(pattern: Seq<char>) -> bool {
    &&& pattern.len() >= 2
    &&& pattern.last() == '*'
    &&& literal(pattern.drop_last())
}

/// A pattern that asks for a path in any folder: two stars, a slash, and a text
/// that is not two dots.
pub open spec fn anywhere(pattern: Seq<char>) -> bool {
    &&& pattern.len() >= 4
    &&& pattern[0] == '*'
    &&& pattern[1] == '*'
    &&& pattern[2] == '/'
    &&& literal(pattern.skip(3))
    &&& pattern.skip(3) != seq!['.', '.']
}

/// A pattern that asks for what lies in a folder: a text, a slash and two stars.
pub open spec fn within(pattern: Seq<char>) -> bool {
    let n = pattern.len();
    &&& n >= 4
    &&& pattern[n - 1] == '*'
    &&& pattern[n - 2] == '*'
    &&& pattern[n - 3] == '/'
    &&& literal(pattern.take(n - 3))
}

/// A pattern that is looked up as a text, and needs no automaton.
pub open spec fn simple(pattern: Seq<char>) -> bool {
    literal(pattern) || extension(pattern) || ending(pattern) || beginning(pattern) || anywhere(
        pattern,
    ) || within(pattern)
}

/// `path` ends in `end`.
pub open spec fn ends(path: Seq<char>, end: Seq<char>) -> bool {
    path.len() >= end.len() && path.skip(path.len() - end.len()) == end
}

/// A simple pattern matches the path: as its text, as its end or its beginning,
/// as it stands in any folder, or as the folder that it lies in.
pub open spec fn simple_match(pattern: Seq<char>, path: Seq<char>) -> bool {
    if literal(pattern) {
        path == pattern
    } else if anywhere(pattern) {
        path == pattern.skip(3) || ends(path, pattern.skip(2))
    } else if within(pattern) {
        text::begins(path, pattern.take(pattern.len() - 2))
    } else if beginning(pattern) {
        text::begins(path, pattern.drop_last())
    } else {
        ends(path, pattern.skip(1))
    }
}

/// The deepest nesting of groups in a pattern that is tried as a glob.
pub const MAX_NESTING: usize = 200;

/// Where a reader stands in a pattern, as to character classes: outside, behind
/// an opening bracket, behind the sign that negates it, or further in.
#[derive(Clone, Copy, Debug, PartialEq, Eq, Structural)]
pub enum ClassPart {
    Outside,
    Opened,
    Negated,
    Inside,
}

/// What is known of the groups of a pattern that was read so far.
#[derive(Clone, Copy, Debug, PartialEq, Eq, Structural)]
pub struct Groups {
    /// The most groups that may be open here.
    pub open: usize,
    /// The most groups that may have been open anywhere.
    pub deepest: usize,
    pub class: ClassPart,
    /// A backslash stood somewhere: from there on it depends on the platform
    /// what stands for itself, so that every opening brace counts, and no
    /// closing one.
    pub escaped: bool,
}

/// No part of a pattern was read.
pub open spec fn no_groups() -> Groups {
    Groups { open: 0, deepest: 0, class: ClassPart::Outside, escaped: false }
}

/// One group more is open.
pub open spec fn opened(g: Groups) -> Groups {
    Groups {
        open: (g.open + 1) as usize,
        deepest: if g.open < g.deepest {
            g.deepest
        } else {
            (g.open + 1) as usize
        },
        ..g
    }
}

/// The class that a reader stands in behind one more character.
pub open spec fn class_after(class: ClassPart, c: char) -> ClassPart {
    match class {
        ClassPart::Outside => if c == '[' {
            ClassPart::Opened
        } else {
            ClassPart::Outside
        },
        ClassPart::Opened => if c == '!' || c == '^' {
            ClassPart::Negated
        } else {
            ClassPart::Inside
        },
        ClassPart::Negated => ClassPart::Inside,
        ClassPart::Inside => if c == ']' {
            ClassPart::Outside
        } else {
            ClassPart::Inside
        },
    }
}

/// What is known of the groups behind one more character. Braces in a class
/// stand for themselves.
pub open spec fn groups_after(g: Groups, c: char) -> Groups {
    if g.escaped {
        if c == '{' {
            opened(g)
        } else {
            g
        }
    } else if g.class != ClassPart::Outside {
        Groups { class: class_after(g.class, c), ..g }
    } else if c == '{' {
        opened(g)
    } else if c == '}' && g.open > 0 {
        Groups { open: (g.open - 1) as usize, ..g }
    } else if c == '\\' {
        Groups { escaped: true, ..g }
    } else {
        Groups { class: class_after(g.class, c), ..g }
    }
}

/// What is known of the groups of a pattern.
pub open spec fn groups(pattern: Seq<char>) -> Groups
    decreases pattern.len(),
{
    if pattern.len() == 0 {
        no_groups()
    } else {
        groups_after(groups(pattern.drop_last()), pattern.last())
    }
}

/// How deep the groups of a pattern may be nested.
pub open spec fn nesting(pattern: Seq<char>) -> nat {
    groups(pattern).deepest as nat
}

// --------------------------------------------------------------- outside calls

/// Calls `globset::Glob::new`, which keeps the text. The outcome depends on the
/// text alone, but for backslashes, which escape on some platforms and separate
/// on others. A text, alone or with stars at one end, is always a pattern. Alone
/// it matches itself; behind a star, the paths that end in it; before one, those
/// that begin with it; behind two stars and a slash, itself and the paths that
/// end in a slash and it; before a slash and two stars, the paths that begin
/// with it and a slash. Groups in braces are
/// followed into their depth one call in another, so that their nesting is
/// bounded.
#[verifier::external_body]
pub(crate) fn parse_glob(pattern: &str) -> (r: Result<globset::Glob, globset::Error>)
    requires
        nesting(pattern@) <= MAX_NESTING,
    ensures
        !pattern@.contains('\\') ==> (r is Ok <==> glob_language(pattern@) is Some),
        !pattern@.contains('\\') && r is Ok ==> forall|path: Seq<char>|
            !path.contains('\\') ==> (#[trigger] glob_paths(r->Ok_0).contains(path)
                <==> glob_language(pattern@)->0.contains(path)),
        simple(pattern@) ==> r is Ok && forall|path: Seq<char>|
            !path.contains('\\') ==> (#[trigger] glob_paths(r->Ok_0).contains(path)
                <==> simple_match(pattern@, path)),
        r matches Ok(glob) ==> glob_text(glob) == pattern@,
{
    globset::Glob::new(pattern)
}

/// Calls `globset::GlobSetBuilder::new`: there is no pattern yet.
#[verifier::external_body]
pub(crate) fn new_builder() -> (b: globset::GlobSetBuilder)
    ensures
        builder_paths(b) == Set::<Seq<char>>::empty(),
        builder_texts(b) == Seq::<Seq<char>>::empty(),
{
    globset::GlobSetBuilder::new()
}

/// Calls `globset::GlobSetBuilder::add`: one more pattern may match, and stands
/// behind the others.
#[verifier::external_body]
pub(crate) fn add_glob(b: &mut globset::GlobSetBuilder, glob: globset::Glob)
    ensures
        builder_paths(*final(b)) == builder_paths(*old(b)).union(glob_paths(glob)),
        builder_texts(*final(b)) == builder_texts(*old(b)).push(glob_text(glob)),
{
    b.add(glob);
}

/// Calls `globset::GlobSetBuilder::build`: the set matches what the builder's
/// patterns match. Texts, and texts with stars at one end, are looked up as they
/// are, so that a set of them alone is always built. Whether a set with other patterns can be built
/// depends on the memory that its automata take, and is left open.
#[verifier::external_body]
pub(crate) fn build_set(b: &globset::GlobSetBuilder) -> (r: Result<globset::GlobSet, globset::Error>)
    ensures
        r matches Ok(s) ==> set_paths(s) == builder_paths(*b),
        (forall|i: int| 0 <= i < builder_texts(*b).len() ==> simple(#[trigger] builder_texts(*b)[i]))
            ==> r is Ok,
{
    b.build()
}

/// Calls `globset::GlobSet::is_match`: whether some pattern of the set matches.
/// Stated for paths without backslashes, which separate on some platforms.
#[verifier::external_body]
pub(crate) fn set_matches(set: &globset::GlobSet, path: &str) -> (r: bool)
    ensures
        !path@.contains('\\') ==> r == set_paths(*set).contains(path@),
{
    set.is_match(path)
}

// ---------------------------------------------------------------- definitions

/// A pattern that says something: it is more than white space.
pub open spec fn nonblank(pattern: Seq<char>) -> bool {
    text::trim(pattern).len() > 0
}

/// The form in which a pattern is compared.
pub open spec fn pattern_key(pattern: Seq<char>) -> Seq<char> {
    text::lower(text::trim(pattern))
}

/// The form in which a path is compared.
pub open spec fn path_key(rel: Seq<char>) -> Seq<char> {
    text::lower(text::map_char(rel, '\\', '/'))
}

/// Some pattern is a fragment of `key`.
pub open spec fn has_fragment(patterns: Seq<Seq<char>>, key: Seq<char>) -> bool {
    exists|i: int|
        0 <= i < patterns.len() && nonblank(#[trigger] patterns[i]) && text::occurs(
            key,
            pattern_key(patterns[i]),
        )
}

/// The path with the key `key` is left out: there are patterns, and a glob
/// matches it or a pattern is a fragment of it.
pub open spec fn ignored(
    key: Seq<char>,
    patterns: Seq<Seq<char>>,
    globs: Option<Set<Seq<char>>>,
) -> bool {
    &&& patterns.len() > 0
    &&& (globs is Some && globs->0.contains(key)) || has_fragment(patterns, key)
}

/// The paths of an optional set.
pub open spec fn paths_of(set: Option<&globset::GlobSet>) -> Option<Set<Seq<char>>> {
    match set {
        Some(s) => Some(set_paths(*s)),
        None => None,
    }
}

/// The paths that a pattern matches as a glob, if it is tried as one and is one.
pub open spec fn language(key: Seq<char>) -> Option<Set<Seq<char>>> {
    if nesting(key) <= MAX_NESTING {
        glob_language(key)
    } else {
        None
    }
}

/// As a glob, `pattern` matches the path with the key `key`.
pub open spec fn glob_matches(pattern: Seq<char>, key: Seq<char>) -> bool {
    &&& nonblank(pattern)
    &&& language(pattern_key(pattern)) is Some
    &&& language(pattern_key(pattern))->0.contains(key)
}

/// `rel` is `path` as seen from `root`, or `path` itself where it lies
/// elsewhere.
pub open spec fn seen_from(rel: Seq<char>, path: Seq<char>, root: Seq<char>) -> bool {
    exists|r: Option<Seq<char>>| #[trigger]
        paths::stripped(r, path, root) && rel == match r {
            Some(s) => s,
            None => path,
        }
}

// ------------------------------------------------------------------ functions

/// Whether the path `rel` below the synchronised folder is left out.
pub fn ignores(rel: &str, patterns: &Vec<String>, globset: Option<&globset::GlobSet>) -> (r: bool)
    ensures
        r == ignored(path_key(rel@), text::views(patterns@), paths_of(globset)),
{
    if patterns.len() == 0 {
        return false;
    }
    let key: String = text::lower_text(text::replace_char(rel, '\\', '/').as_str());
    proof {
        law_case_and_slashes_do_not_matter(rel@, rel@);
    }
    if let Some(set) = globset {
        if set_matches(set, key.as_str()) {
            return true;
        }
    }
    let mut i: usize = 0;
    while i < patterns.len()
        invariant
            i <= patterns@.len(),
            patterns@.len() > 0,
            key@ == path_key(rel@),
            paths_of(globset) is Some ==> !paths_of(globset)->0.contains(key@),
            forall|k: int|
                0 <= k < i ==> !(nonblank(#[trigger] text::views(patterns@)[k]) && text::occurs(
                    key@,
                    pattern_key(text::views(patterns@)[k]),
                )),
        decreases patterns@.len() - i,
    {
        let trimmed: String = text::trim_text(patterns[i].as_str());
        let pattern: String = text::lower_text(trimmed.as_str());
        assert(text::views(patterns@)[i as int] == patterns@[i as int]@);
        if !pattern.as_str().is_empty() && text::has_text(key.as_str(), pattern.as_str()) {
            return true;
        }
        i = i + 1;
    }
    false
}

/// Whether `path` is left out of the synchronisation of `local_root`.
pub fn should_ignore_path(
    local_root: &str,
    path: &str,
    patterns: &Vec<String>,
    globset: Option<&globset::GlobSet>,
) -> (r: bool)
    ensures
        exists|rel: Seq<char>|
            #![trigger path_key(rel)]
            seen_from(rel, path@, local_root@) && r == ignored(
                path_key(rel),
                text::views(patterns@),
                paths_of(globset),
            ),
{
    let rel: String = relative_or_self(path, local_root);
    ignores(rel.as_str(), patterns, globset)
}

/// `path` as seen from `local_root`, or `path` itself where it lies elsewhere.
pub fn relative_or_self(path: &str, local_root: &str) -> (r: String)
    ensures
        seen_from(r@, path@, local_root@),
{
    let below = paths::strip_base(path, local_root);
    assert(paths::stripped(text::optional(below), path@, local_root@));
    match below {
        Some(s) => s,
        None => path.to_string(),
    }
}

/// Some pattern without backslash is a glob.
pub open spec fn some_glob(patterns: Seq<Seq<char>>) -> bool {
    exists|i: int|
        0 <= i < patterns.len() && nonblank(#[trigger] patterns[i]) && !pattern_key(
            patterns[i],
        ).contains('\\') && language(pattern_key(patterns[i])) is Some
}

/// Some pattern is a glob, or holds a backslash.
pub open spec fn maybe_glob(patterns: Seq<Seq<char>>) -> bool {
    exists|i: int|
        0 <= i < patterns.len() && nonblank(#[trigger] patterns[i]) && (pattern_key(
            patterns[i],
        ).contains('\\') || language(pattern_key(patterns[i])) is Some)
}

/// Some pattern is a simple one.
pub open spec fn some_simple(patterns: Seq<Seq<char>>) -> bool {
    exists|i: int|
        0 <= i < patterns.len() && nonblank(#[trigger] patterns[i]) && simple(
            pattern_key(patterns[i]),
        )
}

/// Every glob among `patterns` is a simple one, and none has a backslash unless
/// it is blank: the others are no globs.
pub open spec fn simple_globs(patterns: Seq<Seq<char>>) -> bool {
    forall|i: int|
        0 <= i < patterns.len() && nonblank(#[trigger] patterns[i]) ==> simple(
            pattern_key(patterns[i]),
        ) || (!pattern_key(patterns[i]).contains('\\') && language(
            pattern_key(patterns[i]),
        ) is None)
}

/// A simple pattern matches `key`.
pub open spec fn simply_matched(patterns: Seq<Seq<char>>, key: Seq<char>) -> bool {
    exists|i: int|
        0 <= i < patterns.len() && nonblank(#[trigger] patterns[i]) && simple(
            pattern_key(patterns[i]),
        ) && simple_match(pattern_key(patterns[i]), key)
}

/// `set` holds what the simple patterns match, and nothing else where every
/// glob is a simple one.
pub open spec fn simple_cover(patterns: Seq<Seq<char>>, set: Set<Seq<char>>) -> bool {
    forall|key: Seq<char>|
        #![trigger set.contains(key)]
        !key.contains('\\') ==> {
            &&& simply_matched(patterns, key) ==> set.contains(key)
            &&& simple_globs(patterns) && set.contains(key) ==> simply_matched(patterns, key)
        }
}

/// `text` is the key of a pattern that is a glob, or holds a backslash.
pub open spec fn key_of_glob(patterns: Seq<Seq<char>>, text: Seq<char>) -> bool {
    exists|i: int|
        0 <= i < patterns.len() && nonblank(#[trigger] patterns[i]) && text == pattern_key(
            patterns[i],
        ) && (text.contains('\\') || language(text) is Some)
}

fn open_group(g: Groups) -> (r: Groups)
    requires
        g.open < usize::MAX,
    ensures
        r == opened(g),
{
    let open: usize = g.open + 1;
    let deepest: usize = if g.open < g.deepest {
        g.deepest
    } else {
        open
    };
    Groups { open, deepest, class: g.class, escaped: g.escaped }
}

fn next_class(class: ClassPart, c: char) -> (r: ClassPart)
    ensures
        r == class_after(class, c),
{
    match class {
        ClassPart::Outside => if c == '[' {
            ClassPart::Opened
        } else {
            ClassPart::Outside
        },
        ClassPart::Opened => if c == '!' || c == '^' {
            ClassPart::Negated
        } else {
            ClassPart::Inside
        },
        ClassPart::Negated => ClassPart::Inside,
        ClassPart::Inside => if c == ']' {
            ClassPart::Outside
        } else {
            ClassPart::Inside
        },
    }
}

/// How deep the groups of a pattern may be nested.
fn depth_of(pattern: &str) -> (n: usize)
    ensures
        n == nesting(pattern@),
{
    let v = text::chars_of(pattern);
    let mut g: Groups = Groups {
        open: 0,
        deepest: 0,
        class: ClassPart::Outside,
        escaped: false,
    };
    let mut i: usize = 0;
    while i < v.len()
        invariant
            v@ == pattern@,
            i <= v@.len(),
            g.open <= i,
            g == groups(v@.take(i as int)),
        decreases v@.len() - i,
    {
        proof {
            assert(v@.take(i + 1).drop_last() =~= v@.take(i as int));
            assert(v@.take(i + 1).last() == v@[i as int]);
        }
        let c: char = v[i];
        let inside: bool = !g.escaped && g.class != ClassPart::Outside;
        if inside {
            g.class = next_class(g.class, c);
        } else if c == '{' {
            g = open_group(g);
        } else if !g.escaped {
            if c == '}' && g.open > 0 {
                g.open = g.open - 1;
            } else if c == '\\' {
                g.escaped = true;
            } else {
                g.class = next_class(g.class, c);
            }
        }
        i = i + 1;
    }
    assert(v@.take(i as int) =~= v@);
    g.deepest
}

proof fn lemma_simple_has_no_braces(pattern: Seq<char>)
    requires
        simple(pattern),
    ensures
        nesting(pattern) == 0,
        groups(pattern).open == 0,
{
    let n = pattern.len();
    assert forall|i: int| 0 <= i < pattern.len() implies #[trigger] pattern[i] != '{' by {
        if literal(pattern) {
            assert(stands_for_itself(pattern[i]));
        } else if extension(pattern) {
            if i >= 2 {
                assert(stands_for_itself(pattern[i]));
            }
        } else if ending(pattern) {
            if i >= 1 {
                assert(stands_for_itself(pattern.skip(1)[i - 1]));
            }
        } else if beginning(pattern) {
            if i < n - 1 {
                assert(stands_for_itself(pattern.drop_last()[i]));
            }
        } else if anywhere(pattern) {
            if i >= 3 {
                assert(stands_for_itself(pattern.skip(3)[i - 3]));
            }
        } else if i < n - 3 {
            assert(stands_for_itself(pattern.take(n - 3)[i]));
        }
    }
    lemma_no_braces(pattern);
}

proof fn lemma_no_braces(pattern: Seq<char>)
    requires
        forall|i: int| 0 <= i < pattern.len() ==> #[trigger] pattern[i] != '{',
    ensures
        nesting(pattern) == 0,
        groups(pattern).open == 0,
    decreases pattern.len(),
{
    if pattern.len() > 0 {
        let t = pattern.drop_last();
        assert forall|i: int| 0 <= i < t.len() implies #[trigger] t[i] != '{' by {
            assert(t[i] == pattern[i]);
        }
        lemma_no_braces(t);
    }
}

/// The globs among `patterns`, in lower case, and whether there are any. A
/// pattern that is no glob is passed over, and so is one whose groups are nested too deep.
pub fn gather_globs(patterns: &Vec<String>) -> (r: (globset::GlobSetBuilder, bool))
    ensures
        globs_cover(text::views(patterns@), builder_paths(r.0)),
        simple_cover(text::views(patterns@), builder_paths(r.0)),
        some_glob(text::views(patterns@)) ==> r.1,
        some_simple(text::views(patterns@)) ==> r.1,
        r.1 ==> maybe_glob(text::views(patterns@)),
        r.1 == (builder_texts(r.0).len() > 0),
        forall|j: int|
            0 <= j < builder_texts(r.0).len() ==> key_of_glob(
                text::views(patterns@),
                #[trigger] builder_texts(r.0)[j],
            ),
{
    let mut builder = new_builder();
    let mut any: bool = false;
    let mut i: usize = 0;
    let ghost all = text::views(patterns@);
    while i < patterns.len()
        invariant
            all == text::views(patterns@),
            i <= patterns@.len(),
            globs_cover(all.take(i as int), builder_paths(builder)),
            simple_cover(all.take(i as int), builder_paths(builder)),
            some_glob(all.take(i as int)) ==> any,
            some_simple(all.take(i as int)) ==> any,
            any ==> maybe_glob(all),
            any == (builder_texts(builder).len() > 0),
            forall|j: int|
                0 <= j < builder_texts(builder).len() ==> key_of_glob(
                    all,
                    #[trigger] builder_texts(builder)[j],
                ),
        decreases patterns@.len() - i,
    {
        let trimmed: String = text::trim_text(patterns[i].as_str());
        let ghost before = builder_paths(builder);
        proof {
            assert(all[i as int] == patterns@[i as int]@);
            lemma_some_glob(all, i as int);
            lemma_some_simple(all, i as int);
        }
        let pattern: String = text::lower_text(trimmed.as_str());
        let mut parsed: Option<globset::Glob> = None;
        if !trimmed.as_str().is_empty() && depth_of(pattern.as_str()) <= MAX_NESTING {
            if let Ok(glob) = parse_glob(pattern.as_str()) {
                parsed = Some(glob);
            }
        }
        proof {
            if simple(pattern@) {
                lemma_simple_has_no_braces(pattern@);
            }
        }
        match parsed {
            Some(glob) => {
                let ghost more = glob_paths(glob);
                let ghost texts = builder_texts(builder);
                let ghost key = glob_text(glob);
                add_glob(&mut builder, glob);
                any = true;
                proof {
                    assert(nonblank(all[i as int]));
                    lemma_cover_add(all, i as int, before, more);
                    lemma_simple_add(all, i as int, before, more);
                    assert(key_of_glob(all, key));
                    assert(builder_texts(builder) == texts.push(key));
                }
            },
            None => {
                proof {
                    lemma_cover_skip(all, i as int, before);
                    lemma_simple_skip(all, i as int, before);
                }
            },
        }
        i = i + 1;
    }
    assert(all.take(i as int) =~= all);
    (builder, any)
}

proof fn lemma_some_glob(all: Seq<Seq<char>>, i: int)
    requires
        0 <= i < all.len(),
    ensures
        some_glob(all.take(i + 1)) ==> some_glob(all.take(i)) || (nonblank(all[i]) && !pattern_key(
            all[i],
        ).contains('\\') && language(pattern_key(all[i])) is Some),
{
    let a = all.take(i);
    let b = all.take(i + 1);
    if some_glob(b) {
        let k = choose|k: int|
            0 <= k < b.len() && nonblank(#[trigger] b[k]) && !pattern_key(b[k]).contains('\\')
                && language(pattern_key(b[k])) is Some;
        if k < i {
            assert(a[k] == b[k]);
        }
    }
}

proof fn lemma_some_simple(all: Seq<Seq<char>>, i: int)
    requires
        0 <= i < all.len(),
    ensures
        some_simple(all.take(i + 1)) ==> some_simple(all.take(i)) || (nonblank(all[i]) && simple(
            pattern_key(all[i]),
        )),
{
    let a = all.take(i);
    let b = all.take(i + 1);
    if some_simple(b) {
        let k = choose|k: int|
            0 <= k < b.len() && nonblank(#[trigger] b[k]) && simple(pattern_key(b[k]));
        if k < i {
            assert(a[k] == b[k]);
        }
    }
}

/// The set to match with: the one that was built, where there are globs at all
/// and it could be built.
pub fn usable_set(any: bool, built: Result<globset::GlobSet, globset::Error>) -> (r: Option<
    globset::GlobSet,
>)
    ensures
        r == match built {
            Ok(set) if any => Some(set),
            _ => None,
        },
{
    match built {
        Ok(set) => {
            if any {
                Some(set)
            } else {
                None
            }
        },
        Err(_) => None,
    }
}

/// When there are `globs` among `patterns`: not where none of them can be one,
/// and, where all that are globs are simple ones, exactly if one is.
pub open spec fn built_when(patterns: Seq<Seq<char>>, globs: Option<Set<Seq<char>>>) -> bool {
    &&& !maybe_glob(patterns) ==> globs is None
    &&& simple_globs(patterns) ==> (globs is Some <==> some_simple(patterns))
}

/// The globs among `patterns`, in lower case. There is no set where none is
/// left. There is one where one is left and all are simple; with other globs the
/// set may be too large to be built.
pub fn build_globset(patterns: &Vec<String>) -> (r: Option<globset::GlobSet>)
    ensures
        !maybe_glob(text::views(patterns@)) ==> r is None,
        simple_globs(text::views(patterns@)) ==> (r is Some <==> some_simple(
            text::views(patterns@),
        )),
        r matches Some(set) ==> globs_cover(text::views(patterns@), set_paths(set))
            && simple_cover(text::views(patterns@), set_paths(set)),
{
    let (builder, any) = gather_globs(patterns);
    let ghost all = text::views(patterns@);
    proof {
        if simple_globs(all) {
            let texts = builder_texts(builder);
            assert forall|j: int| 0 <= j < texts.len() implies simple(#[trigger] texts[j]) by {
                lemma_simple_key(all, texts[j]);
            }
            if any {
                lemma_simple_key(all, texts[0]);
            }
        }
    }
    usable_set(any, build_set(&builder))
}

proof fn lemma_simple_key(patterns: Seq<Seq<char>>, text: Seq<char>)
    requires
        simple_globs(patterns),
        key_of_glob(patterns, text),
    ensures
        simple(text),
        some_simple(patterns),
{
    let i = choose|i: int|
        0 <= i < patterns.len() && nonblank(#[trigger] patterns[i]) && text == pattern_key(
            patterns[i],
        ) && (text.contains('\\') || language(text) is Some);
    assert(nonblank(patterns[i]));
}

/// `set` holds what the globs among `patterns` match: a path without backslash
/// belongs to it if such a glob without backslash matches it, and only if some
/// pattern does that has a backslash or matches it.
pub open spec fn globs_cover(patterns: Seq<Seq<char>>, set: Set<Seq<char>>) -> bool {
    forall|key: Seq<char>|
        #![trigger set.contains(key)]
        !key.contains('\\') ==> {
            &&& surely_matched(patterns, key) ==> set.contains(key)
            &&& set.contains(key) ==> maybe_matched(patterns, key)
        }
}

/// A pattern without backslash matches `key` as a glob.
pub open spec fn surely_matched(patterns: Seq<Seq<char>>, key: Seq<char>) -> bool {
    exists|i: int|
        0 <= i < patterns.len() && !pattern_key(#[trigger] patterns[i]).contains('\\')
            && glob_matches(patterns[i], key)
}

/// A pattern matches `key` as a glob, or holds a backslash.
pub open spec fn maybe_matched(patterns: Seq<Seq<char>>, key: Seq<char>) -> bool {
    exists|i: int|
        0 <= i < patterns.len() && nonblank(#[trigger] patterns[i]) && (pattern_key(
            patterns[i],
        ).contains('\\') || glob_matches(patterns[i], key))
}

proof fn lemma_cover_skip(all: Seq<Seq<char>>, i: int, set: Set<Seq<char>>)
    requires
        0 <= i < all.len(),
        globs_cover(all.take(i), set),
        !nonblank(all[i]) || pattern_key(all[i]).contains('\\') || language(
            pattern_key(all[i]),
        ) is None,
    ensures
        globs_cover(all.take(i + 1), set),
{
    let a = all.take(i);
    let b = all.take(i + 1);
    assert forall|key: Seq<char>|
        #![trigger set.contains(key)]
        !key.contains('\\') implies {
        &&& surely_matched(b, key) ==> set.contains(key)
        &&& set.contains(key) ==> maybe_matched(b, key)
    } by {
        if surely_matched(b, key) {
            let k = choose|k: int|
                0 <= k < b.len() && !pattern_key(#[trigger] b[k]).contains('\\') && glob_matches(
                    b[k],
                    key,
                );
            assert(k < i);
            assert(a[k] == b[k]);
            assert(surely_matched(a, key));
        }
        if set.contains(key) {
            assert(maybe_matched(a, key));
            let k = choose|k: int|
                0 <= k < a.len() && nonblank(#[trigger] a[k]) && (pattern_key(a[k]).contains('\\')
                    || glob_matches(a[k], key));
            assert(b[k] == a[k]);
        }
    }
}

proof fn lemma_cover_add(all: Seq<Seq<char>>, i: int, set: Set<Seq<char>>, more: Set<Seq<char>>)
    requires
        0 <= i < all.len(),
        globs_cover(all.take(i), set),
        nonblank(all[i]),
        !pattern_key(all[i]).contains('\\') ==> {
            &&& language(pattern_key(all[i])) is Some
            &&& forall|key: Seq<char>|
                !key.contains('\\') ==> (#[trigger] more.contains(key) <==> language(
                    pattern_key(all[i]),
                )->0.contains(key))
        },
    ensures
        globs_cover(all.take(i + 1), set.union(more)),
{
    let a = all.take(i);
    let b = all.take(i + 1);
    let sum = set.union(more);
    assert forall|key: Seq<char>|
        #![trigger sum.contains(key)]
        !key.contains('\\') implies {
        &&& surely_matched(b, key) ==> sum.contains(key)
        &&& sum.contains(key) ==> maybe_matched(b, key)
    } by {
        if surely_matched(b, key) {
            let k = choose|k: int|
                0 <= k < b.len() && !pattern_key(#[trigger] b[k]).contains('\\') && glob_matches(
                    b[k],
                    key,
                );
            if k < i {
                assert(a[k] == b[k]);
                assert(surely_matched(a, key));
                assert(set.contains(key));
            } else {
                assert(more.contains(key));
            }
        }
        if sum.contains(key) {
            if set.contains(key) {
                assert(maybe_matched(a, key));
                let k = choose|k: int|
                    0 <= k < a.len() && nonblank(#[trigger] a[k]) && (pattern_key(
                        a[k],
                    ).contains('\\') || glob_matches(a[k], key));
                assert(b[k] == a[k]);
            } else {
                assert(more.contains(key));
                assert(b[i] == all[i]);
            }
        }
    }
}

proof fn lemma_simple_skip(all: Seq<Seq<char>>, i: int, set: Set<Seq<char>>)
    requires
        0 <= i < all.len(),
        simple_cover(all.take(i), set),
        !nonblank(all[i]) || !simple(pattern_key(all[i])),
    ensures
        simple_cover(all.take(i + 1), set),
{
    lemma_simple_step(all, i, set, Set::empty());
    assert(set.union(Set::empty()) =~= set);
}

proof fn lemma_simple_add(all: Seq<Seq<char>>, i: int, set: Set<Seq<char>>, more: Set<Seq<char>>)
    requires
        0 <= i < all.len(),
        simple_cover(all.take(i), set),
        nonblank(all[i]),
        pattern_key(all[i]).contains('\\') || language(pattern_key(all[i])) is Some,
        simple(pattern_key(all[i])) ==> forall|key: Seq<char>|
            !key.contains('\\') ==> (#[trigger] more.contains(key) <==> simple_match(
                pattern_key(all[i]),
                key,
            )),
    ensures
        simple_cover(all.take(i + 1), set.union(more)),
{
    let b = all.take(i + 1);
    if simple(pattern_key(all[i])) {
        lemma_simple_step(all, i, set, more);
    } else {
        assert(nonblank(b[i]));
        assert(!simple_globs(b));
        lemma_simple_step(all, i, set, more);
    }
}

proof fn lemma_simple_step(all: Seq<Seq<char>>, i: int, set: Set<Seq<char>>, more: Set<Seq<char>>)
    requires
        0 <= i < all.len(),
        simple_cover(all.take(i), set),
        forall|key: Seq<char>|
            !key.contains('\\') ==> {
                &&& nonblank(all[i]) && simple(pattern_key(all[i])) && simple_match(
                    pattern_key(all[i]),
                    key,
                ) ==> #[trigger] more.contains(key)
                &&& more.contains(key) && simple_globs(all.take(i + 1)) ==> nonblank(all[i])
                    && simple(pattern_key(all[i])) && simple_match(pattern_key(all[i]), key)
            },
    ensures
        simple_cover(all.take(i + 1), set.union(more)),
{
    let a = all.take(i);
    let b = all.take(i + 1);
    let sum = set.union(more);
    assert(b[i] == all[i]);
    if simple_globs(b) {
        assert forall|k: int| 0 <= k < a.len() && nonblank(#[trigger] a[k]) implies simple(
            pattern_key(a[k]),
        ) || (!pattern_key(a[k]).contains('\\') && language(pattern_key(a[k])) is None) by {
            assert(b[k] == a[k]);
        }
        assert(simple_globs(a));
    }
    assert forall|key: Seq<char>|
        #![trigger sum.contains(key)]
        !key.contains('\\') implies {
        &&& simply_matched(b, key) ==> sum.contains(key)
        &&& simple_globs(b) && sum.contains(key) ==> simply_matched(b, key)
    } by {
        assert(sum.contains(key) == (set.contains(key) || more.contains(key)));
        if simply_matched(b, key) {
            let k = choose|k: int|
                0 <= k < b.len() && nonblank(#[trigger] b[k]) && simple(pattern_key(b[k]))
                    && simple_match(pattern_key(b[k]), key);
            if k < i {
                assert(a[k] == b[k]);
                assert(simply_matched(a, key));
            }
        }
        if simple_globs(b) && sum.contains(key) {
            if set.contains(key) {
                assert(simply_matched(a, key));
                let k = choose|k: int|
                    0 <= k < a.len() && nonblank(#[trigger] a[k]) && simple(pattern_key(a[k]))
                        && simple_match(pattern_key(a[k]), key);
                assert(b[k] == a[k]);
            } else {
                assert(nonblank(b[i]));
            }
        }
    }
}

// ------------------------------------------------------------------------- laws

/// Neither the case of ASCII letters nor the form of the slashes decides whether
/// a path is left out.
pub proof fn law_case_and_slashes_do_not_matter(rel: Seq<char>, other: Seq<char>)
    ensures
        text::same_ignoring_case(rel, other) ==> path_key(rel) == path_key(other),
        path_key(text::map_char(rel, '\\', '/')) == path_key(rel),
        !path_key(rel).contains('\\'),
{
    let m = text::map_char(rel, '\\', '/');
    assert(text::map_char(m, '\\', '/') =~= m);
    assert forall|i: int| 0 <= i < m.len() implies path_key(rel)[i] != '\\' by {
        assert(m[i] != '\\');
    }
    if text::same_ignoring_case(rel, other) {
        assert(text::lower(rel).len() == text::lower(other).len());
        assert forall|i: int| 0 <= i < rel.len() implies path_key(rel)[i] == path_key(other)[i] by {
            assert(text::lower(rel)[i] == text::lower(other)[i]);
        }
        assert(path_key(rel) =~= path_key(other));
    }
}

/// A path that holds a pattern is left out, and so is one that a pattern
/// matches as a glob, once the globs were built.
pub proof fn law_matched_path_is_ignored(
    rel: Seq<char>,
    patterns: Seq<Seq<char>>,
    i: int,
    globs: Option<Set<Seq<char>>>,
)
    requires
        0 <= i < patterns.len(),
        nonblank(patterns[i]),
        text::occurs(path_key(rel), pattern_key(patterns[i])) || (globs is Some && globs_cover(
            patterns,
            globs->0,
        ) && !pattern_key(patterns[i]).contains('\\') && glob_matches(patterns[i], path_key(rel))),
    ensures
        ignored(path_key(rel), patterns, globs),
{
    let key = path_key(rel);
    law_case_and_slashes_do_not_matter(rel, rel);
    if text::occurs(key, pattern_key(patterns[i])) {
        assert(has_fragment(patterns, key));
    } else {
        assert(surely_matched(patterns, key));
        assert(globs->0.contains(key));
    }
}

/// Where every glob among the patterns is a simple one, exactly those paths are
/// left out that one of these matches, or that hold a pattern as a fragment.
pub proof fn law_simple_patterns_say_what_is_ignored(
    rel: Seq<char>,
    patterns: Seq<Seq<char>>,
    globs: Option<Set<Seq<char>>>,
)
    requires
        simple_globs(patterns),
        built_when(patterns, globs),
        globs matches Some(set) ==> simple_cover(patterns, set),
    ensures
        ignored(path_key(rel), patterns, globs) <==> simply_matched(patterns, path_key(rel))
            || has_fragment(patterns, path_key(rel)),
{
    let key = path_key(rel);
    law_case_and_slashes_do_not_matter(rel, rel);
    if simply_matched(patterns, key) {
        let i = choose|i: int|
            0 <= i < patterns.len() && nonblank(#[trigger] patterns[i]) && simple(
                pattern_key(patterns[i]),
            ) && simple_match(pattern_key(patterns[i]), key);
        assert(nonblank(patterns[i]));
        assert(some_simple(patterns));
        assert(globs->0.contains(key));
    }
    if globs is Some && globs->0.contains(key) {
        assert(simply_matched(patterns, key));
    }
}

/// Patterns that are blank leave nothing out.
pub proof fn law_blank_patterns_ignore_nothing(rel: Seq<char>, patterns: Seq<Seq<char>>)
    requires
        forall|i: int| 0 <= i < patterns.len() ==> !nonblank(#[trigger] patterns[i]),
    ensures
        !ignored(path_key(rel), patterns, None),
{
}

/// One more pattern leaves out no less.
pub proof fn law_more_patterns_ignore_no_less(
    rel: Seq<char>,
    patterns: Seq<Seq<char>>,
    more: Seq<char>,
    globs: Option<Set<Seq<char>>>,
)
    requires
        ignored(path_key(rel), patterns, globs),
    ensures
        ignored(path_key(rel), patterns.push(more), globs),
{
    let key = path_key(rel);
    if has_fragment(patterns, key) {
        let i = choose|i: int|
            0 <= i < patterns.len() && nonblank(#[trigger] patterns[i]) && text::occurs(
                key,
                pattern_key(patterns[i]),
            );
        assert(patterns.push(more)[i] == patterns[i]);
        assert(has_fragment(patterns.push(more), key));
    }
}

/// A path is compared without regard to the case of ASCII letters and with
/// slashes for backslashes; nothing else of it changes.
pub proof fn law_form_of_a_path(rel: Seq<char>, i: int)
    requires
        0 <= i < rel.len(),
    ensures
        path_key(rel).len() == rel.len(),
        rel[i] == '\\' ==> path_key(rel)[i] == '/',
        65 <= rel[i] as u32 <= 90 ==> path_key(rel)[i] as u32 == rel[i] as u32 + 32,
        rel[i] != '\\' && !(65 <= rel[i] as u32 <= 90) ==> path_key(rel)[i] == rel[i],
{
}

/// A pattern is compared without the white space around it and without regard to
/// the case of ASCII letters; one of nothing but white space says nothing.
pub proof fn law_form_of_a_pattern(head: Seq<char>, core: Seq<char>, tail: Seq<char>)
    requires
        forall|i: int| 0 <= i < head.len() ==> text::is_white(#[trigger] head[i]),
        forall|i: int| 0 <= i < tail.len() ==> text::is_white(#[trigger] tail[i]),
        core.len() > 0 ==> !text::is_white(core[0]) && !text::is_white(core.last()),
    ensures
        core.len() > 0 ==> pattern_key(head + core + tail) == text::lower(core) && nonblank(
            head + core + tail,
        ),
        core.len() == 0 ==> !nonblank(head + core + tail),
{
    let p = head + core + tail;
    if core.len() > 0 {
        text::law_white_space_around_goes(head, core, tail);
    } else {
        let around = text::law_trimmed_text(p);
        let t = text::trim(p);
        if t.len() > 0 {
            let i = around.0.len() as int;
            assert(p[i] == t[0]);
            if i < head.len() {
                assert(p[i] == head[i]);
            } else {
                assert(p[i] == tail[i - head.len()]);
            }
        }
    }
}

/// A path is left out exactly if a glob matches its form, or the form of a
/// pattern that is not blank stands somewhere in it; without patterns nothing
/// is left out.
pub proof fn law_what_is_left_out(
    rel: Seq<char>,
    patterns: Seq<Seq<char>>,
    globs: Option<Set<Seq<char>>>,
)
    ensures
        ignored(path_key(rel), patterns, globs) <==> patterns.len() > 0 && ((globs is Some
            && globs->0.contains(path_key(rel))) || exists|i: int, a: Seq<char>, b: Seq<char>|
            0 <= i < patterns.len() && text::trim(#[trigger] patterns[i]).len() > 0 && path_key(rel)
                == #[trigger] (a + text::lower(text::trim(patterns[i])) + b)),
{
    let key = path_key(rel);
    if has_fragment(patterns, key) {
        let i = choose|i: int|
            0 <= i < patterns.len() && nonblank(#[trigger] patterns[i]) && text::occurs(
                key,
                pattern_key(patterns[i]),
            );
        let around = text::law_occurring_text_is_inside(key, pattern_key(patterns[i]));
        assert(text::trim(patterns[i]).len() > 0);
        assert(key == around.0 + text::lower(text::trim(patterns[i])) + around.1);
    }
    if exists|i: int, a: Seq<char>, b: Seq<char>|
        0 <= i < patterns.len() && text::trim(#[trigger] patterns[i]).len() > 0 && key
            == #[trigger] (a + text::lower(text::trim(patterns[i])) + b) {
        let (i, a, b) = choose|i: int, a: Seq<char>, b: Seq<char>|
            0 <= i < patterns.len() && text::trim(#[trigger] patterns[i]).len() > 0 && key
                == #[trigger] (a + text::lower(text::trim(patterns[i])) + b);
        text::law_inner_text_occurs(a, text::lower(text::trim(patterns[i])), b);
        assert(nonblank(patterns[i]));
        assert(has_fragment(patterns, key));
    }
}

/// A pattern is tried as a glob unless its groups may be nested deeper than two
/// hundred; one without groups always is.
pub proof fn law_shallow_patterns_are_tried(key: Seq<char>)
    ensures
        nesting(key) <= 200 ==> language(key) == glob_language(key),
        (forall|i: int| 0 <= i < key.len() ==> #[trigger] key[i] != '{') ==> language(key)
            == glob_language(key),
{
    if forall|i: int| 0 <= i < key.len() ==> #[trigger] key[i] != '{' {
        lemma_no_braces(key);
    }
}

/// An opening brace outside of a class is a group more, and the depth is never
/// less than the groups that are open, nor than it was.
pub proof fn law_opening_braces_nest(pattern: Seq<char>, c: char)
    requires
        pattern.len() < usize::MAX,
    ensures
        groups(pattern).open <= groups(pattern).deepest <= pattern.len(),
        groups(pattern).class is Outside || groups(pattern).escaped ==> groups(
            pattern.push('{'),
        ).open == groups(pattern).open + 1,
        nesting(pattern.push(c)) >= nesting(pattern),
    decreases pattern.len(),
{
    if pattern.len() > 0 {
        law_opening_braces_nest(pattern.drop_last(), pattern.last());
        assert(pattern.drop_last().push(pattern.last()) =~= pattern);
    }
    assert(pattern.push('{').drop_last() =~= pattern);
    assert(pattern.push(c).drop_last() =~= pattern);
}

/// A path below the synchronised folder is seen by what lies below it, and the
/// folder itself as nothing.
pub proof fn law_path_is_seen_from_its_folder(root: Seq<char>, below: Seq<char>, rel: Seq<char>)
    requires
        paths::known_folder(root),
        paths::plain_relative(below),
    ensures
        seen_from(rel, root.push('/') + below, root) ==> rel == below,
        seen_from(rel, root, root) ==> rel.len() == 0,
{
    paths::lemma_below(root, below);
    assert(root.last() != '/') by {
        if paths::on_drive(root) {
            assert(root.last() == root.skip(3).last());
        }
    }
    assert(text::trim_end_slash(root) == root);
}

/// A pattern without special characters asks for its own text, and a star, a dot
/// and such characters without dot or slash ask for an extension: both are
/// simple.
pub proof fn law_texts_and_extensions_are_simple(word: Seq<char>)
    requires
        word.len() > 0,
        forall|i: int|
            0 <= i < word.len() ==> !seq!['?', '*', '[', '{', '}', '\\'].contains(
                #[trigger] word[i],
            ),
    ensures
        simple(word),
        forall|path: Seq<char>| #[trigger] simple_match(word, path) <==> path == word,
        !word.contains('.') && !word.contains('/') ==> simple(seq!['*', '.'] + word),
{
    let special = seq!['?', '*', '[', '{', '}', '\\'];
    assert(special[0] == '?' && special[1] == '*' && special[2] == '[' && special[3] == '{'
        && special[4] == '}' && special[5] == '\\');
    assert forall|i: int| 0 <= i < word.len() implies stands_for_itself(#[trigger] word[i]) by {
        assert(!special.contains(word[i]));
    }
    if !word.contains('.') && !word.contains('/') {
        let p = seq!['*', '.'] + word;
        assert forall|i: int| 2 <= i < p.len() implies stands_for_itself(#[trigger] p[i]) && p[i]
            != '.' && p[i] != '/' by {
            assert(p[i] == word[i - 2]);
            assert(word.contains(word[i - 2]));
        }
    }
}

/// A text behind a star matches every path that ends in it, whatever stands
/// before it, and no other path; so it is with an extension.
pub proof fn law_text_behind_a_star_matches_the_end(
    word: Seq<char>,
    head: Seq<char>,
    path: Seq<char>,
)
    requires
        literal(word),
        word != seq!['/'],
        word != seq!['.'],
    ensures
        simple(seq!['*'] + word),
        simple_match(seq!['*'] + word, head + word),
        simple_match(seq!['*'] + word, path) ==> path == path.take(path.len() - word.len()) + word,
{
    let p = seq!['*'] + word;
    assert(p.skip(1) =~= word);
    assert(!stands_for_itself(p[0]));
    assert(stands_for_itself(word[0]));
    assert(p[1] == word[0]);
    assert(!literal(p));
    lemma_star_first(p);
    let whole = head + word;
    assert(whole.skip(whole.len() - word.len()) =~= word);
    if simple_match(p, path) {
        let n = path.len() - word.len();
        assert(path =~= path.take(n) + path.skip(n));
    }
}

proof fn lemma_star_first(p: Seq<char>)
    requires
        p.len() >= 2,
        p[0] == '*',
        stands_for_itself(p[1]),
    ensures
        !anywhere(p),
        !beginning(p),
        !within(p),
        !literal(p),
{
    assert(!stands_for_itself(p[0]));
    if beginning(p) {
        assert(stands_for_itself(p.drop_last()[0]));
    }
    if within(p) {
        assert(stands_for_itself(p.take(p.len() - 3)[0]));
    }
}

/// A text before a star matches every path that begins with it, and no other.
pub proof fn law_text_before_a_star_matches_the_beginning(
    word: Seq<char>,
    tail: Seq<char>,
    path: Seq<char>,
)
    requires
        literal(word),
    ensures
        simple(word.push('*')),
        simple_match(word.push('*'), word + tail),
        simple_match(word.push('*'), path) ==> path == word + path.skip(word.len() as int),
{
    let p = word.push('*');
    let n = word.len() as int;
    assert(p.drop_last() =~= word);
    assert(p[n] == '*');
    assert(!stands_for_itself(p[n]));
    assert(p[0] == word[0]);
    assert(stands_for_itself(word[0]));
    assert(stands_for_itself(word[n - 1]));
    assert(p[n - 1] == word[n - 1]);
    assert(!literal(p) && !anywhere(p) && !within(p));
    text::law_beginning(word, tail, path);
}

/// A text behind two stars and a slash matches itself and every path that ends in
/// a slash and it, and no other.
pub proof fn law_text_in_any_folder(word: Seq<char>, head: Seq<char>, path: Seq<char>)
    requires
        literal(word),
        word != seq!['.', '.'],
    ensures
        simple(seq!['*', '*', '/'] + word),
        simple_match(seq!['*', '*', '/'] + word, word),
        simple_match(seq!['*', '*', '/'] + word, head + (seq!['/'] + word)),
        simple_match(seq!['*', '*', '/'] + word, path) ==> path == word || path == path.take(
            path.len() - word.len() - 1,
        ) + (seq!['/'] + word),
{
    let p = seq!['*', '*', '/'] + word;
    let end = seq!['/'] + word;
    assert(p.skip(3) =~= word);
    assert(p.skip(2) =~= end);
    assert(!stands_for_itself(p[0]));
    assert(!literal(p));
    assert(anywhere(p));
    let whole = head + end;
    assert(whole.skip(whole.len() - end.len()) =~= end);
    if ends(path, end) {
        let n = path.len() - end.len();
        assert(path =~= path.take(n) + path.skip(n));
    }
}

/// A text before a slash and two stars matches what begins with it and a slash,
/// and nothing else.
pub proof fn law_text_as_a_folder(word: Seq<char>, tail: Seq<char>, path: Seq<char>)
    requires
        literal(word),
    ensures
        simple(word + seq!['/', '*', '*']),
        simple_match(word + seq!['/', '*', '*'], word.push('/') + tail),
        simple_match(word + seq!['/', '*', '*'], path) ==> path == word.push('/') + path.skip(
            word.len() as int + 1,
        ),
{
    let p = word + seq!['/', '*', '*'];
    let n = p.len() as int;
    assert(p.take(n - 3) =~= word);
    assert(p.take(n - 2) =~= word.push('/'));
    assert(!stands_for_itself(p[n - 1]));
    assert(stands_for_itself(word[0]));
    assert(p[0] == word[0]);
    assert(!literal(p) && !anywhere(p));
    assert(within(p));
    text::law_beginning(word.push('/'), tail, path);
}

/// Where every pattern is simple, or blank, a set is built exactly if one is not
/// blank; a path is then left out exactly if a pattern matches it, or stands in
/// it.
pub proof fn law_simple_patterns_leave_out(
    rel: Seq<char>,
    patterns: Seq<Seq<char>>,
    globs: Option<Set<Seq<char>>>,
)
    requires
        forall|i: int|
            0 <= i < patterns.len() && text::trim(#[trigger] patterns[i]).len() > 0 ==> simple(
                text::lower(text::trim(patterns[i])),
            ),
        built_when(patterns, globs),
        globs matches Some(set) ==> simple_cover(patterns, set),
    ensures
        globs is Some <==> exists|i: int|
            0 <= i < patterns.len() && text::trim(#[trigger] patterns[i]).len() > 0,
        ignored(path_key(rel), patterns, globs) <==> exists|i: int|
            0 <= i < patterns.len() && text::trim(#[trigger] patterns[i]).len() > 0 && (
            simple_match(text::lower(text::trim(patterns[i])), path_key(rel)) || text::occurs(
                path_key(rel),
                text::lower(text::trim(patterns[i])),
            )),
{
    let key = path_key(rel);
    assert(simple_globs(patterns));
    law_simple_patterns_say_what_is_ignored(rel, patterns, globs);
    if exists|i: int| 0 <= i < patterns.len() && text::trim(#[trigger] patterns[i]).len() > 0 {
        let i = choose|i: int|
            0 <= i < patterns.len() && text::trim(#[trigger] patterns[i]).len() > 0;
        assert(nonblank(patterns[i]));
        assert(some_simple(patterns));
    }
    if exists|i: int|
        0 <= i < patterns.len() && text::trim(#[trigger] patterns[i]).len() > 0 && (simple_match(
            text::lower(text::trim(patterns[i])),
            key,
        ) || text::occurs(key, text::lower(text::trim(patterns[i])))) {
        let i = choose|i: int|
            0 <= i < patterns.len() && text::trim(#[trigger] patterns[i]).len() > 0 && (
            simple_match(text::lower(text::trim(patterns[i])), key) || text::occurs(
                key,
                text::lower(text::trim(patterns[i])),
            ));
        assert(nonblank(patterns[i]));
        assert(simply_matched(patterns, key) || has_fragment(patterns, key));
    }
}

/// Every pattern that is a glob without backslashes is tried: what it matches
/// belongs to the set, and what belongs to the set is matched by one that is
/// not blank, unless that holds a backslash.
pub proof fn law_every_glob_is_tried(
    patterns: Seq<Seq<char>>,
    set: Set<Seq<char>>,
    key: Seq<char>,
    i: int,
)
    requires
        globs_cover(patterns, set),
        !key.contains('\\'),
    ensures
        ({
            let p = text::lower(text::trim(patterns[i]));
            0 <= i < patterns.len() && p.len() > 0 && !p.contains('\\') && nesting(p) <= 200
                && glob_language(p) is Some && glob_language(p)->0.contains(key) ==> set.contains(
                key,
            )
        }),
        set.contains(key) ==> exists|k: int|
            0 <= k < patterns.len() && text::trim(#[trigger] patterns[k]).len() > 0 && ({
                let q = text::lower(text::trim(patterns[k]));
                q.contains('\\') || (glob_language(q) is Some && glob_language(q)->0.contains(key))
            }),
{
    if 0 <= i < patterns.len() {
        let p = text::lower(text::trim(patterns[i]));
        if p.len() > 0 && !p.contains('\\') && nesting(p) <= 200 && glob_language(p) is Some
            && glob_language(p)->0.contains(key) {
            assert(glob_matches(patterns[i], key));
            assert(surely_matched(patterns, key));
        }
    }
    if set.contains(key) {
        assert(maybe_matched(patterns, key));
        let k = choose|k: int|
            0 <= k < patterns.len() && nonblank(#[trigger] patterns[k]) && (pattern_key(
                patterns[k],
            ).contains('\\') || glob_matches(patterns[k], key));
        assert(text::trim(patterns[k]).len() > 0);
    }
}

/// There is no set where no pattern can be a glob: all are blank, or have no
/// backslash and are no glob.
pub proof fn law_no_set_without_globs(patterns: Seq<Seq<char>>, globs: Option<Set<Seq<char>>>)
    requires
        built_when(patterns, globs),
        forall|i: int|
            0 <= i < patterns.len() && text::trim(#[trigger] patterns[i]).len() > 0 ==> ({
                let p = text::lower(text::trim(patterns[i]));
                !p.contains('\\') && (glob_language(p) is None || nesting(p) > 200)
            }),
    ensures
        globs is None,
{
    if maybe_glob(patterns) {
        let i = choose|i: int|
            0 <= i < patterns.len() && nonblank(#[trigger] patterns[i]) && (pattern_key(
                patterns[i],
            ).contains('\\') || language(pattern_key(patterns[i])) is Some);
        assert(text::trim(patterns[i]).len() > 0);
    }
}

/// The set that is looked into is the one that was built, if one was.
pub proof fn law_set_is_the_one_that_was_built(set: globset::GlobSet)
    ensures
        paths_of(Some(&set)) == Some(set_paths(set)),
        paths_of(None) is None,
{
}

} // verus!
