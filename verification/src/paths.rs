//! File paths as text: what the standard library's path functions give on the
//! paths that every platform reads alike.

use vstd::prelude::*;

use crate::text;

verus! {

// ---------------------------------------------------------------- definitions

/// A component of `p` ends before position `i`.
pub open spec fn component_ends(p: Seq<char>, i: int) -> bool {
    i == p.len() || (0 <= i < p.len() && p[i] == '/')
}

/// A component of `p` that begins at `i` is `.` or `..`.
pub open spec fn dots_at(p: Seq<char>, i: int) -> bool {
    &&& i == 0 || p[i - 1] == '/'
    &&& p[i] == '.'
    &&& component_ends(p, i + 1) || (i + 1 < p.len() && p[i + 1] == '.' && component_ends(p, i + 2))
}

/// A letter that may name a drive.
pub open spec fn letter(c: char) -> bool {
    'A' <= c <= 'Z' || 'a' <= c <= 'z'
}

/// `p` may begin with a drive: a letter and a colon.
pub open spec fn drive_first(p: Seq<char>) -> bool {
    p.len() >= 2 && letter(p[0]) && p[1] == ':'
}

/// Names joined by single slashes, perhaps after a leading slash, none of which
/// is `.` or `..` or holds a backslash.
pub open spec fn orderly(p: Seq<char>) -> bool {
    &&& p.len() > 0
    &&& p.last() != '/'
    &&& forall|i: int| 0 <= i < p.len() ==> #[trigger] p[i] != '\\'
    &&& forall|i: int| 0 <= i < p.len() - 1 ==> !(#[trigger] p[i] == '/' && p[i + 1] == '/')
    &&& forall|i: int| 0 <= i < p.len() ==> !#[trigger] dots_at(p, i)
}

/// The paths that are read alike on every platform: they are orderly, and do not
/// begin with what is a drive on some.
pub open spec fn plain(p: Seq<char>) -> bool {
    orderly(p) && !drive_first(p)
}

/// The orderly paths that do not start at the root. Behind a folder they are
/// read alike on every platform.
pub open spec fn plain_relative(p: Seq<char>) -> bool {
    orderly(p) && p[0] != '/'
}

/// The position of the last slash of `p`, or -1.
pub open spec fn last_slash(p: Seq<char>) -> int
    decreases p.len(),
{
    if p.len() == 0 {
        -1
    } else if p.last() == '/' {
        p.len() - 1
    } else {
        last_slash(p.drop_last())
    }
}

/// The last name of a plain path.
pub open spec fn name_of(p: Seq<char>) -> Seq<char> {
    p.skip(last_slash(p) + 1)
}

/// A plain path without its last name.
pub open spec fn parent(p: Seq<char>) -> Seq<char> {
    if last_slash(p) == 0 {
        p.take(1)
    } else if last_slash(p) < 0 {
        Seq::empty()
    } else {
        p.take(last_slash(p))
    }
}

/// The plain path `p` as seen from `base`, where `base` is `p` or above it.
pub open spec fn relative(p: Seq<char>, base: Seq<char>) -> Option<Seq<char>> {
    if p == base {
        Some(Seq::empty())
    } else if text::begins(p, base.push('/')) {
        Some(p.skip(base.len() as int + 1))
    } else {
        None
    }
}

/// `a` and `b` are paths that every platform reads by the same rules: both
/// plain, or both on one drive with slashes, or both on it with backslashes.
pub open spec fn read_alike(a: Seq<char>, b: Seq<char>) -> bool {
    ||| plain(a) && plain(b)
    ||| on_drive(a) && on_drive(b) && a[0] == b[0]
    ||| with_backslashes(a) && with_backslashes(b) && a[0] == b[0]
}

/// `a` and `b` may be one path: their texts are equal, or they are not read
/// alike.
pub open spec fn maybe_same(a: Seq<char>, b: Seq<char>) -> bool {
    a == b || !read_alike(a, b)
}

/// The separators of the platforms.
pub open spec fn separator(c: char) -> bool {
    c == '/' || c == '\\'
}

/// The folders that a name is joined to as they stand. Those that begin with
/// two backslashes and a question mark may be written anew.
pub open spec fn joinable(base: Seq<char>) -> bool {
    !text::begins(base, seq!['\\', '\\', '?'])
}

/// The names that are joined to a folder as they stand: they start neither at a
/// root nor at a drive.
pub open spec fn unrooted(name: Seq<char>) -> bool {
    &&& name.len() > 0
    &&& !separator(name[0])
    &&& !drive_first(name)
}

/// The names of a file that lies in a folder itself, where `sep` separates the
/// names of a path beside the slash.
pub open spec fn stays_in(name: Seq<char>, sep: char) -> bool {
    &&& name.len() > 0
    &&& name != seq!['.']
    &&& name != seq!['.', '.']
    &&& !name.contains('/')
    &&& sep == '\\' ==> !name.contains('\\') && !drive_first(name)
}

/// The paths with a drive and slashes: a letter, a colon, a slash and names.
pub open spec fn on_drive(p: Seq<char>) -> bool {
    &&& p.len() > 3
    &&& drive_first(p)
    &&& p[2] == '/'
    &&& plain_relative(p.skip(3))
}

/// The paths with a drive and backslashes. Windows reads their names; other
/// platforms take such a text for one name.
pub open spec fn with_backslashes(p: Seq<char>) -> bool {
    !p.contains('/') && on_drive(text::map_char(p, '\\', '/'))
}

/// `p` as seen from `base` where backslashes separate the names.
pub open spec fn relative_back(p: Seq<char>, base: Seq<char>) -> Option<Seq<char>> {
    if text::begins(p, base.push('\\')) {
        Some(p.skip(base.len() as int + 1))
    } else {
        None
    }
}

/// `r` is `path` as seen from `base`. Slashes may follow `base`. Where
/// backslashes separate names in `path`, it depends on the platform whether
/// there is a result.
pub open spec fn stripped(r: Option<Seq<char>>, path: Seq<char>, base: Seq<char>) -> bool {
    let top = text::trim_end_slash(base);
    &&& plain(path) && plain(top) ==> r == relative(path, top)
    &&& on_drive(path) && on_drive(top) && path[0] == top[0] ==> r == relative(path, top)
    &&& with_backslashes(path) && with_backslashes(base) && path[0] == base[0] && path != base
        ==> r is None || r == relative_back(path, base)
    &&& forall|tail: Seq<char>|
        known_folder(top) && plain_relative(text::map_char(tail, '\\', '/')) && path == #[trigger] (
        top.push('\\') + tail) ==> r is None || r == Some(tail)
    &&& path == base ==> r is Some && r->0.len() == 0
}

/// A name that is the last one of a path on every platform.
pub open spec fn last_name(name: Seq<char>) -> bool {
    &&& name.len() > 0
    &&& name != seq!['.']
    &&& name != seq!['.', '.']
    &&& !name.contains('\\')
}

/// `p` begins with two separators, which stand for more than a root on some
/// platforms.
pub open spec fn two_separators(p: Seq<char>) -> bool {
    p.len() >= 2 && separator(p[0]) && separator(p[1])
}

/// `p` may be a drive and nothing else.
pub open spec fn bare_drive(p: Seq<char>) -> bool {
    p.len() == 2 && drive_first(p)
}

/// The last component of `p` is a single dot.
pub open spec fn ends_in_dot(p: Seq<char>) -> bool {
    p.len() > 0 && p.last() == '.' && (p.len() == 1 || separator(p[p.len() - 2]) || (p.len() == 3
        && drive_first(p)))
}

/// The folders that are left, as they stand, when a last name behind a slash is
/// taken away.
pub open spec fn folder(p: Seq<char>) -> bool {
    &&& p.len() > 0
    &&& !separator(p.last())
    &&& !bare_drive(p)
    &&& !ends_in_dot(p)
    &&& !two_separators(p)
}

/// A path with backslashes without its last name, where backslashes separate
/// the names; the root of a drive keeps its backslash.
pub open spec fn parent_back(p: Seq<char>) -> Seq<char> {
    let n = last_slash(text::map_char(p, '\\', '/'));
    if n == 2 {
        p.take(3)
    } else {
        p.take(n)
    }
}

/// `r` is `path` without its last name. Of a path with backslashes, and of one
/// right below the root of a drive, it depends on the platform.
pub open spec fn above(r: Option<Seq<char>>, path: Seq<char>) -> bool {
    let n = last_slash(path);
    &&& plain(path) ==> r == Some(parent(path))
    &&& n > 0 && last_name(path.skip(n + 1)) && folder(path.take(n)) ==> r == Some(path.take(n))
    &&& on_drive(path) && n == 2 ==> r == Some(path.take(2)) || r == Some(path.take(3))
    &&& with_backslashes(path) ==> r == Some(Seq::<char>::empty()) || r == Some(parent_back(path))
    &&& path.len() == 0 ==> r is None
}

/// `r` is the last name of `path`. Of a path with backslashes it depends on the
/// platform whether the name is what stands behind the last of them.
pub open spec fn named(r: Option<Seq<char>>, path: Seq<char>) -> bool {
    let n = last_slash(path);
    &&& plain(path) ==> r == Some(name_of(path))
    &&& n >= 0 && last_name(path.skip(n + 1)) && !two_separators(path) ==> r == Some(
        path.skip(n + 1),
    )
    &&& with_backslashes(path) ==> r == Some(path) || r == Some(
        name_of(text::map_char(path, '\\', '/')),
    )
    &&& path.len() == 0 ==> r is None
}

/// `r` is `base` and `name`, with a separator `c` between them.
pub open spec fn joined_by(r: Seq<char>, base: Seq<char>, name: Seq<char>, c: char) -> bool {
    separator(c) && r == base.push(c) + name
}

/// `r` is `base` and `name`, with a separator between them unless `base` is
/// empty or ends in a slash. It depends on the platform whether there is one
/// behind a backslash, and behind a drive.
pub open spec fn joined(r: Seq<char>, base: Seq<char>, name: Seq<char>) -> bool {
    if base.len() == 0 || base.last() == '/' {
        r == base + name
    } else if base.last() == '\\' {
        r == base + name || joined_by(r, base, name, '/')
    } else {
        ||| bare_drive(base) && r == base + name
        ||| exists|c: char| joined_by(r, base, name, c)
    }
}

// ---------------------------------------------------------- standard functions

/// Calls `std::path::Path::strip_prefix`, which compares whole components and
/// gives what joined to `base` is `path`; there is no result where `base` is no
/// prefix of `path`; slashes at the end of `base` do not count. What counts as
/// a separator or a drive differs between platforms, so the result is stated
/// for plain paths, for paths on one drive, and for a path and itself. Where it
/// depends on the platform, the contract says what holds on each.
#[verifier::external_body]
pub(crate) fn strip_base(path: &str, base: &str) -> (r: Option<String>)
    ensures
        stripped(text::optional(r), path@, base@),
{
    std::path::Path::new(path).strip_prefix(base).ok().map(|p| p.to_string_lossy().into_owned())
}

/// Calls `std::path::Path::parent`, the path without its final component. The
/// result is stated for plain paths, and for a last name behind a slash; for
/// other paths on a drive the contract says what holds on each platform.
#[verifier::external_body]
pub(crate) fn parent_of(path: &str) -> (r: Option<String>)
    ensures
        above(text::optional(r), path@),
{
    std::path::Path::new(path).parent().map(|p| p.to_string_lossy().into_owned())
}

/// Calls `std::path::Path::file_name`, the final component. The result is
/// stated for plain paths, and for a last name behind a slash; for paths with
/// backslashes the contract says what holds on each platform.
#[verifier::external_body]
pub(crate) fn file_name_of(path: &str) -> (r: Option<String>)
    ensures
        named(text::optional(r), path@),
{
    std::path::Path::new(path).file_name().map(|p| p.to_string_lossy().into_owned())
}

/// Calls `std::path::Path::join`, which puts the platform's separator between
/// the two, unless the first is empty, ends in one, or is a drive. The result is
/// stated for a folder that keeps its form, and a name that does not start at a
/// root. A name that starts at a drive stands for itself on platforms that have
/// drives.
#[verifier::external_body]
pub(crate) fn join_path(base: &str, name: &str) -> (r: String)
    ensures
        joinable(base@) && unrooted(name@) ==> joined(r@, base@, name@),
        joinable(base@) && drive_first(name@) ==> r@ == name@ || joined(r@, base@, name@),
{
    std::path::Path::new(base).join(name).to_string_lossy().into_owned()
}

/// Compares two paths as `std::path::Path` does, by whole components, so that a
/// doubled or trailing separator makes no difference. Equal texts are equal
/// paths; for paths that are read alike nothing else is, on any platform.
#[verifier::external_body]
pub(crate) fn same_path(a: &str, b: &str) -> (r: bool)
    ensures
        a@ == b@ ==> r,
        read_alike(a@, b@) ==> r == (a@ == b@),
{
    std::path::Path::new(a) == std::path::Path::new(b)
}

/// The value of `std::path::MAIN_SEPARATOR`: a slash, or a backslash on
/// Windows.
#[verifier::external_body]
pub(crate) fn main_separator() -> (c: char)
    ensures
        separator(c),
{
    std::path::MAIN_SEPARATOR
}

// -------------------------------------------------------------------- lemmas

/// What `last_slash` is: a slash stands at it, unless it is -1, and none behind
/// it.
pub proof fn lemma_last_slash(p: Seq<char>)
    ensures
        -1 <= last_slash(p) < p.len(),
        last_slash(p) >= 0 ==> p[last_slash(p)] == '/',
        forall|i: int| last_slash(p) < i < p.len() ==> #[trigger] p[i] != '/',
    decreases p.len(),
{
    if p.len() > 0 && p.last() != '/' {
        let t = p.drop_last();
        lemma_last_slash(t);
        assert forall|i: int| last_slash(p) < i < p.len() implies #[trigger] p[i] != '/' by {
            if i < t.len() {
                assert(p[i] == t[i]);
            }
        }
    }
}

/// An orderly path, a slash and a relative plain path make an orderly path, whose
/// part below the first is the second, and whose last name is the second's.
pub proof fn lemma_plain_below(base: Seq<char>, rel: Seq<char>)
    requires
        orderly(base),
        plain_relative(rel),
    ensures
        orderly(base.push('/') + rel),
        plain(base) ==> plain(base.push('/') + rel),
        relative(base.push('/') + rel, base) == Some(rel),
        name_of(base.push('/') + rel) == name_of(rel),
{
    let p = base.push('/') + rel;
    let n = base.len() as int + 1;
    assert forall|i: int| 0 <= i < p.len() implies #[trigger] p[i] != '\\' by {
        if i < n - 1 {
            assert(p[i] == base[i]);
        } else if i >= n {
            assert(p[i] == rel[i - n]);
        }
    }
    assert forall|i: int| 0 <= i < p.len() - 1 implies !(#[trigger] p[i] == '/' && p[i + 1]
        == '/') by {
        if i < n - 2 {
            assert(p[i] == base[i] && p[i + 1] == base[i + 1]);
        } else if i == n - 2 {
            assert(p[i] == base.last());
        } else if i == n - 1 {
            assert(p[i + 1] == rel[0]);
        } else {
            assert(p[i] == rel[i - n] && p[i + 1] == rel[i + 1 - n]);
        }
    }
    assert forall|i: int| 0 <= i < p.len() implies !#[trigger] dots_at(p, i) by {
        if i < n - 1 {
            assert(!dots_at(base, i));
        } else if i >= n {
            assert(!dots_at(rel, i - n));
        }
    }
    assert(p.last() == rel.last());
    assert(p[0] == base[0]);
    assert(base.len() >= 2 ==> p[1] == base[1]);
    assert(base.len() == 1 ==> p[1] == '/');
    assert(p.take(n) =~= base.push('/'));
    assert(p.skip(n) =~= rel);
    lemma_last_slash(p);
    lemma_last_slash(rel);
    if last_slash(rel) >= 0 {
        assert(p[last_slash(rel) + n] == '/');
    }
    assert(last_slash(p) == last_slash(rel) + n) by {
        if last_slash(p) > last_slash(rel) + n {
            assert(p[last_slash(p)] == rel[last_slash(p) - n]);
        }
        assert(p[n - 1] == '/');
    }
    assert(name_of(p) =~= name_of(rel));
}

/// The folders with slashes whose paths are known on every platform: plain
/// ones, and those on a drive.
pub open spec fn known_folder(base: Seq<char>) -> bool {
    plain(base) || on_drive(base)
}

/// The last name of a plain path without a root.
proof fn lemma_name_of_plain(rel: Seq<char>)
    requires
        plain_relative(rel),
    ensures
        last_name(name_of(rel)),
{
    lemma_last_slash(rel);
    let n = last_slash(rel);
    let name = name_of(rel);
    assert(name.len() == rel.len() - n - 1);
    assert(n < rel.len() - 1);
    assert(!dots_at(rel, n + 1));
    if name == seq!['.'] {
        assert(rel[n + 1] == name[0]);
        assert(component_ends(rel, n + 2));
    }
    if name == seq!['.', '.'] {
        assert(rel[n + 1] == name[0] && rel[n + 2] == name[1]);
        assert(component_ends(rel, n + 3));
    }
    if name.contains('\\') {
        let i = choose|i: int| 0 <= i < name.len() && name[i] == '\\';
        assert(rel[n + 1 + i] == '\\');
    }
}

proof fn lemma_slash_behind(base: Seq<char>, rel: Seq<char>)
    ensures
        last_slash(base.push('/') + rel) == base.len() + 1 + last_slash(rel),
        name_of(base.push('/') + rel) == name_of(rel),
        relative(base.push('/') + rel, base) == Some(rel),
{
    let p = base.push('/') + rel;
    let k = base.len() as int + 1;
    lemma_last_slash(p);
    lemma_last_slash(rel);
    let n = last_slash(p);
    let m = last_slash(rel);
    assert(p[k - 1] == '/');
    if m >= 0 {
        assert(p[m + k] == '/');
    }
    if n > m + k {
        assert(p[n] == rel[n - k]);
    }
    assert(n == m + k);
    assert(name_of(p) =~= name_of(rel));
    assert(p.take(k) =~= base.push('/'));
    assert(p.skip(k) =~= rel);
}

proof fn lemma_drive_below(base: Seq<char>, rel: Seq<char>)
    requires
        on_drive(base),
        plain_relative(rel),
    ensures
        on_drive(base.push('/') + rel),
        (base.push('/') + rel)[0] == base[0],
{
    let p = base.push('/') + rel;
    let tail = base.skip(3);
    lemma_plain_below(tail, rel);
    assert(p.skip(3) =~= tail.push('/') + rel);
    assert(p.skip(3)[0] == tail[0]);
    assert(p[0] == base[0] && p[1] == base[1] && p[2] == base[2]);
}

proof fn lemma_drive_folder(p: Seq<char>, n: int)
    requires
        on_drive(p),
        3 < n < p.len(),
        p[n] == '/',
    ensures
        folder(p.take(n)),
{
    let t = p.skip(3);
    let f = p.take(n);
    assert(f.last() == t[n - 4]);
    assert(t[n - 3] == '/');
    assert(t[n - 4] != '\\');
    assert(!(t[n - 4] == '/' && t[n - 3] == '/'));
    assert(!dots_at(t, n - 4));
    if ends_in_dot(f) {
        assert(f[n - 2] == p[n - 2]);
        assert(component_ends(t, n - 3));
        if n - 2 > 2 {
            assert(p[n - 2] == t[n - 5]);
            assert(t[n - 5] != '\\');
        }
    }
    assert(f[1] == ':');
}

/// What is known of a path below a known folder: where it lies, what lies above
/// it, and its last name.
pub proof fn lemma_below(base: Seq<char>, rel: Seq<char>)
    requires
        known_folder(base),
        plain_relative(rel),
    ensures
        ({
            let p = base.push('/') + rel;
            let n = last_slash(p);
            &&& relative(p, base) == Some(rel)
            &&& plain(base) ==> plain(p)
            &&& on_drive(base) ==> on_drive(p) && p[0] == base[0]
            &&& base.len() <= n < p.len() - 1
            &&& p[n] == '/'
            &&& name_of(p) == name_of(rel)
            &&& forall|up: Option<Seq<char>>| #[trigger] above(up, p) ==> up == Some(p.take(n))
            &&& forall|name: Option<Seq<char>>| #[trigger]
                named(name, p) ==> name == Some(name_of(p))
        }),
{
    let p = base.push('/') + rel;
    let n = last_slash(p);
    lemma_name_of_plain(rel);
    lemma_last_slash(p);
    assert(p[base.len() as int] == '/');
    assert(name_of(p).len() == p.len() - n - 1);
    if plain(base) {
        lemma_plain_below(base, rel);
    } else {
        lemma_slash_behind(base, rel);
        lemma_last_slash(rel);
        lemma_drive_below(base, rel);
        lemma_drive_folder(p, n);
        assert(p[1] == ':');
        assert(p.skip(n + 1) == name_of(p));
    }
}

/// A folder that was joined can be joined to.
pub proof fn lemma_joined_is_joinable(r: Seq<char>, base: Seq<char>, name: Seq<char>)
    requires
        joinable(base),
        joined(r, base, name),
        unrooted(name),
        name[0] != '?',
    ensures
        joinable(r),
{
    let head = seq!['\\', '\\', '?'];
    if text::begins(r, head) {
        assert(r.take(3) == head);
        assert(r.take(3)[0] == r[0] && r.take(3)[1] == r[1] && r.take(3)[2] == r[2]);
        if base.len() >= 3 {
            assert(base.take(3) =~= r.take(3));
        } else if r == base + name {
            assert(r[base.len() as int] == name[0]);
        } else {
            let c = if base.last() == '\\' {
                '/'
            } else {
                choose|c: char| joined_by(r, base, name, c)
            };
            assert(r[base.len() as int] == c);
            assert(r[base.len() as int + 1] == name[0]);
        }
    }
}

// ------------------------------------------------------------------- what is known

fn is_letter(c: char) -> (r: bool)
    ensures
        r == letter(c),
{
    ('A' <= c && c <= 'Z') || ('a' <= c && c <= 'z')
}

/// Whether `p` may begin with a drive.
pub fn begins_with_drive(p: &str) -> (r: bool)
    ensures
        r == drive_first(p@),
{
    let v = text::chars_of(p);
    v.len() >= 2 && is_letter(v[0]) && v[1] == ':'
}

fn ends_here(v: &Vec<char>, i: usize) -> (r: bool)
    ensures
        r == component_ends(v@, i as int),
{
    i == v.len() || (i < v.len() && v[i] == '/')
}

fn has_dots_at(v: &Vec<char>, i: usize) -> (r: bool)
    requires
        i < v@.len(),
    ensures
        r == dots_at(v@, i as int),
{
    let n: usize = v.len();
    if i > 0 && v[i - 1] != '/' {
        return false;
    }
    if v[i] != '.' {
        return false;
    }
    if ends_here(v, i + 1) {
        return true;
    }
    i + 1 < n && v[i + 1] == '.' && ends_here(v, i + 2)
}

fn is_orderly(p: &str) -> (r: bool)
    ensures
        r == orderly(p@),
{
    let v = text::chars_of(p);
    let n: usize = v.len();
    if n == 0 || v[n - 1] == '/' {
        return false;
    }
    let mut i: usize = 0;
    while i < n
        invariant
            v@ == p@,
            n == v@.len(),
            i <= n,
            forall|k: int| 0 <= k < i ==> #[trigger] v@[k] != '\\',
            forall|k: int|
                0 <= k < i && k < n - 1 ==> !(#[trigger] v@[k] == '/' && v@[k + 1] == '/'),
            forall|k: int| 0 <= k < i ==> !#[trigger] dots_at(v@, k),
        decreases n - i,
    {
        if v[i] == '\\' || (i < n - 1 && v[i] == '/' && v[i + 1] == '/') || has_dots_at(&v, i) {
            return false;
        }
        i = i + 1;
    }
    true
}

/// Whether `p` is an orderly path that does not start at the root.
pub fn is_plain_relative(p: &str) -> (r: bool)
    ensures
        r == plain_relative(p@),
{
    if !is_orderly(p) {
        return false;
    }
    let v = text::chars_of(p);
    v[0] != '/'
}

fn is_on_drive(p: &str) -> (r: bool)
    ensures
        r == on_drive(p@),
{
    let v = text::chars_of(p);
    if v.len() <= 3 || !begins_with_drive(p) || v[2] != '/' {
        return false;
    }
    is_plain_relative(text::text_from(p, 3).as_str())
}

/// The synchronised folders below which every platform finds a path where it
/// was put: known folders, perhaps with slashes behind them, and folders on a
/// drive with backslashes.
pub open spec fn known_root(root: Seq<char>) -> bool {
    known_folder(text::trim_end_slash(root)) || with_backslashes(root)
}

/// Whether every platform finds a path where it was put below `root`.
pub fn is_known_root(root: &str) -> (r: bool)
    ensures
        r == known_root(root@),
{
    let top: String = text::trim_end_slash_text(root);
    if (is_orderly(top.as_str()) && !begins_with_drive(top.as_str())) || is_on_drive(top.as_str()) {
        return true;
    }
    !text::has_char(root, '/') && is_on_drive(text::replace_char(root, '\\', '/').as_str())
}

// ------------------------------------------------------------------------- laws

/// A name that is joined to a folder stands behind it, with one separator
/// between them.
pub proof fn law_joined_name_stands_behind(base: Seq<char>, name: Seq<char>, r: Seq<char>)
    requires
        joined(r, base, name),
    ensures
        base.len() == 0 ==> r == name,
        base.len() > 0 && base.last() == '/' ==> r == base + name,
        base.len() > 0 && !separator(base.last()) && !bare_drive(base) ==> r == base.push('/')
            + name || r == base.push('\\') + name,
{
    assert(base.len() == 0 ==> base + name =~= name);
}

/// A known root is a known folder, with or without slashes behind it, or a folder
/// on a drive with backslashes; nothing else is.
pub proof fn law_known_roots(root: Seq<char>)
    ensures
        known_folder(root) ==> known_root(root),
        plain(root) || on_drive(root) ==> known_folder(root),
        with_backslashes(root) ==> known_root(root),
        known_root(root) ==> with_backslashes(root) || plain(text::trim_end_slash(root))
            || on_drive(text::trim_end_slash(root)),
{
    if known_folder(root) {
        assert(root.last() != '/') by {
            if on_drive(root) {
                assert(root.last() == root.skip(3).last());
            }
        }
        assert(text::trim_end_slash(root) == root);
    }
}

/// Two paths may be one only if their texts are equal, or a platform reads one
/// of them by other rules than the other.
pub proof fn law_different_paths_are_two(a: Seq<char>, b: Seq<char>)
    ensures
        maybe_same(a, a),
        plain(a) && plain(b) && a != b ==> !maybe_same(a, b),
        on_drive(a) && on_drive(b) && a[0] == b[0] && a != b ==> !maybe_same(a, b),
        with_backslashes(a) && with_backslashes(b) && a[0] == b[0] && a != b ==> !maybe_same(a, b),
{
}

} // verus!
