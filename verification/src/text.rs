//! Text as a sequence of characters: the predicates and transformations that
//! the rest of the crate is stated with, and their executable forms.

use vstd::prelude::*;

verus! {

/// `String::push` appends one character.
pub assume_specification[ String::push ](s: &mut String, c: char)
    ensures
        final(s)@ == old(s)@.push(c),
;

// ---------------------------------------------------------------- definitions

/// The characters with the Unicode property `White_Space`.
pub open spec fn is_white(c: char) -> bool {
    ||| '\u{9}' <= c <= '\u{d}'
    ||| c == ' '
    ||| c == '\u{85}'
    ||| c == '\u{a0}'
    ||| c == '\u{1680}'
    ||| '\u{2000}' <= c <= '\u{200a}'
    ||| c == '\u{2028}'
    ||| c == '\u{2029}'
    ||| c == '\u{202f}'
    ||| c == '\u{205f}'
    ||| c == '\u{3000}'
}

/// The lower case form of an ASCII capital letter; any other character itself.
pub open spec fn lower_char(c: char) -> char {
    if 'A' <= c <= 'Z' {
        (c as u8 + 32) as u8 as char
    } else {
        c
    }
}

/// `s` with every ASCII capital letter in lower case.
pub open spec fn lower(s: Seq<char>) -> Seq<char> {
    Seq::new(s.len(), |i: int| lower_char(s[i]))
}

/// `s` and `t` are equal but for the case of ASCII letters.
pub open spec fn same_ignoring_case(s: Seq<char>, t: Seq<char>) -> bool {
    lower(s) == lower(t)
}

/// `s` with every `from` turned into `to`.
pub open spec fn map_char(s: Seq<char>, from: char, to: char) -> Seq<char> {
    Seq::new(
        s.len(),
        |i: int|
            if s[i] == from {
                to
            } else {
                s[i]
            },
    )
}

/// `s` without the leading characters that satisfy `p`.
pub open spec fn skip_while(s: Seq<char>, p: spec_fn(char) -> bool) -> Seq<char>
    decreases s.len(),
{
    if s.len() > 0 && p(s[0]) {
        skip_while(s.skip(1), p)
    } else {
        s
    }
}

/// `s` without the trailing characters that satisfy `p`.
pub open spec fn drop_while(s: Seq<char>, p: spec_fn(char) -> bool) -> Seq<char>
    decreases s.len(),
{
    if s.len() > 0 && p(s.last()) {
        drop_while(s.drop_last(), p)
    } else {
        s
    }
}

/// White space, as a predicate.
pub open spec fn white() -> spec_fn(char) -> bool {
    |c: char| is_white(c)
}

/// One character, as a predicate.
pub open spec fn only(x: char) -> spec_fn(char) -> bool {
    |c: char| c == x
}

/// `s` without leading white space.
pub open spec fn trim_start(s: Seq<char>) -> Seq<char> {
    skip_while(s, white())
}

/// `s` without leading and trailing white space.
pub open spec fn trim(s: Seq<char>) -> Seq<char> {
    drop_while(skip_while(s, white()), white())
}

/// `s` without the slashes at its end.
pub open spec fn trim_end_slash(s: Seq<char>) -> Seq<char> {
    drop_while(s, only('/'))
}

/// `s` without the slashes at its start.
pub open spec fn trim_start_slash(s: Seq<char>) -> Seq<char> {
    skip_while(s, only('/'))
}

/// `p` occurs in `s` at position `i`.
pub open spec fn occurs_at(s: Seq<char>, p: Seq<char>, i: int) -> bool {
    &&& 0 <= i <= s.len() - p.len()
    &&& s.subrange(i, i + p.len()) == p
}

/// `p` occurs somewhere in `s`.
pub open spec fn occurs(s: Seq<char>, p: Seq<char>) -> bool {
    exists|i: int| occurs_at(s, p, i)
}

/// `s` begins with `p`.
pub open spec fn begins(s: Seq<char>, p: Seq<char>) -> bool {
    p.len() <= s.len() && s.take(p.len() as int) == p
}

/// The position of the first `c` in `s`, or the length of `s`.
pub open spec fn first_of(s: Seq<char>, c: char) -> nat
    decreases s.len(),
{
    if s.len() == 0 || s[0] == c {
        0
    } else {
        1 + first_of(s.skip(1), c)
    }
}

/// `s` without one carriage return at its end.
pub open spec fn strip_cr(s: Seq<char>) -> Seq<char> {
    if s.len() > 0 && s.last() == '\r' {
        s.drop_last()
    } else {
        s
    }
}

/// The lines of `s`: each ends with a line feed, or with a carriage return and
/// a line feed, neither of which belongs to it; the last line may do without.
pub open spec fn lines(s: Seq<char>) -> Seq<Seq<char>>
    decreases s.len(),
{
    if s.len() == 0 {
        Seq::empty()
    } else if first_of(s, '\n') < s.len() {
        seq![strip_cr(s.take(first_of(s, '\n') as int))] + lines(
            s.skip(first_of(s, '\n') as int + 1),
        )
    } else {
        seq![s]
    }
}

/// `parts` one after the other, with `sep` between each two.
pub open spec fn join(parts: Seq<Seq<char>>, sep: Seq<char>) -> Seq<char>
    decreases parts.len(),
{
    if parts.len() == 0 {
        Seq::empty()
    } else if parts.len() == 1 {
        parts[0]
    } else {
        join(parts.drop_last(), sep) + sep + parts.last()
    }
}

/// The decimal digit `d`.
pub open spec fn digit(d: nat) -> char {
    (48 + d) as u8 as char
}

/// `n` in decimal, without leading zeros.
pub open spec fn decimal(n: nat) -> Seq<char>
    decreases n,
{
    if n < 10 {
        seq![digit(n)]
    } else {
        decimal(n / 10).push(digit(n % 10))
    }
}

/// The text of an optional string.
pub open spec fn optional(o: Option<String>) -> Option<Seq<char>> {
    match o {
        Some(s) => Some(s@),
        None => None,
    }
}

/// The text of an optional string slice.
pub open spec fn optional_str(o: Option<&str>) -> Option<Seq<char>> {
    match o {
        Some(s) => Some(s@),
        None => None,
    }
}

/// The texts of a list of strings.
pub open spec fn views(v: Seq<String>) -> Seq<Seq<char>> {
    Seq::new(v.len(), |i: int| v[i]@)
}

// ----------------------------------------------------------------- conversion

/// The number of characters of `s`.
pub fn length_of(s: &str) -> (r: usize)
    ensures
        r == s@.len(),
{
    chars_of(s).len()
}

/// The text of an optional string, borrowed.
pub fn lend(o: &Option<String>) -> (r: Option<&str>)
    ensures
        optional_str(r) == optional(*o),
{
    match o {
        Some(s) => Some(s.as_str()),
        None => None,
    }
}

/// A copy of an optional text.
pub fn own_optional(o: Option<&str>) -> (r: Option<String>)
    ensures
        optional(r) == optional_str(o),
{
    match o {
        Some(s) => Some(s.to_string()),
        None => None,
    }
}

/// The characters of `s`.
pub fn chars_of(s: &str) -> (r: Vec<char>)
    ensures
        r@ == s@,
{
    let mut out: Vec<char> = Vec::new();
    for c in it: s.chars()
        invariant
            it.seq() == s@,
            out@ == s@.take(it.index() as int),
    {
        out.push(c);
        proof {
            assert(s@.take(it.index() as int + 1) =~= s@.take(it.index() as int).push(c));
        }
    }
    proof {
        assert(s@.take(s@.len() as int) =~= s@);
    }
    out
}

/// The characters from `from` up to `to` as a string.
pub fn string_of(v: &Vec<char>, from: usize, to: usize) -> (r: String)
    requires
        from <= to <= v@.len(),
    ensures
        r@ == v@.subrange(from as int, to as int),
{
    let mut out: String = String::new();
    let mut i: usize = from;
    while i < to
        invariant
            from <= i <= to <= v@.len(),
            out@ == v@.subrange(from as int, i as int),
        decreases to - i,
    {
        out.push(v[i]);
        proof {
            assert(v@.subrange(from as int, i + 1) =~= v@.subrange(from as int, i as int).push(
                v@[i as int],
            ));
        }
        i = i + 1;
    }
    out
}

fn all_of(v: &Vec<char>) -> (r: String)
    ensures
        r@ == v@,
{
    proof {
        assert(v@.subrange(0, v@.len() as int) =~= v@);
    }
    string_of(v, 0, v.len())
}

// ----------------------------------------------------------------- characters

fn white_char(c: char) -> (r: bool)
    ensures
        r == is_white(c),
{
    ('\u{9}' <= c && c <= '\u{d}') || c == ' ' || c == '\u{85}' || c == '\u{a0}' || c == '\u{1680}'
        || ('\u{2000}' <= c && c <= '\u{200a}') || c == '\u{2028}' || c == '\u{2029}' || c
        == '\u{202f}' || c == '\u{205f}' || c == '\u{3000}'
}

fn to_lower_char(c: char) -> (r: char)
    ensures
        r == lower_char(c),
{
    if 'A' <= c && c <= 'Z' {
        (c as u8 + 32) as char
    } else {
        c
    }
}

// -------------------------------------------------------------------- lemmas

proof fn lemma_skip_while_from(s: Seq<char>, p: spec_fn(char) -> bool, n: int)
    requires
        0 <= n <= s.len(),
        forall|i: int| 0 <= i < n ==> p(#[trigger] s[i]),
        n < s.len() ==> !p(s[n]),
    ensures
        skip_while(s, p) == s.skip(n),
    decreases n,
{
    if n > 0 {
        let t = s.skip(1);
        assert forall|i: int| 0 <= i < n - 1 implies p(#[trigger] t[i]) by {
            assert(t[i] == s[i + 1]);
        }
        lemma_skip_while_from(t, p, n - 1);
        assert(t.skip(n - 1) =~= s.skip(n));
        assert(p(s[0]));
    } else {
        assert(s.skip(0) =~= s);
    }
}

proof fn lemma_drop_while_to(s: Seq<char>, p: spec_fn(char) -> bool, n: int)
    requires
        0 <= n <= s.len(),
        forall|i: int| n <= i < s.len() ==> p(#[trigger] s[i]),
        n > 0 ==> !p(s[n - 1]),
    ensures
        drop_while(s, p) == s.take(n),
    decreases s.len() - n,
{
    if n < s.len() {
        let t = s.drop_last();
        assert forall|i: int| n <= i < t.len() implies p(#[trigger] t[i]) by {
            assert(t[i] == s[i]);
        }
        lemma_drop_while_to(t, p, n);
        assert(t.take(n) =~= s.take(n));
        assert(p(s[s.len() - 1]));
    } else {
        assert(s.take(n) =~= s);
    }
}

/// What `first_of` is: no `c` stands before it, and a `c` stands at it unless
/// it is the length.
pub proof fn lemma_first_of(s: Seq<char>, c: char)
    ensures
        first_of(s, c) <= s.len(),
        forall|i: int| 0 <= i < first_of(s, c) ==> #[trigger] s[i] != c,
        first_of(s, c) < s.len() ==> s[first_of(s, c) as int] == c,
    decreases s.len(),
{
    if s.len() > 0 && s[0] != c {
        let t = s.skip(1);
        lemma_first_of(t, c);
        assert forall|i: int| 0 <= i < first_of(s, c) implies #[trigger] s[i] != c by {
            if i > 0 {
                assert(s[i] == t[i - 1]);
            }
        }
    }
}

/// A position before which there is no `c`, and at which there is one unless it
/// is the end, is the first.
pub proof fn lemma_first_of_is(s: Seq<char>, c: char, n: int)
    requires
        0 <= n <= s.len(),
        forall|i: int| 0 <= i < n ==> #[trigger] s[i] != c,
        n < s.len() ==> s[n] == c,
    ensures
        first_of(s, c) == n,
{
    lemma_first_of(s, c);
    if first_of(s, c) < n {
        assert(s[first_of(s, c) as int] != c);
    }
}

proof fn lemma_occurs_at(s: Seq<char>, p: Seq<char>, i: int)
    requires
        0 <= i <= s.len() - p.len(),
    ensures
        occurs_at(s, p, i) <==> forall|k: int| 0 <= k < p.len() ==> s[i + k] == #[trigger] p[k],
{
    let t = s.subrange(i, i + p.len());
    if occurs_at(s, p, i) {
        assert forall|k: int| 0 <= k < p.len() implies s[i + k] == #[trigger] p[k] by {
            assert(t[k] == s[i + k]);
        }
    }
    if forall|k: int| 0 <= k < p.len() ==> s[i + k] == #[trigger] p[k] {
        assert(t =~= p);
    }
}

// ----------------------------------------------------------------- comparison

fn same_chars(a: &Vec<char>, b: &Vec<char>) -> (r: bool)
    ensures
        r == (a@ == b@),
{
    if a.len() != b.len() {
        return false;
    }
    let mut i: usize = 0;
    while i < a.len()
        invariant
            i <= a@.len(),
            a@.len() == b@.len(),
            forall|k: int| 0 <= k < i ==> a@[k] == b@[k],
        decreases a@.len() - i,
    {
        if a[i] != b[i] {
            return false;
        }
        i = i + 1;
    }
    proof {
        assert(a@ =~= b@);
    }
    true
}

/// Whether two texts are equal.
pub fn same_text(a: &str, b: &str) -> (r: bool)
    ensures
        r == (a@ == b@),
{
    same_chars(&chars_of(a), &chars_of(b))
}

/// Whether two texts are equal but for the case of ASCII letters.
pub fn equals_ignoring_case(a: &str, b: &str) -> (r: bool)
    ensures
        r == same_ignoring_case(a@, b@),
{
    same_chars(&lower_chars(&chars_of(a)), &lower_chars(&chars_of(b)))
}

fn occurs_here(s: &Vec<char>, p: &Vec<char>, i: usize) -> (r: bool)
    requires
        i + p@.len() <= s@.len(),
    ensures
        r == occurs_at(s@, p@, i as int),
{
    let n: usize = s.len();
    let mut k: usize = 0;
    while k < p.len()
        invariant
            k <= p@.len(),
            i + p@.len() <= n,
            n == s@.len(),
            forall|j: int| 0 <= j < k ==> s@[i + j] == #[trigger] p@[j],
        decreases p@.len() - k,
    {
        if s[i + k] != p[k] {
            proof {
                lemma_occurs_at(s@, p@, i as int);
            }
            return false;
        }
        k = k + 1;
    }
    proof {
        lemma_occurs_at(s@, p@, i as int);
    }
    true
}

fn chars_occur(s: &Vec<char>, p: &Vec<char>) -> (r: bool)
    ensures
        r == occurs(s@, p@),
{
    if p.len() > s.len() {
        return false;
    }
    let last: usize = s.len() - p.len();
    let mut i: usize = 0;
    while i <= last
        invariant
            last == s@.len() - p@.len(),
            i <= last + 1,
            forall|k: int| 0 <= k < i ==> !#[trigger] occurs_at(s@, p@, k),
        decreases last + 1 - i,
    {
        if occurs_here(s, p, i) {
            return true;
        }
        if i == last {
            return false;
        }
        i = i + 1;
    }
    false
}

/// Whether `p` occurs in `s`.
pub fn has_text(s: &str, p: &str) -> (r: bool)
    ensures
        r == occurs(s@, p@),
{
    chars_occur(&chars_of(s), &chars_of(p))
}

/// Whether `c` stands in `s`.
pub fn has_char(s: &str, c: char) -> (r: bool)
    ensures
        r == s@.contains(c),
{
    let v = chars_of(s);
    let mut i: usize = 0;
    while i < v.len()
        invariant
            v@ == s@,
            i <= v@.len(),
            forall|k: int| 0 <= k < i ==> #[trigger] v@[k] != c,
        decreases v@.len() - i,
    {
        if v[i] == c {
            return true;
        }
        i = i + 1;
    }
    false
}

fn chars_begin(s: &Vec<char>, p: &Vec<char>) -> (r: bool)
    ensures
        r == begins(s@, p@),
{
    if p.len() > s.len() {
        return false;
    }
    proof {
        assert(s@.take(p@.len() as int) =~= s@.subrange(0, 0int + p@.len()));
    }
    occurs_here(s, p, 0)
}

/// Whether `s` begins with `p`.
pub fn begins_with(s: &str, p: &str) -> (r: bool)
    ensures
        r == begins(s@, p@),
{
    chars_begin(&chars_of(s), &chars_of(p))
}

// ------------------------------------------------------------- transformation

fn lower_chars(s: &Vec<char>) -> (r: Vec<char>)
    ensures
        r@ == lower(s@),
{
    let mut out: Vec<char> = Vec::new();
    let mut i: usize = 0;
    while i < s.len()
        invariant
            i <= s@.len(),
            out@.len() == i,
            forall|k: int| 0 <= k < i ==> out@[k] == lower_char(s@[k]),
        decreases s@.len() - i,
    {
        out.push(to_lower_char(s[i]));
        i = i + 1;
    }
    proof {
        assert(out@ =~= lower(s@));
    }
    out
}

/// `s` with its ASCII letters in lower case.
pub fn lower_text(s: &str) -> (r: String)
    ensures
        r@ == lower(s@),
{
    all_of(&lower_chars(&chars_of(s)))
}

/// `s` with every `from` replaced by `to`.
pub fn replace_char(s: &str, from: char, to: char) -> (r: String)
    ensures
        r@ == map_char(s@, from, to),
{
    let v = chars_of(s);
    let mut out: String = String::new();
    let mut i: usize = 0;
    while i < v.len()
        invariant
            v@ == s@,
            i <= v@.len(),
            out@.len() == i,
            forall|k: int| 0 <= k < i ==> out@[k] == map_char(s@, from, to)[k],
        decreases v@.len() - i,
    {
        if v[i] == from {
            out.push(to);
        } else {
            out.push(v[i]);
        }
        i = i + 1;
    }
    proof {
        assert(out@ =~= map_char(s@, from, to));
    }
    out
}

/// The number of leading white space characters of `v`.
fn white_prefix(v: &Vec<char>) -> (n: usize)
    ensures
        n <= v@.len(),
        trim_start(v@) == v@.skip(n as int),
{
    let mut n: usize = 0;
    while n < v.len() && white_char(v[n])
        invariant
            n <= v@.len(),
            forall|i: int| 0 <= i < n ==> is_white(#[trigger] v@[i]),
        decreases v@.len() - n,
    {
        n = n + 1;
    }
    proof {
        lemma_skip_while_from(v@, white(), n as int);
    }
    n
}

/// `s` without leading white space.
pub fn trim_start_text(s: &str) -> (r: String)
    ensures
        r@ == trim_start(s@),
{
    let v = chars_of(s);
    let n: usize = white_prefix(&v);
    proof {
        assert(v@.subrange(n as int, v@.len() as int) =~= v@.skip(n as int));
    }
    string_of(&v, n, v.len())
}

/// `s` without leading and trailing white space.
pub fn trim_text(s: &str) -> (r: String)
    ensures
        r@ == trim(s@),
{
    let v = chars_of(s);
    let n: usize = white_prefix(&v);
    let mut m: usize = v.len();
    while m > n && white_char(v[m - 1])
        invariant
            n <= m <= v@.len(),
            forall|i: int| m <= i < v@.len() ==> is_white(#[trigger] v@[i]),
        decreases m,
    {
        m = m - 1;
    }
    proof {
        let t = v@.skip(n as int);
        assert forall|i: int| m - n <= i < t.len() implies white()(#[trigger] t[i]) by {
            assert(t[i] == v@[i + n]);
        }
        if m > n {
            assert(t[m - n - 1] == v@[m - 1]);
        }
        lemma_drop_while_to(t, white(), m - n);
        assert(v@.subrange(n as int, m as int) =~= t.take(m - n));
    }
    string_of(&v, n, m)
}

/// `s` without the slashes at its end.
pub fn trim_end_slash_text(s: &str) -> (r: String)
    ensures
        r@ == trim_end_slash(s@),
{
    let v = chars_of(s);
    let mut m: usize = v.len();
    while m > 0 && v[m - 1] == '/'
        invariant
            m <= v@.len(),
            forall|i: int| m <= i < v@.len() ==> #[trigger] v@[i] == '/',
        decreases m,
    {
        m = m - 1;
    }
    proof {
        lemma_drop_while_to(v@, only('/'), m as int);
        assert(v@.subrange(0, m as int) =~= v@.take(m as int));
    }
    string_of(&v, 0, m)
}

/// `s` from character `from` on, without the slashes that it then starts with.
pub fn trim_start_slash_from(s: &str, from: usize) -> (r: String)
    requires
        from <= s@.len(),
    ensures
        r@ == trim_start_slash(s@.skip(from as int)),
{
    let v = chars_of(s);
    let mut n: usize = from;
    while n < v.len() && v[n] == '/'
        invariant
            from <= n <= v@.len(),
            forall|i: int| from <= i < n ==> #[trigger] v@[i] == '/',
        decreases v@.len() - n,
    {
        n = n + 1;
    }
    proof {
        let t = v@.skip(from as int);
        assert forall|i: int| 0 <= i < n - from implies only('/')(#[trigger] t[i]) by {
            assert(t[i] == v@[i + from]);
        }
        lemma_skip_while_from(t, only('/'), n - from);
        assert(t.skip(n - from) =~= v@.subrange(n as int, v@.len() as int));
    }
    string_of(&v, n, v.len())
}

/// `s` from character `from` on.
pub fn text_from(s: &str, from: usize) -> (r: String)
    requires
        from <= s@.len(),
    ensures
        r@ == s@.skip(from as int),
{
    let v = chars_of(s);
    proof {
        assert(v@.subrange(from as int, v@.len() as int) =~= v@.skip(from as int));
    }
    string_of(&v, from, v.len())
}

/// The texts of a list that has grown.
pub proof fn lemma_views_push(v: Seq<String>, x: String)
    ensures
        views(v.push(x)) == views(v).push(x@),
{
    assert(views(v.push(x)) =~= views(v).push(x@));
}

/// The lines of `s`.
pub fn lines_of(s: &str) -> (r: Vec<String>)
    ensures
        views(r@) == lines(s@),
{
    let v = chars_of(s);
    let mut out: Vec<String> = Vec::new();
    let mut start: usize = 0;
    proof {
        assert(v@.skip(0) =~= v@);
        assert(views(out@) + lines(s@) =~= lines(s@));
    }
    while start < v.len()
        invariant
            v@ == s@,
            start <= v@.len(),
            views(out@) + lines(v@.skip(start as int)) == lines(s@),
        decreases v@.len() - start,
    {
        let mut end: usize = start;
        while end < v.len() && v[end] != '\n'
            invariant
                start <= end <= v@.len(),
                forall|i: int| start <= i < end ==> #[trigger] v@[i] != '\n',
            decreases v@.len() - end,
        {
            end = end + 1;
        }
        let ghost t = v@.skip(start as int);
        proof {
            assert forall|i: int| 0 <= i < end - start implies #[trigger] t[i] != '\n' by {
                assert(t[i] == v@[i + start]);
            }
            if end < v@.len() {
                assert(t[end - start] == v@[end as int]);
            }
            lemma_first_of_is(t, '\n', end - start);
            assert(t.take(end - start) =~= v@.subrange(start as int, end as int));
        }
        let ghost before = out@;
        if end < v.len() {
            let mut stop: usize = end;
            if stop > start && v[stop - 1] == '\r' {
                stop = stop - 1;
            }
            let line: String = string_of(&v, start, stop);
            proof {
                assert(line@ =~= strip_cr(t.take(end - start)));
                lemma_views_push(before, line);
                assert(t.skip(end - start + 1) =~= v@.skip(end + 1));
                assert(views(before).push(line@) + lines(v@.skip(end + 1)) =~= views(before)
                    + lines(t));
            }
            out.push(line);
            start = end + 1;
        } else {
            let line: String = string_of(&v, start, end);
            proof {
                assert(line@ =~= t);
                lemma_views_push(before, line);
                assert(v@.skip(end as int) =~= Seq::empty());
                assert(views(before).push(line@) + lines(v@.skip(end as int)) =~= views(before)
                    + lines(t));
            }
            out.push(line);
            start = end;
        }
    }
    proof {
        assert(v@.skip(start as int) =~= Seq::empty());
        assert(views(out@) + lines(v@.skip(start as int)) =~= views(out@));
    }
    out
}

/// The strings of `parts` with `sep` between each two.
pub fn join_text(parts: &Vec<String>, sep: &str) -> (r: String)
    ensures
        r@ == join(views(parts@), sep@),
{
    let mut out: String = String::new();
    let mut i: usize = 0;
    while i < parts.len()
        invariant
            i <= parts@.len(),
            out@ == join(views(parts@).take(i as int), sep@),
        decreases parts@.len() - i,
    {
        let ghost all = views(parts@);
        if i > 0 {
            out.append(sep);
        }
        out.append(parts[i].as_str());
        proof {
            assert(all.take(i + 1).drop_last() =~= all.take(i as int));
            assert(all.take(i + 1).last() == parts@[i as int]@);
            if i == 0 {
                assert(out@ =~= parts@[0]@);
            }
        }
        i = i + 1;
    }
    proof {
        assert(views(parts@).take(i as int) =~= views(parts@));
    }
    out
}

fn decimal_onto(n: u64, out: &mut String)
    ensures
        final(out)@ == old(out)@ + decimal(n as nat),
    decreases n,
{
    if n >= 10 {
        decimal_onto(n / 10, out);
    }
    out.push((48 + (n % 10) as u8) as char);
    proof {
        if n >= 10 {
            assert(old(out)@ + decimal(n as nat) =~= (old(out)@ + decimal((n / 10) as nat)).push(
                digit((n % 10) as nat),
            ));
        } else {
            assert(old(out)@ + decimal(n as nat) =~= old(out)@.push(digit(n as nat)));
        }
    }
}

/// `n` in decimal.
pub fn decimal_text(n: u64) -> (r: String)
    ensures
        r@ == decimal(n as nat),
{
    let mut out: String = String::new();
    decimal_onto(n, &mut out);
    proof {
        assert(Seq::<char>::empty() + decimal(n as nat) =~= decimal(n as nat));
    }
    out
}

/// The characters of `a` followed by those of `b`.
pub fn concat(a: &str, b: &str) -> (r: String)
    ensures
        r@ == a@ + b@,
{
    let mut out: String = a.to_string();
    out.append(b);
    out
}

// ------------------------------------------------------------ lines read back

/// `line` holds no line feed.
pub open spec fn one_line(line: Seq<char>) -> bool {
    forall|i: int| 0 <= i < line.len() ==> #[trigger] line[i] != '\n'
}

proof fn lemma_join_front(parts: Seq<Seq<char>>, sep: Seq<char>)
    requires
        parts.len() >= 2,
    ensures
        join(parts, sep) == parts[0] + sep + join(parts.skip(1), sep),
    decreases parts.len(),
{
    let init = parts.drop_last();
    let tail = parts.skip(1);
    if parts.len() == 2 {
        assert(join(init, sep) == parts[0]);
        assert(join(tail, sep) == parts[1]);
    } else {
        lemma_join_front(init, sep);
        assert(init.skip(1) =~= tail.drop_last());
        assert(init[0] == parts[0]);
        assert(tail.last() == parts.last());
        assert(join(parts, sep) =~= parts[0] + sep + join(tail, sep));
    }
}

/// Lines that are joined by line feeds are read back, but for one empty line at
/// the end, and for a carriage return at the end of a line.
pub proof fn lemma_joined_lines_read_back(parts: Seq<Seq<char>>)
    requires
        forall|i: int| 0 <= i < parts.len() ==> one_line(#[trigger] parts[i]),
    ensures
        lines(join(parts, seq!['\n'])).len() == if parts.len() > 0 && parts.last().len() == 0 {
            parts.len() - 1
        } else {
            parts.len() as int
        },
        forall|i: int|
            0 <= i < lines(join(parts, seq!['\n'])).len() ==> #[trigger] lines(
                join(parts, seq!['\n']),
            )[i] == if i < parts.len() - 1 {
                strip_cr(parts[i])
            } else {
                parts[i]
            },
    decreases parts.len(),
{
    let sep = seq!['\n'];
    let whole = join(parts, sep);
    if parts.len() == 1 {
        assert(one_line(parts[0]));
        if whole.len() > 0 {
            lemma_first_of_is(whole, '\n', whole.len() as int);
        }
    } else if parts.len() > 1 {
        let head = parts[0];
        let tail = parts.skip(1);
        assert(one_line(head));
        assert forall|i: int| 0 <= i < tail.len() implies one_line(#[trigger] tail[i]) by {
            assert(tail[i] == parts[i + 1]);
        }
        lemma_join_front(parts, sep);
        lemma_joined_lines_read_back(tail);
        let n = head.len() as int;
        assert forall|i: int| 0 <= i < n implies #[trigger] whole[i] != '\n' by {
            assert(whole[i] == head[i]);
        }
        assert(whole[n] == '\n');
        lemma_first_of_is(whole, '\n', n);
        assert(whole.take(n) =~= head);
        assert(whole.skip(n + 1) =~= join(tail, sep));
        assert(tail.last() == parts.last());
        let rest = lines(join(tail, sep));
        assert(lines(whole) == seq![strip_cr(head)] + rest);
        assert forall|i: int| 0 <= i < lines(whole).len() implies #[trigger] lines(whole)[i]
            == if i < parts.len() - 1 {
            strip_cr(parts[i])
        } else {
            parts[i]
        } by {
            if i > 0 {
                assert(lines(whole)[i] == rest[i - 1]);
                assert(tail[i - 1] == parts[i]);
            }
        }
    }
}

/// No line holds a line feed.
pub proof fn lemma_lines_are_one_line(s: Seq<char>, i: int)
    requires
        0 <= i < lines(s).len(),
    ensures
        one_line(lines(s)[i]),
    decreases s.len(),
{
    lemma_first_of(s, '\n');
    let n = first_of(s, '\n') as int;
    if n < s.len() && i > 0 {
        lemma_lines_are_one_line(s.skip(n + 1), i - 1);
        assert(lines(s)[i] == lines(s.skip(n + 1))[i - 1]);
    }
}

/// Without its last character, a text begins as before once its leading white
/// space is gone.
pub proof fn lemma_trim_start_prefix(s: Seq<char>)
    requires
        s.len() > 0,
    ensures
        trim_start(s.drop_last()).len() <= trim_start(s).len(),
        trim_start(s).take(trim_start(s.drop_last()).len() as int) == trim_start(s.drop_last()),
    decreases s.len(),
{
    let t = s.drop_last();
    if white()(s[0]) {
        if s.len() > 1 {
            lemma_trim_start_prefix(s.skip(1));
            assert(s.skip(1).drop_last() =~= t.skip(1));
            assert(t[0] == s[0]);
        } else {
            assert(t.len() == 0);
            assert(trim_start(s).take(0) =~= t);
        }
    } else {
        if t.len() > 0 {
            assert(t[0] == s[0]);
        }
        assert(trim_start(t) == t);
        assert(s.take(t.len() as int) =~= t);
    }
}

// ------------------------------------------------------------------------- laws

/// White space is what Unicode calls so, by its numbers.
pub proof fn law_white_space(c: char)
    ensures
        is_white(c) <==> ({
            let n = c as u32;
            ||| 9 <= n <= 13
            ||| n == 32
            ||| n == 133
            ||| n == 160
            ||| n == 5760
            ||| 8192 <= n <= 8202
            ||| n == 8232
            ||| n == 8233
            ||| n == 8239
            ||| n == 8287
            ||| n == 12288
        }),
{
}

/// In lower case every capital letter of ASCII is the small one, thirty-two
/// numbers on, and everything else is as it was.
pub proof fn law_lower_case(s: Seq<char>, i: int)
    requires
        0 <= i < s.len(),
    ensures
        lower(s).len() == s.len(),
        65 <= s[i] as u32 <= 90 ==> lower(s)[i] as u32 == s[i] as u32 + 32,
        !(65 <= s[i] as u32 <= 90) ==> lower(s)[i] == s[i],
{
}

/// Texts are equal but for case exactly if, at every place, they have the same
/// character or the two forms of one letter of ASCII.
pub proof fn law_same_but_for_case(s: Seq<char>, t: Seq<char>)
    ensures
        same_ignoring_case(s, t) <==> s.len() == t.len() && forall|i: int|
            0 <= i < s.len() ==> {
                ||| #[trigger] s[i] == t[i]
                ||| 65 <= s[i] as u32 <= 90 && t[i] as u32 == s[i] as u32 + 32
                ||| 65 <= t[i] as u32 <= 90 && s[i] as u32 == t[i] as u32 + 32
            },
{
    if same_ignoring_case(s, t) {
        assert(lower(s).len() == s.len() && lower(t).len() == t.len());
        assert forall|i: int| 0 <= i < s.len() implies {
            ||| #[trigger] s[i] == t[i]
            ||| 65 <= s[i] as u32 <= 90 && t[i] as u32 == s[i] as u32 + 32
            ||| 65 <= t[i] as u32 <= 90 && s[i] as u32 == t[i] as u32 + 32
        } by {
            assert(lower(s)[i] == lower(t)[i]);
        }
    } else if s.len() == t.len() && forall|i: int|
        0 <= i < s.len() ==> {
            ||| #[trigger] s[i] == t[i]
            ||| 65 <= s[i] as u32 <= 90 && t[i] as u32 == s[i] as u32 + 32
            ||| 65 <= t[i] as u32 <= 90 && s[i] as u32 == t[i] as u32 + 32
        } {
        assert forall|i: int| 0 <= i < s.len() implies lower(s)[i] == lower(t)[i] by {
            assert(s[i] == s[i]);
        }
        assert(lower(s) =~= lower(t));
    }
}

/// To replace a character changes it wherever it stands, and nothing else.
pub proof fn law_replaced_character(s: Seq<char>, from: char, to: char, i: int)
    requires
        0 <= i < s.len(),
    ensures
        map_char(s, from, to).len() == s.len(),
        s[i] == from ==> map_char(s, from, to)[i] == to,
        s[i] != from ==> map_char(s, from, to)[i] == s[i],
{
}

proof fn lemma_skip_while_parts(s: Seq<char>, p: spec_fn(char) -> bool) -> (head: Seq<char>)
    ensures
        s == head + skip_while(s, p),
        forall|i: int| 0 <= i < head.len() ==> p(#[trigger] head[i]),
        skip_while(s, p).len() > 0 ==> !p(skip_while(s, p)[0]),
    decreases s.len(),
{
    if s.len() > 0 && p(s[0]) {
        let rest = lemma_skip_while_parts(s.skip(1), p);
        let head = seq![s[0]] + rest;
        assert(s =~= seq![s[0]] + s.skip(1));
        assert(head + skip_while(s, p) =~= seq![s[0]] + (rest + skip_while(s, p)));
        assert forall|i: int| 0 <= i < head.len() implies p(#[trigger] head[i]) by {
            if i > 0 {
                assert(head[i] == rest[i - 1]);
            }
        }
        head
    } else {
        assert(s =~= Seq::<char>::empty() + s);
        Seq::empty()
    }
}

proof fn lemma_drop_while_parts(s: Seq<char>, p: spec_fn(char) -> bool) -> (tail: Seq<char>)
    ensures
        s == drop_while(s, p) + tail,
        forall|i: int| 0 <= i < tail.len() ==> p(#[trigger] tail[i]),
        drop_while(s, p).len() > 0 ==> !p(drop_while(s, p).last()),
    decreases s.len(),
{
    if s.len() > 0 && p(s.last()) {
        let rest = lemma_drop_while_parts(s.drop_last(), p);
        let tail = rest.push(s.last());
        assert(s =~= s.drop_last().push(s.last()));
        assert(drop_while(s, p) + tail =~= (drop_while(s, p) + rest).push(s.last()));
        assert forall|i: int| 0 <= i < tail.len() implies p(#[trigger] tail[i]) by {
            if i < rest.len() {
                assert(tail[i] == rest[i]);
            }
        }
        tail
    } else {
        assert(s =~= s + Seq::<char>::empty());
        Seq::empty()
    }
}

/// A trimmed text is the text without white space before and behind it: only
/// white space is gone, and none is left at either end.
pub proof fn law_trimmed_text(s: Seq<char>) -> (around: (Seq<char>, Seq<char>))
    ensures
        s == around.0 + trim(s) + around.1,
        forall|i: int| 0 <= i < around.0.len() ==> is_white(#[trigger] around.0[i]),
        forall|i: int| 0 <= i < around.1.len() ==> is_white(#[trigger] around.1[i]),
        trim(s).len() > 0 ==> !is_white(trim(s)[0]) && !is_white(trim(s).last()),
{
    let head = lemma_skip_while_parts(s, white());
    let t = skip_while(s, white());
    let tail = lemma_drop_while_parts(t, white());
    assert forall|i: int| 0 <= i < head.len() implies is_white(#[trigger] head[i]) by {
        assert(white()(head[i]));
    }
    assert forall|i: int| 0 <= i < tail.len() implies is_white(#[trigger] tail[i]) by {
        assert(white()(tail[i]));
    }
    assert(s =~= head + trim(s) + tail);
    if trim(s).len() > 0 {
        assert(trim(s)[0] == t[0]);
    }
    (head, tail)
}

/// Without leading white space a text begins with its first other character.
pub proof fn law_text_without_leading_white_space(s: Seq<char>) -> (head: Seq<char>)
    ensures
        s == head + trim_start(s),
        forall|i: int| 0 <= i < head.len() ==> is_white(#[trigger] head[i]),
        trim_start(s).len() > 0 ==> !is_white(trim_start(s)[0]),
{
    let head = lemma_skip_while_parts(s, white());
    assert forall|i: int| 0 <= i < head.len() implies is_white(#[trigger] head[i]) by {
        assert(white()(head[i]));
    }
    head
}

/// All slashes at the end of a text are taken away, and nothing else.
pub proof fn law_text_without_slashes_behind(s: Seq<char>) -> (tail: Seq<char>)
    ensures
        s == trim_end_slash(s) + tail,
        forall|i: int| 0 <= i < tail.len() ==> #[trigger] tail[i] == '/',
        trim_end_slash(s).len() > 0 ==> trim_end_slash(s).last() != '/',
{
    let tail = lemma_drop_while_parts(s, only('/'));
    assert forall|i: int| 0 <= i < tail.len() implies #[trigger] tail[i] == '/' by {
        assert(only('/')(tail[i]));
    }
    tail
}

/// All slashes at the start of a text are taken away, and nothing else.
pub proof fn law_text_without_slashes_before(s: Seq<char>) -> (head: Seq<char>)
    ensures
        s == head + trim_start_slash(s),
        forall|i: int| 0 <= i < head.len() ==> #[trigger] head[i] == '/',
        trim_start_slash(s).len() > 0 ==> trim_start_slash(s)[0] != '/',
{
    let head = lemma_skip_while_parts(s, only('/'));
    assert forall|i: int| 0 <= i < head.len() implies #[trigger] head[i] == '/' by {
        assert(only('/')(head[i]));
    }
    head
}

/// A text that stands between two others occurs in the whole.
pub proof fn law_inner_text_occurs(before: Seq<char>, p: Seq<char>, after: Seq<char>)
    ensures
        occurs(before + p + after, p),
{
    let s = before + p + after;
    let i = before.len() as int;
    assert(s.subrange(i, i + p.len()) =~= p);
    assert(occurs_at(s, p, i));
}

/// A text that occurs in another stands between what is before and after it.
pub proof fn law_occurring_text_is_inside(s: Seq<char>, p: Seq<char>) -> (around: (
    Seq<char>,
    Seq<char>,
))
    requires
        occurs(s, p),
    ensures
        s == around.0 + p + around.1,
{
    let i = choose|i: int| occurs_at(s, p, i);
    assert(s =~= s.take(i) + p + s.skip(i + p.len()));
    (s.take(i), s.skip(i + p.len()))
}

/// A text begins with another exactly if the other and something more make it.
pub proof fn law_beginning(p: Seq<char>, rest: Seq<char>, s: Seq<char>)
    ensures
        begins(p + rest, p),
        begins(s, p) ==> s == p + s.skip(p.len() as int),
{
    assert((p + rest).take(p.len() as int) =~= p);
    if begins(s, p) {
        assert(s =~= s.take(p.len() as int) + s.skip(p.len() as int));
    }
}

/// One carriage return at the end of a line is taken away, and nothing else.
pub proof fn law_carriage_return(s: Seq<char>)
    ensures
        strip_cr(s.push('\r')) == s,
        s.len() == 0 || s.last() != '\r' ==> strip_cr(s) == s,
{
    assert(s.push('\r').drop_last() =~= s);
}

/// Joined texts stand one after the other with the separator between each two,
/// whichever way they are grouped.
pub proof fn law_joined_texts(a: Seq<Seq<char>>, b: Seq<Seq<char>>, sep: Seq<char>)
    requires
        a.len() > 0,
        b.len() > 0,
    ensures
        join(a + b, sep) == join(a, sep) + sep + join(b, sep),
        a.len() == 1 ==> join(a, sep) == a[0],
        join(Seq::<Seq<char>>::empty(), sep) == Seq::<char>::empty(),
    decreases b.len(),
{
    let all = a + b;
    if b.len() == 1 {
        assert(all.drop_last() =~= a);
        assert(all.last() == b[0]);
    } else {
        law_joined_texts(a, b.drop_last(), sep);
        assert(all.drop_last() =~= a + b.drop_last());
        assert(all.last() == b.last());
        assert(join(all, sep) =~= join(a, sep) + sep + join(b, sep));
    }
}

/// A number in decimal is made of digits, and has no zero in front unless it is
/// zero.
pub proof fn law_decimal_digits(n: nat)
    ensures
        decimal(n).len() > 0,
        forall|i: int| 0 <= i < decimal(n).len() ==> '0' <= #[trigger] decimal(n)[i] <= '9',
        n > 0 ==> decimal(n)[0] != '0',
    decreases n,
{
    if n >= 10 {
        law_decimal_digits(n / 10);
        assert forall|i: int| 0 <= i < decimal(n).len() implies '0' <= #[trigger] decimal(n)[i]
            <= '9' by {
            if i < decimal(n / 10).len() {
                assert(decimal(n)[i] == decimal(n / 10)[i]);
            }
        }
    }
}

/// What is said of optional texts and of lists of texts is what they hold.
pub proof fn law_texts_are_what_they_hold(s: String, list: Seq<String>, i: int)
    requires
        0 <= i < list.len(),
    ensures
        optional(Some(s)) == Some(s@),
        optional(None) == None::<Seq<char>>,
        optional_str(None) == None::<Seq<char>>,
        views(list).len() == list.len(),
        views(list)[i] == list[i]@,
{
}

/// What is said of an optional text that is lent is what it holds.
pub proof fn law_lent_text_is_what_it_holds(s: &str)
    ensures
        optional_str(Some(s)) == Some(s@),
{
}

/// The lines of a text are what stands between its line feeds: a text is the
/// line before its first line feed, and the lines behind it.
pub proof fn law_lines_of_a_text(line: Seq<char>, rest: Seq<char>)
    requires
        one_line(line),
    ensures
        line.len() > 0 ==> lines(line) == seq![line],
        lines(Seq::<char>::empty()).len() == 0,
        lines(line.push('\n') + rest).len() == 1 + lines(rest).len(),
        lines(line.push('\n') + rest).skip(1) == lines(rest),
        line.len() == 0 || line.last() != '\r' ==> lines(line.push('\n') + rest)[0] == line,
        lines(line.push('\r').push('\n') + rest).len() == 1 + lines(rest).len(),
        lines(line.push('\r').push('\n') + rest)[0] == line,
{
    let n = line.len() as int;
    if n > 0 {
        lemma_first_of_is(line, '\n', n);
    }
    let s = line.push('\n') + rest;
    assert forall|i: int| 0 <= i < n implies #[trigger] s[i] != '\n' by {
        assert(s[i] == line[i]);
    }
    assert(s[n] == '\n');
    lemma_first_of_is(s, '\n', n);
    assert(s.take(n) =~= line);
    assert(s.skip(n + 1) =~= rest);
    assert(lines(s).skip(1) =~= lines(rest));
    let t = line.push('\r').push('\n') + rest;
    assert forall|i: int| 0 <= i < n + 1 implies #[trigger] t[i] != '\n' by {
        if i < n {
            assert(t[i] == line[i]);
        }
    }
    assert(t[n + 1] == '\n');
    lemma_first_of_is(t, '\n', n + 1);
    assert(t.take(n + 1) =~= line.push('\r'));
    assert(t.skip(n + 2) =~= rest);
    law_carriage_return(line);
}

/// White space in front of a text is all that is taken off there.
pub proof fn law_leading_white_space_goes(head: Seq<char>, s: Seq<char>)
    requires
        forall|i: int| 0 <= i < head.len() ==> is_white(#[trigger] head[i]),
        s.len() > 0 ==> !is_white(s[0]),
    ensures
        trim_start(head + s) == s,
{
    let t = head + s;
    let n = head.len() as int;
    assert forall|i: int| 0 <= i < n implies white()(#[trigger] t[i]) by {
        assert(t[i] == head[i]);
    }
    if s.len() > 0 {
        assert(t[n] == s[0]);
    }
    lemma_skip_while_from(t, white(), n);
    assert(t.skip(n) =~= s);
}

/// White space around a text is all that is taken off it.
pub proof fn law_white_space_around_goes(head: Seq<char>, s: Seq<char>, tail: Seq<char>)
    requires
        forall|i: int| 0 <= i < head.len() ==> is_white(#[trigger] head[i]),
        forall|i: int| 0 <= i < tail.len() ==> is_white(#[trigger] tail[i]),
        s.len() > 0,
        !is_white(s[0]),
        !is_white(s.last()),
    ensures
        trim(head + s + tail) == s,
{
    let t = s + tail;
    assert(head + s + tail =~= head + t);
    law_leading_white_space_goes(head, t);
    let n = s.len() as int;
    assert forall|i: int| n <= i < t.len() implies white()(#[trigger] t[i]) by {
        assert(t[i] == tail[i - n]);
    }
    assert(t[n - 1] == s.last());
    lemma_drop_while_to(t, white(), n);
    assert(t.take(n) =~= s);
}

} // verus!
