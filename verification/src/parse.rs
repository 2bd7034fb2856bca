//! Taking text apart: cuts at a separator, removal of a character, and port
//! numbers.

use vstd::prelude::*;

use crate::text;

verus! {

// ---------------------------------------------------------------- definitions

/// `s` without the character `c`.
pub open spec fn without(s: Seq<char>, c: char) -> Seq<char>
    decreases s.len(),
{
    if s.len() == 0 {
        Seq::empty()
    } else if s.last() == c {
        without(s.drop_last(), c)
    } else {
        without(s.drop_last(), c).push(s.last())
    }
}

/// The position of the first `p` in `s`, if there is one.
pub open spec fn find(s: Seq<char>, p: Seq<char>) -> Option<nat>
    decreases s.len(),
{
    if text::begins(s, p) {
        Some(0)
    } else if s.len() == 0 {
        None
    } else {
        match find(s.skip(1), p) {
            Some(n) => Some(n + 1),
            None => None,
        }
    }
}

/// The parts of `s` between the occurrences of `sep`, which is not empty.
pub open spec fn split(s: Seq<char>, sep: Seq<char>) -> Seq<Seq<char>>
    decreases s.len(),
{
    match find(s, sep) {
        Some(n) if 0 < n + sep.len() <= s.len() => seq![s.take(n as int)] + split(
            s.skip(n as int + sep.len()),
            sep,
        ),
        _ => seq![s],
    }
}

/// The digit `c` as a number.
pub open spec fn digit_value(c: char) -> Option<nat> {
    if '0' <= c <= '9' {
        Some((c as u32 - '0' as u32) as nat)
    } else {
        None
    }
}

/// The number that a row of digits stands for.
pub open spec fn number(s: Seq<char>) -> Option<nat>
    decreases s.len(),
{
    if s.len() == 0 {
        Some(0)
    } else {
        match (number(s.drop_last()), digit_value(s.last())) {
            (Some(n), Some(d)) => Some(n * 10 + d),
            _ => None,
        }
    }
}

/// The digits of a number that may have a plus sign before it.
pub open spec fn unsigned(s: Seq<char>) -> Seq<char> {
    if s.len() > 0 && s[0] == '+' {
        s.skip(1)
    } else {
        s
    }
}

/// The port that `s` names: a row of digits, perhaps after a plus sign, whose
/// number fits.
pub open spec fn port(s: Seq<char>) -> Option<u16> {
    let digits = unsigned(s);
    match number(digits) {
        Some(n) if digits.len() > 0 && n <= u16::MAX => Some(n as u16),
        _ => None,
    }
}

// ------------------------------------------------------------------ functions

/// `s` without the character `c`.
pub fn remove_char(s: &str, c: char) -> (r: String)
    ensures
        r@ == without(s@, c),
{
    let v = text::chars_of(s);
    let mut out: String = String::new();
    let mut i: usize = 0;
    assert(v@.take(0) =~= Seq::empty());
    while i < v.len()
        invariant
            v@ == s@,
            i <= v@.len(),
            out@ == without(v@.take(i as int), c),
        decreases v@.len() - i,
    {
        proof {
            assert(v@.take(i + 1).drop_last() =~= v@.take(i as int));
            assert(v@.take(i + 1).last() == v@[i as int]);
        }
        if v[i] != c {
            out.push(v[i]);
        }
        i = i + 1;
    }
    assert(v@.take(i as int) =~= v@);
    out
}

/// What is removed is gone.
pub proof fn lemma_without(s: Seq<char>, c: char)
    ensures
        !without(s, c).contains(c),
    decreases s.len(),
{
    if s.len() > 0 {
        lemma_without(s.drop_last(), c);
        let w = without(s.drop_last(), c);
        if s.last() != c && without(s, c).contains(c) {
            let i = choose|i: int| 0 <= i < without(s, c).len() && without(s, c)[i] == c;
            assert(w[i] == c);
        }
    }
}

proof fn lemma_find_is(s: Seq<char>, p: Seq<char>, n: int)
    requires
        0 <= n <= s.len(),
        forall|i: int| 0 <= i < n ==> !text::begins(#[trigger] s.skip(i), p),
        n < s.len() ==> text::begins(s.skip(n), p),
        p.len() > 0,
    ensures
        n < s.len() ==> find(s, p) == Some(n as nat) && n + p.len() <= s.len(),
        n == s.len() ==> find(s, p) is None,
    decreases n,
{
    assert(s.skip(0) =~= s);
    if n > 0 {
        let t = s.skip(1);
        assert(!text::begins(s.skip(0), p));
        assert forall|i: int| 0 <= i < n - 1 implies !text::begins(#[trigger] t.skip(i), p) by {
            assert(t.skip(i) =~= s.skip(i + 1));
        }
        assert(t.skip(n - 1) =~= s.skip(n));
        lemma_find_is(t, p, n - 1);
    }
}

fn begins_here(v: &Vec<char>, p: &Vec<char>, at: usize) -> (r: bool)
    requires
        at <= v@.len(),
    ensures
        r == text::begins(v@.skip(at as int), p@),
{
    let len: usize = v.len();
    if p.len() > len - at {
        return false;
    }
    let ghost t = v@.skip(at as int);
    let mut i: usize = 0;
    while i < p.len()
        invariant
            len == v@.len(),
            at + p@.len() <= len,
            t == v@.skip(at as int),
            i <= p@.len(),
            forall|k: int| 0 <= k < i ==> #[trigger] t[k] == p@[k],
        decreases p@.len() - i,
    {
        if v[at + i] != p[i] {
            proof {
                assert(t[i as int] != p@[i as int]);
                if text::begins(t, p@) {
                    assert(t.take(p@.len() as int)[i as int] == p@[i as int]);
                }
            }
            return false;
        }
        assert(t[i as int] == v@[at + i]);
        i = i + 1;
    }
    assert(t.take(p@.len() as int) =~= p@);
    true
}

/// The parts of `s` between the occurrences of `sep`.
pub fn split_on(s: &str, sep: &str) -> (r: Vec<String>)
    requires
        sep@.len() > 0,
    ensures
        text::views(r@) == split(s@, sep@),
{
    let v = text::chars_of(s);
    let p = text::chars_of(sep);
    let mut out: Vec<String> = Vec::new();
    let mut start: usize = 0;
    let mut at: usize = 0;
    proof {
        assert(v@.skip(0) =~= v@);
        assert(text::views(out@) + split(s@, sep@) =~= split(s@, sep@));
    }
    while at < v.len()
        invariant
            v@ == s@,
            p@ == sep@,
            p@.len() > 0,
            start <= at <= v@.len(),
            text::views(out@) + split(v@.skip(start as int), p@) == split(s@, sep@),
            forall|i: int|
                0 <= i < at - start ==> !text::begins(
                    #[trigger] v@.skip(start as int).skip(i),
                    p@,
                ),
        decreases v@.len() - at,
    {
        let ghost t = v@.skip(start as int);
        let ghost n = at - start;
        assert(t.skip(n) =~= v@.skip(at as int));
        if begins_here(&v, &p, at) {
            let ghost before = out@;
            let part: String = text::string_of(&v, start, at);
            proof {
                lemma_find_is(t, p@, n);
                assert(part@ =~= t.take(n));
                text::lemma_views_push(before, part);
                assert(t.skip(n + p@.len()) =~= v@.skip(at + p@.len()));
                assert(text::views(before).push(part@) + split(v@.skip(at + p@.len()), p@)
                    =~= text::views(before) + split(t, p@));
            }
            out.push(part);
            at = at + p.len();
            start = at;
        } else {
            at = at + 1;
        }
    }
    let ghost t = v@.skip(start as int);
    let ghost before = out@;
    let part: String = text::string_of(&v, start, at);
    proof {
        lemma_find_is(t, p@, t.len() as int);
        assert(part@ =~= t);
        assert(split(t, p@) =~= seq![t]);
        text::lemma_views_push(before, part);
        assert(text::views(before).push(part@) =~= text::views(before) + seq![t]);
    }
    out.push(part);
    out
}

/// A text without `c` is not split by it.
pub proof fn lemma_split_once(s: Seq<char>, c: char)
    requires
        !s.contains(c),
    ensures
        split(s, seq![c]) == seq![s],
{
    let p = seq![c];
    assert forall|i: int| 0 <= i < s.len() implies !text::begins(#[trigger] s.skip(i), p) by {
        if text::begins(s.skip(i), p) {
            assert(s.skip(i).take(1)[0] == c);
            assert(s[i] == c);
        }
    }
    lemma_find_is(s, p, s.len() as int);
}

/// Two texts without `c` and a `c` between them are split into the two.
pub proof fn lemma_split_in_two(a: Seq<char>, b: Seq<char>, c: char)
    requires
        !a.contains(c),
        !b.contains(c),
    ensures
        split(a.push(c) + b, seq![c]) == seq![a, b],
{
    let s = a.push(c) + b;
    let p = seq![c];
    let n = a.len() as int;
    assert forall|i: int| 0 <= i < n implies !text::begins(#[trigger] s.skip(i), p) by {
        if text::begins(s.skip(i), p) {
            assert(s.skip(i).take(1)[0] == c);
            assert(a[i] == c);
        }
    }
    assert(s.skip(n).take(1) =~= p);
    lemma_find_is(s, p, n);
    assert(s.take(n) =~= a);
    assert(s.skip(n + 1) =~= b);
    lemma_split_once(b, c);
    assert(split(s, p) =~= seq![a, b]);
}

/// `s` cut at the first `c`: what stands before it, and what stands after it.
/// Where there is no `c`, all stands before it and nothing after.
pub fn cut_at(s: &str, c: char) -> (r: (String, String))
    ensures
        r.0@ == s@.take(text::first_of(s@, c) as int),
        r.1@ == if text::first_of(s@, c) < s@.len() {
            s@.skip(text::first_of(s@, c) as int + 1)
        } else {
            Seq::empty()
        },
{
    let v = text::chars_of(s);
    let mut n: usize = 0;
    while n < v.len() && v[n] != c
        invariant
            n <= v@.len(),
            forall|i: int| 0 <= i < n ==> #[trigger] v@[i] != c,
        decreases v@.len() - n,
    {
        n = n + 1;
    }
    proof {
        text::lemma_first_of_is(v@, c, n as int);
    }
    let head: String = text::string_of(&v, 0, n);
    assert(head@ =~= s@.take(n as int));
    if n < v.len() {
        let len: usize = v.len();
        let tail: String = text::string_of(&v, n + 1, len);
        assert(tail@ =~= s@.skip(n + 1));
        (head, tail)
    } else {
        (head, String::new())
    }
}

proof fn lemma_number_prefix(s: Seq<char>, n: int)
    requires
        0 <= n <= s.len(),
        number(s) is Some,
    ensures
        number(s.take(n)) is Some,
        number(s.take(n))->0 <= number(s)->0,
    decreases s.len(),
{
    if n < s.len() {
        lemma_number_prefix(s.drop_last(), n);
        assert(s.drop_last().take(n) =~= s.take(n));
    } else {
        assert(s.take(n) =~= s);
    }
}

/// The port that `s` names.
pub fn parse_port(s: &str) -> (r: Option<u16>)
    ensures
        r == port(s@),
{
    let v = text::chars_of(s);
    let len: usize = v.len();
    let start: usize = if len > 0 && v[0] == '+' {
        1
    } else {
        0
    };
    let ghost digits = unsigned(s@);
    assert(digits =~= v@.skip(start as int));
    if start == len {
        return None;
    }
    let mut value: u32 = 0;
    let mut i: usize = start;
    assert(digits.take(0) =~= Seq::empty());
    while i < len
        invariant
            v@ == s@,
            len == v@.len(),
            start <= i <= len,
            start < len,
            digits == v@.skip(start as int),
            digits == unsigned(s@),
            value <= u16::MAX,
            number(digits.take(i - start)) == Some(value as nat),
        decreases len - i,
    {
        let c: char = v[i];
        let ghost n = i - start;
        proof {
            assert(digits.take(n + 1).drop_last() =~= digits.take(n));
            assert(digits.take(n + 1).last() == c);
        }
        if !('0' <= c && c <= '9') {
            proof {
                if number(digits) is Some {
                    lemma_number_prefix(digits, n + 1);
                }
            }
            return None;
        }
        let d: u32 = c as u32 - '0' as u32;
        let next: u32 = value * 10 + d;
        if next > 65535 {
            proof {
                if number(digits) is Some {
                    lemma_number_prefix(digits, n + 1);
                }
            }
            return None;
        }
        value = next;
        i = i + 1;
    }
    assert(digits.take(len - start) =~= digits);
    Some(value as u16)
}

// ------------------------------------------------------------------------- laws

/// To take a character out keeps all others, in their order.
pub proof fn law_other_characters_are_kept(s: Seq<char>, c: char)
    ensures
        without(s, c) == s.filter(|x: char| x != c),
    decreases s.len(),
{
    reveal(Seq::filter);
    if s.len() > 0 {
        law_other_characters_are_kept(s.drop_last(), c);
    }
}

/// What is found is the first occurrence, and nothing is found only where there
/// is none.
pub proof fn law_first_occurrence_is_found(s: Seq<char>, p: Seq<char>)
    ensures
        match find(s, p) {
            Some(n) => text::occurs_at(s, p, n as int) && forall|k: int|
                0 <= k < n ==> !#[trigger] text::occurs_at(s, p, k),
            None => !text::occurs(s, p),
        },
    decreases s.len(),
{
    if text::begins(s, p) {
        assert(s.subrange(0, p.len() as int) =~= s.take(p.len() as int));
        assert(text::occurs_at(s, p, 0));
    } else {
        if text::occurs_at(s, p, 0) {
            assert(s.subrange(0, p.len() as int) =~= s.take(p.len() as int));
        }
        if s.len() > 0 {
            let t = s.skip(1);
            law_first_occurrence_is_found(t, p);
            assert forall|k: int| 1 <= k implies #[trigger] text::occurs_at(s, p, k)
                == text::occurs_at(t, p, k - 1) by {
                if k <= s.len() - p.len() {
                    assert(s.subrange(k, k + p.len()) =~= t.subrange(k - 1, k - 1 + p.len()));
                }
            }
            match find(t, p) {
                Some(n) => {
                    assert(text::occurs_at(s, p, n as int + 1));
                },
                None => {
                    if text::occurs(s, p) {
                        let k = choose|k: int| text::occurs_at(s, p, k);
                        assert(k >= 1);
                        assert(text::occurs_at(t, p, k - 1));
                    }
                },
            }
        } else if text::occurs(s, p) {
            let k = choose|k: int| text::occurs_at(s, p, k);
            assert(k == 0);
        }
    }
}

/// The parts of a text, with the separator between them, make the text again,
/// and the separator occurs in none of them.
pub proof fn law_parts_make_the_text(s: Seq<char>, sep: Seq<char>)
    requires
        sep.len() > 0,
    ensures
        split(s, sep).len() > 0,
        text::join(split(s, sep), sep) == s,
        forall|i: int|
            0 <= i < split(s, sep).len() ==> !text::occurs(#[trigger] split(s, sep)[i], sep),
    decreases s.len(),
{
    law_first_occurrence_is_found(s, sep);
    let parts = split(s, sep);
    match find(s, sep) {
        Some(n) => {
            let k = n as int;
            let head = s.take(k);
            let rest = s.skip(k + sep.len());
            law_parts_make_the_text(rest, sep);
            assert(parts =~= seq![head] + split(rest, sep));
            text::law_joined_texts(seq![head], split(rest, sep), sep);
            assert(s.subrange(k, k + sep.len()) == sep);
            assert(s =~= head + sep + rest);
            assert forall|i: int| 0 <= i < parts.len() implies !text::occurs(
                #[trigger] parts[i],
                sep,
            ) by {
                if i == 0 {
                    if text::occurs(head, sep) {
                        let j = choose|j: int| text::occurs_at(head, sep, j);
                        assert(head.subrange(j, j + sep.len()) =~= s.subrange(j, j + sep.len()));
                        assert(text::occurs_at(s, sep, j));
                    }
                } else {
                    assert(parts[i] == split(rest, sep)[i - 1]);
                }
            }
        },
        None => {
            assert(parts =~= seq![s]);
        },
    }
}

/// A text is read as a number exactly if it is made of digits.
pub proof fn law_numbers_are_digits(s: Seq<char>)
    ensures
        number(s) is Some <==> forall|i: int|
            0 <= i < s.len() ==> '0' <= #[trigger] s[i] <= '9',
    decreases s.len(),
{
    if s.len() > 0 {
        let t = s.drop_last();
        law_numbers_are_digits(t);
        if number(s) is Some {
            assert forall|i: int| 0 <= i < s.len() implies '0' <= #[trigger] s[i] <= '9' by {
                if i < t.len() {
                    assert(s[i] == t[i]);
                }
            }
        } else if forall|i: int| 0 <= i < s.len() ==> '0' <= #[trigger] s[i] <= '9' {
            assert forall|i: int| 0 <= i < t.len() implies '0' <= #[trigger] t[i] <= '9' by {
                assert(t[i] == s[i]);
            }
            assert('0' <= s[s.len() - 1] <= '9');
        }
    }
}

/// A number that is written in decimal is read back, and zeros in front of it do
/// not count.
pub proof fn law_decimal_is_read_back(n: nat, s: Seq<char>)
    ensures
        number(text::decimal(n)) == Some(n),
        number(seq!['0'] + s) == number(s),
    decreases n, s.len(),
{
    if n >= 10 {
        law_decimal_is_read_back(n / 10, s);
        let d = text::decimal(n);
        assert(d.drop_last() =~= text::decimal(n / 10));
        assert(d.last() == text::digit(n % 10));
    } else {
        let d = text::decimal(n);
        assert(d.drop_last() =~= Seq::empty());
        assert(number(d.drop_last()) == Some(0nat));
        assert(d.last() == text::digit(n));
        let z = seq!['0'] + s;
        if s.len() > 0 {
            law_decimal_is_read_back(n, s.drop_last());
            assert(z.drop_last() =~= seq!['0'] + s.drop_last());
            assert(z.last() == s.last());
        } else {
            assert(z =~= seq!['0']);
            assert(z.drop_last() =~= Seq::empty());
            assert(number(z.drop_last()) == Some(0nat));
            assert(s =~= Seq::empty());
        }
    }
}

/// Every port that is written in decimal is read, with or without a plus sign; a
/// number that is too large, a sign alone and anything but digits are not.
pub proof fn law_ports_are_read(n: nat, s: Seq<char>)
    ensures
        port(text::decimal(n)) == if n <= 65535 {
            Some(n as u16)
        } else {
            None
        },
        port(seq!['+'] + text::decimal(n)) == port(text::decimal(n)),
        port(s) is Some ==> s.len() > 0 && (forall|i: int|
            1 <= i < s.len() ==> '0' <= #[trigger] s[i] <= '9') && (('0' <= s[0] <= '9') || (s[0]
            == '+' && s.len() > 1)),
        port(Seq::<char>::empty()) is None,
{
    let d = text::decimal(n);
    text::law_decimal_digits(n);
    law_decimal_is_read_back(n, Seq::empty());
    assert('0' <= d[0] <= '9');
    assert(unsigned(d) == d);
    let p = seq!['+'] + d;
    assert(unsigned(p) =~= d);
    if port(s) is Some {
        let u = unsigned(s);
        law_numbers_are_digits(u);
        assert forall|i: int| 1 <= i < s.len() implies '0' <= #[trigger] s[i] <= '9' by {
            if s[0] == '+' {
                assert(s[i] == u[i - 1]);
            } else {
                assert(s[i] == u[i]);
            }
        }
        if s[0] != '+' {
            assert(s[0] == u[0]);
        }
    }
}

} // verus!
