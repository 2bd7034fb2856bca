//! Percent-encoding, and the addresses of the peer's file API.

use vstd::prelude::*;

use crate::parse;
use crate::text;

verus! {

/// `std::string::FromUtf8Error`, the error of [`decode_component`].
#[verifier::external_type_specification]
#[verifier::external_body]
pub struct ExFromUtf8Error(std::string::FromUtf8Error);

// ---------------------------------------------------------------- definitions

/// The bytes that percent-encoding leaves as they are: ASCII letters and
/// digits, and `-`, `.`, `_`, `~`.
pub open spec fn unreserved(b: u8) -> bool {
    ||| 0x30 <= b <= 0x39
    ||| 0x41 <= b <= 0x5a
    ||| 0x61 <= b <= 0x7a
    ||| b == 0x2d
    ||| b == 0x2e
    ||| b == 0x5f
    ||| b == 0x7e
}

/// The upper case hexadecimal digit of `n`.
pub open spec fn hex_digit(n: nat) -> char {
    if n < 10 {
        (48 + n) as u8 as char
    } else {
        (55 + n) as u8 as char
    }
}

/// Every byte of `b`, escaped as `%XX` unless it is unreserved.
pub open spec fn percent_encode(b: Seq<u8>) -> Seq<char>
    decreases b.len(),
{
    if b.len() == 0 {
        Seq::empty()
    } else if unreserved(b[0]) {
        seq![b[0] as char] + percent_encode(b.skip(1))
    } else {
        seq!['%', hex_digit(b[0] as nat / 16), hex_digit(b[0] as nat % 16)] + percent_encode(
            b.skip(1),
        )
    }
}

/// The percent-encoding of the UTF-8 bytes of `s`.
pub open spec fn encode(s: Seq<char>) -> Seq<char> {
    percent_encode(vstd::utf8::encode_utf8(s))
}

/// The value of a hexadecimal digit of either case.
pub open spec fn hex_value(b: u8) -> Option<nat> {
    if 0x30 <= b <= 0x39 {
        Some((b - 0x30) as nat)
    } else if 0x41 <= b <= 0x46 {
        Some((b - 0x41 + 10) as nat)
    } else if 0x61 <= b <= 0x66 {
        Some((b - 0x61 + 10) as nat)
    } else {
        None
    }
}

/// `b` begins with `%` and two hexadecimal digits.
pub open spec fn escape_first(b: Seq<u8>) -> bool {
    &&& b.len() >= 3
    &&& b[0] == 0x25
    &&& hex_value(b[1]) is Some
    &&& hex_value(b[2]) is Some
}

/// `b` with every escape `%XX`, taken from the left, turned into its byte. A
/// percent sign that starts no escape stands for itself.
pub open spec fn percent_decode(b: Seq<u8>) -> Seq<u8>
    decreases b.len(),
{
    if b.len() == 0 {
        Seq::empty()
    } else if escape_first(b) {
        seq![(hex_value(b[1])->0 * 16 + hex_value(b[2])->0) as u8] + percent_decode(b.skip(3))
    } else {
        seq![b[0]] + percent_decode(b.skip(1))
    }
}

/// What `s` decodes to, where the decoded bytes are UTF-8.
pub open spec fn decode(s: Seq<char>) -> Option<Seq<char>> {
    let b = percent_decode(vstd::utf8::encode_utf8(s));
    if vstd::utf8::valid_utf8(b) {
        Some(vstd::utf8::decode_utf8(b))
    } else {
        None
    }
}

/// The address of the operation `op` on `path` in the file API of `peer`.
pub open spec fn fs_address(peer: Seq<char>, op: Seq<char>, path: Seq<char>) -> Seq<char> {
    "http://"@ + peer + ":7733/api/fs/"@ + op + "?path="@ + encode(path)
}

/// The address that moves `from` to `to` in the file API of `peer`.
pub open spec fn move_address(peer: Seq<char>, from: Seq<char>, to: Seq<char>) -> Seq<char> {
    "http://"@ + peer + ":7733/api/fs/move?from="@ + encode(from) + "&to="@ + encode(to)
}

/// The query of an address: what stands behind its first question mark.
pub open spec fn query_of(address: Seq<char>) -> Seq<char> {
    if text::first_of(address, '?') < address.len() {
        address.skip(text::first_of(address, '?') as int + 1)
    } else {
        Seq::empty()
    }
}

/// The name of a field of a query: what stands before its equals sign, without
/// its escapes. A plus sign stands for a blank.
pub open spec fn field_name(field: Seq<char>) -> Option<Seq<char>> {
    decode(text::map_char(field.take(text::first_of(field, '=') as int), '+', ' '))
}

/// The value of a field of a query, as it is escaped there. A plus sign stands
/// for a blank.
pub open spec fn field_value(field: Seq<char>) -> Seq<char> {
    text::map_char(
        if text::first_of(field, '=') < field.len() {
            field.skip(text::first_of(field, '=') as int + 1)
        } else {
            Seq::empty()
        },
        '+',
        ' ',
    )
}

/// The values of the fields that are called `name`.
pub open spec fn values(fields: Seq<Seq<char>>, name: Seq<char>) -> Seq<Seq<char>>
    decreases fields.len(),
{
    if fields.len() == 0 {
        Seq::empty()
    } else if field_name(fields.last()) == Some(name) {
        values(fields.drop_last(), name).push(field_value(fields.last()))
    } else {
        values(fields.drop_last(), name)
    }
}

/// The value of the field `name` of a query, whose fields are parted by
/// ampersands; there is none where the field is missing or occurs twice.
pub open spec fn value_of(query: Seq<char>, name: Seq<char>) -> Option<Seq<char>> {
    let all = values(parse::split(query, seq!['&']), name);
    if all.len() == 1 {
        Some(all[0])
    } else {
        None
    }
}

// --------------------------------------------------------------- outside calls

/// Calls `urlencoding::encode`: every byte of the UTF-8 form but ASCII letters
/// and digits and `-`, `.`, `_`, `~` becomes a percent sign and its two upper
/// case hexadecimal digits.
#[verifier::external_body]
pub(crate) fn encode_component(s: &str) -> (r: String)
    ensures
        r@ == encode(s@),
{
    urlencoding::encode(s).into_owned()
}

/// Calls `urlencoding::decode`: escapes become bytes, everything else is kept,
/// and the result is an error exactly where those bytes are not UTF-8.
#[verifier::external_body]
pub(crate) fn decode_component(s: &str) -> (r: Result<String, std::string::FromUtf8Error>)
    ensures
        r is Ok <==> decode(s@) is Some,
        r matches Ok(t) ==> decode(s@) == Some(t@),
{
    urlencoding::decode(s).map(|t| t.into_owned())
}

// ------------------------------------------------------------------ addresses

/// The address of the operation `op` on `path` in the file API of `peer_ip`.
pub fn fs_url(peer_ip: &str, op: &str, path: &str) -> (r: String)
    ensures
        r@ == fs_address(peer_ip@, op@, path@),
{
    let mut out: String = "http://".to_string();
    out.append(peer_ip);
    out.append(":7733/api/fs/");
    out.append(op);
    out.append("?path=");
    out.append(encode_component(path).as_str());
    out
}

/// The address that moves `from` to `to` in the file API of `peer_ip`.
pub fn move_url(peer_ip: &str, from: &str, to: &str) -> (r: String)
    ensures
        r@ == move_address(peer_ip@, from@, to@),
{
    let mut out: String = "http://".to_string();
    out.append(peer_ip);
    out.append(":7733/api/fs/move?from=");
    out.append(encode_component(from).as_str());
    out.append("&to=");
    out.append(encode_component(to).as_str());
    out
}

// -------------------------------------------------------------------- queries

/// The value of the field `name` of a query, still escaped, where the field
/// occurs once.
pub fn query_value(query: &str, name: &str) -> (r: Option<String>)
    ensures
        text::optional(r) == value_of(query@, name@),
{
    proof {
        reveal_strlit("&");
        assert("&"@ =~= seq!['&']);
    }
    let fields: Vec<String> = parse::split_on(query, "&");
    let ghost all = text::views(fields@);
    let mut found: Vec<String> = Vec::new();
    let mut i: usize = 0;
    assert(text::views(found@) =~= values(all.take(0), name@));
    while i < fields.len()
        invariant
            i <= fields@.len(),
            all == text::views(fields@),
            text::views(found@) == values(all.take(i as int), name@),
        decreases fields@.len() - i,
    {
        let (head, tail) = parse::cut_at(fields[i].as_str(), '=');
        let value: String = text::replace_char(tail.as_str(), '+', ' ');
        proof {
            assert(all.take(i + 1).drop_last() =~= all.take(i as int));
            assert(all.take(i + 1).last() == fields@[i as int]@);
            text::lemma_views_push(found@, value);
        }
        let called: String = text::replace_char(head.as_str(), '+', ' ');
        if let Ok(called) = decode_component(called.as_str()) {
            if text::same_text(called.as_str(), name) {
                found.push(value);
            }
        }
        i = i + 1;
    }
    assert(all.take(i as int) =~= all);
    if found.len() == 1 {
        assert(text::views(found@)[0] == found@[0]@);
        found.pop()
    } else {
        None
    }
}

// ----------------------------------------------------------------------- laws

spec fn ascii_bytes(s: Seq<char>) -> Seq<u8> {
    Seq::new(s.len(), |i: int| s[i] as u8)
}

proof fn lemma_encoded_is_ascii(b: Seq<u8>)
    ensures
        vstd::utf8::is_ascii_chars(percent_encode(b)),
    decreases b.len(),
{
    if b.len() > 0 {
        lemma_encoded_is_ascii(b.skip(1));
        assert forall|i: int| 0 <= i < percent_encode(b).len() implies '\0'
            <= #[trigger] percent_encode(b)[i] <= '\u{7f}' by {
            let rest = percent_encode(b.skip(1));
            if unreserved(b[0]) {
                if i >= 1 {
                    assert(percent_encode(b)[i] == rest[i - 1]);
                }
            } else if i >= 3 {
                assert(percent_encode(b)[i] == rest[i - 3]);
            }
        }
    }
}

proof fn lemma_percent_round_trip(b: Seq<u8>)
    ensures
        percent_decode(ascii_bytes(percent_encode(b))) == b,
    decreases b.len(),
{
    let e = ascii_bytes(percent_encode(b));
    if b.len() == 0 {
        assert(e =~= Seq::empty());
    } else {
        let rest = ascii_bytes(percent_encode(b.skip(1)));
        lemma_percent_round_trip(b.skip(1));
        if unreserved(b[0]) {
            assert(e[0] == b[0]);
            assert(e.skip(1) =~= rest);
        } else {
            let hi = b[0] as nat / 16;
            let lo = b[0] as nat % 16;
            assert(e[0] == 0x25);
            assert(e[1] == hex_digit(hi) as u8);
            assert(e[2] == hex_digit(lo) as u8);
            assert(hex_value(e[1]) == Some(hi));
            assert(hex_value(e[2]) == Some(lo));
            assert(hi * 16 + lo == b[0]);
            assert(e.skip(3) =~= rest);
        }
        assert(seq![b[0]] + b.skip(1) =~= b);
    }
}

/// Decoding gives back exactly what was encoded, for every text.
pub proof fn law_decode_inverts_encode(s: Seq<char>)
    ensures
        decode(encode(s)) == Some(s),
{
    let b = vstd::utf8::encode_utf8(s);
    let e = percent_encode(b);
    lemma_encoded_is_ascii(b);
    vstd::utf8::is_ascii_chars_encode_utf8(e);
    assert(vstd::utf8::encode_utf8(e) =~= ascii_bytes(e));
    lemma_percent_round_trip(b);
    vstd::utf8::encode_utf8_valid_utf8(s);
    vstd::utf8::encode_utf8_decode_utf8(s);
}

proof fn lemma_encoded_chars(b: Seq<u8>, i: int)
    requires
        0 <= i < percent_encode(b).len(),
    ensures
        percent_encode(b)[i] == '%' || unreserved(percent_encode(b)[i] as u8),
        percent_encode(b)[i] <= '\u{7f}',
    decreases b.len(),
{
    if b.len() > 0 {
        let rest = percent_encode(b.skip(1));
        if unreserved(b[0]) {
            if i >= 1 {
                lemma_encoded_chars(b.skip(1), i - 1);
                assert(percent_encode(b)[i] == rest[i - 1]);
            }
        } else if i >= 3 {
            lemma_encoded_chars(b.skip(1), i - 3);
            assert(percent_encode(b)[i] == rest[i - 3]);
        }
    }
}

/// An encoded text holds nothing that ends a query value or starts another:
/// each of its characters is a percent sign or unreserved.
pub proof fn law_encoded_text_stays_in_its_query_value(s: Seq<char>)
    ensures
        forall|i: int|
            0 <= i < encode(s).len() ==> #[trigger] encode(s)[i] == '%' || unreserved(
                encode(s)[i] as u8,
            ),
        !encode(s).contains('&'),
        !encode(s).contains('='),
        !encode(s).contains('?'),
        !encode(s).contains('#'),
        !encode(s).contains('/'),
        !encode(s).contains('+'),
{
    let b = vstd::utf8::encode_utf8(s);
    assert forall|i: int| 0 <= i < encode(s).len() implies (#[trigger] encode(s)[i] == '%'
        || unreserved(encode(s)[i] as u8)) && encode(s)[i] <= '\u{7f}' by {
        lemma_encoded_chars(b, i);
    }
}

/// A word of small letters.
spec fn word(s: Seq<char>) -> bool {
    forall|i: int| 0 <= i < s.len() ==> 'a' <= #[trigger] s[i] <= 'z'
}

proof fn lemma_percent_encode_letters(b: Seq<u8>)
    requires
        forall|i: int| 0 <= i < b.len() ==> 0x61 <= #[trigger] b[i] <= 0x7a,
    ensures
        percent_encode(b) == Seq::new(b.len(), |i: int| b[i] as char),
    decreases b.len(),
{
    if b.len() > 0 {
        let t = b.skip(1);
        assert forall|i: int| 0 <= i < t.len() implies 0x61 <= #[trigger] t[i] <= 0x7a by {
            assert(t[i] == b[i + 1]);
        }
        lemma_percent_encode_letters(t);
        assert(unreserved(b[0]));
    }
    assert(percent_encode(b) =~= Seq::new(b.len(), |i: int| b[i] as char));
}

proof fn lemma_word_is_its_own_escape(s: Seq<char>)
    requires
        word(s),
    ensures
        encode(s) == s,
{
    let b = vstd::utf8::encode_utf8(s);
    assert(vstd::utf8::is_ascii_chars(s)) by {
        assert forall|i: int| 0 <= i < s.len() implies '\0' <= #[trigger] s[i] <= '\u{7f}' by {}
    }
    vstd::utf8::is_ascii_chars_encode_utf8(s);
    assert(b =~= ascii_bytes(s));
    assert forall|i: int| 0 <= i < b.len() implies 0x61 <= #[trigger] b[i] <= 0x7a by {
        assert('a' <= s[i] <= 'z');
    }
    lemma_percent_encode_letters(b);
    assert(encode(s) =~= s);
}

proof fn lemma_field(name: Seq<char>, s: Seq<char>)
    requires
        word(name),
    ensures
        field_name(name.push('=') + encode(s)) == Some(name),
        field_value(name.push('=') + encode(s)) == encode(s),
        !(name.push('=') + encode(s)).contains('&'),
{
    let f = name.push('=') + encode(s);
    let n = name.len() as int;
    lemma_word_is_its_own_escape(name);
    law_decode_inverts_encode(name);
    assert forall|i: int| 0 <= i < n implies name[i] != '+' && #[trigger] name[i] != '=' && name[i]
        != '&' by {}
    assert(text::map_char(name, '+', ' ') =~= name);
    law_encoded_text_stays_in_its_query_value(s);
    assert forall|i: int| 0 <= i < n implies #[trigger] f[i] != '=' by {
        assert(f[i] == name[i]);
    }
    assert(f[n] == '=');
    text::lemma_first_of_is(f, '=', n);
    assert(f.take(n) =~= name);
    assert(f.skip(n + 1) =~= encode(s));
    assert forall|i: int| 0 <= i < encode(s).len() implies encode(s)[i] != '+' by {
        assert(encode(s).contains(encode(s)[i]));
    }
    assert(text::map_char(encode(s), '+', ' ') =~= encode(s));
    if f.contains('&') {
        let i = choose|i: int| 0 <= i < f.len() && f[i] == '&';
        if i < n {
            assert(name[i] == '&');
        } else if i > n {
            assert(encode(s)[i - n - 1] == '&');
        }
    }
}

proof fn lemma_query_of(head: Seq<char>, query: Seq<char>)
    requires
        !head.contains('?'),
    ensures
        query_of(head.push('?') + query) == query,
{
    let u = head.push('?') + query;
    let n = head.len() as int;
    assert forall|i: int| 0 <= i < n implies #[trigger] u[i] != '?' by {
        assert(u[i] == head[i]);
    }
    assert(u[n] == '?');
    text::lemma_first_of_is(u, '?', n);
    assert(u.skip(n + 1) =~= query);
}

proof fn lemma_head(peer: Seq<char>, op: Seq<char>)
    requires
        !peer.contains('?'),
        !op.contains('?'),
    ensures
        !("http://"@ + peer + ":7733/api/fs/"@ + op).contains('?'),
{
    reveal_strlit("http://");
    reveal_strlit(":7733/api/fs/");
    let h = "http://"@ + peer + ":7733/api/fs/"@ + op;
    let a = "http://"@.len() as int;
    let b = a + peer.len();
    let c = b + ":7733/api/fs/"@.len();
    assert forall|i: int| 0 <= i < h.len() implies #[trigger] h[i] != '?' by {
        if i < a {
            assert(h[i] == "http://"@[i]);
        } else if i < b {
            assert(h[i] == peer[i - a]);
        } else if i < c {
            assert(h[i] == ":7733/api/fs/"@[i - b]);
        } else {
            assert(h[i] == op[i - c]);
        }
    }
}

/// The address of a request on one path carries that path in its query,
/// escaped once. The peer is a machine, and the operation a word, without
/// question marks.
pub proof fn law_address_carries_its_path(peer: Seq<char>, op: Seq<char>, path: Seq<char>)
    requires
        !peer.contains('?'),
        !op.contains('?'),
    ensures
        value_of(query_of(fs_address(peer, op, path)), "path"@) == Some(encode(path)),
{
    reveal_strlit("?path=");
    reveal_strlit("path");
    let head = "http://"@ + peer + ":7733/api/fs/"@ + op;
    let q = "path"@.push('=') + encode(path);
    lemma_head(peer, op);
    assert(fs_address(peer, op, path) =~= head.push('?') + q);
    lemma_query_of(head, q);
    lemma_field("path"@, path);
    parse::lemma_split_once(q, '&');
    let all = seq![q];
    assert(all.drop_last() =~= Seq::empty());
    assert(values(all.drop_last(), "path"@) == Seq::<Seq<char>>::empty());
    assert(values(all, "path"@) =~= seq![encode(path)]);
}

/// The address of a renaming carries both paths in its query, each escaped
/// once.
pub proof fn law_address_carries_both_paths(peer: Seq<char>, from: Seq<char>, to: Seq<char>)
    requires
        !peer.contains('?'),
    ensures
        value_of(query_of(move_address(peer, from, to)), "from"@) == Some(encode(from)),
        value_of(query_of(move_address(peer, from, to)), "to"@) == Some(encode(to)),
{
    reveal_strlit(":7733/api/fs/move?from=");
    reveal_strlit(":7733/api/fs/");
    reveal_strlit("move");
    reveal_strlit("&to=");
    reveal_strlit("from");
    reveal_strlit("to");
    let head = "http://"@ + peer + ":7733/api/fs/"@ + "move"@;
    let a = "from"@.push('=') + encode(from);
    let b = "to"@.push('=') + encode(to);
    let q = a.push('&') + b;
    lemma_head(peer, "move"@);
    assert(move_address(peer, from, to) =~= head.push('?') + q);
    lemma_query_of(head, q);
    lemma_field("from"@, from);
    lemma_field("to"@, to);
    parse::lemma_split_in_two(a, b, '&');
    let all = seq![a, b];
    assert("from"@.len() != "to"@.len());
    assert(all.drop_last() =~= seq![a]);
    let one = seq![a];
    assert(one.drop_last() =~= Seq::empty());
    assert(values(one.drop_last(), "from"@) == Seq::<Seq<char>>::empty());
    assert(values(one.drop_last(), "to"@) == Seq::<Seq<char>>::empty());
    assert(values(one, "from"@) =~= seq![encode(from)]);
    assert(values(one, "to"@) =~= Seq::empty());
    assert(values(all, "from"@) =~= seq![encode(from)]);
    assert(values(all, "to"@) =~= seq![encode(to)]);
}

/// A field that occurs twice in a query has no value, and one that does not occur
/// has none either; another field does not matter.
pub proof fn law_one_field_has_a_value(a: Seq<char>, b: Seq<char>, name: Seq<char>)
    requires
        !a.contains('&'),
        !b.contains('&'),
    ensures
        field_name(a) == Some(name) && field_name(b) == Some(name) ==> value_of(
            a.push('&') + b,
            name,
        ) is None,
        field_name(a) == Some(name) && field_name(b) != Some(name) ==> value_of(
            a.push('&') + b,
            name,
        ) == Some(field_value(a)),
        field_name(a) != Some(name) && field_name(b) == Some(name) ==> value_of(
            a.push('&') + b,
            name,
        ) == Some(field_value(b)),
        field_name(a) != Some(name) && field_name(b) != Some(name) ==> value_of(
            a.push('&') + b,
            name,
        ) is None,
{
    parse::lemma_split_in_two(a, b, '&');
    let all = seq![a, b];
    let one = seq![a];
    assert(all.drop_last() =~= one);
    assert(one.drop_last() =~= Seq::empty());
    assert(values(one.drop_last(), name) == Seq::<Seq<char>>::empty());
    if field_name(a) == Some(name) {
        assert(values(one, name) =~= seq![field_value(a)]);
    } else {
        assert(values(one, name) =~= Seq::empty());
    }
}

/// A field's name and value stand before and behind its first equals sign; plus
/// signs in them are blanks, and the name is unescaped.
pub proof fn law_parts_of_a_field(name: Seq<char>, value: Seq<char>)
    requires
        !name.contains('='),
        !name.contains('+'),
        !value.contains('+'),
    ensures
        field_name(name.push('=') + value) == decode(name),
        field_value(name.push('=') + value) == value,
        field_value(name).len() == 0,
{
    let f = name.push('=') + value;
    let n = name.len() as int;
    assert forall|i: int| 0 <= i < n implies #[trigger] name[i] != '=' && name[i] != '+' by {
        assert(name.contains(name[i]));
    }
    assert forall|i: int| 0 <= i < n implies #[trigger] f[i] != '=' by {
        assert(f[i] == name[i]);
    }
    assert(f[n] == '=');
    text::lemma_first_of_is(f, '=', n);
    text::lemma_first_of_is(name, '=', n);
    assert(f.take(n) =~= name);
    assert(f.skip(n + 1) =~= value);
    assert(text::map_char(name, '+', ' ') =~= name);
    assert forall|i: int| 0 <= i < value.len() implies #[trigger] value[i] != '+' by {
        assert(value.contains(value[i]));
    }
    assert(text::map_char(value, '+', ' ') =~= value);
}

/// The query of an address is what stands behind its first question mark.
pub proof fn law_query_of_an_address(head: Seq<char>, query: Seq<char>)
    requires
        !head.contains('?'),
    ensures
        query_of(head.push('?') + query) == query,
        query_of(head).len() == 0,
{
    lemma_query_of(head, query);
    assert forall|i: int| 0 <= i < head.len() implies #[trigger] head[i] != '?' by {
        assert(head.contains(head[i]));
    }
    text::lemma_first_of_is(head, '?', head.len() as int);
}

} // verus!
