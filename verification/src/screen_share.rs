//! Sharing the screen: how the streaming host is configured, and how host and
//! client are started.

use vstd::prelude::*;

use crate::error::OpenBoltError;
use crate::error::OpenBoltResult;
use crate::paths;
use crate::sync_engine::request;
use crate::text;

verus! {

// ------------------------------------------------------------- the configuration

/// The line that gives `key` the value `value`.
pub open spec fn setting(key: Seq<char>, value: Seq<char>) -> Seq<char> {
    key + " = "@ + value
}

/// `line` gives a value to `key`: after white space the key stands there, in
/// any case, and an equals sign follows, perhaps after more white space.
pub open spec fn sets(line: Seq<char>, key: Seq<char>) -> bool {
    let t = text::lower(text::trim_start(line));
    let k = text::lower(key);
    text::begins(t, k) && equals_first(text::trim_start(t.skip(k.len() as int)))
}

/// `s` begins with an equals sign.
pub open spec fn equals_first(s: Seq<char>) -> bool {
    s.len() > 0 && s[0] == '='
}

/// The position of the first line that gives a value to `key`, or the number of
/// lines.
pub open spec fn first_setting(lines: Seq<Seq<char>>, key: Seq<char>) -> int
    decreases lines.len(),
{
    if lines.len() == 0 || sets(lines[0], key) {
        0
    } else {
        1 + first_setting(lines.skip(1), key)
    }
}

/// The lines after `key` was given the value `value`: in the first line that
/// sets it, or in a new last line.
pub open spec fn with_setting(lines: Seq<Seq<char>>, key: Seq<char>, value: Seq<char>) -> Seq<
    Seq<char>,
> {
    let n = first_setting(lines, key);
    if n < lines.len() {
        lines.update(n, setting(key, value))
    } else {
        lines.push(setting(key, value))
    }
}

/// The lines after all of `updates`, in order.
pub open spec fn with_settings(
    lines: Seq<Seq<char>>,
    updates: Seq<(Seq<char>, Seq<char>)>,
) -> Seq<Seq<char>>
    decreases updates.len(),
{
    if updates.len() == 0 {
        lines
    } else {
        with_setting(
            with_settings(lines, updates.drop_last()),
            updates.last().0,
            updates.last().1,
        )
    }
}

/// The text of a configuration after `updates`.
pub open spec fn patched(content: Seq<char>, updates: Seq<(Seq<char>, Seq<char>)>) -> Seq<char> {
    text::join(with_settings(text::lines(content), updates), seq!['\n'])
}

/// The updates, as pairs of texts.
pub open spec fn update_views(updates: Seq<(&str, &str)>) -> Seq<(Seq<char>, Seq<char>)> {
    Seq::new(updates.len(), |i: int| (updates[i].0@, updates[i].1@))
}

proof fn lemma_first_setting(lines: Seq<Seq<char>>, key: Seq<char>)
    ensures
        0 <= first_setting(lines, key) <= lines.len(),
        forall|i: int| 0 <= i < first_setting(lines, key) ==> !sets(#[trigger] lines[i], key),
        first_setting(lines, key) < lines.len() ==> sets(lines[first_setting(lines, key)], key),
    decreases lines.len(),
{
    if lines.len() > 0 && !sets(lines[0], key) {
        let t = lines.skip(1);
        lemma_first_setting(t, key);
        assert forall|i: int| 0 <= i < first_setting(lines, key) implies !sets(
            #[trigger] lines[i],
            key,
        ) by {
            if i > 0 {
                assert(lines[i] == t[i - 1]);
            }
        }
    }
}

proof fn lemma_first_setting_is(lines: Seq<Seq<char>>, key: Seq<char>, n: int)
    requires
        0 <= n <= lines.len(),
        forall|i: int| 0 <= i < n ==> !sets(#[trigger] lines[i], key),
        n < lines.len() ==> sets(lines[n], key),
    ensures
        first_setting(lines, key) == n,
{
    lemma_first_setting(lines, key);
    let m = first_setting(lines, key);
    if m < n {
        assert(!sets(lines[m], key));
    } else if n < m {
        assert(!sets(lines[n], key));
    }
}

fn sets_key(line: &str, key: &str) -> (r: bool)
    ensures
        r == sets(line@, key@),
{
    let trimmed: String = text::lower_text(text::trim_start_text(line).as_str());
    let key_lower: String = text::lower_text(key);
    if !text::begins_with(trimmed.as_str(), key_lower.as_str()) {
        return false;
    }
    let n: usize = text::length_of(key_lower.as_str());
    let rest: String = text::text_from(trimmed.as_str(), n);
    let value: String = text::trim_start_text(rest.as_str());
    proof {
        reveal_strlit("=");
        if equals_first(value@) {
            assert(value@.take(1) =~= "="@);
        }
        if text::begins(value@, "="@) {
            assert(value@.take(1)[0] == value@[0]);
        }
    }
    text::begins_with(value.as_str(), "=")
}

fn set_key(lines: &mut Vec<String>, key: &str, value: &str)
    ensures
        text::views(final(lines)@) == with_setting(text::views(old(lines)@), key@, value@),
{
    let ghost all = text::views(lines@);
    let mut new_line: String = key.to_string();
    new_line.append(" = ");
    new_line.append(value);
    let mut i: usize = 0;
    while i < lines.len()
        invariant
            i <= lines@.len(),
            all == text::views(lines@),
            lines@ == old(lines)@,
            new_line@ == setting(key@, value@),
            forall|k: int| 0 <= k < i ==> !sets(#[trigger] all[k], key@),
        decreases lines@.len() - i,
    {
        assert(all[i as int] == lines@[i as int]@);
        if sets_key(lines[i].as_str(), key) {
            proof {
                lemma_first_setting_is(all, key@, i as int);
            }
            lines.set(i, new_line);
            assert(text::views(lines@) =~= all.update(i as int, setting(key@, value@)));
            return ;
        }
        i = i + 1;
    }
    proof {
        lemma_first_setting_is(all, key@, i as int);
        text::lemma_views_push(lines@, new_line);
    }
    lines.push(new_line);
}

/// A configuration in which every key of `updates` has its value: keys that
/// are there are changed in place, others are added at the end.
pub fn patch_config(content: &str, updates: &[(&str, &str)]) -> (r: String)
    ensures
        r@ == patched(content@, update_views(updates@)),
{
    let mut lines: Vec<String> = text::lines_of(content);
    let ghost first = text::lines(content@);
    let ghost all = update_views(updates@);
    let mut i: usize = 0;
    assert(all.take(0) =~= Seq::empty());
    while i < updates.len()
        invariant
            i <= updates@.len(),
            all == update_views(updates@),
            text::views(lines@) == with_settings(first, all.take(i as int)),
        decreases updates@.len() - i,
    {
        proof {
            assert(all.take(i + 1).drop_last() =~= all.take(i as int));
            assert(all.take(i + 1).last() == all[i as int]);
        }
        let (key, value) = updates[i];
        set_key(&mut lines, key, value);
        i = i + 1;
    }
    proof {
        assert(all.take(i as int) =~= all);
        reveal_strlit("\n");
        assert("\n"@ =~= seq!['\n']);
    }
    text::join_text(&lines, "\n")
}

/// What the host's configuration is made to say: it binds to `local_ip`, at its
/// usual port, and logs little.
pub open spec fn host_settings(local_ip: Seq<char>) -> Seq<(Seq<char>, Seq<char>)> {
    seq![("address"@, local_ip), ("port"@, "47989"@), ("min_log_level"@, "1"@)]
}

/// The host's configuration, made from the one that is there.
pub fn configure_sunshine(existing: &str, local_ip: &str) -> (r: String)
    ensures
        r@ == patched(existing@, host_settings(local_ip@)),
{
    let updates: [(&str, &str); 3] = [
        ("address", local_ip),
        ("port", "47989"),
        ("min_log_level", "1"),
    ];
    assert(update_views(updates@) =~= host_settings(local_ip@));
    patch_config(existing, &updates)
}

// ------------------------------------------------------------- files and programs

/// The first of `candidates` that exists.
pub open spec fn first_present(candidates: Seq<Seq<char>>, present: Seq<bool>) -> Option<Seq<char>>
    decreases candidates.len(),
{
    if candidates.len() == 0 || present.len() == 0 {
        None
    } else if present[0] {
        Some(candidates[0])
    } else {
        first_present(candidates.skip(1), present.skip(1))
    }
}

/// The first of `candidates` that exists, by what is known of each.
pub fn pick_present(candidates: &Vec<String>, present: &Vec<bool>) -> (r: Option<String>)
    ensures
        text::optional(r) == first_present(text::views(candidates@), present@),
{
    let ghost all = text::views(candidates@);
    let mut i: usize = 0;
    assert(all.skip(0) =~= all);
    assert(present@.skip(0) =~= present@);
    while i < candidates.len() && i < present.len()
        invariant
            i <= candidates@.len(),
            i <= present@.len(),
            all == text::views(candidates@),
            first_present(all.skip(i as int), present@.skip(i as int)) == first_present(
                all,
                present@,
            ),
        decreases candidates@.len() - i,
    {
        proof {
            assert(all.skip(i as int)[0] == candidates@[i as int]@);
            assert(present@.skip(i as int)[0] == present@[i as int]);
            assert(all.skip(i as int).skip(1) =~= all.skip(i + 1));
            assert(present@.skip(i as int).skip(1) =~= present@.skip(i + 1));
        }
        if present[i] {
            return Some(candidates[i].clone());
        }
        i = i + 1;
    }
    None
}

/// Where the host's configuration may lie on Windows, in order of preference.
/// Without a folder for application data the first place is empty, and is
/// nowhere.
pub fn windows_config_candidates(app_data: Option<&str>) -> (r: Vec<String>)
    ensures
        r@.len() == 3,
        match app_data {
            Some(d) => paths::joinable(d@) ==> exists|folder: Seq<char>|
                #[trigger] paths::joined(folder, d@, "Sunshine"@) && paths::joined(
                    r@[0]@,
                    folder,
                    "sunshine.conf"@,
                ),
            None => r@[0]@.len() == 0,
        },
        r@[1]@ == "C:\\Program Files\\Sunshine\\config\\sunshine.conf"@,
        r@[2]@ == "C:\\Program Files (x86)\\Sunshine\\config\\sunshine.conf"@,
{
    let first: String = match app_data {
        Some(d) => {
            let folder: String = paths::join_path(d, "Sunshine");
            let file: String = paths::join_path(folder.as_str(), "sunshine.conf");
            proof {
                if paths::joinable(d@) {
                    lemma_config_names();
                    paths::lemma_joined_is_joinable(folder@, d@, "Sunshine"@);
                    assert(paths::joined(folder@, d@, "Sunshine"@));
                }
            }
            file
        },
        None => String::new(),
    };
    let mut out: Vec<String> = Vec::new();
    out.push(first);
    out.push("C:\\Program Files\\Sunshine\\config\\sunshine.conf".to_string());
    out.push("C:\\Program Files (x86)\\Sunshine\\config\\sunshine.conf".to_string());
    out
}

/// Where the host's configuration may lie on macOS, in order of preference.
pub fn macos_config_candidates(home: &str) -> (r: Vec<String>)
    ensures
        r@.len() == 2,
        paths::joinable(home@) ==> exists|config: Seq<char>, folder: Seq<char>|
            #[trigger] paths::joined(config, home@, ".config"@) && #[trigger] paths::joined(
                folder,
                config,
                "sunshine"@,
            ) && paths::joined(r@[0]@, folder, "sunshine.conf"@),
        r@[1]@ == "/opt/homebrew/etc/sunshine/sunshine.conf"@,
{
    let config: String = paths::join_path(home, ".config");
    let folder: String = paths::join_path(config.as_str(), "sunshine");
    let file: String = paths::join_path(folder.as_str(), "sunshine.conf");
    proof {
        if paths::joinable(home@) {
            lemma_config_names();
            paths::lemma_joined_is_joinable(config@, home@, ".config"@);
            paths::lemma_joined_is_joinable(folder@, config@, "sunshine"@);
            assert(paths::joined(config@, home@, ".config"@));
            assert(paths::joined(folder@, config@, "sunshine"@));
        }
    }
    let mut out: Vec<String> = Vec::new();
    out.push(file);
    out.push("/opt/homebrew/etc/sunshine/sunshine.conf".to_string());
    out
}

proof fn lemma_config_names()
    ensures
        paths::unrooted("Sunshine"@),
        paths::unrooted("sunshine"@),
        paths::unrooted(".config"@),
        paths::unrooted("sunshine.conf"@),
        "Sunshine"@[0] == 'S',
        "sunshine"@[0] == 's',
        ".config"@[0] == '.',
{
    reveal_strlit("Sunshine");
    reveal_strlit("sunshine");
    reveal_strlit(".config");
    reveal_strlit("sunshine.conf");
}

/// The configuration that was found; it is an error that there is none.
pub fn require_config(found: Option<String>) -> (r: OpenBoltResult<String>)
    ensures
        match found {
            Some(p) => r == Ok::<String, OpenBoltError>(p),
            None => r is Err && request::failed_with(
                r->Err_0,
                "sunshine.conf not found; verify Sunshine is installed"@,
            ),
        },
{
    match found {
        Some(p) => Ok(p),
        None => Err(
            OpenBoltError::CommandFailed(
                "sunshine.conf not found; verify Sunshine is installed".to_string(),
            ),
        ),
    }
}

/// Where the host's program may lie, in order of preference.
pub fn sunshine_executables() -> (r: Vec<String>)
    ensures
        text::views(r@) == seq![
            "C:\\Program Files\\Sunshine\\sunshine.exe"@,
            "C:\\Program Files (x86)\\Sunshine\\sunshine.exe"@,
        ],
{
    let mut out: Vec<String> = Vec::new();
    out.push("C:\\Program Files\\Sunshine\\sunshine.exe".to_string());
    out.push("C:\\Program Files (x86)\\Sunshine\\sunshine.exe".to_string());
    assert(text::views(out@) =~= seq![
        "C:\\Program Files\\Sunshine\\sunshine.exe"@,
        "C:\\Program Files (x86)\\Sunshine\\sunshine.exe"@,
    ]);
    out
}

/// The host's program that was found; it is an error that there is none.
pub fn require_sunshine(found: Option<String>) -> (r: OpenBoltResult<String>)
    ensures
        match found {
            Some(p) => r == Ok::<String, OpenBoltError>(p),
            None => r is Err && request::failed_with(
                r->Err_0,
                "sunshine.exe not found; expected at C:\\Program Files\\Sunshine\\sunshine.exe"@,
            ),
        },
{
    match found {
        Some(p) => Ok(p),
        None => Err(
            OpenBoltError::CommandFailed(
                "sunshine.exe not found; expected at C:\\Program Files\\Sunshine\\sunshine.exe".to_string(),
            ),
        ),
    }
}

/// The arguments with which the client streams from `peer_ip`.
pub fn moonlight_args(peer_ip: &str) -> (r: Vec<String>)
    ensures
        text::views(r@) == seq![
            "stream"@,
            peer_ip@,
            "--audio-on-host"@,
            "--display-mode"@,
            "windowed"@,
        ],
{
    let mut out: Vec<String> = Vec::new();
    out.push("stream".to_string());
    out.push(peer_ip.to_string());
    out.push("--audio-on-host".to_string());
    out.push("--display-mode".to_string());
    out.push("windowed".to_string());
    assert(text::views(out@) =~= seq![
        "stream"@,
        peer_ip@,
        "--audio-on-host"@,
        "--display-mode"@,
        "windowed"@,
    ]);
    out
}

/// The error when the client does not start.
pub fn moonlight_error(words: &str) -> (r: OpenBoltError)
    ensures
        request::failed_with(r, "moonlight not found or failed to start: "@ + words@),
{
    OpenBoltError::CommandFailed(
        text::concat("moonlight not found or failed to start: ", words),
    )
}

// ------------------------------------------------------------------------- laws

/// The keys that a configuration is written with: they hold neither white space
/// nor equals signs.
pub open spec fn plain_key(key: Seq<char>) -> bool {
    &&& key.len() > 0
    &&& forall|i: int| 0 <= i < key.len() ==> #[trigger] key[i] != '=' && !text::is_white(key[i])
}

/// Every key of `updates` is a plain one.
pub open spec fn plain_keys(updates: Seq<(Seq<char>, Seq<char>)>) -> bool {
    forall|i: int| 0 <= i < updates.len() ==> plain_key((#[trigger] updates[i]).0)
}

/// No update from `i` on is of the key of the one at `i`, but for case.
pub open spec fn last_of_its_key(updates: Seq<(Seq<char>, Seq<char>)>, i: int) -> bool {
    forall|k: int|
        i < k < updates.len() ==> text::lower((#[trigger] updates[k]).0) != text::lower(
            updates[i].0,
        )
}

/// `key` is set, and the first line that sets it says `value`.
pub open spec fn has_setting(lines: Seq<Seq<char>>, key: Seq<char>, value: Seq<char>) -> bool {
    &&& first_setting(lines, key) < lines.len()
    &&& lines[first_setting(lines, key)] == setting(key, value)
}

proof fn lemma_follows_key(line: Seq<char>, key: Seq<char>)
    requires
        sets(line, key),
    ensures
        ({
            let t = text::lower(text::trim_start(line));
            let k = text::lower(key);
            &&& k.len() < t.len()
            &&& t.take(k.len() as int) == k
            &&& text::is_white(t[k.len() as int]) || t[k.len() as int] == '='
        }),
{
    let t = text::lower(text::trim_start(line));
    let k = text::lower(key);
    let rest = t.skip(k.len() as int);
    if rest.len() > 0 {
        assert(rest[0] == t[k.len() as int]);
        if !text::white()(rest[0]) {
            assert(text::trim_start(rest) == rest);
        }
    }
}

proof fn lemma_one_key(line: Seq<char>, a: Seq<char>, b: Seq<char>)
    requires
        plain_key(a),
        plain_key(b),
        sets(line, a),
        sets(line, b),
    ensures
        text::lower(a) == text::lower(b),
{
    lemma_follows_key(line, a);
    lemma_follows_key(line, b);
    let t = text::lower(text::trim_start(line));
    let x = text::lower(a);
    let y = text::lower(b);
    if x.len() < y.len() {
        assert(t[x.len() as int] == t.take(y.len() as int)[x.len() as int]);
        assert(y[x.len() as int] == text::lower_char(b[x.len() as int]));
        assert(b[x.len() as int] != '=' && !text::is_white(b[x.len() as int]));
    } else if y.len() < x.len() {
        assert(t[y.len() as int] == t.take(x.len() as int)[y.len() as int]);
        assert(x[y.len() as int] == text::lower_char(a[y.len() as int]));
        assert(a[y.len() as int] != '=' && !text::is_white(a[y.len() as int]));
    }
}

proof fn lemma_setting_sets(key: Seq<char>, value: Seq<char>)
    requires
        key.len() > 0 ==> !text::is_white(key[0]),
    ensures
        sets(setting(key, value), key),
{
    reveal_strlit(" = ");
    let line = setting(key, value);
    let n = key.len() as int;
    let t = text::lower(text::trim_start(line));
    if key.len() > 0 {
        assert(line[0] == key[0]);
        assert(text::trim_start(line) == line);
        assert(t.take(n) =~= text::lower(key));
        let rest = t.skip(n);
        assert(rest[0] == text::lower_char(line[n]) && line[n] == ' ');
        assert(rest[1] == text::lower_char(line[n + 1]) && line[n + 1] == '=');
        assert(text::white()(rest[0]));
        assert(text::trim_start(rest.skip(1)) == rest.skip(1));
    } else {
        let rest = line.skip(1);
        assert(line[0] == ' ' && rest[0] == '=');
        assert(text::white()(line[0]));
        assert(text::trim_start(rest) == rest);
        assert(text::trim_start(line) == rest);
        assert(t.take(0) =~= text::lower(key));
        assert(t.skip(0) =~= t);
        assert(text::trim_start(t) == t);
    }
}

/// A key that was set reads back: the first line that sets it is the new one.
pub proof fn law_setting_reads_back(lines: Seq<Seq<char>>, key: Seq<char>, value: Seq<char>)
    requires
        key.len() > 0 ==> !text::is_white(key[0]),
    ensures
        has_setting(with_setting(lines, key, value), key, value),
{
    lemma_first_setting(lines, key);
    lemma_setting_sets(key, value);
    let n = first_setting(lines, key);
    let now = with_setting(lines, key, value);
    assert forall|i: int| 0 <= i < n implies !sets(#[trigger] now[i], key) by {
        assert(now[i] == lines[i]);
    }
    lemma_first_setting_is(now, key, n);
}

proof fn lemma_other_setting(
    lines: Seq<Seq<char>>,
    key: Seq<char>,
    value: Seq<char>,
    other: Seq<char>,
    other_value: Seq<char>,
)
    requires
        plain_key(key),
        plain_key(other),
        text::lower(key) != text::lower(other),
        has_setting(lines, key, value),
    ensures
        has_setting(with_setting(lines, other, other_value), key, value),
{
    lemma_first_setting(lines, key);
    lemma_first_setting(lines, other);
    lemma_setting_sets(other, other_value);
    let n = first_setting(lines, key);
    let m = first_setting(lines, other);
    let now = with_setting(lines, other, other_value);
    if m < lines.len() {
        if m == n {
            lemma_one_key(lines[n], key, other);
        }
        if sets(setting(other, other_value), key) {
            lemma_one_key(setting(other, other_value), key, other);
        }
    }
    assert forall|i: int| 0 <= i < n implies !sets(#[trigger] now[i], key) by {
        if i != m {
            assert(now[i] == lines[i]);
        }
    }
    assert(now[n] == lines[n]);
    lemma_first_setting_is(now, key, n);
}

/// Every key that a configuration was patched with has its value afterwards,
/// whatever stood there before: the last value that was asked for.
pub proof fn law_every_setting_is_forced(
    lines: Seq<Seq<char>>,
    updates: Seq<(Seq<char>, Seq<char>)>,
    i: int,
)
    requires
        plain_keys(updates),
        0 <= i < updates.len(),
        last_of_its_key(updates, i),
    ensures
        has_setting(with_settings(lines, updates), updates[i].0, updates[i].1),
    decreases updates.len(),
{
    let before = updates.drop_last();
    let n = updates.len() - 1;
    assert forall|k: int| 0 <= k < before.len() implies #[trigger] before[k] == updates[k] by {}
    assert(plain_key(updates[n].0));
    if i == n {
        law_setting_reads_back(with_settings(lines, before), updates[n].0, updates[n].1);
    } else {
        assert forall|k: int| 0 <= k < before.len() implies plain_key((#[trigger] before[k]).0) by {
            assert(before[k] == updates[k]);
        }
        assert forall|k: int| i < k < before.len() implies text::lower((#[trigger] before[k]).0)
            != text::lower(before[i].0) by {
            assert(before[k] == updates[k]);
        }
        law_every_setting_is_forced(lines, before, i);
        assert(before[i] == updates[i]);
        assert(plain_key(updates[i].0));
        assert(text::lower(updates[i].0) != text::lower(updates[n].0));
        lemma_other_setting(
            with_settings(lines, before),
            updates[i].0,
            updates[i].1,
            updates[n].0,
            updates[n].1,
        );
    }
}

/// The host's address, port and log level are forced: the updates that
/// configure it have plain keys, no two of which are equal but for case.
pub proof fn law_host_settings_are_plain(local_ip: Seq<char>)
    ensures
        plain_keys(host_settings(local_ip)),
        forall|i: int|
            0 <= i < host_settings(local_ip).len() ==> #[trigger] last_of_its_key(
                host_settings(local_ip),
                i,
            ),
{
    reveal_strlit("address");
    reveal_strlit("port");
    reveal_strlit("min_log_level");
    let u = host_settings(local_ip);
    assert(u[0].0.len() == 7 && u[1].0.len() == 4 && u[2].0.len() == 13);
    assert(text::lower(u[0].0).len() == 7 && text::lower(u[1].0).len() == 4 && text::lower(
        u[2].0,
    ).len() == 13);
    assert forall|i: int| 0 <= i < u.len() implies plain_key((#[trigger] u[i]).0) by {
        if i == 0 {
        } else if i == 1 {
        } else {
            assert(i == 2);
        }
    }
}

/// A line that sets none of the keys keeps its place and its text.
pub proof fn law_other_lines_are_kept(
    lines: Seq<Seq<char>>,
    updates: Seq<(Seq<char>, Seq<char>)>,
    j: int,
)
    requires
        0 <= j < lines.len(),
        forall|i: int| 0 <= i < updates.len() ==> !sets(lines[j], (#[trigger] updates[i]).0),
    ensures
        with_settings(lines, updates).len() >= lines.len(),
        with_settings(lines, updates)[j] == lines[j],
    decreases updates.len(),
{
    if updates.len() > 0 {
        let before = updates.drop_last();
        assert forall|i: int| 0 <= i < before.len() implies !sets(
            lines[j],
            (#[trigger] before[i]).0,
        ) by {
            assert(before[i] == updates[i]);
        }
        law_other_lines_are_kept(lines, before, j);
        let now = with_settings(lines, before);
        let last = updates[updates.len() - 1];
        lemma_first_setting(now, last.0);
        assert(!sets(now[j], last.0));
    }
}

/// Patching the lines of a patched configuration once more changes nothing.
pub proof fn law_patching_lines_twice_changes_nothing(
    lines: Seq<Seq<char>>,
    updates: Seq<(Seq<char>, Seq<char>)>,
)
    requires
        plain_keys(updates),
    ensures
        with_settings(with_settings(lines, updates), updates) == with_settings(lines, updates),
{
    let now = with_settings(lines, updates);
    let n = updates.len() as int;
    lemma_patched_again(now, lines, updates, n);
    assert(updates.take(n) =~= updates);
    let again = with_settings(now, updates);
    assert forall|j: int| 0 <= j < now.len() implies again[j] == now[j] by {
        if again[j] != now[j] {
            let m = choose|m: int| changed_by(now, again, updates, n, m, j);
            assert(last_of_its_key(updates, m));
            law_every_setting_is_forced(lines, updates, m);
        }
    }
    assert(again =~= now);
}

/// The line at `j` of `again` is that of the update at `m`, which sets the line
/// at `j` of `now`, and is the last of its key among the first `n`.
spec fn changed_by(
    now: Seq<Seq<char>>,
    again: Seq<Seq<char>>,
    updates: Seq<(Seq<char>, Seq<char>)>,
    n: int,
    m: int,
    j: int,
) -> bool {
    &&& 0 <= m < n
    &&& first_setting(now, updates[m].0) == j
    &&& again[j] == setting(updates[m].0, updates[m].1)
    &&& last_of_its_key(updates.take(n), m)
}

proof fn lemma_same_key(lines: Seq<Seq<char>>, a: Seq<char>, b: Seq<char>)
    requires
        text::lower(a) == text::lower(b),
    ensures
        first_setting(lines, a) == first_setting(lines, b),
{
    lemma_first_setting(lines, a);
    assert forall|i: int| 0 <= i < first_setting(lines, a) implies !sets(#[trigger] lines[i], b) by {
        assert(!sets(lines[i], a));
    }
    lemma_first_setting_is(lines, b, first_setting(lines, a));
}

proof fn lemma_key_is_set(lines: Seq<Seq<char>>, updates: Seq<(Seq<char>, Seq<char>)>, i: int)
    requires
        plain_keys(updates),
        0 <= i < updates.len(),
    ensures
        first_setting(with_settings(lines, updates), updates[i].0) < with_settings(
            lines,
            updates,
        ).len(),
    decreases updates.len(),
{
    let before = updates.drop_last();
    let n = updates.len() - 1;
    let old_lines = with_settings(lines, before);
    let now = with_settings(lines, updates);
    assert(plain_key(updates[n].0) && plain_key(updates[i].0));
    if i == n {
        law_setting_reads_back(old_lines, updates[n].0, updates[n].1);
    } else {
        assert forall|k: int| 0 <= k < before.len() implies plain_key((#[trigger] before[k]).0) by {
            assert(before[k] == updates[k]);
        }
        lemma_key_is_set(lines, before, i);
        assert(before[i] == updates[i]);
        let key = updates[i].0;
        let j = first_setting(old_lines, key);
        lemma_first_setting(old_lines, key);
        lemma_first_setting(old_lines, updates[n].0);
        lemma_setting_sets(updates[n].0, updates[n].1);
        if first_setting(old_lines, updates[n].0) == j {
            lemma_one_key(old_lines[j], key, updates[n].0);
        } else {
            assert(now[j] == old_lines[j]);
        }
        assert(sets(now[j], key));
        lemma_first_setting(now, key);
        if first_setting(now, key) >= now.len() {
            assert(!sets(now[j], key));
        }
    }
}

proof fn lemma_patched_again(
    now: Seq<Seq<char>>,
    lines: Seq<Seq<char>>,
    updates: Seq<(Seq<char>, Seq<char>)>,
    n: int,
)
    requires
        plain_keys(updates),
        now == with_settings(lines, updates),
        0 <= n <= updates.len(),
    ensures
        with_settings(now, updates.take(n)).len() == now.len(),
        forall|j: int|
            0 <= j < now.len() && #[trigger] with_settings(now, updates.take(n))[j] != now[j]
                ==> exists|m: int|
                changed_by(now, with_settings(now, updates.take(n)), updates, n, m, j),
    decreases n,
{
    let again = with_settings(now, updates.take(n));
    if n > 0 {
        lemma_patched_again(now, lines, updates, n - 1);
        let some = updates.take(n);
        let fewer = updates.take(n - 1);
        assert(some.drop_last() =~= fewer);
        assert(some.last() == updates[n - 1]);
        let part = with_settings(now, fewer);
        let q = n - 1;
        let key = updates[n - 1].0;
        assert(plain_key(key));
        lemma_key_is_set(lines, updates, n - 1);
        let p = first_setting(now, key);
        lemma_first_setting(now, key);
        assert forall|j: int| 0 <= j < now.len() implies sets(#[trigger] part[j], key) == sets(
            now[j],
            key,
        ) by {
            if part[j] != now[j] {
                let m = choose|m: int| changed_by(now, part, updates, q, m, j);
                let other = updates[m].0;
                assert(plain_key(other));
                lemma_key_is_set(lines, updates, m);
                lemma_first_setting(now, other);
                lemma_setting_sets(other, updates[m].1);
                if text::lower(other) != text::lower(key) {
                    if sets(part[j], key) {
                        lemma_one_key(part[j], key, other);
                    }
                    if sets(now[j], key) {
                        lemma_one_key(now[j], key, other);
                    }
                }
            }
        }
        assert forall|i: int| 0 <= i < p implies !sets(#[trigger] part[i], key) by {
            assert(!sets(now[i], key));
        }
        assert(sets(part[p], key));
        lemma_first_setting_is(part, key, p);
        assert(again == part.update(p, setting(key, updates[n - 1].1)));
        assert forall|j: int| 0 <= j < now.len() && #[trigger] again[j] != now[j] implies exists|
            m: int,
        |
            changed_by(now, again, updates, n, m, j) by {
            if j == p {
                assert(changed_by(now, again, updates, n, n - 1, j));
            } else {
                assert(again[j] == part[j]);
                let m = choose|m: int| changed_by(now, part, updates, q, m, j);
                if text::lower(updates[m].0) == text::lower(key) {
                    lemma_same_key(now, updates[m].0, key);
                }
                assert forall|k: int| m < k < some.len() implies text::lower(
                    (#[trigger] some[k]).0,
                ) != text::lower(some[m].0) by {
                    if k < n - 1 {
                        assert(fewer[k] == some[k]);
                        assert(fewer[m] == some[m]);
                    }
                }
                assert(changed_by(now, again, updates, n, m, j));
            }
        }
    } else {
        assert(updates.take(0) =~= Seq::empty());
    }
}

/// What is written into a configuration fits on its lines.
pub open spec fn line_values(updates: Seq<(Seq<char>, Seq<char>)>) -> bool {
    forall|i: int|
        0 <= i < updates.len() ==> text::one_line((#[trigger] updates[i]).1) && (
        updates[i].1.len() > 0 ==> updates[i].1.last() != '\r')
}

proof fn lemma_setting_is_line(key: Seq<char>, value: Seq<char>)
    requires
        plain_key(key),
        text::one_line(value),
        value.len() > 0 ==> value.last() != '\r',
    ensures
        text::one_line(setting(key, value)),
        setting(key, value).len() > 0,
        setting(key, value).last() != '\r',
{
    reveal_strlit(" = ");
    let line = setting(key, value);
    let n = key.len() as int;
    assert forall|c: int| 0 <= c < line.len() implies #[trigger] line[c] != '\n' by {
        if c < n {
            assert(line[c] == key[c]);
            assert(!text::is_white(key[c]));
        } else if c < n + 3 {
            assert(line[c] == " = "@[c - n]);
        } else {
            assert(line[c] == value[c - n - 3]);
        }
    }
    if value.len() > 0 {
        assert(line.last() == value.last());
    } else {
        assert(line.last() == " = "@[2]);
    }
}

proof fn lemma_line_comes_from(
    lines: Seq<Seq<char>>,
    updates: Seq<(Seq<char>, Seq<char>)>,
    j: int,
)
    requires
        0 <= j < with_settings(lines, updates).len(),
    ensures
        with_settings(lines, updates).len() >= lines.len(),
        (j < lines.len() && with_settings(lines, updates)[j] == lines[j]) || exists|i: int|
            0 <= i < updates.len() && with_settings(lines, updates)[j] == setting(
                (#[trigger] updates[i]).0,
                updates[i].1,
            ),
    decreases updates.len(),
{
    if updates.len() > 0 {
        let before = updates.drop_last();
        let now = with_settings(lines, before);
        let last = updates[updates.len() - 1];
        lemma_first_setting(now, last.0);
        if now.len() > 0 {
            lemma_line_comes_from(lines, before, 0);
        } else {
            lemma_settings_grow(lines, before);
        }
        if j < now.len() && j != first_setting(now, last.0) {
            lemma_line_comes_from(lines, before, j);
            if !(j < lines.len() && now[j] == lines[j]) {
                let i = choose|i: int|
                    0 <= i < before.len() && now[j] == setting(
                        (#[trigger] before[i]).0,
                        before[i].1,
                    );
                assert(before[i] == updates[i]);
            }
        } else {
            assert(with_settings(lines, updates)[j] == setting(last.0, last.1));
        }
    }
}

proof fn lemma_settings_grow(lines: Seq<Seq<char>>, updates: Seq<(Seq<char>, Seq<char>)>)
    ensures
        with_settings(lines, updates).len() >= lines.len(),
    decreases updates.len(),
{
    if updates.len() > 0 {
        let before = with_settings(lines, updates.drop_last());
        lemma_settings_grow(lines, updates.drop_last());
        lemma_first_setting(before, updates.last().0);
    }
}

proof fn lemma_patched_lines_read_back(content: Seq<char>, updates: Seq<(Seq<char>, Seq<char>)>)
    requires
        plain_keys(updates),
        line_values(updates),
        clean_text(content),
        updates.len() > 0 || text::lines(content) != seq![Seq::<char>::empty()],
    ensures
        ({
            let now = with_settings(text::lines(content), updates);
            text::lines(text::join(now, seq!['\n'])) == now
        }),
{
    let first = text::lines(content);
    let now = with_settings(first, updates);
    let nl = seq!['\n'];
    assert forall|j: int| 0 <= j < now.len() implies text::one_line(#[trigger] now[j]) && (
    now[j].len() > 0 ==> now[j].last() != '\r') && (j == now.len() - 1 ==> now[j].len() > 0) by {
        lemma_line_comes_from(first, updates, j);
        if j < first.len() && now[j] == first[j] {
            text::lemma_lines_are_one_line(content, j);
            if j == now.len() - 1 && now[j].len() == 0 {
                assert(first.len() == 1);
                assert(first[0] =~= Seq::empty());
                assert(first =~= seq![Seq::<char>::empty()]);
                let i = updates.len() - 1;
                lemma_key_is_set(first, updates, i);
                lemma_first_setting(now, updates[i].0);
                assert(sets(now[0], updates[i].0));
                lemma_follows_key(now[0], updates[i].0);
            }
        } else {
            let i = choose|i: int|
                0 <= i < updates.len() && now[j] == setting((#[trigger] updates[i]).0, updates[i].1);
            assert(plain_key(updates[i].0));
            lemma_setting_is_line(updates[i].0, updates[i].1);
        }
    }
    text::lemma_joined_lines_read_back(now);
    assert(text::lines(text::join(now, nl)) =~= now);
}

/// A text whose lines are read as they were written: none of them ends in a
/// carriage return, and the last of several is not empty.
pub open spec fn clean_text(content: Seq<char>) -> bool {
    &&& forall|i: int|
        0 <= i < text::lines(content).len() ==> ((#[trigger] text::lines(content)[i]).len() > 0
            ==> text::lines(content)[i].last() != '\r')
    &&& text::lines(content).len() > 1 ==> text::lines(content).last().len() > 0
}

/// Patching a patched configuration once more changes nothing.
pub proof fn law_patching_twice_changes_nothing(
    content: Seq<char>,
    updates: Seq<(Seq<char>, Seq<char>)>,
)
    requires
        plain_keys(updates),
        line_values(updates),
        clean_text(content),
    ensures
        patched(patched(content, updates), updates) == patched(content, updates),
{
    let first = text::lines(content);
    if updates.len() == 0 && first == seq![Seq::<char>::empty()] {
        assert(text::join(first, seq!['\n']) == Seq::<char>::empty());
        assert(patched(content, updates) == Seq::<char>::empty());
        assert(text::lines(Seq::<char>::empty()) == Seq::<Seq<char>>::empty());
    } else {
        lemma_patched_lines_read_back(content, updates);
        law_patching_lines_twice_changes_nothing(text::lines(content), updates);
    }
}

proof fn lemma_stripped_line_sets(line: Seq<char>, key: Seq<char>)
    requires
        sets(text::strip_cr(line), key),
    ensures
        sets(line, key),
{
    if line.len() > 0 && line.last() == '\r' {
        text::lemma_trim_start_prefix(line);
        let t = text::lower(text::trim_start(line));
        let f = text::lower(text::trim_start(line.drop_last()));
        let n = text::lower(key).len() as int;
        assert(t.take(f.len() as int) =~= f);
        assert(t.take(n) =~= f.take(n));
        if t.len() > f.len() {
            lemma_trim_start_len(line);
            assert(t.drop_last() =~= f);
            let rest = t.skip(n);
            text::lemma_trim_start_prefix(rest);
            assert(rest.drop_last() =~= f.skip(n));
            let shorter = text::trim_start(f.skip(n));
            assert(text::trim_start(rest).take(shorter.len() as int)[0] == shorter[0]);
            assert(text::trim_start(rest)[0] == '=');
        } else {
            assert(t =~= f);
        }
    }
}

proof fn lemma_trim_start_len(s: Seq<char>)
    requires
        s.len() > 0,
    ensures
        text::trim_start(s).len() <= text::trim_start(s.drop_last()).len() + 1,
    decreases s.len(),
{
    let t = s.drop_last();
    if text::white()(s[0]) && s.len() > 1 {
        lemma_trim_start_len(s.skip(1));
        assert(s.skip(1).drop_last() =~= t.skip(1));
        assert(t[0] == s[0]);
    } else if s.len() > 1 {
        assert(t[0] == s[0]);
        assert(text::trim_start(s) == s);
        assert(text::trim_start(t) == t);
    } else if text::white()(s[0]) {
        assert(text::trim_start(s) == text::trim_start(s.skip(1)));
        assert(s.skip(1) =~= Seq::empty());
    } else {
        assert(text::trim_start(s) == s);
    }
}

/// What was written is read back: in the text of the new configuration the
/// host's address, port and log level have the values that were asked for,
/// whatever was there before. The address is one that fits on a line.
pub proof fn law_written_configuration_reads_back(
    existing: Seq<char>,
    local_ip: Seq<char>,
    i: int,
)
    requires
        text::one_line(local_ip),
        local_ip.len() > 0 ==> local_ip.last() != '\r',
        0 <= i < host_settings(local_ip).len(),
    ensures
        has_setting(
            text::lines(patched(existing, host_settings(local_ip))),
            host_settings(local_ip)[i].0,
            host_settings(local_ip)[i].1,
        ),
{
    let u = host_settings(local_ip);
    let before = text::lines(existing);
    let now = with_settings(before, u);
    law_host_settings_are_plain(local_ip);
    law_every_setting_is_forced(before, u, i);
    reveal_strlit("47989");
    reveal_strlit("1");
    assert(line_values(u)) by {
        assert forall|k: int| 0 <= k < u.len() implies text::one_line((#[trigger] u[k]).1) && (
        u[k].1.len() > 0 ==> u[k].1.last() != '\r') by {
            if k == 0 {
            } else if k == 1 {
            } else {
                assert(k == 2);
            }
        }
    }
    assert forall|j: int| 0 <= j < now.len() implies text::one_line(#[trigger] now[j]) by {
        lemma_line_comes_from(before, u, j);
        if j < before.len() && now[j] == before[j] {
            text::lemma_lines_are_one_line(existing, j);
        } else {
            let k = choose|k: int|
                0 <= k < u.len() && now[j] == setting((#[trigger] u[k]).0, u[k].1);
            assert(plain_key(u[k].0));
            lemma_setting_is_line(u[k].0, u[k].1);
        }
    }
    text::lemma_joined_lines_read_back(now);
    let read = text::lines(text::join(now, seq!['\n']));
    let key = u[i].0;
    assert(plain_key(key));
    lemma_setting_is_line(key, u[i].1);
    lemma_first_setting(now, key);
    let n = first_setting(now, key);
    assert(n < read.len());
    assert(read[n] == now[n]);
    assert forall|j: int| 0 <= j < n implies !sets(#[trigger] read[j], key) by {
        if sets(read[j], key) {
            lemma_stripped_line_sets(now[j], key);
        }
    }
    lemma_first_setting_is(read, key, n);
}

/// A line gives a value to a key where the key stands in it, in letters of
/// either case, perhaps after white space, and an equals sign follows, perhaps
/// after more; what follows the sign does not matter.
pub proof fn law_line_that_sets_a_key(
    head: Seq<char>,
    word: Seq<char>,
    gap: Seq<char>,
    rest: Seq<char>,
    key: Seq<char>,
)
    requires
        forall|i: int| 0 <= i < head.len() ==> text::is_white(#[trigger] head[i]),
        forall|i: int| 0 <= i < gap.len() ==> text::is_white(#[trigger] gap[i]),
        text::same_ignoring_case(word, key),
        plain_key(key),
    ensures
        sets(head + (word + (gap + (seq!['='] + rest))), key),
{
    let value = seq!['='] + rest;
    let core = word + (gap + value);
    text::law_same_but_for_case(word, key);
    assert(word.len() == key.len());
    assert(word[0] == word[0] && !text::is_white(key[0]));
    assert(core[0] == word[0]);
    text::law_leading_white_space_goes(head, core);
    let t = text::lower(core);
    let n = key.len() as int;
    assert(t.take(n) =~= text::lower(word));
    assert(t.skip(n) =~= text::lower(gap) + text::lower(value));
    let g = text::lower(gap);
    assert forall|i: int| 0 <= i < g.len() implies text::is_white(#[trigger] g[i]) by {
        assert(text::is_white(gap[i]));
    }
    assert(text::lower(value)[0] == '=');
    text::law_leading_white_space_goes(g, text::lower(value));
}

/// A line gives a value to a key only where it begins, after white space, with
/// the key, in letters of either case, and only white space stands between the
/// key and an equals sign.
pub proof fn law_line_sets_only_its_key(line: Seq<char>, key: Seq<char>) -> (parts: (
    Seq<char>,
    Seq<char>,
    Seq<char>,
    Seq<char>,
))
    requires
        sets(line, key),
    ensures
        line == parts.0 + (parts.1 + (parts.2 + (seq!['='] + parts.3))),
        forall|i: int| 0 <= i < parts.0.len() ==> text::is_white(#[trigger] parts.0[i]),
        text::same_ignoring_case(parts.1, key),
        forall|i: int| 0 <= i < parts.2.len() ==> text::is_white(#[trigger] parts.2[i]),
{
    let head = text::law_text_without_leading_white_space(line);
    let core = text::trim_start(line);
    let t = text::lower(core);
    let n = key.len() as int;
    assert(text::lower(key).len() == n);
    let word = core.take(n);
    assert(text::lower(word) =~= t.take(n));
    let after = t.skip(n);
    let white = text::law_text_without_leading_white_space(after);
    let m = white.len() as int;
    let gap = core.subrange(n, n + m);
    let rest = core.skip(n + m + 1);
    assert(after.len() == core.len() - n);
    assert(after[m] == text::trim_start(after)[0]);
    assert(t[n + m] == '=');
    assert(core[n + m] == '=');
    assert forall|i: int| 0 <= i < gap.len() implies text::is_white(#[trigger] gap[i]) by {
        assert(white[i] == after[i]);
        assert(after[i] == text::lower_char(core[n + i]));
        assert(text::is_white(white[i]));
        assert(gap[i] == core[n + i]);
    }
    assert(core =~= word + (gap + (seq!['='] + rest)));
    (head, word, gap, rest)
}

/// To give a key a value changes one line: the first that sets it, in its place,
/// or a new one at the end where none does. It reads as the key, an equals sign
/// between blanks, and the value.
pub proof fn law_setting_changes_one_line(lines: Seq<Seq<char>>, key: Seq<char>, value: Seq<char>, i: int)
    requires
        0 <= i < lines.len(),
    ensures
        (forall|k: int| 0 <= k < lines.len() ==> !sets(#[trigger] lines[k], key)) ==> with_setting(
            lines,
            key,
            value,
        ) == lines.push(key + " = "@ + value),
        sets(lines[i], key) && (forall|k: int| 0 <= k < i ==> !sets(#[trigger] lines[k], key))
            ==> with_setting(lines, key, value) == lines.update(i, key + " = "@ + value),
{
    if forall|k: int| 0 <= k < lines.len() ==> !sets(#[trigger] lines[k], key) {
        lemma_first_setting_is(lines, key, lines.len() as int);
    }
    if sets(lines[i], key) && (forall|k: int| 0 <= k < i ==> !sets(#[trigger] lines[k], key)) {
        lemma_first_setting_is(lines, key, i);
    }
}

/// The host is bound to the address that is asked for, at its usual port, and
/// logs little.
pub proof fn law_host_is_bound(local_ip: Seq<char>)
    ensures
        host_settings(local_ip).contains(("address"@, local_ip)),
        host_settings(local_ip).contains(("port"@, "47989"@)),
        host_settings(local_ip).contains(("min_log_level"@, "1"@)),
        host_settings(local_ip).len() == 3,
{
    let h = host_settings(local_ip);
    assert(h[0] == ("address"@, local_ip));
    assert(h[1] == ("port"@, "47989"@));
    assert(h[2] == ("min_log_level"@, "1"@));
}

/// The place that is picked is the first that is there; none is only where none
/// is.
pub proof fn law_first_present_is_picked(candidates: Seq<Seq<char>>, present: Seq<bool>)
    requires
        present.len() == candidates.len(),
    ensures
        match first_present(candidates, present) {
            Some(c) => exists|i: int|
                #![trigger present[i]]
                0 <= i < candidates.len() && present[i] && c == candidates[i] && forall|k: int|
                    0 <= k < i ==> !#[trigger] present[k],
            None => forall|k: int| 0 <= k < present.len() ==> !#[trigger] present[k],
        },
    decreases candidates.len(),
{
    if candidates.len() > 0 && !present[0] {
        let t = candidates.skip(1);
        let p = present.skip(1);
        law_first_present_is_picked(t, p);
        match first_present(t, p) {
            Some(c) => {
                let i = choose|i: int|
                    #![trigger p[i]]
                    0 <= i < t.len() && p[i] && c == t[i] && forall|k: int|
                        0 <= k < i ==> !#[trigger] p[k];
                assert forall|k: int| 0 <= k < i + 1 implies !#[trigger] present[k] by {
                    if k > 0 {
                        assert(present[k] == p[k - 1]);
                    }
                }
                assert(present[i + 1] == p[i]);
            },
            None => {
                assert forall|k: int| 0 <= k < present.len() implies !#[trigger] present[k] by {
                    if k > 0 {
                        assert(present[k] == p[k - 1]);
                    }
                }
            },
        }
    }
}

/// What a configuration says after it was patched: its lines, each as it was or
/// as it was set, joined by line feeds.
pub proof fn law_patched_text(content: Seq<char>, key: Seq<char>, value: Seq<char>)
    ensures
        patched(content, seq![(key, value)]) == text::join(
            with_setting(text::lines(content), key, value),
            seq!['\n'],
        ),
        patched(content, Seq::<(Seq<char>, Seq<char>)>::empty()) == text::join(
            text::lines(content),
            seq!['\n'],
        ),
{
    let u = seq![(key, value)];
    assert(u.drop_last() =~= Seq::empty());
    assert(with_settings(text::lines(content), u.drop_last()) == text::lines(content));
}

/// What is said of updates is what they hold, one for each.
pub proof fn law_update_is_seen_as_it_is(updates: Seq<(&str, &str)>, i: int)
    requires
        0 <= i < updates.len(),
    ensures
        update_views(updates).len() == updates.len(),
        update_views(updates)[i] == (updates[i].0@, updates[i].1@),
{
}

} // verus!
