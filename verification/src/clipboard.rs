//! Files on the clipboard: which they are, when they are sent to the peer, and
//! where to.

use vstd::prelude::*;

use crate::error::OpenBoltError;
use crate::error::OpenBoltResult;
use crate::file_api;
use crate::paths;
use crate::sync_engine::request;
use crate::sync_engine::request::PeerRequest;
use crate::text;
use crate::url;

verus! {

// ------------------------------------------------------------------- the folder

/// The folder of the user, as far as the environment tells.
pub open spec fn home_or_here(home: Option<Seq<char>>, profile: Option<Seq<char>>) -> Seq<char> {
    match (home, profile) {
        (Some(h), _) => h,
        (None, Some(p)) => p,
        (None, None) => "."@,
    }
}

/// `r` is the folder below `home` in which files from a clipboard are put.
pub open spec fn temp_below(r: Seq<char>, home: Seq<char>) -> bool {
    paths::joinable(home) ==> exists|folder: Seq<char>|
        #[trigger] paths::joined(folder, home, ".openbolt"@) && paths::joined(r, folder, "temp"@)
}

/// The folder below the user's in which files from a clipboard are put.
pub fn default_clipboard_temp_dir(home: Option<String>, profile: Option<String>) -> (r: String)
    ensures
        temp_below(r@, home_or_here(text::optional(home), text::optional(profile))),
{
    let base: String = match home {
        Some(h) => h,
        None => match profile {
            Some(p) => p,
            None => ".".to_string(),
        },
    };
    let folder: String = paths::join_path(base.as_str(), ".openbolt");
    let dir: String = paths::join_path(folder.as_str(), "temp");
    proof {
        reveal_strlit(".openbolt");
        reveal_strlit("temp");
        if paths::joinable(base@) {
            assert(paths::joined(folder@, base@, ".openbolt"@));
            paths::lemma_joined_is_joinable(folder@, base@, ".openbolt"@);
        }
    }
    dir
}

/// How a peer is asked for its folder of clipboard files: the tilde stands for
/// the folder of its own user.
pub const PEER_TEMP_DIR: &'static str = "~/.openbolt/temp";

/// The folder that files are sent into: the one that is asked for, or the
/// peer's folder of clipboard files where it is blank or absent.
pub open spec fn target(dest_dir: Option<Seq<char>>) -> Seq<char> {
    match dest_dir {
        Some(d) => if text::trim(d).len() > 0 {
            d
        } else {
            PEER_TEMP_DIR@
        },
        None => PEER_TEMP_DIR@,
    }
}

/// The folder that files are sent into.
pub fn target_dir(dest_dir: Option<&str>) -> (r: String)
    ensures
        r@ == target(text::optional_str(dest_dir)),
{
    match dest_dir {
        Some(d) => {
            if text::trim_text(d).as_str().is_empty() {
                PEER_TEMP_DIR.to_string()
            } else {
                d.to_string()
            }
        },
        None => PEER_TEMP_DIR.to_string(),
    }
}

/// The folder that a machine stores an upload in: the one that is asked for, and
/// its own folder of clipboard files where it is asked for that. `home` and
/// `profile` are what its environment tells of its user's folder.
pub fn received_dir(asked: String, home: Option<String>, profile: Option<String>) -> (r: String)
    ensures
        asked@ == PEER_TEMP_DIR@ ==> temp_below(
            r@,
            home_or_here(text::optional(home), text::optional(profile)),
        ),
        asked@ != PEER_TEMP_DIR@ ==> r@ == asked@,
{
    if text::same_text(asked.as_str(), PEER_TEMP_DIR) {
        default_clipboard_temp_dir(home, profile)
    } else {
        asked
    }
}

/// The peer that files are sent to, unless its address is blank.
pub fn peer_or_none(peer_ip: String) -> (r: Option<String>)
    ensures
        text::optional(r) == if text::trim(peer_ip@).len() == 0 {
            None
        } else {
            Some(peer_ip@)
        },
{
    if text::trim_text(peer_ip.as_str()).as_str().is_empty() {
        None
    } else {
        Some(peer_ip)
    }
}

// -------------------------------------------------------------------- the watch

/// What a watch over the clipboard remembers: the files that it saw last.
#[derive(Debug)]
pub struct ClipboardWatch {
    pub last_files: Vec<String>,
}

/// What is done about the files on the clipboard.
#[derive(Clone, Copy, Debug, PartialEq, Eq, Structural)]
pub struct ClipboardStep {
    /// Tell that other files are there.
    pub announce: bool,
    /// Send the files to the peer.
    pub upload: bool,
}

fn same_texts(a: &Vec<String>, b: &Vec<String>) -> (r: bool)
    ensures
        r == (text::views(a@) == text::views(b@)),
{
    let ghost va = text::views(a@);
    let ghost vb = text::views(b@);
    if a.len() != b.len() {
        assert(va.len() != vb.len());
        return false;
    }
    let mut i: usize = 0;
    while i < a.len()
        invariant
            i <= a@.len(),
            a@.len() == b@.len(),
            va == text::views(a@),
            vb == text::views(b@),
            forall|k: int| 0 <= k < i ==> #[trigger] va[k] == vb[k],
        decreases a@.len() - i,
    {
        assert(va[i as int] == a@[i as int]@ && vb[i as int] == b@[i as int]@);
        if !text::same_text(a[i].as_str(), b[i].as_str()) {
            assert(va[i as int] != vb[i as int]);
            return false;
        }
        i = i + 1;
    }
    assert(va =~= vb);
    true
}

impl ClipboardWatch {
    /// A watch that has seen no files.
    pub fn new() -> (r: ClipboardWatch)
        ensures
            r.last_files@.len() == 0,
    {
        ClipboardWatch { last_files: Vec::new() }
    }

    /// Looks at the files that are on the clipboard now: other files than
    /// before are announced, and sent where there are any and there is a peer.
    pub fn tick(&mut self, current: &Vec<String>, has_peer: bool) -> (r: ClipboardStep)
        ensures
            r.announce == (text::views(current@) != text::views(old(self).last_files@)),
            r.upload == (r.announce && current@.len() > 0 && has_peer),
            text::views(final(self).last_files@) == text::views(current@),
    {
        if same_texts(current, &self.last_files) {
            return ClipboardStep { announce: false, upload: false };
        }
        let upload: bool = current.len() > 0 && has_peer;
        let mut seen: Vec<String> = Vec::new();
        let mut i: usize = 0;
        while i < current.len()
            invariant
                i <= current@.len(),
                text::views(seen@) == text::views(current@).take(i as int),
            decreases current@.len() - i,
        {
            let ghost before = seen@;
            let file: String = current[i].clone();
            proof {
                text::lemma_views_push(before, file);
                assert(text::views(current@).take(i + 1) =~= text::views(current@).take(
                    i as int,
                ).push(file@));
            }
            seen.push(file);
            i = i + 1;
        }
        assert(text::views(current@).take(i as int) =~= text::views(current@));
        self.last_files = seen;
        ClipboardStep { announce: true, upload }
    }
}

// ----------------------------------------------------------------- what is there

/// A unit that begins a pair.
pub open spec fn is_high(u: u16) -> bool {
    0xd800 <= u <= 0xdbff
}

/// A unit that ends a pair.
pub open spec fn is_low(u: u16) -> bool {
    0xdc00 <= u <= 0xdfff
}

/// The text of a row of UTF-16 units, where they are one.
pub open spec fn utf16(units: Seq<u16>) -> Option<Seq<char>>
    decreases units.len(),
{
    if units.len() == 0 {
        Some(Seq::empty())
    } else if is_high(units[0]) && units.len() > 1 && is_low(units[1]) {
        match utf16(units.skip(2)) {
            Some(rest) => Some(
                seq![(0x10000 + (units[0] - 0xd800) * 0x400 + (units[1] - 0xdc00)) as char] + rest,
            ),
            None => None,
        }
    } else if is_high(units[0]) || is_low(units[0]) {
        None
    } else {
        match utf16(units.skip(1)) {
            Some(rest) => Some(seq![units[0] as char] + rest),
            None => None,
        }
    }
}

/// Calls `String::from_utf16_lossy`, which gives the text of UTF-16 units. Where
/// they are none, replacement characters stand for what cannot be read, and
/// nothing is said of the result.
#[verifier::external_body]
fn from_utf16(units: &[u16]) -> (r: String)
    ensures
        utf16(units@) matches Some(s) ==> r@ == s,
{
    String::from_utf16_lossy(units)
}

/// The position of the first zero in `units`, or their number.
pub open spec fn first_zero(units: Seq<u16>) -> nat
    decreases units.len(),
{
    if units.len() == 0 || units[0] == 0 {
        0
    } else {
        1 + first_zero(units.skip(1))
    }
}

/// `units` hold a list of texts: each ends in a zero, and an empty text ends
/// the list.
pub open spec fn is_list(units: Seq<u16>) -> bool
    decreases units.len(),
{
    let n = first_zero(units);
    if n >= units.len() {
        false
    } else if n == 0 {
        true
    } else {
        is_list(units.skip(n as int + 1))
    }
}

/// The texts of a list, each in its units.
pub open spec fn listed(units: Seq<u16>) -> Seq<Seq<u16>>
    decreases units.len(),
{
    let n = first_zero(units);
    if n == 0 || n >= units.len() {
        Seq::empty()
    } else {
        seq![units.take(n as int)] + listed(units.skip(n as int + 1))
    }
}

/// `r` are the texts of `parts`, where these are texts.
pub open spec fn reads(r: Seq<Seq<char>>, parts: Seq<Seq<u16>>) -> bool {
    &&& r.len() == parts.len()
    &&& forall|i: int|
        0 <= i < parts.len() ==> (utf16(#[trigger] parts[i]) matches Some(s) ==> r[i] == s)
}

proof fn lemma_first_zero_is(units: Seq<u16>, n: int)
    requires
        0 <= n <= units.len(),
        forall|i: int| 0 <= i < n ==> #[trigger] units[i] != 0,
        n < units.len() ==> units[n] == 0,
    ensures
        first_zero(units) == n,
    decreases n,
{
    if n > 0 {
        let t = units.skip(1);
        assert forall|i: int| 0 <= i < n - 1 implies #[trigger] t[i] != 0 by {
            assert(t[i] == units[i + 1]);
        }
        lemma_first_zero_is(t, n - 1);
    }
}

fn zero_from(units: &Vec<u16>, start: usize) -> (r: usize)
    requires
        start <= units@.len(),
    ensures
        r - start == first_zero(units@.skip(start as int)),
        start <= r <= units@.len(),
{
    let mut end: usize = start;
    let ghost t = units@.skip(start as int);
    while end < units.len() && units[end] != 0
        invariant
            start <= end <= units@.len(),
            t == units@.skip(start as int),
            forall|i: int| 0 <= i < end - start ==> #[trigger] t[i] != 0,
        decreases units@.len() - end,
    {
        assert(t[end - start] == units@[end as int]);
        end = end + 1;
    }
    proof {
        if end < units@.len() {
            assert(t[end - start] == units@[end as int]);
        }
        lemma_first_zero_is(t, end - start);
    }
    end
}

/// Whether the data of a dropped list is one.
pub fn is_drop_list(units: &Vec<u16>) -> (r: bool)
    ensures
        r == is_list(units@),
{
    let mut start: usize = 0;
    assert(units@.skip(0) =~= units@);
    loop
        invariant
            start <= units@.len(),
            is_list(units@) == is_list(units@.skip(start as int)),
        decreases units@.len() - start,
    {
        let end: usize = zero_from(units, start);
        if end >= units.len() {
            return false;
        }
        if end == start {
            return true;
        }
        assert(units@.skip(start as int).skip(end - start + 1) =~= units@.skip(end + 1));
        start = end + 1;
    }
}

/// The paths in the data of a dropped list.
pub fn drop_list_paths(units: &Vec<u16>) -> (r: Vec<String>)
    requires
        is_list(units@),
    ensures
        reads(text::views(r@), listed(units@)),
{
    let mut out: Vec<String> = Vec::new();
    let mut start: usize = 0;
    let ghost mut parts: Seq<Seq<u16>> = Seq::empty();
    assert(units@.skip(0) =~= units@);
    assert(parts + listed(units@) =~= listed(units@));
    loop
        invariant
            start <= units@.len(),
            is_list(units@.skip(start as int)),
            parts + listed(units@.skip(start as int)) == listed(units@),
            reads(text::views(out@), parts),
        decreases units@.len() - start,
    {
        let end: usize = zero_from(units, start);
        if end == start || end >= units.len() {
            assert(parts + Seq::<Seq<u16>>::empty() =~= parts);
            return out;
        }
        let ghost t = units@.skip(start as int);
        let ghost before = out@;
        let name: String = from_utf16(vstd::slice::slice_subrange(units.as_slice(), start, end));
        proof {
            let part = t.take(end - start);
            assert(units@.subrange(start as int, end as int) =~= part);
            assert(t.skip(end - start + 1) =~= units@.skip(end + 1));
            text::lemma_views_push(before, name);
            assert(parts.push(part) + listed(units@.skip(end + 1)) =~= parts + listed(t));
            let r = text::views(before).push(name@);
            let p = parts.push(part);
            assert forall|i: int| 0 <= i < p.len() implies (utf16(#[trigger] p[i]) matches Some(s)
                ==> r[i] == s) by {
                if i < parts.len() {
                    assert(p[i] == parts[i]);
                    assert(r[i] == text::views(before)[i]);
                }
            }
            parts = p;
        }
        out.push(name);
        start = end + 1;
    }
}

/// The paths among the lines that the script on macOS writes: those that start
/// at the root.
pub open spec fn rooted_lines(lines: Seq<Seq<char>>) -> Seq<Seq<char>>
    decreases lines.len(),
{
    if lines.len() == 0 {
        Seq::empty()
    } else {
        let before = rooted_lines(lines.drop_last());
        let line = text::trim(lines.last());
        if line.len() > 0 && line[0] == '/' {
            before.push(line)
        } else {
            before
        }
    }
}

/// The paths in what the script on macOS writes.
pub fn script_paths(output: &str) -> (r: Vec<String>)
    ensures
        text::views(r@) == rooted_lines(text::lines(output@)),
{
    let lines: Vec<String> = text::lines_of(output);
    let ghost all = text::views(lines@);
    let mut out: Vec<String> = Vec::new();
    let mut i: usize = 0;
    assert(text::views(out@) =~= rooted_lines(all.take(0)));
    while i < lines.len()
        invariant
            i <= lines@.len(),
            all == text::views(lines@),
            text::views(out@) == rooted_lines(all.take(i as int)),
        decreases lines@.len() - i,
    {
        let line: String = text::trim_text(lines[i].as_str());
        let ghost before = out@;
        proof {
            assert(all.take(i + 1).drop_last() =~= all.take(i as int));
            assert(all.take(i + 1).last() == lines@[i as int]@);
            text::lemma_views_push(before, line);
            reveal_strlit("/");
            if line@.len() > 0 && line@[0] == '/' {
                assert(line@.take(1) =~= "/"@);
            } else if line@.len() > 0 && text::begins(line@, "/"@) {
                assert(line@.take(1)[0] == line@[0]);
            }
        }
        if text::begins_with(line.as_str(), "/") {
            out.push(line);
        }
        i = i + 1;
    }
    assert(all.take(i as int) =~= all);
    out
}

/// The script that puts a file on the clipboard of macOS.
pub fn copy_script(path: &str) -> (r: String)
    ensures
        r@ == "set the clipboard to (POSIX file \""@ + path@ + "\" as alias)"@,
{
    let mut out: String = "set the clipboard to (POSIX file \"".to_string();
    out.append(path);
    out.append("\" as alias)");
    out
}

/// What comes of a run of that script.
pub fn copy_result(success: bool) -> (r: OpenBoltResult<()>)
    ensures
        match r {
            Ok(_) => success,
            Err(e) => !success && request::failed_with(e, "the clipboard was not set"@),
        },
{
    if success {
        Ok(())
    } else {
        Err(OpenBoltError::CommandFailed("the clipboard was not set".to_string()))
    }
}

// ----------------------------------------------------------------------- sending

/// The name under which a file from the clipboard is sent.
pub open spec fn sent_name(name: Option<Seq<char>>) -> Seq<char> {
    match name {
        Some(n) => n,
        None => "clipboard_file"@,
    }
}

/// The request that sends a file from the clipboard into `dest_dir`, under the
/// given name, or under a name of the library's own where there is none.
pub fn plan_upload_as(
    peer_ip: &str,
    dest_dir: &str,
    api_token: Option<&str>,
    path: &str,
    name: Option<String>,
) -> (r: PeerRequest)
    ensures
        r@ == request::upload_request(
            peer_ip@,
            dest_dir@,
            path@,
            sent_name(text::optional(name)),
            text::optional_str(api_token),
        ),
{
    let file_name: String = match name {
        Some(n) => n,
        None => "clipboard_file".to_string(),
    };
    request::request_upload(peer_ip, dest_dir, path, file_name.as_str(), api_token)
}

/// The request that sends a file from the clipboard into `dest_dir`, under its
/// own name.
pub fn plan_clipboard_upload(
    peer_ip: &str,
    dest_dir: &str,
    api_token: Option<&str>,
    path: &str,
) -> (r: PeerRequest)
    ensures
        exists|name: Option<Seq<char>>|
            #[trigger] paths::named(name, path@) && r@ == request::upload_request(
                peer_ip@,
                dest_dir@,
                path@,
                sent_name(name),
                text::optional_str(api_token),
            ),
{
    let name = paths::file_name_of(path);
    assert(paths::named(text::optional(name), path@));
    plan_upload_as(peer_ip, dest_dir, api_token, path, name)
}

/// What came of sending one path.
#[derive(Clone, Copy, Debug, PartialEq, Eq, Structural)]
pub enum Sending {
    /// It is no file, or cannot be read.
    PassedOver,
    /// The peer did not answer, or refused it.
    NotTaken,
    Taken,
}

/// The number of files that were sent.
pub open spec fn taken(outcomes: Seq<Sending>) -> nat
    decreases outcomes.len(),
{
    if outcomes.len() == 0 {
        0
    } else {
        taken(outcomes.drop_last()) + if outcomes.last() is Taken {
            1nat
        } else {
            0nat
        }
    }
}

/// The number of files that the peer has taken.
pub fn upload_clipboard_files(outcomes: &Vec<Sending>) -> (sent: usize)
    ensures
        sent == taken(outcomes@),
        sent <= outcomes@.len(),
{
    let mut sent: usize = 0;
    let mut i: usize = 0;
    while i < outcomes.len()
        invariant
            i <= outcomes@.len(),
            sent <= i,
            sent == taken(outcomes@.take(i as int)),
        decreases outcomes@.len() - i,
    {
        proof {
            assert(outcomes@.take(i + 1).drop_last() =~= outcomes@.take(i as int));
            assert(outcomes@.take(i + 1).last() == outcomes@[i as int]);
        }
        if outcomes[i] == Sending::Taken {
            sent = sent + 1;
        }
        i = i + 1;
    }
    assert(outcomes@.take(i as int) =~= outcomes@);
    sent
}

// ------------------------------------------------------------------------- laws

/// Files that are sent without a folder go to the peer's own: the request asks
/// the peer for its folder of clipboard files.
pub proof fn law_clipboard_files_go_to_the_peers_folder(
    dest_dir: Option<Seq<char>>,
    peer: Seq<char>,
    path: Seq<char>,
    name: Option<Seq<char>>,
    token: Option<Seq<char>>,
)
    requires
        dest_dir matches Some(d) ==> text::trim(d).len() == 0,
        !peer.contains('?'),
    ensures
        file_api::asked_path(
            url::query_of(
                request::upload_request(peer, target(dest_dir), path, sent_name(name), token).url,
            ),
        ) == Some(PEER_TEMP_DIR@),
{
    reveal_strlit("~/.openbolt/temp");
    file_api::law_upload_names_its_folder(peer, PEER_TEMP_DIR@, path, sent_name(name), token);
}

/// A list that was written with a zero behind each path and one more at the end
/// is read back.
pub proof fn law_drop_list_reads_back(paths: Seq<Seq<u16>>)
    requires
        forall|i: int|
            0 <= i < paths.len() ==> (#[trigger] paths[i]).len() > 0 && !paths[i].contains(0),
    ensures
        is_list(drop_list(paths)),
        listed(drop_list(paths)) == paths,
    decreases paths.len(),
{
    if paths.len() == 0 {
        lemma_first_zero_is(drop_list(paths), 0);
        assert(listed(drop_list(paths)) =~= paths);
    } else {
        let rest = paths.skip(1);
        assert forall|i: int| 0 <= i < rest.len() implies (#[trigger] rest[i]).len() > 0
            && !rest[i].contains(0) by {
            assert(rest[i] == paths[i + 1]);
        }
        law_drop_list_reads_back(rest);
        let d = drop_list(paths);
        let n = paths[0].len() as int;
        assert forall|i: int| 0 <= i < n implies #[trigger] d[i] != 0 by {
            assert(d[i] == paths[0][i]);
            assert(paths[0].contains(paths[0][i]));
        }
        assert(d[n] == 0);
        lemma_first_zero_is(d, n);
        assert(d.take(n) =~= paths[0]);
        assert(d.skip(n + 1) =~= drop_list(rest));
        assert(listed(d) =~= paths);
    }
}

/// The data of a list of paths: a zero behind each, and one more at the end.
pub open spec fn drop_list(paths: Seq<Seq<u16>>) -> Seq<u16>
    decreases paths.len(),
{
    if paths.len() == 0 {
        seq![0u16]
    } else {
        paths[0].push(0) + drop_list(paths.skip(1))
    }
}

/// The number of files that were sent counts each outcome that is a success,
/// and no other.
pub proof fn law_sent_files_are_counted(outcomes: Seq<Sending>)
    ensures
        taken(outcomes) == outcomes.filter(|s: Sending| s == Sending::Taken).len(),
        (forall|i: int| 0 <= i < outcomes.len() ==> #[trigger] outcomes[i] == Sending::Taken)
            ==> taken(outcomes) == outcomes.len(),
        (forall|i: int| 0 <= i < outcomes.len() ==> #[trigger] outcomes[i] != Sending::Taken)
            ==> taken(outcomes) == 0,
    decreases outcomes.len(),
{
    reveal(Seq::filter);
    if outcomes.len() > 0 {
        let t = outcomes.drop_last();
        law_sent_files_are_counted(t);
        assert(outcomes[outcomes.len() - 1] == outcomes.last());
        assert forall|i: int| 0 <= i < t.len() implies #[trigger] t[i] == outcomes[i] by {}
        if forall|i: int| 0 <= i < outcomes.len() ==> #[trigger] outcomes[i] == Sending::Taken {
            assert forall|i: int| 0 <= i < t.len() implies #[trigger] t[i] == Sending::Taken by {
                assert(outcomes[i] == Sending::Taken);
            }
        }
        if forall|i: int| 0 <= i < outcomes.len() ==> #[trigger] outcomes[i] != Sending::Taken {
            assert forall|i: int| 0 <= i < t.len() implies #[trigger] t[i] != Sending::Taken by {
                assert(outcomes[i] != Sending::Taken);
            }
        }
    }
}

/// The folder that is asked for is used as it is written, unless it holds nothing
/// but white space; then, and where none is asked for, it is the peer's own.
pub proof fn law_asked_folder_is_used(dir: Seq<char>)
    ensures
        (exists|i: int| 0 <= i < dir.len() && !text::is_white(#[trigger] dir[i])) ==> target(
            Some(dir),
        ) == dir,
        (forall|i: int| 0 <= i < dir.len() ==> text::is_white(#[trigger] dir[i])) ==> target(
            Some(dir),
        ) == "~/.openbolt/temp"@,
        target(None) == "~/.openbolt/temp"@,
{
    let around = text::law_trimmed_text(dir);
    let t = text::trim(dir);
    if exists|i: int| 0 <= i < dir.len() && !text::is_white(#[trigger] dir[i]) {
        let i = choose|i: int| 0 <= i < dir.len() && !text::is_white(#[trigger] dir[i]);
        if t.len() == 0 {
            if i < around.0.len() {
                assert(dir[i] == around.0[i]);
            } else {
                assert(dir[i] == around.1[i - around.0.len()]);
            }
        }
    }
    if forall|i: int| 0 <= i < dir.len() ==> text::is_white(#[trigger] dir[i]) {
        if t.len() > 0 {
            assert(dir[around.0.len() as int] == t[0]);
        }
    }
}

/// The folder of the user is the first of the two that the environment tells,
/// and the present folder where it tells none.
pub proof fn law_folder_of_the_user(home: Seq<char>, profile: Option<Seq<char>>)
    ensures
        home_or_here(Some(home), profile) == home,
        home_or_here(None, Some(home)) == home,
        home_or_here(None, None) == "."@,
{
}

/// A file is sent under its own name, and under a name of the library's only
/// where it has none.
pub proof fn law_file_keeps_its_name(name: Seq<char>)
    ensures
        sent_name(Some(name)) == name,
        sent_name(None) == "clipboard_file"@,
{
}

/// The paths that a script writes are its lines that begin with a slash once
/// white space is taken off, each once, in their order.
pub proof fn law_rooted_lines_are_paths(lines: Seq<Seq<char>>, more: Seq<Seq<char>>, i: int)
    requires
        0 <= i < lines.len(),
    ensures
        text::begins(text::trim(lines[i]), seq!['/']) ==> rooted_lines(lines).contains(
            text::trim(lines[i]),
        ),
        forall|j: int|
            0 <= j < rooted_lines(lines).len() ==> (#[trigger] rooted_lines(lines)[j]).len() > 0
                && rooted_lines(lines)[j][0] == '/',
        rooted_lines(lines + more) == rooted_lines(lines) + rooted_lines(more),
    decreases lines.len() + more.len(), more.len(),
{
    let all = lines + more;
    let r = rooted_lines(lines);
    if more.len() > 0 {
        law_rooted_lines_are_paths(lines, more.drop_last(), i);
        assert(all.drop_last() =~= lines + more.drop_last());
        assert(all.last() == more.last());
        assert(rooted_lines(all) =~= r + rooted_lines(more));
    } else {
        assert(all =~= lines);
        assert(rooted_lines(all) =~= r + rooted_lines(more));
        let some = lines.drop_last();
        let before = rooted_lines(some);
        if some.len() > 0 {
            let k = if i < some.len() {
                i
            } else {
                0
            };
            law_rooted_lines_are_paths(some, more, k);
        }
        assert forall|j: int| 0 <= j < r.len() implies (#[trigger] r[j]).len() > 0 && r[j][0]
            == '/' by {
            if j < before.len() {
                assert(r[j] == before[j]);
            }
        }
        let t = text::trim(lines[i]);
        if text::begins(t, seq!['/']) {
            assert(t.take(1)[0] == t[0]);
            if i == lines.len() - 1 {
                assert(r[r.len() - 1] == t);
            } else {
                assert(some[i] == lines[i]);
                let j = choose|j: int| 0 <= j < before.len() && before[j] == t;
                assert(r[j] == t);
            }
        }
    }
}

/// The units of a text in UTF-16, for the text's first character and the units
/// of the others.
pub proof fn law_utf16_reads_each_character(c: char, units: Seq<u16>, rest: Seq<char>)
    requires
        utf16(units) == Some(rest),
    ensures
        (c as u32) < 0x10000 ==> utf16(seq![c as u32 as u16] + units) == Some(seq![c] + rest),
        c as u32 >= 0x10000 ==> utf16(
            seq![
                (0xd800 + (c as u32 - 0x10000) / 0x400) as u16,
                (0xdc00 + (c as u32 - 0x10000) % 0x400) as u16,
            ] + units,
        ) == Some(seq![c] + rest),
{
    let n = c as u32;
    if n < 0x10000 {
        let u = seq![n as u16] + units;
        assert(u[0] == n as u16);
        assert(u.skip(1) =~= units);
        assert(!(0xd800 <= n <= 0xdfff));
        assert(u[0] as char == c);
    } else {
        let hi = (0xd800 + (n - 0x10000) / 0x400) as u16;
        let lo = (0xdc00 + (n - 0x10000) % 0x400) as u16;
        let u = seq![hi, lo] + units;
        assert(u[0] == hi && u[1] == lo);
        assert(u.skip(2) =~= units);
        assert(n <= 0x10ffff);
        assert((0x10000 + (hi - 0xd800) * 0x400 + (lo - 0xdc00)) == n);
        assert((0x10000 + (hi - 0xd800) * 0x400 + (lo - 0xdc00)) as char == c);
    }
}

/// A list is one exactly if it is made of texts that are not empty, each with a
/// zero behind it, and one more zero; what follows does not count.
pub proof fn law_lists_end_in_two_zeros(units: Seq<u16>) -> (rest: Seq<u16>)
    requires
        is_list(units),
    ensures
        units == drop_list(listed(units)) + rest,
        forall|i: int|
            0 <= i < listed(units).len() ==> (#[trigger] listed(units)[i]).len() > 0 && !listed(
                units,
            )[i].contains(0),
    decreases units.len(),
{
    let n = first_zero(units) as int;
    lemma_first_zero(units);
    if n == 0 {
        assert(units =~= seq![0u16] + units.skip(1));
        units.skip(1)
    } else {
        let t = units.skip(n + 1);
        let rest = law_lists_end_in_two_zeros(t);
        let head = units.take(n);
        let all = listed(units);
        assert(all =~= seq![head] + listed(t));
        assert(all.skip(1) =~= listed(t));
        assert(units =~= head.push(0) + t);
        assert(drop_list(all) == head.push(0) + drop_list(listed(t)));
        assert(drop_list(all) + rest =~= head.push(0) + (drop_list(listed(t)) + rest));
        assert forall|i: int| 0 <= i < all.len() implies (#[trigger] all[i]).len() > 0
            && !all[i].contains(0) by {
            if i == 0 {
                if head.contains(0) {
                    let k = choose|k: int| 0 <= k < head.len() && head[k] == 0;
                    assert(units[k] == 0);
                }
            } else {
                assert(all[i] == listed(t)[i - 1]);
            }
        }
        rest
    }
}

proof fn lemma_first_zero(units: Seq<u16>)
    ensures
        first_zero(units) <= units.len(),
        first_zero(units) < units.len() ==> units[first_zero(units) as int] == 0,
        forall|i: int| 0 <= i < first_zero(units) ==> #[trigger] units[i] != 0,
    decreases units.len(),
{
    if units.len() > 0 && units[0] != 0 {
        let t = units.skip(1);
        lemma_first_zero(t);
        assert forall|i: int| 0 <= i < first_zero(units) implies #[trigger] units[i] != 0 by {
            if i > 0 {
                assert(units[i] == t[i - 1]);
            }
        }
    }
}

/// Each text of a list is read, in its place.
pub proof fn law_each_text_is_read(r: Seq<Seq<char>>, parts: Seq<Seq<u16>>, i: int)
    requires
        reads(r, parts),
        0 <= i < parts.len(),
    ensures
        r.len() == parts.len(),
        utf16(parts[i]) is Some ==> r[i] == utf16(parts[i])->0,
        utf16(Seq::<u16>::empty()) == Some(Seq::<char>::empty()),
{
}

/// The folder of clipboard files lies two names below the user's folder.
pub proof fn law_folder_of_clipboard_files(home: Seq<char>, r: Seq<char>) -> (c: (char, char))
    requires
        temp_below(r, home),
        home.len() > 0,
        !paths::separator(home.last()),
        !paths::bare_drive(home),
        paths::joinable(home),
    ensures
        paths::separator(c.0) && paths::separator(c.1),
        r == home.push(c.0) + ".openbolt"@.push(c.1) + "temp"@,
{
    reveal_strlit(".openbolt");
    let folder = choose|folder: Seq<char>|
        #[trigger] paths::joined(folder, home, ".openbolt"@) && paths::joined(
            r,
            folder,
            "temp"@,
        );
    let c = choose|c: char| paths::joined_by(folder, home, ".openbolt"@, c);
    assert(folder.last() == 't');
    assert(folder.len() > 2);
    let d = choose|d: char| paths::joined_by(r, folder, "temp"@, d);
    assert(r =~= home.push(c) + ".openbolt"@.push(d) + "temp"@);
    (c, d)
}

} // verus!
