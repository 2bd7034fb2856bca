//! Pulling from the peer: which of its files are looked at, where they belong,
//! and which are downloaded.

use std::collections::VecDeque;

use vstd::multiset::Multiset;
use vstd::prelude::*;

use crate::paths;
use crate::sync_engine;
use crate::sync_engine::log;
use crate::sync_engine::log::SyncLogEntry;
use crate::sync_engine::request;
use crate::sync_engine::request::PeerRequest;
use crate::sync_engine::request::Verb;
use crate::sync_engine::transfer;
use crate::sync_engine::RemoteFsEntry;
use crate::sync_engine::RemoteStat;
use crate::text;

verus! {

/// How far below its base the peer's folder is searched.
pub const MAX_DEPTH: u32 = 8;

/// A file of the peer, with its path below the base.
#[derive(Debug)]
pub struct RemoteFile {
    pub rel: String,
    pub entry: RemoteFsEntry,
}

/// A folder that is still to be searched, with its depth below the base.
#[derive(Debug)]
pub struct FolderAhead {
    pub path: String,
    pub depth: u32,
}

/// A search through the folders of the peer: the folders that lie ahead, and
/// the files that were found.
#[derive(Debug)]
pub struct RemoteWalk {
    pub base: String,
    pub ahead: Vec<FolderAhead>,
    pub files: Vec<RemoteFile>,
}

/// The path of the entry `name` of the folder `dir`.
pub open spec fn child_path(dir: Seq<char>, name: Seq<char>) -> Seq<char> {
    text::trim_end_slash(dir) + "/"@ + name
}

/// The path of a file below the base; a file that does not lie there goes by
/// its name.
pub open spec fn rel_of(base: Seq<char>, child: Seq<char>, name: Seq<char>) -> Seq<char> {
    let prefix = text::trim_end_slash(base);
    if text::begins(child, prefix) {
        text::trim_start_slash(child.skip(prefix.len() as int))
    } else {
        name
    }
}

/// The folders among `entries` of `dir`, one level deeper.
pub open spec fn folders_in(dir: Seq<char>, depth: u32, entries: Seq<RemoteFsEntry>) -> Seq<
    (Seq<char>, u32),
>
    decreases entries.len(),
{
    if entries.len() == 0 {
        Seq::empty()
    } else {
        let before = folders_in(dir, depth, entries.drop_last());
        let e = entries.last();
        if e.is_dir {
            before.push((child_path(dir, e.name@), (depth + 1) as u32))
        } else {
            before
        }
    }
}

/// The files among `entries` of `dir`, with their paths below the base; those
/// without a path there are left out.
pub open spec fn files_in(base: Seq<char>, dir: Seq<char>, entries: Seq<RemoteFsEntry>) -> Seq<
    (Seq<char>, RemoteFsEntry),
>
    decreases entries.len(),
{
    if entries.len() == 0 {
        Seq::empty()
    } else {
        let before = files_in(base, dir, entries.drop_last());
        let e = entries.last();
        let rel = rel_of(base, child_path(dir, e.name@), e.name@);
        if !e.is_dir && rel.len() > 0 {
            before.push((rel, e))
        } else {
            before
        }
    }
}

/// The folders ahead that are not too deep to be searched, from the last on;
/// what lies above them was passed over.
pub open spec fn reachable(ahead: Seq<(Seq<char>, u32)>) -> Seq<(Seq<char>, u32)>
    decreases ahead.len(),
{
    if ahead.len() > 0 && ahead.last().1 > MAX_DEPTH {
        reachable(ahead.drop_last())
    } else {
        ahead
    }
}

fn child_of(dir: &str, name: &str) -> (r: String)
    ensures
        r@ == child_path(dir@, name@),
{
    let mut out: String = text::trim_end_slash_text(dir);
    out.append("/");
    out.append(name);
    out
}

fn relative_to(base: &str, child: &str, name: &str) -> (r: String)
    ensures
        r@ == rel_of(base@, child@, name@),
{
    let prefix: String = text::trim_end_slash_text(base);
    if text::begins_with(child, prefix.as_str()) {
        let n: usize = text::length_of(prefix.as_str());
        text::trim_start_slash_from(child, n)
    } else {
        name.to_string()
    }
}

impl RemoteWalk {
    /// The folders that lie ahead.
    pub open spec fn folders(self) -> Seq<(Seq<char>, u32)> {
        Seq::new(self.ahead@.len(), |i: int| (self.ahead@[i].path@, self.ahead@[i].depth))
    }

    /// The files that were found.
    pub open spec fn found(self) -> Seq<(Seq<char>, RemoteFsEntry)> {
        Seq::new(self.files@.len(), |i: int| (self.files@[i].rel@, self.files@[i].entry))
    }

    /// The search below `remote_base`, at its start.
    pub fn begin(remote_base: &str) -> (r: RemoteWalk)
        ensures
            r.base@ == remote_base@,
            r.folders() == seq![(remote_base@, 0u32)],
            r.found().len() == 0,
    {
        let mut ahead: Vec<FolderAhead> = Vec::new();
        ahead.push(FolderAhead { path: remote_base.to_string(), depth: 0 });
        let r = RemoteWalk { base: remote_base.to_string(), ahead, files: Vec::new() };
        assert(r.folders() =~= seq![(remote_base@, 0u32)]);
        r
    }

    /// The folder that is searched next, which is never too deep.
    pub fn next_folder(&mut self) -> (r: Option<FolderAhead>)
        ensures
            final(self).base == old(self).base,
            final(self).files == old(self).files,
            ({
                let near = reachable(old(self).folders());
                if near.len() == 0 {
                    r is None && final(self).folders().len() == 0
                } else {
                    r is Some && (r->0.path@, r->0.depth) == near.last() && r->0.depth <= MAX_DEPTH
                        && final(self).folders() == near.drop_last()
                }
            }),
    {
        let ghost start = self.folders();
        while self.ahead.len() > 0
            invariant
                reachable(self.folders()) == reachable(start),
                self.base == old(self).base,
                self.files == old(self).files,
                start == old(self).folders(),
            decreases self.ahead@.len(),
        {
            let ghost before = self.folders();
            if let Some(folder) = self.ahead.pop() {
                assert(self.folders() =~= before.drop_last());
                assert(before.last() == (folder.path@, folder.depth));
                if folder.depth <= MAX_DEPTH {
                    return Some(folder);
                }
            }
        }
        assert(self.folders() =~= Seq::empty());
        None
    }

    /// Takes in what the peer lists in a folder.
    pub fn visit(&mut self, folder: &FolderAhead, entries: &Vec<RemoteFsEntry>)
        requires
            folder.depth <= MAX_DEPTH,
        ensures
            final(self).base == old(self).base,
            final(self).folders() == old(self).folders() + folders_in(
                folder.path@,
                folder.depth,
                entries@,
            ),
            final(self).found() == old(self).found() + files_in(
                old(self).base@,
                folder.path@,
                entries@,
            ),
    {
        let ghost all = entries@;
        let ghost ahead0 = self.folders();
        let ghost found0 = self.found();
        assert(self.folders() =~= ahead0 + folders_in(folder.path@, folder.depth, all.take(0)));
        assert(self.found() =~= found0 + files_in(self.base@, folder.path@, all.take(0)));
        let mut i: usize = 0;
        while i < entries.len()
            invariant
                all == entries@,
                i <= all.len(),
                folder.depth <= MAX_DEPTH,
                self.base == old(self).base,
                self.folders() == ahead0 + folders_in(
                    folder.path@,
                    folder.depth,
                    all.take(i as int),
                ),
                self.found() == found0 + files_in(self.base@, folder.path@, all.take(i as int)),
            decreases all.len() - i,
        {
            let ghost before = *self;
            let entry = &entries[i];
            proof {
                assert(all.take(i + 1).drop_last() =~= all.take(i as int));
                assert(all.take(i + 1).last() == *entry);
            }
            let child: String = child_of(folder.path.as_str(), entry.name.as_str());
            if entry.is_dir {
                self.ahead.push(FolderAhead { path: child, depth: folder.depth + 1 });
                assert(self.folders() =~= before.folders().push(
                    (child@, (folder.depth + 1) as u32),
                ));
            } else {
                let rel: String = relative_to(
                    self.base.as_str(),
                    child.as_str(),
                    entry.name.as_str(),
                );
                if !rel.as_str().is_empty() {
                    self.files.push(RemoteFile { rel, entry: entry.clone() });
                    assert(self.found() =~= before.found().push((rel@, *entry)));
                }
            }
            i = i + 1;
            assert(self.folders() =~= ahead0 + folders_in(
                folder.path@,
                folder.depth,
                all.take(i as int),
            ));
            assert(self.found() =~= found0 + files_in(self.base@, folder.path@, all.take(i as int)));
        }
        assert(all.take(i as int) =~= all);
    }

    /// The files that a complete search has found.
    pub fn finish(self) -> (r: Vec<RemoteFile>)
        ensures
            r@ == self.files@,
    {
        self.files
    }
}

// ------------------------------------------------------------------- one file

/// The path at the peer from which a file is downloaded.
pub open spec fn download_path(remote_base: Seq<char>, rel: Seq<char>) -> Seq<char> {
    text::trim_end_slash(remote_base) + "/"@ + rel
}

/// `r` is where the file `rel` of the peer belongs below `local_root`, with
/// `sep` between its names. Stated for a folder that is joined as it stands and
/// a path that does not start at a root; one that starts at a drive stands for
/// itself on platforms that have drives.
pub open spec fn placed(r: Seq<char>, local_root: Seq<char>, rel: Seq<char>, sep: char) -> bool {
    let name = text::map_char(rel, '/', sep);
    &&& paths::joinable(local_root) && paths::unrooted(rel) ==> paths::joined(r, local_root, name)
    &&& paths::joinable(local_root) && paths::drive_first(rel) ==> r == name || paths::joined(
        r,
        local_root,
        name,
    )
}

/// `r` is where the file `rel` of the peer belongs below `local_root`.
pub open spec fn place_below(r: Seq<char>, local_root: Seq<char>, rel: Seq<char>) -> bool {
    exists|sep: char| paths::separator(sep) && #[trigger] placed(r, local_root, rel, sep)
}

/// Where the file `rel` of the peer belongs below `local_root`, with `sep`
/// between its names.
pub fn place_with(local_root: &str, rel: &str, sep: char) -> (r: String)
    ensures
        paths::separator(sep) ==> placed(r@, local_root@, rel@, sep),
{
    let name: String = text::replace_char(rel, '/', sep);
    proof {
        if rel@.len() > 0 && paths::separator(sep) {
            assert(rel@[0] != '/' ==> name@[0] == rel@[0]);
            if rel@.len() >= 2 {
                assert(name@[1] == rel@[1] || name@[1] == sep);
            }
        }
    }
    paths::join_path(local_root, name.as_str())
}

/// Where the file `rel` of the peer belongs below `local_root`, with the
/// platform's separator between its names.
pub fn local_place(local_root: &str, rel: &str) -> (r: String)
    ensures
        place_below(r@, local_root@, rel@),
{
    let sep: char = paths::main_separator();
    place_with(local_root, rel, sep)
}

/// A file of the peer is pulled: there is none here, or an older one.
pub open spec fn worth_pulling(local_mtime: Option<u64>, remote_mtime: u64) -> bool {
    local_mtime matches Some(t) ==> t < remote_mtime
}

/// The request that downloads a file of the peer, unless the local one is as
/// new. `local_mtime` is absent where there is no local file.
pub fn plan_pull(
    file: &RemoteFile,
    local_mtime: Option<u64>,
    remote_base: &str,
    peer_ip: &str,
    api_token: Option<&str>,
) -> (r: Option<PeerRequest>)
    ensures
        transfer::request_view(r) == if worth_pulling(local_mtime, file.entry.mtime) {
            Some(
                request::path_request(
                    Verb::Download,
                    peer_ip@,
                    download_path(remote_base@, file.rel@),
                    text::optional_str(api_token),
                ),
            )
        } else {
            None
        },
{
    if let Some(t) = local_mtime {
        if t >= file.entry.mtime {
            return None;
        }
    }
    let mut path: String = text::trim_end_slash_text(remote_base);
    path.append("/");
    path.append(file.rel.as_str());
    Some(request::request_on(Verb::Download, peer_ip, path.as_str(), api_token))
}

/// What came of a download.
#[derive(Debug)]
pub enum Pulled {
    /// The peer answered with a status that is no success.
    Refused(String),
    /// There was no answer.
    NoAnswer(String),
    /// The answer broke off.
    Incomplete,
    /// The file could not be written.
    NotWritten(String),
    Written,
}

/// What is logged of a download: a level and a message, or nothing.
pub open spec fn pull_line(outcome: Pulled) -> Option<(Seq<char>, Seq<char>)> {
    match outcome {
        Pulled::Refused(s) => Some(("warn"@, "download failed: "@ + s@)),
        Pulled::NoAnswer(s) => Some(("warn"@, "download error: "@ + s@)),
        Pulled::Incomplete => None,
        Pulled::NotWritten(s) => Some(("warn"@, "write failed: "@ + s@)),
        Pulled::Written => Some(("info"@, "pulled from remote"@)),
    }
}

/// Logs what came of the download of `rel`.
pub fn note_pull(logs: &mut VecDeque<SyncLogEntry>, rel: &str, outcome: Pulled) -> (r: Option<
    SyncLogEntry,
>)
    ensures
        match pull_line(outcome) {
            Some(line) => {
                &&& r matches Some(e) && e.level@ == line.0 && e.message@ == line.1 && e.path@
                    == rel@ && e.action@ == "inbound"@ && final(logs)@ == log::log_push(
                    old(logs)@,
                    e,
                )
            },
            None => r is None && final(logs)@ == old(logs)@,
        },
{
    let (level, message): (&'static str, String) = match outcome {
        Pulled::Refused(s) => ("warn", text::concat("download failed: ", s.as_str())),
        Pulled::NoAnswer(s) => ("warn", text::concat("download error: ", s.as_str())),
        Pulled::Incomplete => {
            return None;
        },
        Pulled::NotWritten(s) => ("warn", text::concat("write failed: ", s.as_str())),
        Pulled::Written => ("info", "pulled from remote".to_string()),
    };
    Some(log::append_log(logs, level, "inbound", rel, message.as_str()))
}

// ------------------------------------------------------------------------- laws

/// A file that is pulled is not one that would be sent: for a file on both
/// sides, the newer one goes over the older one and never the other way round.
pub proof fn law_pull_and_push_do_not_fight(
    local_size: u64,
    local_mtime: u64,
    remote_size: u64,
    remote_mtime: u64,
)
    ensures
        ({
            let stat = RemoteStat {
                exists: true,
                is_dir: false,
                size: Some(remote_size),
                mtime: Some(remote_mtime),
            };
            worth_pulling(Some(local_mtime), remote_mtime) <==> transfer::comparison(
                local_size,
                local_mtime,
                Some(stat),
            ) == transfer::Comparison::RemoteNewer
        }),
{
}

/// The names that a folder's listing gives: not empty, and without a slash at
/// either end.
pub open spec fn entry_name(name: Seq<char>) -> bool {
    name.len() > 0 && name[0] != '/' && name.last() != '/'
}

/// `dir` is the base, or a path below it.
pub open spec fn dir_below(base: Seq<char>, dir: Seq<char>) -> bool {
    dir == base || exists|sub: Seq<char>|
        sub.len() > 0 && sub[0] != '/' && sub.last() != '/' && dir == #[trigger] download_path(
            base,
            sub,
        )
}

/// Every folder of a search lies below the base, and every file in it is
/// downloaded from where it was listed.
pub proof fn law_download_asks_for_what_was_listed(
    base: Seq<char>,
    dir: Seq<char>,
    name: Seq<char>,
)
    requires
        dir_below(base, dir),
        entry_name(name),
    ensures
        dir_below(base, child_path(dir, name)),
        rel_of(base, child_path(dir, name), name).len() > 0,
        download_path(base, rel_of(base, child_path(dir, name), name)) == child_path(dir, name),
{
    reveal_strlit("/");
    let top = text::trim_end_slash(base);
    let child = child_path(dir, name);
    let sub = if dir == base {
        Seq::empty()
    } else {
        choose|sub: Seq<char>|
            sub.len() > 0 && sub[0] != '/' && sub.last() != '/' && dir == #[trigger] download_path(
                base,
                sub,
            )
    };
    let rel = if dir == base {
        name
    } else {
        sub.push('/') + name
    };
    if dir != base {
        assert(dir.last() == sub.last());
        assert(text::trim_end_slash(dir) == dir);
    }
    assert(child =~= download_path(base, rel));
    assert(rel[0] != '/');
    assert(rel.last() == name.last());
    law_walk_inverts_the_path(base, rel, name);
}

/// A path below the base is found again by the search: what is cut off in front
/// is what was put there.
pub proof fn law_walk_inverts_the_path(base: Seq<char>, rel: Seq<char>, name: Seq<char>)
    requires
        rel.len() > 0 ==> rel[0] != '/',
    ensures
        rel_of(base, download_path(base, rel), name) == rel,
{
    reveal_strlit("/");
    let top = text::trim_end_slash(base);
    let child = download_path(base, rel);
    assert(child.take(top.len() as int) =~= top);
    let tail = child.skip(top.len() as int);
    assert(tail =~= "/"@ + rel);
    assert(tail[0] == '/');
    assert(tail.skip(1) =~= rel);
    assert(text::skip_while(rel, text::only('/')) == rel);
}

/// A file that was sent is found under the path that it has here, with slashes
/// for backslashes, so that a pull brings it back to its place.
pub proof fn law_pulled_path_is_the_sent_path(base: Seq<char>, rel: Seq<char>, name: Seq<char>)
    requires
        rel.len() > 0 ==> !paths::separator(rel[0]),
    ensures
        rel_of(base, sync_engine::remote_path(base, rel), name) == text::map_char(rel, '\\', '/'),
        !rel.contains('\\') ==> rel_of(base, sync_engine::remote_path(base, rel), name) == rel,
{
    let sent = text::map_char(rel, '\\', '/');
    law_walk_inverts_the_path(base, sent, name);
    if !rel.contains('\\') {
        assert forall|i: int| 0 <= i < rel.len() implies sent[i] == rel[i] by {
            assert(rel.contains(rel[i]));
        }
        assert(sent =~= rel);
    }
}

/// No folder deeper than the limit is searched, and what a folder adds lies one
/// level deeper.
pub proof fn law_search_is_bounded(
    dir: Seq<char>,
    depth: u32,
    entries: Seq<RemoteFsEntry>,
    i: int,
)
    requires
        depth <= MAX_DEPTH,
        0 <= i < folders_in(dir, depth, entries).len(),
    ensures
        folders_in(dir, depth, entries)[i].1 == depth + 1,
        depth == MAX_DEPTH ==> reachable(folders_in(dir, depth, entries)).len() == 0,
    decreases entries.len(),
{
    if entries.len() > 0 {
        let before = folders_in(dir, depth, entries.drop_last());
        if i < before.len() {
            law_search_is_bounded(dir, depth, entries.drop_last(), i);
        }
        if entries.last().is_dir {
            let now = folders_in(dir, depth, entries);
            assert(now.drop_last() =~= before);
            if before.len() > 0 {
                law_search_is_bounded(dir, depth, entries.drop_last(), 0);
            }
        } else if before.len() > 0 {
            law_search_is_bounded(dir, depth, entries.drop_last(), 0);
        }
    }
}

// ------------------------------------------------------------- a whole search

/// The levels that are left at a depth.
pub open spec fn levels_left(depth: u32) -> nat {
    if depth <= MAX_DEPTH {
        (MAX_DEPTH + 1 - depth) as nat
    } else {
        0
    }
}

/// The files in the folder `dir` at `depth` and in the folders below it, down to
/// the limit, each as often as it is listed. `listing` is what the peer answers
/// on a folder, if it answers.
pub open spec fn tree(
    base: Seq<char>,
    dir: Seq<char>,
    depth: u32,
    listing: spec_fn(Seq<char>) -> Option<Seq<RemoteFsEntry>>,
) -> Multiset<(Seq<char>, RemoteFsEntry)>
    decreases levels_left(depth), 0nat,
{
    if depth > MAX_DEPTH {
        Multiset::empty()
    } else {
        match listing(dir) {
            None => Multiset::empty(),
            Some(entries) => files_in(base, dir, entries).to_multiset().add(
                forest(base, folders_in(dir, depth, entries), (depth + 1) as u32, listing),
            ),
        }
    }
}

/// The files in the folders `dirs`, which all lie at `depth`, and below them.
pub open spec fn forest(
    base: Seq<char>,
    dirs: Seq<(Seq<char>, u32)>,
    depth: u32,
    listing: spec_fn(Seq<char>) -> Option<Seq<RemoteFsEntry>>,
) -> Multiset<(Seq<char>, RemoteFsEntry)>
    decreases levels_left(depth), dirs.len() + 1,
{
    if dirs.len() == 0 {
        Multiset::empty()
    } else {
        forest(base, dirs.drop_last(), depth, listing).add(
            tree(base, dirs.last().0, depth, listing),
        )
    }
}

/// A search: the folders that lie ahead, and the files that were found.
pub struct SearchView {
    pub ahead: Seq<(Seq<char>, u32)>,
    pub found: Seq<(Seq<char>, RemoteFsEntry)>,
}

/// `after` is the search `before` after its next folder was asked for, and was
/// taken in where the peer answered.
pub open spec fn searched(
    before: SearchView,
    after: SearchView,
    base: Seq<char>,
    listing: spec_fn(Seq<char>) -> Option<Seq<RemoteFsEntry>>,
) -> bool {
    let near = reachable(before.ahead);
    &&& near.len() > 0
    &&& match listing(near.last().0) {
        Some(entries) => {
            &&& after.ahead == near.drop_last() + folders_in(
                near.last().0,
                near.last().1,
                entries,
            )
            &&& after.found == before.found + files_in(base, near.last().0, entries)
        },
        None => after.ahead == near.drop_last() && after.found == before.found,
    }
}

/// The files that the folders ahead lead to.
spec fn ahead_files(
    base: Seq<char>,
    ahead: Seq<(Seq<char>, u32)>,
    listing: spec_fn(Seq<char>) -> Option<Seq<RemoteFsEntry>>,
) -> Multiset<(Seq<char>, RemoteFsEntry)>
    decreases ahead.len(),
{
    if ahead.len() == 0 {
        Multiset::empty()
    } else {
        ahead_files(base, ahead.drop_last(), listing).add(
            tree(base, ahead.last().0, ahead.last().1, listing),
        )
    }
}

proof fn lemma_ahead_sum(
    base: Seq<char>,
    a: Seq<(Seq<char>, u32)>,
    b: Seq<(Seq<char>, u32)>,
    listing: spec_fn(Seq<char>) -> Option<Seq<RemoteFsEntry>>,
)
    ensures
        ahead_files(base, a + b, listing) == ahead_files(base, a, listing).add(
            ahead_files(base, b, listing),
        ),
    decreases b.len(),
{
    if b.len() == 0 {
        assert(a + b =~= a);
    } else {
        lemma_ahead_sum(base, a, b.drop_last(), listing);
        assert((a + b).drop_last() =~= a + b.drop_last());
        assert((a + b).last() == b.last());
    }
    assert(ahead_files(base, a + b, listing) =~= ahead_files(base, a, listing).add(
        ahead_files(base, b, listing),
    ));
}

proof fn lemma_reachable_files(
    base: Seq<char>,
    ahead: Seq<(Seq<char>, u32)>,
    listing: spec_fn(Seq<char>) -> Option<Seq<RemoteFsEntry>>,
)
    ensures
        ahead_files(base, reachable(ahead), listing) == ahead_files(base, ahead, listing),
        reachable(ahead).len() > 0 ==> reachable(ahead).last().1 <= MAX_DEPTH,
    decreases ahead.len(),
{
    if ahead.len() > 0 && ahead.last().1 > MAX_DEPTH {
        lemma_reachable_files(base, ahead.drop_last(), listing);
        assert(ahead_files(base, ahead, listing) =~= ahead_files(base, ahead.drop_last(), listing));
    }
}

proof fn lemma_forest(
    base: Seq<char>,
    dirs: Seq<(Seq<char>, u32)>,
    depth: u32,
    listing: spec_fn(Seq<char>) -> Option<Seq<RemoteFsEntry>>,
)
    requires
        forall|i: int| 0 <= i < dirs.len() ==> (#[trigger] dirs[i]).1 == depth,
    ensures
        forest(base, dirs, depth, listing) == ahead_files(base, dirs, listing),
    decreases dirs.len(),
{
    if dirs.len() > 0 {
        let t = dirs.drop_last();
        assert forall|i: int| 0 <= i < t.len() implies (#[trigger] t[i]).1 == depth by {
            assert(t[i] == dirs[i]);
        }
        lemma_forest(base, t, depth, listing);
        assert(dirs[dirs.len() - 1].1 == depth);
    }
}

proof fn lemma_search_step(
    before: SearchView,
    after: SearchView,
    base: Seq<char>,
    listing: spec_fn(Seq<char>) -> Option<Seq<RemoteFsEntry>>,
)
    requires
        searched(before, after, base, listing),
    ensures
        after.found.to_multiset().add(ahead_files(base, after.ahead, listing))
            == before.found.to_multiset().add(ahead_files(base, before.ahead, listing)),
{
    let near = reachable(before.ahead);
    let dir = near.last().0;
    let depth = near.last().1;
    lemma_reachable_files(base, before.ahead, listing);
    match listing(dir) {
        Some(entries) => {
            let more = folders_in(dir, depth, entries);
            let files = files_in(base, dir, entries);
            assert forall|i: int| 0 <= i < more.len() implies (#[trigger] more[i]).1 == (depth
                + 1) as u32 by {
                law_search_is_bounded(dir, depth, entries, i);
            }
            lemma_forest(base, more, (depth + 1) as u32, listing);
            lemma_ahead_sum(base, near.drop_last(), more, listing);
            vstd::seq_lib::lemma_multiset_commutative(before.found, files);
        },
        None => {},
    }
    assert(after.found.to_multiset().add(ahead_files(base, after.ahead, listing))
        =~= before.found.to_multiset().add(ahead_files(base, before.ahead, listing)));
}

/// A whole search, which goes on until no folder is left that may be searched,
/// finds exactly the files in the base and in the folders below it, down to the
/// limit, each as often as the peer lists it.
pub proof fn law_whole_search_finds_every_file(
    steps: Seq<SearchView>,
    base: Seq<char>,
    listing: spec_fn(Seq<char>) -> Option<Seq<RemoteFsEntry>>,
)
    requires
        steps.len() > 0,
        steps[0].ahead == seq![(base, 0u32)],
        steps[0].found.len() == 0,
        forall|i: int|
            0 <= i < steps.len() - 1 ==> searched(#[trigger] steps[i], steps[i + 1], base, listing),
        reachable(steps.last().ahead).len() == 0,
    ensures
        steps.last().found.to_multiset() == tree(base, base, 0, listing),
{
    lemma_search_steps(steps, base, listing, steps.len() - 1);
    lemma_reachable_files(base, steps.last().ahead, listing);
    assert(steps[0].found =~= Seq::empty());
    let start = steps[0].ahead;
    assert(start.drop_last() =~= Seq::empty());
    assert(ahead_files(base, start.drop_last(), listing) == Multiset::<
        (Seq<char>, RemoteFsEntry),
    >::empty());
    assert(ahead_files(base, start, listing) =~= tree(base, base, 0, listing));
    assert(ahead_files(base, reachable(steps.last().ahead), listing) == Multiset::<
        (Seq<char>, RemoteFsEntry),
    >::empty());
    steps[0].found.to_multiset_ensures();
    assert(steps[0].found.to_multiset() =~= Multiset::empty()) by {
        assert forall|x: (Seq<char>, RemoteFsEntry)| #[trigger]
            steps[0].found.to_multiset().count(x) == 0 by {
            if steps[0].found.to_multiset().count(x) > 0 {
                assert(steps[0].found.contains(x));
            }
        }
    }
    assert(steps.last().found.to_multiset() =~= tree(base, base, 0, listing));
}

proof fn lemma_search_steps(
    steps: Seq<SearchView>,
    base: Seq<char>,
    listing: spec_fn(Seq<char>) -> Option<Seq<RemoteFsEntry>>,
    n: int,
)
    requires
        0 <= n < steps.len(),
        forall|i: int|
            0 <= i < steps.len() - 1 ==> searched(#[trigger] steps[i], steps[i + 1], base, listing),
    ensures
        steps[n].found.to_multiset().add(ahead_files(base, steps[n].ahead, listing))
            == steps[0].found.to_multiset().add(ahead_files(base, steps[0].ahead, listing)),
    decreases n,
{
    if n > 0 {
        lemma_search_steps(steps, base, listing, n - 1);
        lemma_search_step(steps[n - 1], steps[n], base, listing);
    }
}

/// The entries of a folder: their names are not empty, hold no slash, and differ.
pub open spec fn tidy(entries: Seq<RemoteFsEntry>) -> bool {
    &&& forall|i: int|
        0 <= i < entries.len() ==> (#[trigger] entries[i]).name@.len() > 0
            && !entries[i].name@.contains('/')
    &&& forall|i: int, j: int|
        0 <= i < j < entries.len() ==> (#[trigger] entries[i]).name@ != (
        #[trigger] entries[j]).name@
}

/// The files in `found` have different paths, and each occurs once.
pub open spec fn each_once(found: Multiset<(Seq<char>, RemoteFsEntry)>) -> bool {
    &&& forall|x: (Seq<char>, RemoteFsEntry)| #[trigger] found.count(x) <= 1
    &&& forall|x: (Seq<char>, RemoteFsEntry), y: (Seq<char>, RemoteFsEntry)|
        #![trigger found.count(x), found.count(y)]
        found.count(x) > 0 && found.count(y) > 0 && x.0 == y.0 ==> x == y
}

/// What every path in the folder `dir` begins with.
spec fn inside(dir: Seq<char>) -> Seq<char> {
    text::trim_end_slash(dir).push('/')
}

/// The first name in the path `p` below the folder `dir`.
spec fn name_in(dir: Seq<char>, p: Seq<char>) -> Seq<char> {
    let t = p.skip(inside(dir).len() as int);
    t.take(text::first_of(t, '/') as int)
}

proof fn lemma_name_in(dir: Seq<char>, name: Seq<char>, p: Seq<char>)
    requires
        name.len() > 0,
        !name.contains('/'),
        p == child_path(dir, name) || text::begins(p, inside(child_path(dir, name))),
    ensures
        text::begins(p, inside(dir)),
        name_in(dir, p) == name,
{
    reveal_strlit("/");
    let head = inside(dir);
    let child = child_path(dir, name);
    let n = head.len() as int;
    let m = name.len() as int;
    assert(child =~= head + name);
    assert(child.last() == name[m - 1]);
    assert(name.contains(name[m - 1]));
    assert(text::trim_end_slash(child) == child);
    if p != child {
        assert(p.take(child.len() as int + 1) == child.push('/'));
        assert forall|i: int| 0 <= i <= child.len() implies p[i] == child.push('/')[i] by {
            assert(p.take(child.len() as int + 1)[i] == p[i]);
        }
    }
    assert(p.take(n) =~= head);
    let t = p.skip(n);
    assert forall|i: int| 0 <= i < m implies #[trigger] t[i] != '/' by {
        assert(p[n + i] == child[n + i]);
        assert(t[i] == name[i]);
        assert(name.contains(name[i]));
    }
    if p != child {
        assert(t[m] == p[n + m]);
    }
    text::lemma_first_of_is(t, '/', m);
    assert(t.take(m) =~= name);
}

/// What the entries of `dir` lead to.
spec fn led_to(
    base: Seq<char>,
    dir: Seq<char>,
    depth: u32,
    entries: Seq<RemoteFsEntry>,
    listing: spec_fn(Seq<char>) -> Option<Seq<RemoteFsEntry>>,
) -> Multiset<(Seq<char>, RemoteFsEntry)> {
    files_in(base, dir, entries).to_multiset().add(
        forest(base, folders_in(dir, depth, entries), (depth + 1) as u32, listing),
    )
}

/// The files in `found` lie below `dir`, in entries of these names.
spec fn lies_in(
    found: Multiset<(Seq<char>, RemoteFsEntry)>,
    base: Seq<char>,
    dir: Seq<char>,
    entries: Seq<RemoteFsEntry>,
) -> bool {
    forall|x: (Seq<char>, RemoteFsEntry)| #[trigger]
        found.count(x) > 0 ==> text::begins(download_path(base, x.0), inside(dir)) && exists|i: int|
            0 <= i < entries.len() && name_in(dir, download_path(base, x.0)) == (
            #[trigger] entries[i]).name@
}

proof fn lemma_joins_once(
    before: Multiset<(Seq<char>, RemoteFsEntry)>,
    more: Multiset<(Seq<char>, RemoteFsEntry)>,
    base: Seq<char>,
    dir: Seq<char>,
    entries: Seq<RemoteFsEntry>,
)
    requires
        entries.len() > 0,
        tidy(entries),
        each_once(before),
        each_once(more),
        lies_in(before, base, dir, entries.drop_last()),
        forall|x: (Seq<char>, RemoteFsEntry)| #[trigger]
            more.count(x) > 0 ==> text::begins(download_path(base, x.0), inside(dir)) && name_in(
                dir,
                download_path(base, x.0),
            ) == entries.last().name@,
    ensures
        each_once(before.add(more)),
        lies_in(before.add(more), base, dir, entries),
{
    let some = entries.drop_last();
    let n = entries.len() - 1;
    let all = before.add(more);
    assert forall|x: (Seq<char>, RemoteFsEntry), y: (Seq<char>, RemoteFsEntry)|
        #![trigger before.count(x), more.count(y)]
        before.count(x) > 0 && more.count(y) > 0 implies x.0 != y.0 by {
        let i = choose|i: int|
            0 <= i < some.len() && name_in(dir, download_path(base, x.0)) == (
            #[trigger] some[i]).name@;
        assert(some[i] == entries[i]);
        assert(entries[i].name@ != entries[n].name@);
    }
    assert forall|x: (Seq<char>, RemoteFsEntry)| #[trigger] all.count(x) <= 1 by {
        assert(all.count(x) == before.count(x) + more.count(x));
    }
    assert forall|x: (Seq<char>, RemoteFsEntry), y: (Seq<char>, RemoteFsEntry)|
        #![trigger all.count(x), all.count(y)]
        all.count(x) > 0 && all.count(y) > 0 && x.0 == y.0 implies x == y by {
        assert(all.count(x) == before.count(x) + more.count(x));
        assert(all.count(y) == before.count(y) + more.count(y));
    }
    assert forall|x: (Seq<char>, RemoteFsEntry)| #[trigger] all.count(x) > 0 implies text::begins(
        download_path(base, x.0),
        inside(dir),
    ) && exists|i: int|
        0 <= i < entries.len() && name_in(dir, download_path(base, x.0)) == (
        #[trigger] entries[i]).name@ by {
        assert(all.count(x) == before.count(x) + more.count(x));
        if before.count(x) > 0 {
            let i = choose|i: int|
                0 <= i < some.len() && name_in(dir, download_path(base, x.0)) == (
                #[trigger] some[i]).name@;
            assert(entries[i] == some[i]);
        } else {
            assert(more.count(x) > 0);
            assert(entries[n] == entries.last());
        }
    }
}

proof fn lemma_tree_once(
    base: Seq<char>,
    dir: Seq<char>,
    depth: u32,
    listing: spec_fn(Seq<char>) -> Option<Seq<RemoteFsEntry>>,
)
    requires
        dir_below(base, dir),
        forall|d: Seq<char>| (#[trigger] listing(d)) is Some ==> tidy(listing(d)->0),
    ensures
        each_once(tree(base, dir, depth, listing)),
        forall|x: (Seq<char>, RemoteFsEntry)| #[trigger]
            tree(base, dir, depth, listing).count(x) > 0 ==> text::begins(
                download_path(base, x.0),
                inside(dir),
            ),
    decreases levels_left(depth), 1nat, 0nat,
{
    if depth <= MAX_DEPTH && listing(dir) is Some {
        let entries = listing(dir)->0;
        lemma_entries_once(base, dir, depth, entries, listing);
        assert(tree(base, dir, depth, listing) == led_to(base, dir, depth, entries, listing));
    }
}

proof fn lemma_entries_once(
    base: Seq<char>,
    dir: Seq<char>,
    depth: u32,
    entries: Seq<RemoteFsEntry>,
    listing: spec_fn(Seq<char>) -> Option<Seq<RemoteFsEntry>>,
)
    requires
        depth <= MAX_DEPTH,
        dir_below(base, dir),
        tidy(entries),
        forall|d: Seq<char>| (#[trigger] listing(d)) is Some ==> tidy(listing(d)->0),
    ensures
        each_once(led_to(base, dir, depth, entries, listing)),
        lies_in(led_to(base, dir, depth, entries, listing), base, dir, entries),
    decreases levels_left(depth), 0nat, entries.len(),
{
    let all = led_to(base, dir, depth, entries, listing);
    let next = (depth + 1) as u32;
    if entries.len() == 0 {
        files_in(base, dir, entries).to_multiset_ensures();
        assert forall|x: (Seq<char>, RemoteFsEntry)| #[trigger] all.count(x) == 0 by {
            if files_in(base, dir, entries).to_multiset().count(x) > 0 {
                assert(files_in(base, dir, entries).contains(x));
            }
        }
    } else {
        let some = entries.drop_last();
        let e = entries.last();
        let name = e.name@;
        let child = child_path(dir, name);
        let before = led_to(base, dir, depth, some, listing);
        assert(entries[entries.len() - 1] == e);
        assert(tidy(some)) by {
            assert forall|i: int| 0 <= i < some.len() implies (#[trigger] some[i]).name@.len() > 0
                && !some[i].name@.contains('/') by {
                assert(some[i] == entries[i]);
            }
            assert forall|i: int, j: int| 0 <= i < j < some.len() implies (
            #[trigger] some[i]).name@ != (#[trigger] some[j]).name@ by {
                assert(some[i] == entries[i] && some[j] == entries[j]);
            }
        }
        lemma_entries_once(base, dir, depth, some, listing);
        assert(name.contains(name[0]) && name.contains(name[name.len() - 1]));
        law_download_asks_for_what_was_listed(base, dir, name);
        if e.is_dir {
            let dirs = folders_in(dir, depth, entries);
            let more = tree(base, child, next, listing);
            assert(dirs.drop_last() =~= folders_in(dir, depth, some));
            assert(files_in(base, dir, entries) == files_in(base, dir, some));
            lemma_tree_once(base, child, next, listing);
            assert forall|x: (Seq<char>, RemoteFsEntry)| #[trigger]
                more.count(x) > 0 implies text::begins(download_path(base, x.0), inside(dir))
                && name_in(dir, download_path(base, x.0)) == name by {
                lemma_name_in(dir, name, download_path(base, x.0));
            }
            lemma_joins_once(before, more, base, dir, entries);
            assert(all =~= before.add(more));
        } else {
            let x = (rel_of(base, child, name), e);
            let more = Multiset::empty().insert(x);
            files_in(base, dir, some).to_multiset_ensures();
            assert(files_in(base, dir, entries) == files_in(base, dir, some).push(x));
            assert(folders_in(dir, depth, entries) == folders_in(dir, depth, some));
            lemma_name_in(dir, name, child);
            lemma_joins_once(before, more, base, dir, entries);
            assert(all =~= before.add(more));
        }
    }
}

/// A whole search finds no file twice: where the peer lists every name of a
/// folder once, all paths that are found differ.
pub proof fn law_no_file_is_found_twice(
    steps: Seq<SearchView>,
    base: Seq<char>,
    listing: spec_fn(Seq<char>) -> Option<Seq<RemoteFsEntry>>,
)
    requires
        steps.len() > 0,
        steps[0].ahead == seq![(base, 0u32)],
        steps[0].found.len() == 0,
        forall|i: int|
            0 <= i < steps.len() - 1 ==> searched(#[trigger] steps[i], steps[i + 1], base, listing),
        reachable(steps.last().ahead).len() == 0,
        forall|d: Seq<char>| (#[trigger] listing(d)) is Some ==> tidy(listing(d)->0),
    ensures
        each_once(steps.last().found.to_multiset()),
{
    law_whole_search_finds_every_file(steps, base, listing);
    lemma_tree_once(base, base, 0, listing);
}

// ----------------------------------------------------------- what a folder gives

/// The path of an entry is that of its folder, one slash and its name, however
/// many slashes follow the folder.
pub proof fn law_path_of_an_entry(dir: Seq<char>, name: Seq<char>)
    requires
        dir.len() > 0 ==> dir.last() != '/',
    ensures
        child_path(dir, name) == dir + "/"@ + name,
        child_path(dir.push('/'), name) == dir + "/"@ + name,
        download_path(dir, name) == dir + "/"@ + name,
        download_path(dir.push('/'), name) == dir + "/"@ + name,
{
    assert(text::trim_end_slash(dir) == dir);
    assert(dir.push('/').drop_last() =~= dir);
    assert(text::only('/')('/'));
    assert(text::trim_end_slash(dir.push('/')) == dir);
}

proof fn lemma_files_add_up(
    base: Seq<char>,
    dir: Seq<char>,
    a: Seq<RemoteFsEntry>,
    b: Seq<RemoteFsEntry>,
)
    ensures
        files_in(base, dir, a + b) == files_in(base, dir, a) + files_in(base, dir, b),
    decreases b.len(),
{
    let all = a + b;
    if b.len() > 0 {
        lemma_files_add_up(base, dir, a, b.drop_last());
        assert(all.drop_last() =~= a + b.drop_last());
        assert(all.last() == b.last());
    } else {
        assert(all =~= a);
    }
    assert(files_in(base, dir, all) =~= files_in(base, dir, a) + files_in(base, dir, b));
}

/// Every entry of a folder that is no folder itself is found, whatever its name,
/// under its path below the base: with the base before it, that path is the
/// folder's path and the name.
pub proof fn law_every_file_of_a_folder_is_found(
    base: Seq<char>,
    dir: Seq<char>,
    entries: Seq<RemoteFsEntry>,
    i: int,
) -> (rel: Seq<char>)
    requires
        0 <= i < entries.len(),
        !entries[i].is_dir,
        entries[i].name@.len() > 0,
        !entries[i].name@.contains('/'),
        dir_below(base, dir),
    ensures
        files_in(base, dir, entries).contains((rel, entries[i])),
        text::trim_end_slash(base) + "/"@ + rel == text::trim_end_slash(dir) + "/"@
            + entries[i].name@,
{
    let e = entries[i];
    let name = e.name@;
    assert(name.contains(name[0]) && name.contains(name[name.len() - 1]));
    law_download_asks_for_what_was_listed(base, dir, name);
    let rel = rel_of(base, child_path(dir, name), name);
    let a = entries.take(i);
    let b = seq![e];
    let c = entries.skip(i + 1);
    assert(entries =~= (a + b) + c);
    lemma_files_add_up(base, dir, a + b, c);
    lemma_files_add_up(base, dir, a, b);
    assert(b.drop_last() =~= Seq::empty());
    assert(files_in(base, dir, b.drop_last()) == Seq::<(Seq<char>, RemoteFsEntry)>::empty());
    assert(files_in(base, dir, b) =~= seq![(rel, e)]);
    let all = files_in(base, dir, entries);
    assert(all[files_in(base, dir, a).len() as int] == (rel, e));
    rel
}

/// Nothing else is found: whatever is found in a folder is one of its entries,
/// and no folder. Entries that come later are found behind those that come
/// first.
pub proof fn law_only_files_are_found(
    base: Seq<char>,
    dir: Seq<char>,
    entries: Seq<RemoteFsEntry>,
    more: Seq<RemoteFsEntry>,
    j: int,
)
    requires
        0 <= j < files_in(base, dir, entries).len(),
    ensures
        exists|i: int|
            0 <= i < entries.len() && files_in(base, dir, entries)[j].1 == #[trigger] entries[i]
                && !entries[i].is_dir,
        files_in(base, dir, entries)[j].0.len() > 0,
        files_in(base, dir, entries + more) == files_in(base, dir, entries) + files_in(
            base,
            dir,
            more,
        ),
        files_in(base, dir, entries).len() <= entries.len(),
    decreases entries.len(),
{
    lemma_files_add_up(base, dir, entries, more);
    lemma_fewer_files(base, dir, entries);
    let some = entries.drop_last();
    let before = files_in(base, dir, some);
    if j < before.len() {
        law_only_files_are_found(base, dir, some, more, j);
        let i = choose|i: int|
            0 <= i < some.len() && before[j].1 == #[trigger] some[i] && !some[i].is_dir;
        assert(entries[i] == some[i]);
    } else {
        assert(entries[entries.len() - 1] == entries.last());
    }
}

proof fn lemma_fewer_files(base: Seq<char>, dir: Seq<char>, entries: Seq<RemoteFsEntry>)
    ensures
        files_in(base, dir, entries).len() <= entries.len(),
    decreases entries.len(),
{
    if entries.len() > 0 {
        lemma_fewer_files(base, dir, entries.drop_last());
    }
}

proof fn lemma_folders_add_up(
    dir: Seq<char>,
    depth: u32,
    a: Seq<RemoteFsEntry>,
    b: Seq<RemoteFsEntry>,
)
    ensures
        folders_in(dir, depth, a + b) == folders_in(dir, depth, a) + folders_in(dir, depth, b),
    decreases b.len(),
{
    let all = a + b;
    if b.len() > 0 {
        lemma_folders_add_up(dir, depth, a, b.drop_last());
        assert(all.drop_last() =~= a + b.drop_last());
        assert(all.last() == b.last());
    } else {
        assert(all =~= a);
    }
    assert(folders_in(dir, depth, all) =~= folders_in(dir, depth, a) + folders_in(dir, depth, b));
}

/// Every folder in a folder is searched in its turn, whatever its name, one
/// level deeper; nothing that is no folder is.
pub proof fn law_every_folder_in_a_folder_is_searched(
    dir: Seq<char>,
    depth: u32,
    entries: Seq<RemoteFsEntry>,
    i: int,
)
    requires
        0 <= i < entries.len(),
        depth <= 8,
    ensures
        entries[i].is_dir ==> exists|j: int|
            0 <= j < folders_in(dir, depth, entries).len() && (#[trigger] folders_in(
                dir,
                depth,
                entries,
            )[j]).0 == text::trim_end_slash(dir) + "/"@ + entries[i].name@ && folders_in(
                dir,
                depth,
                entries,
            )[j].1 == depth + 1,
        (forall|k: int| 0 <= k < entries.len() ==> !(#[trigger] entries[k]).is_dir) ==> folders_in(
            dir,
            depth,
            entries,
        ).len() == 0,
        (forall|k: int| 0 <= k < entries.len() ==> (#[trigger] entries[k]).is_dir) ==> folders_in(
            dir,
            depth,
            entries,
        ).len() == entries.len(),
{
    let e = entries[i];
    let a = entries.take(i);
    let b = seq![e];
    let c = entries.skip(i + 1);
    assert(entries =~= (a + b) + c);
    lemma_folders_add_up(dir, depth, a + b, c);
    lemma_folders_add_up(dir, depth, a, b);
    assert(b.drop_last() =~= Seq::empty());
    assert(folders_in(dir, depth, b.drop_last()) == Seq::<(Seq<char>, u32)>::empty());
    if e.is_dir {
        assert(folders_in(dir, depth, b) =~= seq![(child_path(dir, e.name@), (depth + 1) as u32)]);
        let all = folders_in(dir, depth, entries);
        let j = folders_in(dir, depth, a).len() as int;
        assert(all[j] == (child_path(dir, e.name@), (depth + 1) as u32));
    }
    lemma_number_of_folders(dir, depth, entries);
}

proof fn lemma_number_of_folders(dir: Seq<char>, depth: u32, entries: Seq<RemoteFsEntry>)
    ensures
        (forall|k: int| 0 <= k < entries.len() ==> !(#[trigger] entries[k]).is_dir) ==> folders_in(
            dir,
            depth,
            entries,
        ).len() == 0,
        (forall|k: int| 0 <= k < entries.len() ==> (#[trigger] entries[k]).is_dir) ==> folders_in(
            dir,
            depth,
            entries,
        ).len() == entries.len(),
    decreases entries.len(),
{
    if entries.len() > 0 {
        let some = entries.drop_last();
        lemma_number_of_folders(dir, depth, some);
        assert(entries[entries.len() - 1] == entries.last());
        assert forall|k: int| 0 <= k < some.len() implies #[trigger] some[k] == entries[k] by {}
        if forall|k: int| 0 <= k < entries.len() ==> !(#[trigger] entries[k]).is_dir {
            assert forall|k: int| 0 <= k < some.len() implies !(#[trigger] some[k]).is_dir by {
                assert(!entries[k].is_dir);
            }
        }
        if forall|k: int| 0 <= k < entries.len() ==> (#[trigger] entries[k]).is_dir {
            assert forall|k: int| 0 <= k < some.len() implies (#[trigger] some[k]).is_dir by {
                assert(entries[k].is_dir);
            }
        }
    }
}

/// The folder that is searched next is the last one ahead that lies at most
/// eight levels below the base; those behind it lie deeper, and those before it
/// stay.
pub proof fn law_last_folder_within_reach_is_next(ahead: Seq<(Seq<char>, u32)>)
    ensures
        reachable(ahead).len() <= ahead.len(),
        reachable(ahead) == ahead.take(reachable(ahead).len() as int),
        reachable(ahead).len() > 0 ==> reachable(ahead).last().1 <= 8,
        forall|i: int| reachable(ahead).len() <= i < ahead.len() ==> (#[trigger] ahead[i]).1 > 8,
    decreases ahead.len(),
{
    if ahead.len() > 0 && ahead.last().1 > MAX_DEPTH {
        let some = ahead.drop_last();
        law_last_folder_within_reach_is_next(some);
        assert(some.take(reachable(some).len() as int) =~= ahead.take(
            reachable(some).len() as int,
        ));
        assert forall|i: int| reachable(ahead).len() <= i < ahead.len() implies (
        #[trigger] ahead[i]).1 > 8 by {
            if i < some.len() {
                assert(some[i] == ahead[i]);
            }
        }
    } else {
        assert(ahead.take(ahead.len() as int) =~= ahead);
    }
}

/// A whole search comes to every file that the peer lists down to the limit: it
/// finds the files of a folder that it comes to, and all that is found below the
/// folders in it.
pub proof fn law_search_comes_to_every_file(
    base: Seq<char>,
    dir: Seq<char>,
    depth: u32,
    listing: spec_fn(Seq<char>) -> Option<Seq<RemoteFsEntry>>,
    i: int,
)
    requires
        depth <= 8,
        dir_below(base, dir),
        listing(dir) is Some,
        0 <= i < listing(dir)->0.len(),
        listing(dir)->0[i].name@.len() > 0,
        !listing(dir)->0[i].name@.contains('/'),
    ensures
        ({
            let e = listing(dir)->0[i];
            let child = text::trim_end_slash(dir) + "/"@ + e.name@;
            &&& !e.is_dir ==> exists|rel: Seq<char>|
                #![trigger tree(base, dir, depth, listing).count((rel, e))]
                text::trim_end_slash(base) + "/"@ + rel == child && tree(
                    base,
                    dir,
                    depth,
                    listing,
                ).count((rel, e)) > 0
            &&& e.is_dir ==> tree(base, child, (depth + 1) as u32, listing).subset_of(
                tree(base, dir, depth, listing),
            )
        }),
{
    let entries = listing(dir)->0;
    let e = entries[i];
    let files = files_in(base, dir, entries);
    let next = (depth + 1) as u32;
    files.to_multiset_ensures();
    if !e.is_dir {
        let rel = law_every_file_of_a_folder_is_found(base, dir, entries, i);
        assert(files.contains((rel, e)));
        assert(files.to_multiset().count((rel, e)) > 0);
        assert(tree(base, dir, depth, listing).count((rel, e)) > 0);
    } else {
        law_every_folder_in_a_folder_is_searched(dir, depth, entries, i);
        let dirs = folders_in(dir, depth, entries);
        let j = choose|j: int|
            0 <= j < dirs.len() && (#[trigger] dirs[j]).0 == text::trim_end_slash(dir) + "/"@
                + e.name@ && dirs[j].1 == depth + 1;
        lemma_tree_in_forest(base, dirs, next, listing, j);
    }
}

proof fn lemma_tree_in_forest(
    base: Seq<char>,
    dirs: Seq<(Seq<char>, u32)>,
    depth: u32,
    listing: spec_fn(Seq<char>) -> Option<Seq<RemoteFsEntry>>,
    j: int,
)
    requires
        0 <= j < dirs.len(),
    ensures
        tree(base, dirs[j].0, depth, listing).subset_of(forest(base, dirs, depth, listing)),
    decreases dirs.len(),
{
    if j < dirs.len() - 1 {
        lemma_tree_in_forest(base, dirs.drop_last(), depth, listing, j);
        assert(dirs.drop_last()[j] == dirs[j]);
    }
}

/// A file of the peer is pulled exactly if there is none here, or one that was
/// changed before it.
pub proof fn law_newer_file_of_the_peer_is_pulled(here: u64, there: u64)
    ensures
        worth_pulling(None, there),
        worth_pulling(Some(here), there) <==> here < there,
{
}

/// Every download is logged but one that broke off, and what is said of a
/// failure ends in its reason.
pub proof fn law_downloads_are_logged(words: String)
    ensures
        pull_line(Pulled::Refused(words)) == Some(("warn"@, "download failed: "@ + words@)),
        pull_line(Pulled::NoAnswer(words)) == Some(("warn"@, "download error: "@ + words@)),
        pull_line(Pulled::NotWritten(words)) == Some(("warn"@, "write failed: "@ + words@)),
        pull_line(Pulled::Written) == Some(("info"@, "pulled from remote"@)),
        pull_line(Pulled::Incomplete) is None,
{
}

/// What is said of a search is what it holds: the folders ahead with their
/// depths, and the files with their paths.
pub proof fn law_search_is_seen_as_it_is(w: RemoteWalk, i: int)
    ensures
        w.folders().len() == w.ahead@.len(),
        w.found().len() == w.files@.len(),
        0 <= i < w.ahead@.len() ==> w.folders()[i] == (w.ahead@[i].path@, w.ahead@[i].depth),
        0 <= i < w.files@.len() ==> w.found()[i] == (w.files@[i].rel@, w.files@[i].entry),
        MAX_DEPTH == 8,
{
}

/// A pulled file is put below the folder, under its path at the peer, with the
/// platform's separator between the names.
pub proof fn law_pulled_file_is_put_below_the_folder(
    root: Seq<char>,
    rel: Seq<char>,
    r: Seq<char>,
    sep: char,
)
    requires
        placed(r, root, rel, sep),
        root.len() > 0,
        !paths::separator(root.last()),
        !paths::bare_drive(root),
        paths::joinable(root),
        paths::unrooted(rel),
    ensures
        r == root.push('/') + text::map_char(rel, '/', sep) || r == root.push('\\')
            + text::map_char(rel, '/', sep),
        place_below(r, root, rel) ==> exists|c: char, d: char|
            paths::separator(c) && paths::separator(d) && r == #[trigger] (root.push(c)
                + text::map_char(rel, '/', d)),
{
    paths::law_joined_name_stands_behind(root, text::map_char(rel, '/', sep), r);
    if place_below(r, root, rel) {
        let d = choose|d: char| paths::separator(d) && #[trigger] placed(r, root, rel, d);
        paths::law_joined_name_stands_behind(root, text::map_char(rel, '/', d), r);
        if r == root.push('/') + text::map_char(rel, '/', d) {
            assert(paths::separator('/'));
        } else {
            assert(paths::separator('\\'));
            assert(r == root.push('\\') + text::map_char(rel, '/', d));
        }
    }
}

} // verus!
