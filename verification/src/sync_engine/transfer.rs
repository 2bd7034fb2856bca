//! What is done about a changed or renamed path: which requests bring the peer
//! up to date.

use vstd::prelude::*;

use crate::paths;
use crate::sync_engine;
use crate::sync_engine::request;
use crate::sync_engine::request::PeerRequest;
use crate::sync_engine::request::RequestView;
use crate::sync_engine::request::Verb;
use crate::sync_engine::retry;
use crate::sync_engine::retry::RetryAction;
use crate::sync_engine::RemoteStat;
use crate::sync_engine::RenameEvent;
use crate::sync_engine::SyncAction;
use crate::text;
use crate::url;

verus! {

/// What is done about a changed path.
#[derive(Debug)]
pub enum ChangePlan {
    Nothing,
    /// Delete the path at the peer.
    Delete(PeerRequest),
    /// Ask the peer for its file, and upload the local one if need be.
    Compare { stat: PeerRequest, upload: PeerRequest },
}

/// What a plan says.
pub enum PlanView {
    Nothing,
    Delete(RequestView),
    Compare { stat: RequestView, upload: RequestView },
}

impl View for ChangePlan {
    type V = PlanView;

    open spec fn view(&self) -> PlanView {
        match *self {
            ChangePlan::Nothing => PlanView::Nothing,
            ChangePlan::Delete(r) => PlanView::Delete(r@),
            ChangePlan::Compare { stat, upload } => PlanView::Compare {
                stat: stat@,
                upload: upload@,
            },
        }
    }
}

/// What is done about a change of `path`, which lies at `rel` below the
/// synchronised folder: nothing where it lies elsewhere; a deletion where that
/// is asked for or the path is gone; nothing for what is no file; else a
/// comparison. `up` is what lies above the path at the peer, `name` its last
/// name.
pub open spec fn plan(
    action: SyncAction,
    path: Seq<char>,
    rel: Option<Seq<char>>,
    up: Option<Seq<char>>,
    name: Option<Seq<char>>,
    exists_now: bool,
    is_file: bool,
    remote_base: Seq<char>,
    peer_ip: Seq<char>,
    api_token: Option<Seq<char>>,
) -> PlanView {
    match rel {
        None => PlanView::Nothing,
        Some(r) => {
            let remote = sync_engine::remote_path(remote_base, r);
            if action == SyncAction::Delete || !exists_now {
                PlanView::Delete(request::path_request(Verb::Delete, peer_ip, remote, api_token))
            } else if !is_file {
                PlanView::Nothing
            } else {
                PlanView::Compare {
                    stat: request::path_request(Verb::Stat, peer_ip, remote, api_token),
                    upload: request::upload_request(
                        peer_ip,
                        match up {
                            Some(u) => u,
                            None => remote_base,
                        },
                        path,
                        match name {
                            Some(n) => n,
                            None => "sync.bin"@,
                        },
                        api_token,
                    ),
                }
            }
        },
    }
}

/// What is done about a change of `path`, given where it lies.
pub fn plan_change(
    action: SyncAction,
    path: &str,
    rel: Option<String>,
    up: Option<String>,
    name: Option<String>,
    exists_now: bool,
    is_file: bool,
    remote_base: &str,
    peer_ip: &str,
    api_token: Option<&str>,
) -> (r: ChangePlan)
    ensures
        r@ == plan(
            action,
            path@,
            text::optional(rel),
            text::optional(up),
            text::optional(name),
            exists_now,
            is_file,
            remote_base@,
            peer_ip@,
            text::optional_str(api_token),
        ),
{
    let below: String = match rel {
        Some(s) => s,
        None => {
            return ChangePlan::Nothing;
        },
    };
    let remote: String = sync_engine::join_remote_path(remote_base, below.as_str());
    if action == SyncAction::Delete || !exists_now {
        return ChangePlan::Delete(
            request::request_on(Verb::Delete, peer_ip, remote.as_str(), api_token),
        );
    }
    if !is_file {
        return ChangePlan::Nothing;
    }
    let parent: String = match up {
        Some(u) => u,
        None => remote_base.to_string(),
    };
    let file_name: String = match name {
        Some(n) => n,
        None => "sync.bin".to_string(),
    };
    ChangePlan::Compare {
        stat: request::request_on(Verb::Stat, peer_ip, remote.as_str(), api_token),
        upload: request::request_upload(
            peer_ip,
            parent.as_str(),
            path,
            file_name.as_str(),
            api_token,
        ),
    }
}

/// What is done about a changed path, and the transfer that repeats it if it
/// fails.
#[derive(Debug)]
pub struct PlannedChange {
    pub plan: ChangePlan,
    pub again: Option<RetryAction>,
}

/// The request of a plan that changes something at the peer.
pub open spec fn changing_request(plan: PlanView) -> Option<RequestView> {
    match plan {
        PlanView::Nothing => None,
        PlanView::Delete(r) => Some(r),
        PlanView::Compare { upload, .. } => Some(upload),
    }
}

/// What is done about a change of `path`, and the transfer that repeats it if it
/// fails: it makes the request that failed, a deletion for a deletion and an
/// upload for an update of a file that is there.
pub fn sync_one_path(
    local_root: &str,
    remote_base: &str,
    peer_ip: &str,
    api_token: Option<&str>,
    path: &str,
    action: SyncAction,
    exists_now: bool,
    is_file: bool,
) -> (r: PlannedChange)
    ensures
        exists|rel: Option<Seq<char>>, up: Option<Seq<char>>, name: Option<Seq<char>>|
            {
                &&& #[trigger] retry::located(path@, local_root@, remote_base@, rel, up, name)
                &&& r.plan@ == plan(
                    action,
                    path@,
                    rel,
                    up,
                    name,
                    exists_now,
                    is_file,
                    remote_base@,
                    peer_ip@,
                    text::optional_str(api_token),
                )
                &&& retry::action_view(r.again) == retry::change_again(
                    action,
                    path@,
                    rel,
                    up,
                    name,
                    remote_base@,
                    peer_ip@,
                    text::optional_str(api_token),
                )
            },
        r.again is Some && (action is Delete || (exists_now && is_file)) ==> changing_request(
            r.plan@,
        ) == Some(retry::request_of(r.again->0@)),
{
    let at = retry::locate(path, local_root, remote_base);
    let ghost grel = text::optional(at.rel);
    let ghost gup = text::optional(at.up);
    let ghost gname = text::optional(at.name);
    assert(retry::located(path@, local_root@, remote_base@, grel, gup, gname));
    let again = retry::retry_of_change(
        action,
        path,
        at.rel.clone(),
        at.up.clone(),
        at.name.clone(),
        remote_base,
        peer_ip,
        text::own_optional(api_token),
    );
    let plan = plan_change(
        action,
        path,
        at.rel,
        at.up,
        at.name,
        exists_now,
        is_file,
        remote_base,
        peer_ip,
        api_token,
    );
    PlannedChange { plan, again }
}

/// How the local file compares with the peer's.
#[derive(Clone, Copy, Debug, PartialEq, Eq, Structural)]
pub enum Comparison {
    /// The peer's file is newer and stays.
    RemoteNewer,
    /// The peer has the file already.
    Same,
    /// The local file is to be uploaded.
    Upload,
}

/// A number that the peer may have left out.
pub open spec fn or_zero(n: Option<u64>) -> u64 {
    match n {
        Some(v) => v,
        None => 0,
    }
}

/// The peer has a file there, as far as it answered.
pub open spec fn has_file(stat: Option<RemoteStat>) -> bool {
    stat matches Some(s) && s.exists && !s.is_dir
}

/// How a local file compares with what the peer answered, if it did.
pub open spec fn comparison(local_size: u64, local_mtime: u64, stat: Option<RemoteStat>) -> Comparison {
    if !has_file(stat) {
        Comparison::Upload
    } else if or_zero(stat->0.mtime) > local_mtime {
        Comparison::RemoteNewer
    } else if local_size != or_zero(stat->0.size) || local_mtime > or_zero(stat->0.mtime) {
        Comparison::Upload
    } else {
        Comparison::Same
    }
}

/// How a local file compares with what the peer answered, if it did.
pub fn compare_files(local_size: u64, local_mtime: u64, stat: Option<RemoteStat>) -> (r: Comparison)
    ensures
        r == comparison(local_size, local_mtime, stat),
{
    match stat {
        Some(s) => {
            if s.exists && !s.is_dir {
                let remote_size: u64 = s.size.unwrap_or(0);
                let remote_mtime: u64 = s.mtime.unwrap_or(0);
                if remote_mtime > local_mtime {
                    Comparison::RemoteNewer
                } else if local_size != remote_size || local_mtime > remote_mtime {
                    Comparison::Upload
                } else {
                    Comparison::Same
                }
            } else {
                Comparison::Upload
            }
        },
        None => Comparison::Upload,
    }
}

/// The request that repeats a renaming at the peer, where both names lie below
/// the synchronised folder.
pub open spec fn rename_plan(
    from_rel: Option<Seq<char>>,
    to_rel: Option<Seq<char>>,
    remote_base: Seq<char>,
    peer_ip: Seq<char>,
    api_token: Option<Seq<char>>,
) -> Option<RequestView> {
    match (from_rel, to_rel) {
        (Some(f), Some(t)) => Some(
            request::move_request(
                peer_ip,
                sync_engine::remote_path(remote_base, f),
                sync_engine::remote_path(remote_base, t),
                api_token,
            ),
        ),
        _ => None,
    }
}

/// What an optional request says.
pub open spec fn request_view(r: Option<PeerRequest>) -> Option<RequestView> {
    match r {
        Some(q) => Some(q@),
        None => None,
    }
}

/// The request that repeats a renaming at the peer, given where the names lie.
pub fn plan_rename(
    from_rel: Option<String>,
    to_rel: Option<String>,
    remote_base: &str,
    peer_ip: &str,
    api_token: Option<&str>,
) -> (r: Option<PeerRequest>)
    ensures
        request_view(r) == rename_plan(
            text::optional(from_rel),
            text::optional(to_rel),
            remote_base@,
            peer_ip@,
            text::optional_str(api_token),
        ),
{
    match (from_rel, to_rel) {
        (Some(f), Some(t)) => Some(
            request::request_move(
                peer_ip,
                sync_engine::join_remote_path(remote_base, f.as_str()).as_str(),
                sync_engine::join_remote_path(remote_base, t.as_str()).as_str(),
                api_token,
            ),
        ),
        _ => None,
    }
}

/// The request that repeats a renaming at the peer, if there is one, and the
/// transfer that repeats it if it fails.
#[derive(Debug)]
pub struct PlannedRename {
    pub request: Option<PeerRequest>,
    pub again: Option<RetryAction>,
}

/// The request that repeats a renaming at the peer, and the transfer that makes
/// the same request if it fails.
pub fn sync_rename_path(
    local_root: &str,
    remote_base: &str,
    peer_ip: &str,
    api_token: Option<&str>,
    rename: &RenameEvent,
) -> (r: PlannedRename)
    ensures
        exists|from_rel: Option<Seq<char>>, to_rel: Option<Seq<char>>|
            {
                &&& #[trigger] paths::stripped(from_rel, rename.from@, local_root@)
                &&& #[trigger] paths::stripped(to_rel, rename.to@, local_root@)
                &&& request_view(r.request) == rename_plan(
                    from_rel,
                    to_rel,
                    remote_base@,
                    peer_ip@,
                    text::optional_str(api_token),
                )
                &&& retry::action_view(r.again) == retry::move_again(
                    from_rel,
                    to_rel,
                    remote_base@,
                    peer_ip@,
                    text::optional_str(api_token),
                )
            },
        request_view(r.request) == match r.again {
            Some(a) => Some(retry::request_of(a@)),
            None => None,
        },
{
    let from_rel = paths::strip_base(rename.from.as_str(), local_root);
    let to_rel = paths::strip_base(rename.to.as_str(), local_root);
    let ghost gfrom = text::optional(from_rel);
    let ghost gto = text::optional(to_rel);
    assert(paths::stripped(gfrom, rename.from@, local_root@));
    assert(paths::stripped(gto, rename.to@, local_root@));
    let again = retry::retry_of_rename(
        from_rel.clone(),
        to_rel.clone(),
        remote_base,
        peer_ip,
        text::own_optional(api_token),
    );
    PlannedRename {
        request: plan_rename(from_rel, to_rel, remote_base, peer_ip, api_token),
        again,
    }
}

// ------------------------------------------------------------------------- laws

/// A file of the peer that is newer than the local one is never overwritten,
/// and one of the same size and time is not sent again.
pub proof fn law_newer_remote_file_is_kept(local_size: u64, local_mtime: u64, stat: RemoteStat)
    requires
        has_file(Some(stat)),
    ensures
        or_zero(stat.mtime) > local_mtime ==> comparison(local_size, local_mtime, Some(stat))
            == Comparison::RemoteNewer,
        or_zero(stat.mtime) == local_mtime && or_zero(stat.size) == local_size ==> comparison(
            local_size,
            local_mtime,
            Some(stat),
        ) == Comparison::Same,
{
}

/// A local file that is newer than the peer's, or that the peer does not have,
/// is uploaded.
pub proof fn law_newer_local_file_is_uploaded(
    local_size: u64,
    local_mtime: u64,
    stat: Option<RemoteStat>,
)
    requires
        has_file(stat) ==> local_mtime > or_zero(stat->0.mtime),
    ensures
        comparison(local_size, local_mtime, stat) == Comparison::Upload,
{
}

/// Of two machines with a file each, at most one sends its file over the
/// other's when the times differ.
pub proof fn law_files_are_not_exchanged(
    size_here: u64,
    mtime_here: u64,
    size_there: u64,
    mtime_there: u64,
)
    requires
        mtime_here != mtime_there,
    ensures
        ({
            let here = RemoteStat {
                exists: true,
                is_dir: false,
                size: Some(size_here),
                mtime: Some(mtime_here),
            };
            let there = RemoteStat {
                exists: true,
                is_dir: false,
                size: Some(size_there),
                mtime: Some(mtime_there),
            };
            comparison(size_here, mtime_here, Some(there)) == Comparison::Upload
                <==> comparison(size_there, mtime_there, Some(here)) == Comparison::RemoteNewer
        }),
{
}

/// What the disk holds in the end decides: an update of a path that is gone is
/// a deletion.
pub proof fn law_vanished_path_is_deleted(
    path: Seq<char>,
    rel: Option<Seq<char>>,
    up: Option<Seq<char>>,
    name: Option<Seq<char>>,
    is_file: bool,
    remote_base: Seq<char>,
    peer_ip: Seq<char>,
    api_token: Option<Seq<char>>,
)
    ensures
        plan(
            SyncAction::Upsert,
            path,
            rel,
            up,
            name,
            false,
            is_file,
            remote_base,
            peer_ip,
            api_token,
        ) == plan(
            SyncAction::Delete,
            path,
            rel,
            up,
            name,
            false,
            is_file,
            remote_base,
            peer_ip,
            api_token,
        ),
{
}

/// A transfer that is tried again makes the request that failed: the upload
/// for an update, the deletion for a deletion.
pub proof fn law_retry_repeats_the_request(
    action: SyncAction,
    path: Seq<char>,
    rel: Seq<char>,
    up: Option<Seq<char>>,
    name: Seq<char>,
    remote_base: Seq<char>,
    peer_ip: Seq<char>,
    api_token: Option<Seq<char>>,
)
    ensures
        ({
            let again = retry::change_again(
                action,
                path,
                Some(rel),
                up,
                Some(name),
                remote_base,
                peer_ip,
                api_token,
            );
            let first = plan(
                action,
                path,
                Some(rel),
                up,
                Some(name),
                true,
                true,
                remote_base,
                peer_ip,
                api_token,
            );
            again is Some && match first {
                PlanView::Nothing => false,
                PlanView::Delete(r) => retry::request_of(again->0) == r,
                PlanView::Compare { upload, .. } => retry::request_of(again->0) == upload,
            }
        }),
{
}

/// A path below a known folder lies in one place: whoever looks where it lies
/// finds the same, so that a task that is made later repeats the request that
/// failed.
pub proof fn law_known_path_has_one_place(
    local_root: Seq<char>,
    below: Seq<char>,
    remote_base: Seq<char>,
    rel: Option<Seq<char>>,
    up: Option<Seq<char>>,
    name: Option<Seq<char>>,
    later_rel: Option<Seq<char>>,
    later_up: Option<Seq<char>>,
    later_name: Option<Seq<char>>,
)
    requires
        paths::known_folder(text::trim_end_slash(local_root)),
        paths::known_folder(text::trim_end_slash(remote_base)),
        paths::plain_relative(below),
        retry::located(
            text::trim_end_slash(local_root).push('/') + below,
            local_root,
            remote_base,
            rel,
            up,
            name,
        ),
        retry::located(
            text::trim_end_slash(local_root).push('/') + below,
            local_root,
            remote_base,
            later_rel,
            later_up,
            later_name,
        ),
    ensures
        rel == Some(below),
        later_rel == rel,
        later_up == up,
        later_name == name,
{
    paths::lemma_below(text::trim_end_slash(local_root), below);
    paths::lemma_below(text::trim_end_slash(remote_base), below);
    sync_engine::lemma_remote_path(remote_base, below);
}

/// A renaming that is tried again makes the request that failed.
pub proof fn law_retry_repeats_the_move(
    from_rel: Option<Seq<char>>,
    to_rel: Option<Seq<char>>,
    remote_base: Seq<char>,
    peer_ip: Seq<char>,
    api_token: Option<Seq<char>>,
)
    ensures
        match retry::move_again(from_rel, to_rel, remote_base, peer_ip, api_token) {
            Some(a) => rename_plan(from_rel, to_rel, remote_base, peer_ip, api_token) == Some(
                retry::request_of(a),
            ),
            None => rename_plan(from_rel, to_rel, remote_base, peer_ip, api_token) is None,
        },
{
}

/// `plan` asks the peer for `remote`, and uploads `path` into the folder and
/// under the name that make up `remote`.
pub open spec fn lands_at(
    plan: PlanView,
    path: Seq<char>,
    remote: Seq<char>,
    peer_ip: Seq<char>,
    api_token: Option<Seq<char>>,
) -> bool {
    exists|dir: Seq<char>, file: Seq<char>|
        #![trigger dir.push('/') + file]
        dir.push('/') + file == remote && plan == (PlanView::Compare {
            stat: request::path_request(Verb::Stat, peer_ip, remote, api_token),
            upload: request::upload_request(peer_ip, dir, path, file, api_token),
        })
}

/// An upload puts the file where the peer was asked for it: the folder that it
/// is sent into and the name that it is sent under make the path that was
/// compared. Stated for plain paths and paths on a drive, with slashes; more
/// slashes may follow the two folders.
pub proof fn law_upload_lands_where_it_was_compared(
    local_root: Seq<char>,
    below: Seq<char>,
    rel: Option<Seq<char>>,
    up: Option<Seq<char>>,
    name: Option<Seq<char>>,
    remote_base: Seq<char>,
    peer_ip: Seq<char>,
    api_token: Option<Seq<char>>,
)
    requires
        paths::known_folder(text::trim_end_slash(local_root)),
        paths::known_folder(text::trim_end_slash(remote_base)),
        paths::plain_relative(below),
        retry::located(
            text::trim_end_slash(local_root).push('/') + below,
            local_root,
            remote_base,
            rel,
            up,
            name,
        ),
    ensures
        ({
            let path = text::trim_end_slash(local_root).push('/') + below;
            let remote = text::trim_end_slash(remote_base).push('/') + below;
            lands_at(
                plan(
                    SyncAction::Upsert,
                    path,
                    rel,
                    up,
                    name,
                    true,
                    true,
                    remote_base,
                    peer_ip,
                    api_token,
                ),
                path,
                remote,
                peer_ip,
                api_token,
            )
        }),
{
    let root = text::trim_end_slash(local_root);
    let base = text::trim_end_slash(remote_base);
    let path = root.push('/') + below;
    let remote = base.push('/') + below;
    paths::lemma_below(root, below);
    paths::lemma_below(base, below);
    assert(rel == Some(below));
    sync_engine::lemma_remote_path(remote_base, below);
    let n = paths::last_slash(remote);
    let dir = remote.take(n);
    let file = paths::name_of(remote);
    assert(up == Some(dir));
    assert(name == Some(file));
    assert(dir.push('/') + file =~= remote);
}

/// The same of a path with backslashes, on a platform that separates by them:
/// at the peer it has slashes.
pub proof fn law_upload_from_backslashes_lands_where_it_was_compared(
    local_root: Seq<char>,
    below: Seq<char>,
    rel: Option<Seq<char>>,
    up: Option<Seq<char>>,
    name: Option<Seq<char>>,
    remote_base: Seq<char>,
    peer_ip: Seq<char>,
    api_token: Option<Seq<char>>,
)
    requires
        paths::with_backslashes(local_root),
        paths::known_folder(text::trim_end_slash(remote_base)),
        paths::plain_relative(text::map_char(below, '\\', '/')),
        !below.contains('/'),
        retry::located(local_root.push('\\') + below, local_root, remote_base, rel, up, name),
        rel is Some,
        name != Some(local_root.push('\\') + below),
    ensures
        ({
            let path = local_root.push('\\') + below;
            let remote = text::trim_end_slash(remote_base).push('/') + text::map_char(
                below,
                '\\',
                '/',
            );
            lands_at(
                plan(
                    SyncAction::Upsert,
                    path,
                    rel,
                    up,
                    name,
                    true,
                    true,
                    remote_base,
                    peer_ip,
                    api_token,
                ),
                path,
                remote,
                peer_ip,
                api_token,
            )
        }),
{
    let path = local_root.push('\\') + below;
    let tail = text::map_char(below, '\\', '/');
    let base = text::trim_end_slash(remote_base);
    let remote = base.push('/') + tail;
    let root = text::map_char(local_root, '\\', '/');
    let there = text::map_char(path, '\\', '/');
    assert(there =~= root.push('/') + tail);
    paths::lemma_below(root, tail);
    paths::lemma_below(base, tail);
    assert(!path.contains('/')) by {
        if path.contains('/') {
            let i = choose|i: int| 0 <= i < path.len() && path[i] == '/';
            if i < local_root.len() {
                assert(local_root[i] == '/');
            } else if i > local_root.len() {
                assert(below[i - local_root.len() - 1] == '/');
            }
        }
    }
    assert(paths::with_backslashes(path));
    assert(path[0] == local_root[0]);
    assert(path.take(local_root.len() as int + 1) =~= local_root.push('\\'));
    assert(path.skip(local_root.len() as int + 1) =~= below);
    assert(path.len() != local_root.len());
    assert(rel == Some(below));
    reveal_strlit("/");
    assert(sync_engine::remote_path(remote_base, below) =~= remote);
    let n = paths::last_slash(remote);
    let dir = remote.take(n);
    let file = paths::name_of(remote);
    assert(up == Some(dir));
    assert(name == Some(file));
    assert(dir.push('/') + file =~= remote);
}

/// No failure is lost: a change of a path below the synchronised folder that
/// failed is queued. Stated for plain paths and paths on a drive, with slashes;
/// more slashes may follow the folder.
pub proof fn law_failed_change_is_queued(
    action: SyncAction,
    local_root: Seq<char>,
    below: Seq<char>,
    rel: Option<Seq<char>>,
    up: Option<Seq<char>>,
    name: Option<Seq<char>>,
    remote_base: Seq<char>,
    peer_ip: Seq<char>,
    api_token: Option<Seq<char>>,
)
    requires
        paths::known_folder(text::trim_end_slash(local_root)),
        paths::plain_relative(below),
        retry::located(
            text::trim_end_slash(local_root).push('/') + below,
            local_root,
            remote_base,
            rel,
            up,
            name,
        ),
    ensures
        retry::change_again(
            action,
            text::trim_end_slash(local_root).push('/') + below,
            rel,
            up,
            name,
            remote_base,
            peer_ip,
            api_token,
        ) is Some,
{
    paths::lemma_below(text::trim_end_slash(local_root), below);
}

/// A file that both sides have is uploaded exactly if it is newer here, or as
/// old and of another size; it is kept exactly if the peer's is newer. A number
/// that the peer leaves out counts as zero.
pub proof fn law_newer_or_resized_file_is_uploaded(
    local_size: u64,
    local_mtime: u64,
    remote_size: Option<u64>,
    remote_mtime: Option<u64>,
)
    ensures
        ({
            let stat = RemoteStat {
                exists: true,
                is_dir: false,
                size: remote_size,
                mtime: remote_mtime,
            };
            let size: int = match remote_size {
                Some(n) => n as int,
                None => 0,
            };
            let mtime: int = match remote_mtime {
                Some(n) => n as int,
                None => 0,
            };
            let c = comparison(local_size, local_mtime, Some(stat));
            &&& c == Comparison::Upload <==> local_mtime > mtime || (local_mtime == mtime
                && local_size != size)
            &&& c == Comparison::RemoteNewer <==> mtime > local_mtime
            &&& c == Comparison::Same <==> mtime == local_mtime && size == local_size
        }),
{
}

/// A file that the peer does not have, has as a folder, or gives no answer on,
/// is uploaded, whatever its size and time.
pub proof fn law_missing_file_is_uploaded(
    local_size: u64,
    local_mtime: u64,
    size: Option<u64>,
    mtime: Option<u64>,
    is_dir: bool,
)
    ensures
        comparison(local_size, local_mtime, None) == Comparison::Upload,
        comparison(
            local_size,
            local_mtime,
            Some(RemoteStat { exists: false, is_dir, size, mtime }),
        ) == Comparison::Upload,
        comparison(
            local_size,
            local_mtime,
            Some(RemoteStat { exists: true, is_dir: true, size, mtime }),
        ) == Comparison::Upload,
{
}

/// What a change leads to: a path elsewhere to nothing; a path that is to be
/// deleted, or is gone, to a deletion at the peer; a file that is there to a
/// question and an upload; anything else to nothing.
pub proof fn law_change_leads_to(
    action: SyncAction,
    path: Seq<char>,
    rel: Seq<char>,
    up: Option<Seq<char>>,
    name: Option<Seq<char>>,
    exists_now: bool,
    is_file: bool,
    remote_base: Seq<char>,
    peer: Seq<char>,
    token: Option<Seq<char>>,
)
    ensures
        plan(action, path, None, up, name, exists_now, is_file, remote_base, peer, token)
            is Nothing,
        ({
            let p = plan(
                action,
                path,
                Some(rel),
                up,
                name,
                exists_now,
                is_file,
                remote_base,
                peer,
                token,
            );
            let there = sync_engine::remote_path(remote_base, rel);
            &&& p is Delete <==> action is Delete || !exists_now
            &&& p is Compare <==> action is Upsert && exists_now && is_file
            &&& p matches PlanView::Delete(r) ==> r.verb is Delete && r.url == url::fs_address(
                peer,
                "delete"@,
                there,
            ) && r.api_token == token && r.file is None
            &&& p matches PlanView::Compare { stat, upload } ==> {
                &&& stat.verb is Stat
                &&& stat.url == url::fs_address(peer, "stat"@, there)
                &&& stat.api_token == token
                &&& stat.file is None
                &&& upload.verb is Upload
                &&& upload.api_token == token
                &&& upload.url == url::fs_address(
                    peer,
                    "upload"@,
                    if up is Some {
                        up->0
                    } else {
                        remote_base
                    },
                )
                &&& upload.file is Some
                &&& upload.file->0 == (
                    path,
                    if name is Some {
                        name->0
                    } else {
                        "sync.bin"@
                    },
                )
            }
        }),
{
}

/// A renaming is repeated exactly where both names lie below the folder, with
/// the old name first.
pub proof fn law_renaming_leads_to(
    from: Option<Seq<char>>,
    to: Option<Seq<char>>,
    remote_base: Seq<char>,
    peer: Seq<char>,
    token: Option<Seq<char>>,
)
    ensures
        rename_plan(from, to, remote_base, peer, token) is Some <==> from is Some && to is Some,
        rename_plan(from, to, remote_base, peer, token) matches Some(r) ==> r.verb is Move && r.url
            == url::move_address(
            peer,
            sync_engine::remote_path(remote_base, from->0),
            sync_engine::remote_path(remote_base, to->0),
        ) && r.api_token == token && r.file is None,
{
}

/// What is said of a plan is what it holds, and the request of a plan that
/// changes something is its deletion or its upload.
pub proof fn law_plan_is_seen_as_it_is(p: ChangePlan, r: PeerRequest)
    ensures
        p is Nothing <==> p@ is Nothing,
        p matches ChangePlan::Delete(d) ==> p@ == PlanView::Delete(d@) && changing_request(p@)
            == Some(d@),
        p matches ChangePlan::Compare { stat, upload } ==> p@ == (PlanView::Compare {
            stat: stat@,
            upload: upload@,
        }) && changing_request(p@) == Some(upload@),
        p is Nothing ==> changing_request(p@) is None,
        request_view(Some(r)) == Some(r@),
        request_view(None) is None,
{
}

} // verus!
