//! The queue of transfers that failed: what it holds, how it is shown and
//! changed, and how often a transfer is tried again.

use std::collections::VecDeque;

use vstd::prelude::*;

use crate::clock;
use crate::error::OpenBoltError;
use crate::error::OpenBoltResult;
use crate::paths;
use crate::sync_engine;
use crate::sync_engine::log;
use crate::sync_engine::log::SyncLogEntry;
use crate::sync_engine::request;
use crate::sync_engine::request::PeerRequest;
use crate::sync_engine::request::RequestView;
use crate::sync_engine::request::Verb;
use crate::sync_engine::RenameEvent;
use crate::sync_engine::SyncAction;
use crate::text;
use crate::url;

verus! {

/// The number of failures after which a transfer is dropped.
pub const MAX_ATTEMPTS: u32 = 8;

/// The most items that are listed at once.
pub const MAX_ITEMS: usize = 200;

/// A transfer that is to be tried again.
#[derive(Clone, Debug)]
pub enum RetryAction {
    Upsert {
        local_path: String,
        remote_parent: String,
        file_name: String,
        peer_ip: String,
        api_token: Option<String>,
    },
    Delete { remote_path: String, peer_ip: String, api_token: Option<String> },
    Move { from: String, to: String, peer_ip: String, api_token: Option<String> },
}

/// What a transfer says.
pub enum ActionView {
    Upsert {
        local_path: Seq<char>,
        remote_parent: Seq<char>,
        file_name: Seq<char>,
        peer_ip: Seq<char>,
        api_token: Option<Seq<char>>,
    },
    Delete { remote_path: Seq<char>, peer_ip: Seq<char>, api_token: Option<Seq<char>> },
    Move { from: Seq<char>, to: Seq<char>, peer_ip: Seq<char>, api_token: Option<Seq<char>> },
}

impl View for RetryAction {
    type V = ActionView;

    open spec fn view(&self) -> ActionView {
        match *self {
            RetryAction::Upsert { local_path, remote_parent, file_name, peer_ip, api_token } =>
                ActionView::Upsert {
                    local_path: local_path@,
                    remote_parent: remote_parent@,
                    file_name: file_name@,
                    peer_ip: peer_ip@,
                    api_token: text::optional(api_token),
                },
            RetryAction::Delete { remote_path, peer_ip, api_token } => ActionView::Delete {
                remote_path: remote_path@,
                peer_ip: peer_ip@,
                api_token: text::optional(api_token),
            },
            RetryAction::Move { from, to, peer_ip, api_token } => ActionView::Move {
                from: from@,
                to: to@,
                peer_ip: peer_ip@,
                api_token: text::optional(api_token),
            },
        }
    }
}

/// A transfer in the queue, with the number of times that it has failed.
#[derive(Clone, Debug)]
pub struct RetryTask {
    pub id: u64,
    pub attempts: u32,
    pub action: RetryAction,
}

/// How full the queue is, and where it is stored.
#[derive(Clone, Debug)]
pub struct RetryQueueStatus {
    pub pending: usize,
    pub store_path: String,
}

/// A transfer as it is shown.
#[derive(Clone, Debug)]
pub struct RetryQueueItem {
    pub id: u64,
    pub attempts: u32,
    pub kind: String,
    pub target: String,
}

/// What a shown transfer says.
pub struct ItemView {
    pub id: u64,
    pub attempts: u32,
    pub kind: Seq<char>,
    pub target: Seq<char>,
}

impl View for RetryQueueItem {
    type V = ItemView;

    open spec fn view(&self) -> ItemView {
        ItemView { id: self.id, attempts: self.attempts, kind: self.kind@, target: self.target@ }
    }
}

// ---------------------------------------------------------------- new transfers

/// The transfer that repeats a failed change of `path`: there is one where the
/// path lies below the synchronised folder, at `rel`, and, unless it is a
/// deletion, has a last name. `up` is what lies above the path at the peer.
pub open spec fn change_again(
    action: SyncAction,
    path: Seq<char>,
    rel: Option<Seq<char>>,
    up: Option<Seq<char>>,
    name: Option<Seq<char>>,
    remote_base: Seq<char>,
    peer_ip: Seq<char>,
    api_token: Option<Seq<char>>,
) -> Option<ActionView> {
    match (action, rel, name) {
        (_, None, _) => None,
        (SyncAction::Delete, Some(r), _) => Some(
            ActionView::Delete {
                remote_path: sync_engine::remote_path(remote_base, r),
                peer_ip,
                api_token,
            },
        ),
        (SyncAction::Upsert, Some(r), None) => None,
        (SyncAction::Upsert, Some(r), Some(n)) => Some(
            ActionView::Upsert {
                local_path: path,
                remote_parent: match up {
                    Some(u) => u,
                    None => remote_base,
                },
                file_name: n,
                peer_ip,
                api_token,
            },
        ),
    }
}

/// `rel` is `path` as seen from the synchronised folder, `up` what lies above
/// its path at the peer, and `name` its last name.
pub open spec fn located(
    path: Seq<char>,
    local_root: Seq<char>,
    remote_base: Seq<char>,
    rel: Option<Seq<char>>,
    up: Option<Seq<char>>,
    name: Option<Seq<char>>,
) -> bool {
    &&& paths::stripped(rel, path, local_root)
    &&& rel is Some ==> paths::above(up, sync_engine::remote_path(remote_base, rel->0))
    &&& paths::named(name, path)
}

/// What an optional transfer says.
pub open spec fn action_view(a: Option<RetryAction>) -> Option<ActionView> {
    match a {
        Some(x) => Some(x@),
        None => None,
    }
}

/// What the transfer of an optional task says.
pub open spec fn task_view(t: Option<RetryTask>) -> Option<ActionView> {
    match t {
        Some(x) => Some(x.action@),
        None => None,
    }
}

/// The transfer that repeats a failed change of `path`.
pub fn retry_of_change(
    action: SyncAction,
    path: &str,
    rel: Option<String>,
    up: Option<String>,
    name: Option<String>,
    remote_base: &str,
    peer_ip: &str,
    api_token: Option<String>,
) -> (r: Option<RetryAction>)
    ensures
        action_view(r) == change_again(
            action,
            path@,
            text::optional(rel),
            text::optional(up),
            text::optional(name),
            remote_base@,
            peer_ip@,
            text::optional(api_token),
        ),
{
    let below: String = match rel {
        Some(s) => s,
        None => {
            return None;
        },
    };
    match action {
        SyncAction::Delete => Some(
            RetryAction::Delete {
                remote_path: sync_engine::join_remote_path(remote_base, below.as_str()),
                peer_ip: peer_ip.to_string(),
                api_token,
            },
        ),
        SyncAction::Upsert => match name {
            None => None,
            Some(file_name) => Some(
                RetryAction::Upsert {
                    local_path: path.to_string(),
                    remote_parent: match up {
                        Some(u) => u,
                        None => remote_base.to_string(),
                    },
                    file_name,
                    peer_ip: peer_ip.to_string(),
                    api_token,
                },
            ),
        },
    }
}

/// Where a path lies: as seen from the synchronised folder, what lies above it at
/// the peer, and its last name.
#[derive(Debug)]
pub struct Location {
    pub rel: Option<String>,
    pub up: Option<String>,
    pub name: Option<String>,
}

/// Where `path` lies.
pub fn locate(path: &str, local_root: &str, remote_base: &str) -> (r: Location)
    ensures
        located(
            path@,
            local_root@,
            remote_base@,
            text::optional(r.rel),
            text::optional(r.up),
            text::optional(r.name),
        ),
{
    let rel = paths::strip_base(path, local_root);
    let up: Option<String> = match &rel {
        Some(s) => paths::parent_of(
            sync_engine::join_remote_path(remote_base, s.as_str()).as_str(),
        ),
        None => None,
    };
    Location { rel, up, name: paths::file_name_of(path) }
}

/// A task for a transfer that has not failed again yet, with the number `id`.
pub fn task_with(again: Option<RetryAction>, id: u64) -> (r: Option<RetryTask>)
    ensures
        r == match again {
            Some(action) => Some(RetryTask { id, attempts: 0, action }),
            None => None,
        },
{
    match again {
        Some(action) => Some(RetryTask { id, attempts: 0, action }),
        None => None,
    }
}

/// A task for a transfer that has not failed again yet, with a number by the
/// clock.
pub fn task_of(again: Option<RetryAction>) -> (r: Option<RetryTask>)
    ensures
        match (r, again) {
            (Some(t), Some(a)) => t.action == a && t.attempts == 0,
            (None, None) => true,
            _ => false,
        },
{
    let id: u64 = clock::next_task_id();
    task_with(again, id)
}

/// The task that tries a failed change of `path` again.
pub fn build_retry_task(
    local_root: &str,
    remote_base: &str,
    peer_ip: &str,
    api_token: Option<String>,
    path: &str,
    action: SyncAction,
) -> (r: Option<RetryTask>)
    ensures
        exists|rel: Option<Seq<char>>, up: Option<Seq<char>>, name: Option<Seq<char>>|
            #[trigger] located(path@, local_root@, remote_base@, rel, up, name) && task_view(r)
                == change_again(
                action,
                path@,
                rel,
                up,
                name,
                remote_base@,
                peer_ip@,
                text::optional(api_token),
            ),
        r matches Some(t) ==> t.attempts == 0,
{
    let at = locate(path, local_root, remote_base);
    let ghost grel = text::optional(at.rel);
    let ghost gup = text::optional(at.up);
    let ghost gname = text::optional(at.name);
    assert(located(path@, local_root@, remote_base@, grel, gup, gname));
    task_of(
        retry_of_change(action, path, at.rel, at.up, at.name, remote_base, peer_ip, api_token),
    )
}

/// The transfer that repeats a failed renaming, where both names lie below the
/// synchronised folder.
pub open spec fn move_again(
    from_rel: Option<Seq<char>>,
    to_rel: Option<Seq<char>>,
    remote_base: Seq<char>,
    peer_ip: Seq<char>,
    api_token: Option<Seq<char>>,
) -> Option<ActionView> {
    match (from_rel, to_rel) {
        (Some(f), Some(t)) => Some(
            ActionView::Move {
                from: sync_engine::remote_path(remote_base, f),
                to: sync_engine::remote_path(remote_base, t),
                peer_ip,
                api_token,
            },
        ),
        _ => None,
    }
}

/// The transfer that repeats a failed renaming.
pub fn retry_of_rename(
    from_rel: Option<String>,
    to_rel: Option<String>,
    remote_base: &str,
    peer_ip: &str,
    api_token: Option<String>,
) -> (r: Option<RetryAction>)
    ensures
        action_view(r) == move_again(
            text::optional(from_rel),
            text::optional(to_rel),
            remote_base@,
            peer_ip@,
            text::optional(api_token),
        ),
{
    match (from_rel, to_rel) {
        (Some(f), Some(t)) => Some(
            RetryAction::Move {
                from: sync_engine::join_remote_path(remote_base, f.as_str()),
                to: sync_engine::join_remote_path(remote_base, t.as_str()),
                peer_ip: peer_ip.to_string(),
                api_token,
            },
        ),
        _ => None,
    }
}

/// The task that tries a failed renaming again.
pub fn build_retry_rename_task(
    local_root: &str,
    remote_base: &str,
    peer_ip: &str,
    api_token: Option<String>,
    rename: &RenameEvent,
) -> (r: Option<RetryTask>)
    ensures
        exists|from_rel: Option<Seq<char>>, to_rel: Option<Seq<char>>|
            #[trigger] paths::stripped(from_rel, rename.from@, local_root@)
                && #[trigger] paths::stripped(to_rel, rename.to@, local_root@) && task_view(r)
                == move_again(
                from_rel,
                to_rel,
                remote_base@,
                peer_ip@,
                text::optional(api_token),
            ),
        r matches Some(t) ==> t.attempts == 0,
{
    let from_rel = paths::strip_base(rename.from.as_str(), local_root);
    let to_rel = paths::strip_base(rename.to.as_str(), local_root);
    let ghost gfrom = text::optional(from_rel);
    let ghost gto = text::optional(to_rel);
    assert(paths::stripped(gfrom, rename.from@, local_root@));
    assert(paths::stripped(gto, rename.to@, local_root@));
    task_of(retry_of_rename(from_rel, to_rel, remote_base, peer_ip, api_token))
}

// -------------------------------------------------------------------- the store

/// `r` is the file below `local_root` in which the queue is stored.
pub open spec fn store_below(r: Seq<char>, local_root: Seq<char>) -> bool {
    exists|folder: Seq<char>|
        #[trigger] paths::joined(folder, local_root, ".openbolt"@) && paths::joined(
            r,
            folder,
            "retry_queue.json"@,
        )
}

/// The file in which the queue of `local_root` is stored.
pub fn retry_store_path(local_root: &str) -> (r: String)
    ensures
        paths::joinable(local_root@) ==> store_below(r@, local_root@),
{
    let folder: String = paths::join_path(local_root, ".openbolt");
    let store: String = paths::join_path(folder.as_str(), "retry_queue.json");
    proof {
        if paths::joinable(local_root@) {
            lemma_store_names();
            assert(paths::joined(folder@, local_root@, ".openbolt"@));
            paths::lemma_joined_is_joinable(folder@, local_root@, ".openbolt"@);
        }
    }
    store
}

proof fn lemma_store_names()
    ensures
        paths::unrooted(".openbolt"@),
        paths::unrooted("retry_queue.json"@),
        ".openbolt"@[0] == '.',
{
    reveal_strlit(".openbolt");
    reveal_strlit("retry_queue.json");
}

/// A task with a number: its own, or `id` where it has none.
pub open spec fn with_number(task: RetryTask, id: u64) -> RetryTask {
    RetryTask {
        id: if task.id == 0 {
            id
        } else {
            task.id
        },
        ..task
    }
}

/// A task with a number: its own, or `id` where it has none.
pub fn number_task(task: RetryTask, id: u64) -> (r: RetryTask)
    ensures
        r == with_number(task, id),
{
    let id: u64 = if task.id == 0 {
        id
    } else {
        task.id
    };
    RetryTask { id, attempts: task.attempts, action: task.action }
}

/// A queue in which the tasks without a number got those of `ids`, each the one
/// at its place.
pub open spec fn numbered(queue: Seq<RetryTask>, ids: Seq<u64>) -> Seq<RetryTask> {
    Seq::new(queue.len(), |i: int| with_number(queue[i], ids[i]))
}

/// Gives the numbers `ids` to the tasks of a queue that have none.
pub fn number_queue(queue: VecDeque<RetryTask>, ids: &Vec<u64>) -> (r: VecDeque<RetryTask>)
    requires
        ids@.len() == queue@.len(),
    ensures
        r@ == numbered(queue@, ids@),
{
    let ghost all = queue@;
    let mut rest = queue;
    let mut out: VecDeque<RetryTask> = VecDeque::new();
    let count: usize = ids.len();
    let mut i: usize = 0;
    while rest.len() > 0
        invariant
            out@.len() == i,
            count == all.len(),
            i + rest@.len() == all.len(),
            ids@.len() == all.len(),
            rest@ == all.skip(i as int),
            forall|k: int| 0 <= k < i ==> #[trigger] out@[k] == with_number(all[k], ids@[k]),
        decreases rest@.len(),
    {
        if let Some(task) = rest.pop_front() {
            assert(task == all[i as int]);
            assert(rest@ =~= all.skip(i + 1));
            out.push_back(number_task(task, ids[i]));
            i = i + 1;
        }
    }
    assert(out@ =~= numbered(all, ids@));
    out
}

/// Gives a number by the clock to each task of a loaded queue that has none.
pub fn assign_missing_ids(queue: VecDeque<RetryTask>) -> (r: VecDeque<RetryTask>)
    ensures
        exists|ids: Seq<u64>|
            ids.len() == queue@.len() && r@ == #[trigger] numbered(queue@, ids),
{
    let mut ids: Vec<u64> = Vec::new();
    let mut i: usize = 0;
    while i < queue.len()
        invariant
            i <= queue@.len(),
            ids@.len() == i,
        decreases queue@.len() - i,
    {
        let id: u64 = if queue[i].id == 0 {
            clock::next_task_id()
        } else {
            queue[i].id
        };
        ids.push(id);
        i = i + 1;
    }
    number_queue(queue, &ids)
}

/// Where no number that is given out is 0, every task of a loaded queue has a
/// number afterwards: its own, if it had one. Nothing else changes.
pub proof fn law_every_task_gets_a_number(queue: Seq<RetryTask>, ids: Seq<u64>, i: int)
    requires
        ids.len() == queue.len(),
        0 <= i < queue.len(),
        ids[i] != 0,
    ensures
        numbered(queue, ids).len() == queue.len(),
        numbered(queue, ids)[i].id != 0,
        queue[i].id != 0 ==> numbered(queue, ids)[i] == queue[i],
        numbered(queue, ids)[i].attempts == queue[i].attempts,
        numbered(queue, ids)[i].action == queue[i].action,
{
}

// -------------------------------------------------------------------- the queue

/// How full the queue is, and where it is stored.
pub fn get_retry_queue_status(queue: &VecDeque<RetryTask>, local_dir: &str) -> (r:
    RetryQueueStatus)
    ensures
        r.pending == queue@.len(),
        paths::joinable(local_dir@) ==> store_below(r.store_path@, local_dir@),
{
    RetryQueueStatus { pending: queue.len(), store_path: retry_store_path(local_dir) }
}

/// The position of the first task with the number `item_id`, or the length of
/// the queue.
pub open spec fn position(queue: Seq<RetryTask>, item_id: u64) -> int
    decreases queue.len(),
{
    if queue.len() == 0 || queue[0].id == item_id {
        0
    } else {
        1 + position(queue.skip(1), item_id)
    }
}

proof fn lemma_position(queue: Seq<RetryTask>, item_id: u64, n: int)
    requires
        0 <= n <= queue.len(),
        forall|i: int| 0 <= i < n ==> (#[trigger] queue[i]).id != item_id,
        n < queue.len() ==> queue[n].id == item_id,
    ensures
        position(queue, item_id) == n,
    decreases n,
{
    if n > 0 {
        let t = queue.skip(1);
        assert forall|i: int| 0 <= i < n - 1 implies (#[trigger] t[i]).id != item_id by {
            assert(t[i] == queue[i + 1]);
        }
        lemma_position(t, item_id, n - 1);
    }
}

/// Takes the first task with the number `item_id` out of the queue, to try it
/// at once.
pub fn retry_queue_item(queue: &mut VecDeque<RetryTask>, item_id: u64) -> (r: OpenBoltResult<
    RetryTask,
>)
    ensures
        ({
            let n = position(old(queue)@, item_id);
            if n < old(queue)@.len() {
                &&& r == Ok::<RetryTask, OpenBoltError>(old(queue)@[n])
                &&& final(queue)@ == old(queue)@.remove(n)
            } else {
                &&& r is Err && request::failed_with(r->Err_0, "retry item not found"@)
                &&& final(queue)@ == old(queue)@
            }
        }),
{
    let mut i: usize = 0;
    while i < queue.len()
        invariant
            i <= queue@.len(),
            queue@ == old(queue)@,
            forall|k: int| 0 <= k < i ==> (#[trigger] queue@[k]).id != item_id,
        decreases queue@.len() - i,
    {
        if queue[i].id == item_id {
            proof {
                lemma_position(queue@, item_id, i as int);
            }
            if let Some(task) = queue.remove(i) {
                return Ok(task);
            }
            return Err(OpenBoltError::CommandFailed("retry item not found".to_string()));
        }
        i = i + 1;
    }
    proof {
        lemma_position(queue@, item_id, i as int);
    }
    Err(OpenBoltError::CommandFailed("retry item not found".to_string()))
}

/// The tasks of `queue` with other numbers than `item_id`.
pub open spec fn without(queue: Seq<RetryTask>, item_id: u64) -> Seq<RetryTask> {
    queue.filter(|t: RetryTask| t.id != item_id)
}

/// Drops every task with the number `item_id`.
pub fn remove_retry_queue_item(queue: VecDeque<RetryTask>, item_id: u64) -> (r: VecDeque<RetryTask>)
    ensures
        r@ == without(queue@, item_id),
{
    let ghost all = queue@;
    let ghost other = |t: RetryTask| t.id != item_id;
    let mut rest = queue;
    let mut out: VecDeque<RetryTask> = VecDeque::new();
    let ghost mut done: int = 0;
    proof {
        reveal(Seq::filter);
        assert(all.take(0) =~= Seq::empty());
    }
    while rest.len() > 0
        invariant
            0 <= done <= all.len(),
            rest@ == all.skip(done),
            other == (|t: RetryTask| t.id != item_id),
            out@ == all.take(done).filter(other),
        decreases rest@.len(),
    {
        if let Some(task) = rest.pop_front() {
            proof {
                reveal(Seq::filter);
                assert(task == all[done]);
                assert(all.take(done + 1).drop_last() =~= all.take(done));
                assert(all.take(done + 1).last() == task);
                done = done + 1;
                assert(rest@ =~= all.skip(done));
            }
            if task.id != item_id {
                out.push_back(task);
            }
        }
    }
    assert(all.take(done) =~= all);
    out
}

/// An empty queue, as it is stored when all tasks are dropped.
pub fn clear_retry_queue() -> (r: VecDeque<RetryTask>)
    ensures
        r@.len() == 0,
{
    VecDeque::new()
}

/// A task as it is shown.
pub open spec fn item_of(t: RetryTask) -> ItemView {
    ItemView {
        id: t.id,
        attempts: t.attempts,
        kind: match t.action@ {
            ActionView::Upsert { .. } => "upsert"@,
            ActionView::Delete { .. } => "delete"@,
            ActionView::Move { .. } => "move"@,
        },
        target: match t.action@ {
            ActionView::Upsert { local_path, .. } => local_path,
            ActionView::Delete { remote_path, .. } => remote_path,
            ActionView::Move { to, .. } => to,
        },
    }
}

/// `item` passes the filters: it is of the kind that is asked for, where that
/// is not `all`, and has failed often enough.
pub open spec fn passes(
    item: ItemView,
    kind_filter: Option<Seq<char>>,
    min_attempts: Option<u32>,
) -> bool {
    &&& kind_filter matches Some(k) ==> text::same_ignoring_case(k, "all"@)
        || text::same_ignoring_case(item.kind, k)
    &&& min_attempts matches Some(n) ==> item.attempts >= n
}

/// The items of `queue` that pass the filters, in order.
pub open spec fn passing(
    queue: Seq<RetryTask>,
    kind_filter: Option<Seq<char>>,
    min_attempts: Option<u32>,
) -> Seq<ItemView>
    decreases queue.len(),
{
    if queue.len() == 0 {
        Seq::empty()
    } else {
        let before = passing(queue.drop_last(), kind_filter, min_attempts);
        if passes(item_of(queue.last()), kind_filter, min_attempts) {
            before.push(item_of(queue.last()))
        } else {
            before
        }
    }
}

proof fn lemma_passing_grows(
    queue: Seq<RetryTask>,
    n: int,
    kind_filter: Option<Seq<char>>,
    min_attempts: Option<u32>,
)
    requires
        0 <= n <= queue.len(),
    ensures
        ({
            let a = passing(queue.take(n), kind_filter, min_attempts);
            let b = passing(queue, kind_filter, min_attempts);
            a.len() <= b.len() && b.take(a.len() as int) == a
        }),
    decreases queue.len(),
{
    if n == queue.len() {
        assert(queue.take(n) =~= queue);
        let b = passing(queue, kind_filter, min_attempts);
        assert(b.take(b.len() as int) =~= b);
    } else {
        let t = queue.drop_last();
        lemma_passing_grows(t, n, kind_filter, min_attempts);
        assert(t.take(n) =~= queue.take(n));
        let a = passing(queue.take(n), kind_filter, min_attempts);
        let b = passing(queue, kind_filter, min_attempts);
        let c = passing(t, kind_filter, min_attempts);
        assert(b.take(a.len() as int) =~= c.take(a.len() as int));
    }
}

/// What a list of shown items says.
pub open spec fn item_views(items: Seq<RetryQueueItem>) -> Seq<ItemView> {
    Seq::new(items.len(), |i: int| items[i]@)
}

fn shown(task: &RetryTask) -> (r: RetryQueueItem)
    ensures
        r@ == item_of(*task),
{
    let (kind, target): (String, String) = match &task.action {
        RetryAction::Upsert { local_path, .. } => ("upsert".to_string(), local_path.clone()),
        RetryAction::Delete { remote_path, .. } => ("delete".to_string(), remote_path.clone()),
        RetryAction::Move { to, .. } => ("move".to_string(), to.clone()),
    };
    RetryQueueItem { id: task.id, attempts: task.attempts, kind, target }
}

/// The first tasks that pass the filters, `limit` of them and never more than
/// 200, as they are shown.
pub fn get_retry_queue_items(
    queue: &VecDeque<RetryTask>,
    limit: usize,
    kind_filter: Option<String>,
    min_attempts: Option<u32>,
) -> (r: Vec<RetryQueueItem>)
    ensures
        ({
            let all = passing(queue@, text::optional(kind_filter), min_attempts);
            let most = if limit < MAX_ITEMS {
                limit as int
            } else {
                MAX_ITEMS as int
            };
            item_views(r@) == if all.len() < most {
                all
            } else {
                all.take(most)
            }
        }),
{
    let most: usize = if limit < MAX_ITEMS {
        limit
    } else {
        MAX_ITEMS
    };
    let ghost kf = text::optional(kind_filter);
    let mut items: Vec<RetryQueueItem> = Vec::new();
    let mut i: usize = 0;
    assert(item_views(items@) =~= passing(queue@.take(0), kf, min_attempts));
    while i < queue.len() && items.len() < most
        invariant
            i <= queue@.len(),
            items@.len() <= most,
            kf == text::optional(kind_filter),
            item_views(items@) == passing(queue@.take(i as int), kf, min_attempts),
        decreases queue@.len() - i,
    {
        let item = shown(&queue[i]);
        let kind_ok: bool = match &kind_filter {
            Some(k) => text::equals_ignoring_case(k.as_str(), "all") || text::equals_ignoring_case(
                item.kind.as_str(),
                k.as_str(),
            ),
            None => true,
        };
        let attempts_ok: bool = match min_attempts {
            Some(n) => item.attempts >= n,
            None => true,
        };
        let ghost before = items@;
        proof {
            assert(queue@.take(i + 1).drop_last() =~= queue@.take(i as int));
            assert(queue@.take(i + 1).last() == queue@[i as int]);
        }
        if kind_ok && attempts_ok {
            items.push(item);
            assert(item_views(items@) =~= item_views(before).push(item@));
        }
        i = i + 1;
    }
    proof {
        lemma_passing_grows(queue@, i as int, kf, min_attempts);
        assert(queue@.take(queue@.len() as int) =~= queue@);
    }
    items
}

/// The request that a transfer makes.
pub open spec fn request_of(action: ActionView) -> RequestView {
    match action {
        ActionView::Upsert { local_path, remote_parent, file_name, peer_ip, api_token } =>
            request::upload_request(peer_ip, remote_parent, local_path, file_name, api_token),
        ActionView::Delete { remote_path, peer_ip, api_token } => request::path_request(
            Verb::Delete,
            peer_ip,
            remote_path,
            api_token,
        ),
        ActionView::Move { from, to, peer_ip, api_token } => request::move_request(
            peer_ip,
            from,
            to,
            api_token,
        ),
    }
}

/// The request that carries a transfer out.
pub fn execute_retry_action(action: &RetryAction) -> (r: PeerRequest)
    ensures
        r@ == request_of(action@),
{
    match action {
        RetryAction::Upsert { local_path, remote_parent, file_name, peer_ip, api_token } =>
            request::request_upload(
                peer_ip.as_str(),
                remote_parent.as_str(),
                local_path.as_str(),
                file_name.as_str(),
                text::lend(api_token),
            ),
        RetryAction::Delete { remote_path, peer_ip, api_token } => request::request_on(
            Verb::Delete,
            peer_ip.as_str(),
            remote_path.as_str(),
            text::lend(api_token),
        ),
        RetryAction::Move { from, to, peer_ip, api_token } => request::request_move(
            peer_ip.as_str(),
            from.as_str(),
            to.as_str(),
            text::lend(api_token),
        ),
    }
}

// ---------------------------------------------------------------------- a pass

/// One round through the queue: the tasks that wait for their turn, and those
/// that failed and stay.
#[derive(Debug)]
pub struct RetryPass {
    pub waiting: VecDeque<RetryTask>,
    pub kept: VecDeque<RetryTask>,
}

/// The name under which a transfer is logged.
pub open spec fn log_name(action: ActionView) -> Seq<char> {
    match action {
        ActionView::Upsert { .. } => "retry_upsert"@,
        ActionView::Delete { .. } => "retry_delete"@,
        ActionView::Move { .. } => "retry_move"@,
    }
}

/// A task after one more failure.
pub open spec fn failed_again(t: RetryTask) -> RetryTask {
    RetryTask { attempts: (t.attempts + 1) as u32, ..t }
}

/// What is left of a task after a try: nothing where it succeeded, and nothing
/// where it has failed for the last time.
pub open spec fn left_of(t: RetryTask, ok: bool) -> Option<RetryTask> {
    if !ok && t.attempts + 1 < MAX_ATTEMPTS {
        Some(failed_again(t))
    } else {
        None
    }
}

/// `kept` with what is left of a task.
pub open spec fn keep(kept: Seq<RetryTask>, left: Option<RetryTask>) -> Seq<RetryTask> {
    match left {
        Some(t) => kept.push(t),
        None => kept,
    }
}

/// What is left of a queue whose tasks were tried in order, with the outcomes
/// `ok`.
pub open spec fn left_of_all(queue: Seq<RetryTask>, ok: Seq<bool>) -> Seq<RetryTask>
    decreases queue.len(),
{
    if queue.len() == 0 {
        Seq::empty()
    } else {
        keep(left_of_all(queue.drop_last(), ok.drop_last()), left_of(queue.last(), ok.last()))
    }
}

fn retry_log_name(action: &RetryAction) -> (r: &'static str)
    ensures
        r@ == log_name(action@),
{
    match action {
        RetryAction::Upsert { .. } => "retry_upsert",
        RetryAction::Delete { .. } => "retry_delete",
        RetryAction::Move { .. } => "retry_move",
    }
}

impl RetryPass {
    /// A pass through `queue`, at its start.
    pub fn begin(queue: VecDeque<RetryTask>) -> (r: RetryPass)
        ensures
            r.waiting@ == queue@,
            r.kept@.len() == 0,
    {
        RetryPass { waiting: queue, kept: VecDeque::new() }
    }

    /// The task whose turn it is.
    pub fn next(&mut self) -> (r: Option<RetryTask>)
        ensures
            final(self).kept@ == old(self).kept@,
            if old(self).waiting@.len() == 0 {
                r is None && final(self).waiting@ == old(self).waiting@
            } else {
                r == Some(old(self).waiting@[0]) && final(self).waiting@ == old(
                    self,
                ).waiting@.skip(1)
            },
    {
        let r = self.waiting.pop_front();
        assert(r is Some ==> self.waiting@ =~= old(self).waiting@.skip(1));
        r
    }

    /// Takes note of what came of `task`, in the queue and in the log.
    pub fn settle(
        &mut self,
        logs: &mut VecDeque<SyncLogEntry>,
        task: RetryTask,
        outcome: OpenBoltResult<()>,
    ) -> (entry: SyncLogEntry)
        requires
            outcome is Err ==> task.attempts < u32::MAX,
        ensures
            final(self).waiting@ == old(self).waiting@,
            final(self).kept@ == keep(old(self).kept@, left_of(task, outcome is Ok)),
            final(logs)@ == log::log_push(old(logs)@, entry),
            entry.action@ == log_name(task.action@),
            entry.path@ == "retry"@,
            match outcome {
                Ok(_) => entry.level@ == "info"@ && entry.message@ == "ok"@,
                Err(e) => entry.level@ == "warn"@ && entry.message@ == "failed attempt "@
                    + text::decimal((task.attempts + 1) as nat) + ": "@ + e.wording(),
            },
    {
        let name: &'static str = retry_log_name(&task.action);
        match outcome {
            Ok(_) => log::append_log(logs, "info", name, "retry", "ok"),
            Err(err) => {
                let attempts: u32 = task.attempts + 1;
                let mut message: String = "failed attempt ".to_string();
                message.append(text::decimal_text(attempts as u64).as_str());
                message.append(": ");
                message.append(crate::error::to_err(err).as_str());
                let entry = log::append_log(logs, "warn", name, "retry", message.as_str());
                if attempts < MAX_ATTEMPTS {
                    self.kept.push_back(RetryTask { id: task.id, attempts, action: task.action });
                }
                entry
            },
        }
    }

    /// The queue after a pass that is through.
    pub fn finish(self) -> (r: VecDeque<RetryTask>)
        requires
            self.waiting@.len() == 0,
        ensures
            r@ == self.kept@,
    {
        self.kept
    }
}

// ------------------------------------------------------------------------- laws

/// A pass through `queue` in which `ok.len()` tasks have had their turn, with
/// the outcomes `ok`.
pub open spec fn pass_stands(
    queue: Seq<RetryTask>,
    ok: Seq<bool>,
    waiting: Seq<RetryTask>,
    kept: Seq<RetryTask>,
) -> bool {
    &&& ok.len() <= queue.len()
    &&& waiting == queue.skip(ok.len() as int)
    &&& kept == left_of_all(queue.take(ok.len() as int), ok)
}

/// A pass takes the tasks in order, each once: it stands at its start, each
/// turn brings it one task further, and when no task waits, what was kept is
/// what is left of the whole queue.
pub proof fn law_pass_takes_each_task_once(queue: Seq<RetryTask>, ok: Seq<bool>, outcome: bool)
    ensures
        pass_stands(queue, Seq::empty(), queue, Seq::empty()),
        forall|waiting: Seq<RetryTask>, kept: Seq<RetryTask>| #[trigger]
            pass_stands(queue, ok, waiting, kept) && waiting.len() > 0 ==> pass_stands(
                queue,
                ok.push(outcome),
                waiting.skip(1),
                keep(kept, left_of(waiting[0], outcome)),
            ),
        forall|waiting: Seq<RetryTask>, kept: Seq<RetryTask>| #[trigger]
            pass_stands(queue, ok, waiting, kept) && waiting.len() == 0 ==> kept == left_of_all(
                queue,
                ok,
            ),
{
    assert(queue.skip(0) =~= queue);
    assert(queue.take(0) =~= Seq::empty());
    assert forall|waiting: Seq<RetryTask>, kept: Seq<RetryTask>| #[trigger]
        pass_stands(queue, ok, waiting, kept) && waiting.len() > 0 implies pass_stands(
        queue,
        ok.push(outcome),
        waiting.skip(1),
        keep(kept, left_of(waiting[0], outcome)),
    ) by {
        let n = ok.len() as int;
        assert(waiting.skip(1) =~= queue.skip(n + 1));
        assert(queue.take(n + 1).drop_last() =~= queue.take(n));
        assert(queue.take(n + 1).last() == waiting[0]);
        assert(ok.push(outcome).drop_last() =~= ok);
    }
    assert forall|waiting: Seq<RetryTask>, kept: Seq<RetryTask>| #[trigger]
        pass_stands(queue, ok, waiting, kept) && waiting.len() == 0 implies kept == left_of_all(
        queue,
        ok,
    ) by {
        assert(queue.take(queue.len() as int) =~= queue);
    }
}

/// What a pass leaves are tasks of the queue that failed, each counted once
/// more and below the limit; no task is made up, and a task that succeeded is
/// gone.
pub proof fn law_pass_keeps_only_failures(queue: Seq<RetryTask>, ok: Seq<bool>, j: int)
    requires
        ok.len() == queue.len(),
        0 <= j < left_of_all(queue, ok).len(),
    ensures
        left_of_all(queue, ok).len() <= queue.len(),
        left_of_all(queue, ok)[j].attempts < MAX_ATTEMPTS,
        exists|i: int|
            0 <= i < queue.len() && !ok[i] && left_of_all(queue, ok)[j] == failed_again(
                #[trigger] queue[i],
            ),
    decreases queue.len(),
{
    lemma_left_len(queue, ok);
    let before = left_of_all(queue.drop_last(), ok.drop_last());
    if j < before.len() {
        law_pass_keeps_only_failures(queue.drop_last(), ok.drop_last(), j);
        let i = choose|i: int|
            0 <= i < queue.drop_last().len() && !ok.drop_last()[i] && before[j] == failed_again(
                #[trigger] queue.drop_last()[i],
            );
        assert(left_of_all(queue, ok)[j] == failed_again(queue[i]));
        assert(!ok[i]);
    } else {
        assert(left_of_all(queue, ok)[j] == failed_again(queue[queue.len() - 1]));
    }
}

proof fn lemma_left_len(queue: Seq<RetryTask>, ok: Seq<bool>)
    ensures
        left_of_all(queue, ok).len() <= queue.len(),
    decreases queue.len(),
{
    if queue.len() > 0 {
        lemma_left_len(queue.drop_last(), ok.drop_last());
    }
}

/// What is left of a task after `n` failures in a row.
pub open spec fn left_after_failures(t: RetryTask, n: nat) -> Option<RetryTask>
    decreases n,
{
    if n == 0 {
        Some(t)
    } else {
        match left_after_failures(t, (n - 1) as nat) {
            Some(u) => left_of(u, false),
            None => None,
        }
    }
}

/// A new task is dropped by its eighth failure and not before; until then its
/// failures are counted, and nothing else of it changes.
pub proof fn law_task_survives_seven_failures(t: RetryTask, n: nat)
    requires
        t.attempts == 0,
    ensures
        left_after_failures(t, n) is Some <==> n < MAX_ATTEMPTS,
        left_after_failures(t, n) matches Some(u) ==> u.attempts == n && u.id == t.id && u.action
            == t.action,
    decreases n,
{
    if n > 0 {
        law_task_survives_seven_failures(t, (n - 1) as nat);
    }
}

/// The log line of a failed retry counts as a failure and as a retry.
pub proof fn law_failed_retry_is_counted(line: log::LogLine, attempts: nat, words: Seq<char>)
    requires
        line.level == "warn"@,
        line.message == "failed attempt "@ + text::decimal(attempts) + ": "@ + words,
    ensures
        log::is_failure()(line),
        log::is_retry()(line),
{
    reveal_strlit("failed attempt ");
    reveal_strlit("attempt");
    let m = text::lower(line.message);
    let p = "attempt"@;
    assert(m.subrange(7, 14) =~= p) by {
        assert(line.message[7] == 'a' && line.message[8] == 't' && line.message[9] == 't'
            && line.message[10] == 'e' && line.message[11] == 'm' && line.message[12] == 'p'
            && line.message[13] == 't');
    }
    assert(text::occurs_at(m, p, 7));
}

/// After a removal no task with that number is left, and every other task is.
pub proof fn law_removed_item_is_gone(queue: Seq<RetryTask>, item_id: u64)
    ensures
        position(without(queue, item_id), item_id) == without(queue, item_id).len(),
        forall|i: int|
            0 <= i < queue.len() && (#[trigger] queue[i]).id != item_id ==> without(
                queue,
                item_id,
            ).contains(queue[i]),
{
    let f = |t: RetryTask| t.id != item_id;
    let w = without(queue, item_id);
    assert forall|i: int| 0 <= i < w.len() implies (#[trigger] w[i]).id != item_id by {
        queue.lemma_filter_pred(f, i);
    }
    lemma_position(w, item_id, w.len() as int);
    assert forall|i: int|
        0 <= i < queue.len() && (#[trigger] queue[i]).id != item_id implies w.contains(
        queue[i],
    ) by {
        queue.lemma_filter_contains(f, i);
    }
}

/// The kind that an item shows names the transfer that its task carries out: an
/// upsert makes an upload, a delete a deletion, and a move a move.
pub proof fn law_kind_names_the_transfer(t: RetryTask)
    ensures
        item_of(t).kind == "upsert"@ <==> request_of(t.action@).verb is Upload,
        item_of(t).kind == "delete"@ <==> request_of(t.action@).verb is Delete,
        item_of(t).kind == "move"@ <==> request_of(t.action@).verb is Move,
        item_of(t).id == t.id,
        item_of(t).attempts == t.attempts,
{
    reveal_strlit("upsert");
    reveal_strlit("delete");
    reveal_strlit("move");
    assert("upsert"@[0] == 'u' && "delete"@[0] == 'd' && "move"@[0] == 'm');
}

/// The target that an item shows is what its task is about: the file that is
/// uploaded, the path that is deleted, or the name that something gets.
pub proof fn law_target_is_what_the_transfer_is_about(t: RetryTask)
    ensures
        match t.action@ {
            ActionView::Upsert { local_path, remote_parent, file_name, peer_ip, api_token } => {
                let r = request_of(t.action@);
                &&& item_of(t).target == local_path
                &&& r.verb is Upload
                &&& r.file == Some((local_path, file_name))
                &&& r.url == url::fs_address(peer_ip, "upload"@, remote_parent)
                &&& r.api_token == api_token
            },
            ActionView::Delete { remote_path, peer_ip, api_token } => {
                let r = request_of(t.action@);
                &&& item_of(t).target == remote_path
                &&& r.verb is Delete
                &&& r.file is None
                &&& r.url == url::fs_address(peer_ip, "delete"@, remote_path)
                &&& r.api_token == api_token
            },
            ActionView::Move { from, to, peer_ip, api_token } => {
                let r = request_of(t.action@);
                &&& item_of(t).target == to
                &&& r.verb is Move
                &&& r.file is None
                &&& r.url == url::move_address(peer_ip, from, to)
                &&& r.api_token == api_token
            },
        },
{
}

/// A filter on a kind, in letters of either case, lists exactly the tasks whose
/// request is of that kind; no filter, and the word for all, list every task. A
/// bound on the failures lists those that have at least so many.
pub proof fn law_filter_lists_by_the_transfer(t: RetryTask, kind: Seq<char>, min: u32)
    ensures
        text::same_ignoring_case(kind, "upsert"@) ==> (passes(item_of(t), Some(kind), None)
            <==> request_of(t.action@).verb is Upload),
        text::same_ignoring_case(kind, "delete"@) ==> (passes(item_of(t), Some(kind), None)
            <==> request_of(t.action@).verb is Delete),
        text::same_ignoring_case(kind, "move"@) ==> (passes(item_of(t), Some(kind), None)
            <==> request_of(t.action@).verb is Move),
        text::same_ignoring_case(kind, "all"@) ==> passes(item_of(t), Some(kind), None),
        passes(item_of(t), Some(kind), None) ==> text::same_ignoring_case(kind, "all"@)
            || text::same_ignoring_case(kind, "upsert"@) || text::same_ignoring_case(
            kind,
            "delete"@,
        ) || text::same_ignoring_case(kind, "move"@),
        passes(item_of(t), None, None),
        passes(item_of(t), None, Some(min)) <==> t.attempts >= min,
        passes(item_of(t), Some(kind), Some(min)) <==> passes(item_of(t), Some(kind), None)
            && t.attempts >= min,
{
    reveal_strlit("upsert");
    reveal_strlit("delete");
    reveal_strlit("move");
    reveal_strlit("all");
    assert(text::lower("upsert"@)[0] == 'u');
    assert(text::lower("delete"@)[0] == 'd');
    assert(text::lower("move"@)[0] == 'm');
    assert(text::lower("all"@)[0] == 'a');
}

/// The list shows every task that passes, as itself, nothing else, and in the
/// order of the queue.
pub proof fn law_every_passing_task_is_listed(
    queue: Seq<RetryTask>,
    more: Seq<RetryTask>,
    kind: Option<Seq<char>>,
    min: Option<u32>,
    i: int,
)
    ensures
        0 <= i < queue.len() && passes(item_of(queue[i]), kind, min) ==> passing(
            queue,
            kind,
            min,
        ).contains(item_of(queue[i])),
        0 <= i < passing(queue, kind, min).len() ==> exists|k: int|
            0 <= k < queue.len() && passing(queue, kind, min)[i] == item_of(#[trigger] queue[k])
                && passes(item_of(queue[k]), kind, min),
        passing(queue + more, kind, min) == passing(queue, kind, min) + passing(more, kind, min),
        (forall|k: int|
            0 <= k < queue.len() ==> passes(item_of(#[trigger] queue[k]), kind, min)) ==> passing(
            queue,
            kind,
            min,
        ).len() == queue.len(),
    decreases queue.len() + more.len(), more.len(),
{
    let all = queue + more;
    let p = passing(queue, kind, min);
    if more.len() > 0 {
        law_every_passing_task_is_listed(queue, more.drop_last(), kind, min, i);
        assert(all.drop_last() =~= queue + more.drop_last());
        assert(all.last() == more.last());
        assert(passing(all, kind, min) =~= p + passing(more, kind, min));
    } else {
        assert(all =~= queue);
        assert(passing(all, kind, min) =~= p + passing(more, kind, min));
        if queue.len() > 0 {
            let some = queue.drop_last();
            let before = passing(some, kind, min);
            law_every_passing_task_is_listed(some, more, kind, min, i);
            assert(queue[queue.len() - 1] == queue.last());
            if 0 <= i < queue.len() && passes(item_of(queue[i]), kind, min) {
                if i < some.len() {
                    assert(some[i] == queue[i]);
                    let j = choose|j: int| 0 <= j < before.len() && before[j] == item_of(queue[i]);
                    assert(p[j] == before[j]);
                } else {
                    assert(p[p.len() - 1] == item_of(queue[i]));
                }
            }
            if 0 <= i < p.len() {
                if i < before.len() {
                    let k = choose|k: int|
                        0 <= k < some.len() && before[i] == item_of(#[trigger] some[k]) && passes(
                            item_of(some[k]),
                            kind,
                            min,
                        );
                    assert(queue[k] == some[k]);
                }
            }
            if forall|k: int|
                0 <= k < queue.len() ==> passes(item_of(#[trigger] queue[k]), kind, min) {
                assert forall|k: int| 0 <= k < some.len() implies passes(
                    item_of(#[trigger] some[k]),
                    kind,
                    min,
                ) by {
                    assert(some[k] == queue[k]);
                }
                assert(passes(item_of(queue[queue.len() - 1]), kind, min));
            }
        }
    }
}

/// A failed deletion is queued as a deletion of the path at the peer, and a
/// failed update as an upload of the file, under its name, into the folder above
/// it; nothing is queued for a path elsewhere or a file without a name.
pub proof fn law_failure_is_queued_as_what_it_was(
    path: Seq<char>,
    rel: Seq<char>,
    up: Option<Seq<char>>,
    name: Seq<char>,
    base: Seq<char>,
    peer: Seq<char>,
    token: Option<Seq<char>>,
    action: SyncAction,
    any_name: Option<Seq<char>>,
)
    ensures
        change_again(action, path, None, up, any_name, base, peer, token) is None,
        change_again(SyncAction::Upsert, path, Some(rel), up, None, base, peer, token) is None,
        ({
            let d = change_again(
                SyncAction::Delete,
                path,
                Some(rel),
                up,
                any_name,
                base,
                peer,
                token,
            );
            &&& d is Some
            &&& request_of(d->0).verb is Delete
            &&& request_of(d->0).url == url::fs_address(
                peer,
                "delete"@,
                sync_engine::remote_path(base, rel),
            )
            &&& request_of(d->0).api_token == token
        }),
        ({
            let u = change_again(
                SyncAction::Upsert,
                path,
                Some(rel),
                up,
                Some(name),
                base,
                peer,
                token,
            );
            &&& u is Some
            &&& request_of(u->0).verb is Upload
            &&& request_of(u->0).file == Some((path, name))
            &&& request_of(u->0).url == url::fs_address(
                peer,
                "upload"@,
                if up is Some {
                    up->0
                } else {
                    base
                },
            )
            &&& request_of(u->0).api_token == token
        }),
{
}

/// The task that is looked up by its number is the first that has it, and none
/// is found only where none has it.
pub proof fn law_first_task_with_a_number(queue: Seq<RetryTask>, item_id: u64)
    ensures
        0 <= position(queue, item_id) <= queue.len(),
        position(queue, item_id) < queue.len() ==> queue[position(queue, item_id)].id == item_id,
        forall|i: int|
            0 <= i < position(queue, item_id) ==> (#[trigger] queue[i]).id != item_id,
    decreases queue.len(),
{
    if queue.len() > 0 && queue[0].id != item_id {
        let t = queue.skip(1);
        law_first_task_with_a_number(t, item_id);
        assert forall|i: int| 0 <= i < position(queue, item_id) implies (#[trigger] queue[i]).id
            != item_id by {
            if i > 0 {
                assert(queue[i] == t[i - 1]);
            }
        }
    }
}

/// A task that succeeded is gone, and so is one that has failed eight times; any
/// other that failed stays, counted once more, with its number and its transfer.
pub proof fn law_failed_task_stays_until_its_eighth_failure(t: RetryTask)
    ensures
        left_of(t, true) is None,
        left_of(t, false) is Some <==> t.attempts < 7,
        left_of(t, false) matches Some(u) ==> u.attempts == t.attempts + 1 && u.id == t.id
            && u.action == t.action,
{
}

/// No failed task is lost in a pass: each that has failed fewer than eight times
/// by then is kept, in the order of the queue.
pub proof fn law_pass_keeps_every_failure(queue: Seq<RetryTask>, ok: Seq<bool>, i: int)
    requires
        ok.len() == queue.len(),
        0 <= i < queue.len(),
        !ok[i],
        queue[i].attempts < 7,
    ensures
        exists|j: int|
            0 <= j < left_of_all(queue, ok).len() && (#[trigger] left_of_all(queue, ok)[j]).id
                == queue[i].id && left_of_all(queue, ok)[j].action == queue[i].action
                && left_of_all(queue, ok)[j].attempts == queue[i].attempts + 1,
    decreases queue.len(),
{
    let some = queue.drop_last();
    let before = left_of_all(some, ok.drop_last());
    let all = left_of_all(queue, ok);
    if i < some.len() {
        assert(some[i] == queue[i] && ok.drop_last()[i] == ok[i]);
        law_pass_keeps_every_failure(some, ok.drop_last(), i);
        let j = choose|j: int|
            0 <= j < before.len() && (#[trigger] before[j]).id == queue[i].id && before[j].action
                == queue[i].action && before[j].attempts == queue[i].attempts + 1;
        assert(all[j] == before[j]);
    } else {
        assert(all[all.len() - 1] == failed_again(queue[i]));
    }
}

/// The names under which retries are logged tell the three transfers apart.
pub proof fn law_retries_are_logged_by_their_transfer(a: ActionView)
    ensures
        log_name(a) == "retry_upsert"@ <==> request_of(a).verb is Upload,
        log_name(a) == "retry_delete"@ <==> request_of(a).verb is Delete,
        log_name(a) == "retry_move"@ <==> request_of(a).verb is Move,
{
    reveal_strlit("retry_upsert");
    reveal_strlit("retry_delete");
    reveal_strlit("retry_move");
    assert("retry_upsert"@[6] == 'u' && "retry_delete"@[6] == 'd' && "retry_move"@[6] == 'm');
}

/// A renaming that failed is queued with its names in their order.
pub proof fn law_failed_renaming_is_queued_as_it_was(
    from: Seq<char>,
    to: Seq<char>,
    base: Seq<char>,
    peer: Seq<char>,
    token: Option<Seq<char>>,
)
    ensures
        ({
            let m = move_again(Some(from), Some(to), base, peer, token);
            &&& m is Some
            &&& request_of(m->0).verb is Move
            &&& request_of(m->0).url == url::move_address(
                peer,
                sync_engine::remote_path(base, from),
                sync_engine::remote_path(base, to),
            )
            &&& request_of(m->0).api_token == token
        }),
        move_again(None, Some(to), base, peer, token) is None,
        move_again(Some(from), None, base, peer, token) is None,
{
}

/// What is said of a transfer, of a task and of a shown item is what they hold.
pub proof fn law_transfer_is_seen_as_it_is(
    a: RetryAction,
    t: RetryTask,
    items: Seq<RetryQueueItem>,
    i: int,
)
    ensures
        a matches RetryAction::Upsert { local_path, remote_parent, file_name, peer_ip, api_token }
            ==> a@ == (ActionView::Upsert {
            local_path: local_path@,
            remote_parent: remote_parent@,
            file_name: file_name@,
            peer_ip: peer_ip@,
            api_token: text::optional(api_token),
        }),
        a matches RetryAction::Delete { remote_path, peer_ip, api_token } ==> a@ == (
        ActionView::Delete {
            remote_path: remote_path@,
            peer_ip: peer_ip@,
            api_token: text::optional(api_token),
        }),
        a matches RetryAction::Move { from, to, peer_ip, api_token } ==> a@ == (ActionView::Move {
            from: from@,
            to: to@,
            peer_ip: peer_ip@,
            api_token: text::optional(api_token),
        }),
        action_view(Some(a)) == Some(a@),
        action_view(None) is None,
        task_view(Some(t)) == Some(t.action@),
        task_view(None) is None,
        item_views(items).len() == items.len(),
        0 <= i < items.len() ==> item_views(items)[i].id == items[i].id && item_views(
            items,
        )[i].attempts == items[i].attempts && item_views(items)[i].kind == items[i].kind@
            && item_views(items)[i].target == items[i].target@,
        MAX_ITEMS == 200,
        MAX_ATTEMPTS == 8,
{
}

/// What is left of a task is kept behind the others.
pub proof fn law_kept_tasks_stay_in_order(kept: Seq<RetryTask>, t: RetryTask)
    ensures
        keep(kept, Some(t)) == kept.push(t),
        keep(kept, None) == kept,
{
}

/// The file of the queue lies two names below the synchronised folder.
pub proof fn law_place_of_the_queue(root: Seq<char>, r: Seq<char>) -> (c: (char, char))
    requires
        store_below(r, root),
        root.len() > 0,
        !paths::separator(root.last()),
        !paths::bare_drive(root),
    ensures
        paths::separator(c.0) && paths::separator(c.1),
        r == root.push(c.0) + ".openbolt"@.push(c.1) + "retry_queue.json"@,
{
    reveal_strlit(".openbolt");
    let folder = choose|folder: Seq<char>|
        #[trigger] paths::joined(folder, root, ".openbolt"@) && paths::joined(
            r,
            folder,
            "retry_queue.json"@,
        );
    let c = choose|c: char| paths::joined_by(folder, root, ".openbolt"@, c);
    assert(folder.last() == 't');
    assert(folder.len() > 2);
    let d = choose|d: char| paths::joined_by(r, folder, "retry_queue.json"@, d);
    assert(r =~= root.push(c) + ".openbolt"@.push(d) + "retry_queue.json"@);
    (c, d)
}

} // verus!
