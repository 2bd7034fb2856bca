//! A running synchronisation: what it does when it wakes up, which changes it
//! lets through, and what it remembers of their outcomes.

use std::collections::VecDeque;

use vstd::prelude::*;

use crate::clock;
use crate::error;
use crate::error::OpenBoltError;
use crate::error::OpenBoltResult;
use crate::ignore;
use crate::paths;
use crate::sync_engine::inbound;
use crate::sync_engine::inbound::RemoteFile;
use crate::sync_engine::log;
use crate::sync_engine::log::SyncLogEntry;
use crate::sync_engine::recent;
use crate::sync_engine::recent::RecentMap;
use crate::sync_engine::request;
use crate::sync_engine::request::PeerRequest;
use crate::sync_engine::request::Verb;
use crate::sync_engine::retry;
use crate::sync_engine::retry::RetryAction;
use crate::sync_engine::retry::RetryPass;
use crate::sync_engine::retry::RetryTask;
use crate::sync_engine::transfer;
use crate::sync_engine::transfer::PlannedChange;
use crate::sync_engine::transfer::PlannedRename;
use crate::sync_engine::RenameEvent;
use crate::sync_engine::SyncAction;
use crate::sync_engine::SyncDirection;
use crate::text;

verus! {

/// The seconds between two passes through the retry queue.
pub const RETRY_TICK_SECS: u64 = 5;

/// The seconds between two pulls.
pub const INBOUND_POLL_SECS: u64 = 30;

/// The state of a running synchronisation.
pub struct SyncSession {
    pub local_root: String,
    pub remote_base: String,
    pub peer_ip: String,
    pub api_token: Option<String>,
    pub direction: SyncDirection,
    pub ignore_patterns: Vec<String>,
    pub ignore_glob: Option<globset::GlobSet>,
    pub retry_queue: VecDeque<RetryTask>,
    /// The changes that were sent a moment ago.
    pub sent: RecentMap<SyncAction>,
    /// The files that were pulled a moment ago.
    pub origins: RecentMap<()>,
}

/// Why a synchronisation wakes up.
#[derive(Clone, Copy, Debug, PartialEq, Eq, Structural)]
pub enum Wake {
    Stop,
    RetryTick,
    InboundTick,
    Change,
    /// No more changes can come.
    ChangesEnded,
}

/// What a synchronisation does when it wakes up.
#[derive(Clone, Copy, Debug, PartialEq, Eq, Structural)]
pub enum Step {
    /// Store the retry queue, and end.
    SaveAndStop,
    RunRetries,
    PullInbound,
    /// Gather the changes of this moment, and send them.
    GatherBatch,
    Sleep,
}

/// What is left of a transfer that is through.
#[derive(Debug)]
pub struct Settled {
    /// The line that was logged.
    pub entry: SyncLogEntry,
    /// The retry queue has grown and is to be stored.
    pub save: bool,
}

// --------------------------------------------------------------------- the start

/// A synchronisation starts only in a folder that exists.
pub fn check_local_root(exists_now: bool) -> (r: OpenBoltResult<()>)
    ensures
        match r {
            Ok(_) => exists_now,
            Err(e) => !exists_now && request::failed_with(
                e,
                "local sync directory does not exist"@,
            ),
        },
{
    if exists_now {
        Ok(())
    } else {
        Err(OpenBoltError::CommandFailed("local sync directory does not exist".to_string()))
    }
}

/// The name of a direction.
pub open spec fn direction_word(direction: SyncDirection) -> Seq<char> {
    match direction {
        SyncDirection::Outbound => "Outbound"@,
        SyncDirection::Bidirectional => "Bidirectional"@,
    }
}

/// The first line of a synchronisation's log.
pub open spec fn start_message(
    peer_ip: Seq<char>,
    remote_base: Seq<char>,
    direction: SyncDirection,
    patterns: nat,
) -> Seq<char> {
    "sync started to "@ + peer_ip + ":"@ + remote_base + " direction="@ + direction_word(direction)
        + " ignore_patterns="@ + text::decimal(patterns)
}

/// `entry` says `message` of `action` on `path`, at `level`.
pub open spec fn tells(
    entry: SyncLogEntry,
    level: Seq<char>,
    action: Seq<char>,
    path: Seq<char>,
    message: Seq<char>,
) -> bool {
    &&& entry.level@ == level
    &&& entry.action@ == action
    &&& entry.path@ == path
    &&& entry.message@ == message
}

/// Logs that a synchronisation starts, and gives the new lines.
pub fn log_start(
    logs: &mut VecDeque<SyncLogEntry>,
    local_root: &str,
    remote_base: &str,
    peer_ip: &str,
    direction: SyncDirection,
    patterns: usize,
) -> (r: Vec<SyncLogEntry>)
    ensures
        r@.len() == if direction is Bidirectional {
            2int
        } else {
            1int
        },
        tells(
            r@[0],
            "info"@,
            "start"@,
            local_root@,
            start_message(peer_ip@, remote_base@, direction, patterns as nat),
        ),
        direction is Bidirectional ==> tells(
            r@[1],
            "info"@,
            "mode"@,
            local_root@,
            "bidirectional mode: outbound watcher + inbound pull every 30s"@,
        ),
        final(logs)@ == if direction is Bidirectional {
            log::log_push(log::log_push(old(logs)@, r@[0]), r@[1])
        } else {
            log::log_push(old(logs)@, r@[0])
        },
{
    let mut message: String = "sync started to ".to_string();
    message.append(peer_ip);
    message.append(":");
    message.append(remote_base);
    message.append(" direction=");
    match direction {
        SyncDirection::Outbound => message.append("Outbound"),
        SyncDirection::Bidirectional => message.append("Bidirectional"),
    }
    message.append(" ignore_patterns=");
    message.append(text::decimal_text(patterns as u64).as_str());
    let mut out: Vec<SyncLogEntry> = Vec::new();
    out.push(log::append_log(logs, "info", "start", local_root, message.as_str()));
    if direction == SyncDirection::Bidirectional {
        out.push(
            log::append_log(
                logs,
                "info",
                "mode",
                local_root,
                "bidirectional mode: outbound watcher + inbound pull every 30s",
            ),
        );
    }
    out
}

/// The word under which a change is logged.
pub open spec fn change_word(action: SyncAction) -> Seq<char> {
    match action {
        SyncAction::Delete => "delete"@,
        SyncAction::Upsert => "upsert"@,
    }
}

/// `entry` tells what came of `word` on `path`.
pub open spec fn tells_outcome(
    entry: SyncLogEntry,
    word: Seq<char>,
    path: Seq<char>,
    outcome: OpenBoltResult<()>,
) -> bool {
    match outcome {
        Ok(_) => tells(entry, "info"@, word, path, "ok"@),
        Err(e) => tells(entry, "warn"@, word, path, "failed: "@ + e.wording()),
    }
}

/// `queue` after a task for the transfer `again` was added, if there is one.
pub open spec fn queued(
    queue: Seq<RetryTask>,
    before: Seq<RetryTask>,
    again: Option<RetryAction>,
) -> bool {
    match again {
        Some(a) => {
            &&& queue.len() == before.len() + 1
            &&& queue == before.push(queue.last())
            &&& queue.last().attempts == 0
            &&& queue.last().action == a
        },
        None => queue == before,
    }
}

impl SyncSession {
    /// What was sent and pulled is remembered once for each path.
    pub open spec fn wf(self) -> bool {
        self.sent.wf() && self.origins.wf()
    }

    /// The globs among the patterns, as the set of paths that they match.
    pub open spec fn globs(self) -> Option<Set<Seq<char>>> {
        match self.ignore_glob {
            Some(s) => Some(ignore::set_paths(s)),
            None => None,
        }
    }

    /// The path `rel` below the folder is left out.
    pub open spec fn leaves_out(self, rel: Seq<char>) -> bool {
        ignore::ignored(ignore::path_key(rel), text::views(self.ignore_patterns@), self.globs())
    }

    /// Nothing but the retry queue and the two memories differs.
    pub open spec fn same_setup(self, other: SyncSession) -> bool {
        &&& self.local_root == other.local_root
        &&& self.remote_base == other.remote_base
        &&& self.peer_ip == other.peer_ip
        &&& self.api_token == other.api_token
        &&& self.direction == other.direction
        &&& self.ignore_patterns == other.ignore_patterns
        &&& self.ignore_glob == other.ignore_glob
    }

    /// A synchronisation that has just begun, with the tasks that were stored.
    pub fn new(
        local_root: String,
        remote_base: String,
        peer_ip: String,
        api_token: Option<String>,
        direction: SyncDirection,
        ignore_patterns: Vec<String>,
        retry_queue: VecDeque<RetryTask>,
    ) -> (r: SyncSession)
        ensures
            r.wf(),
            r.local_root == local_root,
            r.remote_base == remote_base,
            r.peer_ip == peer_ip,
            r.api_token == api_token,
            r.direction == direction,
            r.ignore_patterns == ignore_patterns,
            r.retry_queue == retry_queue,
            r.sent@ == Map::<Seq<char>, (SyncAction, u64)>::empty(),
            r.origins@ == Map::<Seq<char>, ((), u64)>::empty(),
            r.globs() matches Some(set) ==> ignore::globs_cover(
                text::views(ignore_patterns@),
                set,
            ) && ignore::simple_cover(text::views(ignore_patterns@), set),
            ignore::built_when(text::views(ignore_patterns@), r.globs()),
    {
        let ignore_glob = ignore::build_globset(&ignore_patterns);
        SyncSession {
            local_root,
            remote_base,
            peer_ip,
            api_token,
            direction,
            ignore_patterns,
            ignore_glob,
            retry_queue,
            sent: RecentMap::new(),
            origins: RecentMap::new(),
        }
    }

    /// What is done at a wake-up: retries wait for tasks, and pulls for a
    /// synchronisation in both directions.
    pub fn on_wake(&self, wake: Wake) -> (r: Step)
        ensures
            r == match wake {
                Wake::Stop => Step::SaveAndStop,
                Wake::RetryTick => if self.retry_queue@.len() > 0 {
                    Step::RunRetries
                } else {
                    Step::Sleep
                },
                Wake::InboundTick => if self.direction is Bidirectional {
                    Step::PullInbound
                } else {
                    Step::Sleep
                },
                Wake::Change => Step::GatherBatch,
                Wake::ChangesEnded => Step::Sleep,
            },
    {
        match wake {
            Wake::Stop => Step::SaveAndStop,
            Wake::RetryTick => if self.retry_queue.len() > 0 {
                Step::RunRetries
            } else {
                Step::Sleep
            },
            Wake::InboundTick => if self.direction == SyncDirection::Bidirectional {
                Step::PullInbound
            } else {
                Step::Sleep
            },
            Wake::Change => Step::GatherBatch,
            Wake::ChangesEnded => Step::Sleep,
        }
    }

    /// Whether the path `rel` below the folder is left out.
    pub fn ignores_relative(&self, rel: &str) -> (r: bool)
        ensures
            r == self.leaves_out(rel@),
    {
        ignore::ignores(rel, &self.ignore_patterns, self.ignore_glob.as_ref())
    }

    /// Whether `path` is left out.
    pub fn ignores(&self, path: &str) -> (r: bool)
        ensures
            exists|rel: Seq<char>|
                ignore::seen_from(rel, path@, self.local_root@) && r == #[trigger] self.leaves_out(
                    rel,
                ),
    {
        let rel: String = ignore::relative_or_self(path, self.local_root.as_str());
        self.ignores_relative(rel.as_str())
    }

    /// Whether a change of `path`, which is seen from the folder as `rel`, is
    /// let through: it is not left out, not an echo of a pull, and not sent
    /// already. The two last are looked up at the two given times.
    pub fn lets_through_at(
        &mut self,
        rel: &str,
        path: &str,
        action: SyncAction,
        origin_now: u64,
        dedup_now: u64,
    ) -> (r: bool)
        requires
            old(self).wf(),
        ensures
            final(self).wf(),
            final(self).same_setup(*old(self)),
            final(self).retry_queue == old(self).retry_queue,
            let_through(*old(self), *final(self), r, rel@, path@, action, origin_now, dedup_now),
    {
        if self.ignores_relative(rel) {
            return false;
        }
        if recent::is_remote_origin_at(&mut self.origins, path, origin_now) {
            return false;
        }
        !recent::should_skip_dedup_at(&mut self.sent, path, action, dedup_now)
    }

    /// Whether a change of `path` is let through now.
    pub fn lets_through(&mut self, path: &str, action: SyncAction) -> (r: bool)
        requires
            old(self).wf(),
        ensures
            final(self).wf(),
            final(self).same_setup(*old(self)),
            final(self).retry_queue == old(self).retry_queue,
            exists|rel: Seq<char>, origin_now: u64, dedup_now: u64|
                ignore::seen_from(rel, path@, old(self).local_root@) && #[trigger] let_through(
                    *old(self),
                    *final(self),
                    r,
                    rel,
                    path@,
                    action,
                    origin_now,
                    dedup_now,
                ),
    {
        let rel: String = ignore::relative_or_self(path, self.local_root.as_str());
        let origin_now: u64 = clock::now_ts();
        let dedup_now: u64 = clock::now_ts();
        self.lets_through_at(rel.as_str(), path, action, origin_now, dedup_now)
    }

    /// Whether a renaming is passed over: one of its names is left out.
    pub fn ignores_rename(&self, rename: &RenameEvent) -> (r: bool)
        ensures
            exists|from_rel: Seq<char>, to_rel: Seq<char>|
                ignore::seen_from(from_rel, rename.from@, self.local_root@) && ignore::seen_from(
                    to_rel,
                    rename.to@,
                    self.local_root@,
                ) && r == (#[trigger] self.leaves_out(to_rel) || #[trigger] self.leaves_out(
                    from_rel,
                )),
    {
        let to: bool = self.ignores(rename.to.as_str());
        let from: bool = self.ignores(rename.from.as_str());
        to || from
    }

    /// What is done about a change of `path` that was let through, and the
    /// transfer that makes the same request if it fails.
    pub fn plan_change(
        &self,
        path: &str,
        action: SyncAction,
        exists_now: bool,
        is_file: bool,
    ) -> (r: PlannedChange)
        ensures
            exists|rel: Option<Seq<char>>, up: Option<Seq<char>>, name: Option<Seq<char>>|
                {
                    &&& #[trigger] retry::located(
                        path@,
                        self.local_root@,
                        self.remote_base@,
                        rel,
                        up,
                        name,
                    )
                    &&& r.plan@ == transfer::plan(
                        action,
                        path@,
                        rel,
                        up,
                        name,
                        exists_now,
                        is_file,
                        self.remote_base@,
                        self.peer_ip@,
                        text::optional(self.api_token),
                    )
                    &&& retry::action_view(r.again) == retry::change_again(
                        action,
                        path@,
                        rel,
                        up,
                        name,
                        self.remote_base@,
                        self.peer_ip@,
                        text::optional(self.api_token),
                    )
                },
            r.again is Some && (action is Delete || (exists_now && is_file))
                ==> transfer::changing_request(r.plan@) == Some(retry::request_of(r.again->0@)),
    {
        transfer::sync_one_path(
            self.local_root.as_str(),
            self.remote_base.as_str(),
            self.peer_ip.as_str(),
            text::lend(&self.api_token),
            path,
            action,
            exists_now,
            is_file,
        )
    }

    /// What is done about a renaming that was not passed over, and the transfer
    /// that makes the same request if it fails.
    pub fn plan_rename(&self, rename: &RenameEvent) -> (r: PlannedRename)
        ensures
            exists|from_rel: Option<Seq<char>>, to_rel: Option<Seq<char>>|
                {
                    &&& #[trigger] paths::stripped(from_rel, rename.from@, self.local_root@)
                    &&& #[trigger] paths::stripped(to_rel, rename.to@, self.local_root@)
                    &&& transfer::request_view(r.request) == transfer::rename_plan(
                        from_rel,
                        to_rel,
                        self.remote_base@,
                        self.peer_ip@,
                        text::optional(self.api_token),
                    )
                    &&& retry::action_view(r.again) == retry::move_again(
                        from_rel,
                        to_rel,
                        self.remote_base@,
                        self.peer_ip@,
                        text::optional(self.api_token),
                    )
                },
            transfer::request_view(r.request) == match r.again {
                Some(a) => Some(retry::request_of(a@)),
                None => None,
            },
    {
        transfer::sync_rename_path(
            self.local_root.as_str(),
            self.remote_base.as_str(),
            self.peer_ip.as_str(),
            text::lend(&self.api_token),
            rename,
        )
    }

    /// Takes note of what came of a change: a failure is queued, where there is
    /// a transfer that repeats it, and everything is logged.
    pub fn settle_change(
        &mut self,
        logs: &mut VecDeque<SyncLogEntry>,
        path: &str,
        action: SyncAction,
        again: Option<RetryAction>,
        outcome: OpenBoltResult<()>,
    ) -> (r: Settled)
        requires
            old(self).wf(),
        ensures
            final(self).wf(),
            final(self).same_setup(*old(self)),
            final(self).sent == old(self).sent,
            final(self).origins == old(self).origins,
            tells_outcome(r.entry, change_word(action), path@, outcome),
            final(logs)@ == log::log_push(old(logs)@, r.entry),
            r.save == (outcome is Err && again is Some),
            queued(
                final(self).retry_queue@,
                old(self).retry_queue@,
                if outcome is Err {
                    again
                } else {
                    None
                },
            ),
    {
        let word: &'static str = match action {
            SyncAction::Delete => "delete",
            SyncAction::Upsert => "upsert",
        };
        match outcome {
            Ok(_) => Settled {
                entry: log::append_log(logs, "info", word, path, "ok"),
                save: false,
            },
            Err(err) => {
                let save: bool = self.queue_again(again);
                let message: String = text::concat("failed: ", error::to_err(err).as_str());
                Settled { entry: log::append_log(logs, "warn", word, path, message.as_str()), save }
            },
        }
    }

    fn queue_again(&mut self, again: Option<RetryAction>) -> (grown: bool)
        ensures
            final(self).same_setup(*old(self)),
            final(self).sent == old(self).sent,
            final(self).origins == old(self).origins,
            grown == (again is Some),
            queued(final(self).retry_queue@, old(self).retry_queue@, again),
    {
        match retry::task_of(again) {
            Some(task) => {
                self.retry_queue.push_back(task);
                true
            },
            None => false,
        }
    }

    /// Takes note of what came of a renaming: a failure is queued, where there
    /// is a transfer that repeats it, and everything is logged under the new
    /// name.
    pub fn settle_rename(
        &mut self,
        logs: &mut VecDeque<SyncLogEntry>,
        rename: &RenameEvent,
        again: Option<RetryAction>,
        outcome: OpenBoltResult<()>,
    ) -> (r: Settled)
        requires
            old(self).wf(),
        ensures
            final(self).wf(),
            final(self).same_setup(*old(self)),
            final(self).sent == old(self).sent,
            final(self).origins == old(self).origins,
            tells_outcome(r.entry, "rename"@, rename.to@, outcome),
            final(logs)@ == log::log_push(old(logs)@, r.entry),
            r.save == (outcome is Err && again is Some),
            queued(
                final(self).retry_queue@,
                old(self).retry_queue@,
                if outcome is Err {
                    again
                } else {
                    None
                },
            ),
    {
        match outcome {
            Ok(_) => Settled {
                entry: log::append_log(logs, "info", "rename", rename.to.as_str(), "ok"),
                save: false,
            },
            Err(err) => {
                let save: bool = self.queue_again(again);
                let message: String = text::concat("failed: ", error::to_err(err).as_str());
                Settled {
                    entry: log::append_log(
                        logs,
                        "warn",
                        "rename",
                        rename.to.as_str(),
                        message.as_str(),
                    ),
                    save,
                }
            },
        }
    }

    /// Hands the retry queue out for a pass.
    pub fn begin_retries(&mut self) -> (r: RetryPass)
        requires
            old(self).wf(),
        ensures
            final(self).wf(),
            final(self).same_setup(*old(self)),
            final(self).sent == old(self).sent,
            final(self).origins == old(self).origins,
            final(self).retry_queue@.len() == 0,
            r.waiting@ == old(self).retry_queue@,
            r.kept@.len() == 0,
    {
        let mut queue: VecDeque<RetryTask> = VecDeque::new();
        core::mem::swap(&mut queue, &mut self.retry_queue);
        RetryPass::begin(queue)
    }

    /// Takes the retry queue back after a pass that is through.
    pub fn end_retries(&mut self, pass: RetryPass)
        requires
            old(self).wf(),
            pass.waiting@.len() == 0,
        ensures
            final(self).wf(),
            final(self).same_setup(*old(self)),
            final(self).sent == old(self).sent,
            final(self).origins == old(self).origins,
            final(self).retry_queue@ == pass.kept@,
    {
        self.retry_queue = pass.finish();
    }

    /// The place of a file of the peer, which is seen from the folder as `seen`,
    /// unless it is left out there.
    pub fn keep_place(&self, place: String, seen: &str) -> (r: Option<String>)
        ensures
            r == if self.leaves_out(seen@) {
                None
            } else {
                Some(place)
            },
    {
        if self.ignores_relative(seen) {
            None
        } else {
            Some(place)
        }
    }

    /// Where the file `rel` of the peer belongs, unless it is left out there.
    pub fn place_pull(&self, rel: &str) -> (r: Option<String>)
        ensures
            exists|place: Seq<char>, seen: Seq<char>|
                #![trigger inbound::place_below(place, self.local_root@, rel@), self.leaves_out(seen)]
                {
                    &&& inbound::place_below(place, self.local_root@, rel@)
                    &&& if paths::known_root(self.local_root@) && paths::plain_relative(rel@) {
                        seen == rel@
                    } else {
                        ignore::seen_from(seen, place, self.local_root@)
                    }
                    &&& text::optional(r) == if self.leaves_out(seen) {
                        None
                    } else {
                        Some(place)
                    }
                },
            paths::known_root(self.local_root@) && paths::plain_relative(rel@) ==> (r is None
                <==> self.leaves_out(rel@)),
    {
        let place: String = inbound::local_place(self.local_root.as_str(), rel);
        let seen: String = if paths::is_known_root(self.local_root.as_str())
            && paths::is_plain_relative(rel) {
            rel.to_string()
        } else {
            ignore::relative_or_self(place.as_str(), self.local_root.as_str())
        };
        let ghost at = place@;
        assert(inbound::place_below(at, self.local_root@, rel@));
        self.keep_place(place, seen.as_str())
    }

    /// The request that downloads a file of the peer, unless the local one is as
    /// new. `local_mtime` is absent where there is no local file.
    pub fn plan_pull(&self, file: &RemoteFile, local_mtime: Option<u64>) -> (r: Option<PeerRequest>)
        ensures
            transfer::request_view(r) == if inbound::worth_pulling(local_mtime, file.entry.mtime) {
                Some(
                    request::path_request(
                        Verb::Download,
                        self.peer_ip@,
                        inbound::download_path(self.remote_base@, file.rel@),
                        text::optional(self.api_token),
                    ),
                )
            } else {
                None
            },
    {
        inbound::plan_pull(
            file,
            local_mtime,
            self.remote_base.as_str(),
            self.peer_ip.as_str(),
            text::lend(&self.api_token),
        )
    }

    /// Takes note that `path` is being pulled at `now`.
    pub fn note_origin(&mut self, path: &str, now: u64)
        requires
            old(self).wf(),
        ensures
            final(self).wf(),
            final(self).same_setup(*old(self)),
            final(self).retry_queue == old(self).retry_queue,
            final(self).sent == old(self).sent,
            final(self).origins@ == old(self).origins@.insert(path@, ((), now)),
    {
        recent::mark_remote_origin(&mut self.origins, path, now);
    }
}

/// `after` is `before` after a change of `path` was looked at, and `r` is
/// whether it was let through.
pub open spec fn let_through(
    before: SyncSession,
    after: SyncSession,
    r: bool,
    rel: Seq<char>,
    path: Seq<char>,
    action: SyncAction,
    origin_now: u64,
    dedup_now: u64,
) -> bool {
    let pulled = recent::recent(before.origins@, origin_now, recent::ORIGIN_SUPPRESS_SECS);
    if before.leaves_out(rel) {
        !r && after.origins@ == before.origins@ && after.sent@ == before.sent@
    } else if pulled.contains_key(path) {
        !r && after.origins@ == pulled && after.sent@ == before.sent@
    } else {
        &&& r == !recent::sent_before(before.sent@, path, action, dedup_now)
        &&& after.origins@ == pulled
        &&& after.sent@ == recent::dedup_cache(before.sent@, path, action, dedup_now)
    }
}

// ------------------------------------------------------------------------- laws

/// A file that was just pulled is not sent back, whatever happens to it within
/// the window.
pub proof fn law_pull_is_not_echoed(
    before: SyncSession,
    after: SyncSession,
    r: bool,
    rel: Seq<char>,
    path: Seq<char>,
    action: SyncAction,
    pulled: u64,
    origin_now: u64,
    dedup_now: u64,
)
    requires
        before.origins@.contains_key(path),
        before.origins@[path].1 == pulled,
        recent::age(origin_now, pulled) <= recent::ORIGIN_SUPPRESS_SECS,
        let_through(before, after, r, rel, path, action, origin_now, dedup_now),
    ensures
        !r,
{
}

/// A change that was let through is not let through a second time within the
/// window.
pub proof fn law_change_is_sent_once(
    before: SyncSession,
    between: SyncSession,
    after: SyncSession,
    second: bool,
    rel: Seq<char>,
    path: Seq<char>,
    action: SyncAction,
    o1: u64,
    d1: u64,
    o2: u64,
    d2: u64,
)
    requires
        let_through(before, between, true, rel, path, action, o1, d1),
        let_through(between, after, second, rel, path, action, o2, d2),
        recent::age(d2, d1) <= recent::DEDUPE_WINDOW_SECS,
    ensures
        !second,
{
    recent::law_repeated_change_is_skipped(before.sent@, path, action, action, d1, d2);
}

/// A change is let through exactly if no pattern leaves its path out, the path
/// was not pulled in the last ten seconds, and the same change of it was not
/// sent in the last three.
pub proof fn law_change_is_let_through(
    before: SyncSession,
    after: SyncSession,
    r: bool,
    rel: Seq<char>,
    path: Seq<char>,
    action: SyncAction,
    origin_now: u64,
    dedup_now: u64,
)
    requires
        let_through(before, after, r, rel, path, action, origin_now, dedup_now),
    ensures
        r <==> {
            &&& !before.leaves_out(rel)
            &&& !(before.origins@.contains_key(path) && origin_now <= before.origins@[path].1 + 10)
            &&& !(before.sent@.contains_key(path) && before.sent@[path].0 == action && dedup_now
                <= before.sent@[path].1 + 3)
        },
        r ==> after.sent@.contains_key(path) && after.sent@[path] == (action, dedup_now),
{
    recent::law_pulled_within_ten_seconds(before.origins@, path, origin_now);
    recent::law_sent_within_three_seconds(before.sent@, path, action, dedup_now, path);
}

/// A session leaves out what its patterns leave out: what a glob of its set
/// matches, or what holds a pattern.
pub proof fn law_session_follows_its_patterns(s: SyncSession, rel: Seq<char>)
    ensures
        s.leaves_out(rel) ==> s.ignore_patterns@.len() > 0,
        s.leaves_out(rel) <==> ignore::ignored(
            ignore::path_key(rel),
            text::views(s.ignore_patterns@),
            if s.ignore_glob is Some {
                Some(ignore::set_paths(s.ignore_glob->0))
            } else {
                None
            },
        ),
{
}

/// What came of a transfer is told by its level and its words: all is well, or
/// the failure and the error's own sentence.
pub proof fn law_outcome_is_told(
    entry: SyncLogEntry,
    action: SyncAction,
    path: Seq<char>,
    outcome: OpenBoltResult<()>,
)
    requires
        tells_outcome(entry, change_word(action), path, outcome),
    ensures
        entry.path@ == path,
        action is Delete ==> entry.action@ == "delete"@,
        action is Upsert ==> entry.action@ == "upsert"@,
        outcome is Ok ==> entry.level@ == "info"@ && entry.message@ == "ok"@,
        outcome is Err ==> entry.level@ == "warn"@ && entry.message@ == "failed: "@
            + outcome->Err_0.wording(),
{
}

/// The first line of a log names the peer, the folder there, the direction and
/// the number of patterns.
pub proof fn law_first_line_names_the_setup(
    peer: Seq<char>,
    base: Seq<char>,
    patterns: nat,
)
    ensures
        start_message(peer, base, SyncDirection::Outbound, patterns) == "sync started to "@ + peer
            + ":"@ + base + " direction="@ + "Outbound"@ + " ignore_patterns="@ + text::decimal(
            patterns,
        ),
        start_message(peer, base, SyncDirection::Bidirectional, patterns) == "sync started to "@
            + peer + ":"@ + base + " direction="@ + "Bidirectional"@ + " ignore_patterns="@
            + text::decimal(patterns),
{
}

/// A failure that can be repeated is queued behind the others, as it was, and
/// without failures so far; otherwise the queue stays.
pub proof fn law_failure_joins_the_queue(
    queue: Seq<RetryTask>,
    before: Seq<RetryTask>,
    action: RetryAction,
)
    ensures
        queued(queue, before, Some(action)) ==> {
            &&& queue.len() == before.len() + 1
            &&& queue.take(before.len() as int) == before
            &&& queue[before.len() as int].action == action
            &&& queue[before.len() as int].attempts == 0
        },
        queued(queue, before, None) ==> queue == before,
{
    if queued(queue, before, Some(action)) {
        assert(queue.take(before.len() as int) =~= before);
    }
}

/// Where two states of a session have one setup, nothing differs but the queue
/// and what was sent and pulled.
pub proof fn law_setup_stays(a: SyncSession, b: SyncSession)
    ensures
        a.same_setup(b) <==> a.local_root == b.local_root && a.remote_base == b.remote_base
            && a.peer_ip == b.peer_ip && a.api_token == b.api_token && a.direction == b.direction
            && a.ignore_patterns == b.ignore_patterns && a.ignore_glob == b.ignore_glob,
        RETRY_TICK_SECS == 5,
        INBOUND_POLL_SECS == 30,
{
}

/// A line of the log has the level, the action, the path and the words that are
/// said of it.
pub proof fn law_line_has_its_parts(
    entry: SyncLogEntry,
    level: Seq<char>,
    action: Seq<char>,
    path: Seq<char>,
    message: Seq<char>,
)
    ensures
        tells(entry, level, action, path, message) <==> entry.level@ == level && entry.action@
            == action && entry.path@ == path && entry.message@ == message,
{
}

} // verus!
