//! The log of a synchronisation: its newest entries, and what they add up to.

use std::collections::VecDeque;

use vstd::prelude::*;

use crate::clock;
use crate::text;

verus! {

/// The number of entries that are kept.
pub const LOG_CAPACITY: usize = 300;

/// One line of the log.
#[derive(Debug)]
pub struct SyncLogEntry {
    pub ts: u64,
    pub level: String,
    pub action: String,
    pub path: String,
    pub message: String,
}

/// What a log entry says.
pub struct LogLine {
    pub ts: u64,
    pub level: Seq<char>,
    pub action: Seq<char>,
    pub path: Seq<char>,
    pub message: Seq<char>,
}

impl View for SyncLogEntry {
    type V = LogLine;

    open spec fn view(&self) -> LogLine {
        LogLine {
            ts: self.ts,
            level: self.level@,
            action: self.action@,
            path: self.path@,
            message: self.message@,
        }
    }
}

impl Clone for SyncLogEntry {
    fn clone(&self) -> (r: Self)
        ensures
            r == *self,
    {
        SyncLogEntry {
            ts: self.ts,
            level: self.level.clone(),
            action: self.action.clone(),
            path: self.path.clone(),
            message: self.message.clone(),
        }
    }
}

/// The counts of a log.
#[derive(Clone, Copy, Debug, PartialEq, Eq, Structural)]
pub struct SyncStats {
    pub total: usize,
    pub success: usize,
    pub failed: usize,
    pub conflicts: usize,
    pub retries: usize,
}

// ---------------------------------------------------------------- definitions

/// The last `n` elements of `s`, or all of them where there are fewer.
pub open spec fn newest<T>(s: Seq<T>, n: int) -> Seq<T> {
    if s.len() > n {
        s.skip(s.len() - n)
    } else {
        s
    }
}

/// `log` after `entry` came in: beyond the capacity the oldest entry leaves.
pub open spec fn log_push<T>(log: Seq<T>, entry: T) -> Seq<T> {
    if log.len() + 1 > LOG_CAPACITY {
        log.push(entry).skip(1)
    } else {
        log.push(entry)
    }
}

/// The number of entries that satisfy `p`.
pub open spec fn count(log: Seq<SyncLogEntry>, p: spec_fn(LogLine) -> bool) -> nat
    decreases log.len(),
{
    if log.len() == 0 {
        0
    } else {
        count(log.drop_last(), p) + if p(log.last()@) {
            1nat
        } else {
            0nat
        }
    }
}

/// An entry that tells of a success.
pub open spec fn is_success() -> spec_fn(LogLine) -> bool {
    |l: LogLine| text::same_ignoring_case(l.level, "info"@)
}

/// An entry that tells of a failure.
pub open spec fn is_failure() -> spec_fn(LogLine) -> bool {
    |l: LogLine| text::same_ignoring_case(l.level, "warn"@)
}

/// An entry that tells of a conflict.
pub open spec fn is_conflict() -> spec_fn(LogLine) -> bool {
    |l: LogLine| text::occurs(text::lower(l.message), "conflict keep remote"@)
}

/// An entry that tells of one more try.
pub open spec fn is_retry() -> spec_fn(LogLine) -> bool {
    |l: LogLine| text::occurs(text::lower(l.message), "attempt"@)
}

// ------------------------------------------------------------------ functions

/// Puts an entry of the time `ts` into `logs`, and gives a copy of it.
pub fn append_log_at(
    logs: &mut VecDeque<SyncLogEntry>,
    ts: u64,
    level: &str,
    action: &str,
    path: &str,
    message: &str,
) -> (entry: SyncLogEntry)
    ensures
        entry@ == (LogLine {
            ts,
            level: level@,
            action: action@,
            path: path@,
            message: message@,
        }),
        final(logs)@ == log_push(old(logs)@, entry),
{
    let entry = SyncLogEntry {
        ts,
        level: level.to_string(),
        action: action.to_string(),
        path: path.to_string(),
        message: message.to_string(),
    };
    let full: bool = logs.len() >= LOG_CAPACITY;
    logs.push_back(entry.clone());
    if full {
        let _oldest = logs.pop_front();
        proof {
            assert(logs@ =~= log_push(old(logs)@, entry));
        }
    }
    entry
}

/// Puts an entry of the present time into `logs`, and gives a copy of it.
pub fn append_log(
    logs: &mut VecDeque<SyncLogEntry>,
    level: &str,
    action: &str,
    path: &str,
    message: &str,
) -> (entry: SyncLogEntry)
    ensures
        exists|ts: u64|
            entry@ == (LogLine {
                ts,
                level: level@,
                action: action@,
                path: path@,
                message: message@,
            }),
        final(logs)@ == log_push(old(logs)@, entry),
{
    append_log_at(logs, clock::now_ts(), level, action, path, message)
}

/// The newest entries, oldest first: 100 of them unless `limit` says otherwise,
/// and never more than 500.
pub fn get_sync_logs(logs: &VecDeque<SyncLogEntry>, limit: Option<usize>) -> (r: Vec<SyncLogEntry>)
    ensures
        r@ == newest(
            logs@,
            (match limit {
                Some(n) => if n < 500 {
                    n
                } else {
                    500
                },
                None => 100,
            }) as int,
        ),
{
    let wanted: usize = match limit {
        Some(n) => n,
        None => 100,
    };
    let most: usize = if wanted < 500 {
        wanted
    } else {
        500
    };
    let start: usize = if logs.len() > most {
        logs.len() - most
    } else {
        0
    };
    let mut out: Vec<SyncLogEntry> = Vec::new();
    let mut i: usize = start;
    while i < logs.len()
        invariant
            start <= i <= logs@.len(),
            out@ == logs@.subrange(start as int, i as int),
        decreases logs@.len() - i,
    {
        out.push(logs[i].clone());
        proof {
            assert(logs@.subrange(start as int, i + 1) =~= logs@.subrange(
                start as int,
                i as int,
            ).push(logs@[i as int]));
        }
        i = i + 1;
    }
    proof {
        assert(out@ =~= newest(logs@, most as int));
    }
    out
}

/// Empties the log.
pub fn clear_sync_logs(logs: &mut VecDeque<SyncLogEntry>)
    ensures
        final(logs)@.len() == 0,
{
    logs.clear();
}

/// What the entries of a log add up to.
pub fn get_sync_stats(logs: &VecDeque<SyncLogEntry>) -> (r: SyncStats)
    ensures
        r.total == logs@.len(),
        r.success == count(logs@, is_success()),
        r.failed == count(logs@, is_failure()),
        r.conflicts == count(logs@, is_conflict()),
        r.retries == count(logs@, is_retry()),
{
    let mut success: usize = 0;
    let mut failed: usize = 0;
    let mut conflicts: usize = 0;
    let mut retries: usize = 0;
    let mut i: usize = 0;
    while i < logs.len()
        invariant
            i <= logs@.len(),
            success <= i,
            failed <= i,
            conflicts <= i,
            retries <= i,
            success == count(logs@.take(i as int), is_success()),
            failed == count(logs@.take(i as int), is_failure()),
            conflicts == count(logs@.take(i as int), is_conflict()),
            retries == count(logs@.take(i as int), is_retry()),
        decreases logs@.len() - i,
    {
        let item = &logs[i];
        proof {
            assert(logs@.take(i + 1).drop_last() =~= logs@.take(i as int));
            assert(logs@.take(i + 1).last() == *item);
        }
        if text::equals_ignoring_case(item.level.as_str(), "warn") {
            failed = failed + 1;
        }
        if text::equals_ignoring_case(item.level.as_str(), "info") {
            success = success + 1;
        }
        let msg: String = text::lower_text(item.message.as_str());
        if text::has_text(msg.as_str(), "conflict keep remote") {
            conflicts = conflicts + 1;
        }
        if text::has_text(msg.as_str(), "attempt") {
            retries = retries + 1;
        }
        i = i + 1;
    }
    proof {
        assert(logs@.take(i as int) =~= logs@);
    }
    SyncStats { total: logs.len(), success, failed, conflicts, retries }
}

// ----------------------------------------------------------------------- laws

/// The log after all of `history` was appended to an empty log, in order.
pub open spec fn log_of<T>(history: Seq<T>) -> Seq<T>
    decreases history.len(),
{
    if history.len() == 0 {
        Seq::empty()
    } else {
        log_push(log_of(history.drop_last()), history.last())
    }
}

/// However many entries were appended, the log holds the newest of them, up to
/// its capacity, in the order in which they came.
pub proof fn law_log_holds_the_newest<T>(history: Seq<T>)
    ensures
        log_of(history) == newest(history, LOG_CAPACITY as int),
        log_of(history).len() <= LOG_CAPACITY,
    decreases history.len(),
{
    if history.len() > 0 {
        law_log_holds_the_newest(history.drop_last());
        assert(log_of(history) =~= newest(history, LOG_CAPACITY as int));
    }
}

/// A log that is within its capacity stays within it.
pub proof fn law_log_stays_within_capacity<T>(log: Seq<T>, entry: T)
    requires
        log.len() <= LOG_CAPACITY,
    ensures
        log_push(log, entry).len() <= LOG_CAPACITY,
        log_push(log, entry).last() == entry,
{
}

/// No entry counts as a success and as a failure: together they are no more
/// than the entries.
pub proof fn law_outcomes_within_total(log: Seq<SyncLogEntry>)
    ensures
        count(log, is_success()) + count(log, is_failure()) <= log.len(),
        count(log, is_conflict()) <= log.len(),
        count(log, is_retry()) <= log.len(),
    decreases log.len(),
{
    if log.len() > 0 {
        law_outcomes_within_total(log.drop_last());
        let level = log.last()@.level;
        if text::same_ignoring_case(level, "info"@) && text::same_ignoring_case(level, "warn"@) {
            reveal_strlit("info");
            reveal_strlit("warn");
            assert(text::lower("info"@)[0] == 'i');
            assert(text::lower("warn"@)[0] == 'w');
        }
    }
}

/// The newest entries are the last ones, as many as are asked for, or all where
/// there are no more.
pub proof fn law_newest_entries_are_the_last<T>(older: Seq<T>, newer: Seq<T>, n: int)
    ensures
        newest(older + newer, newer.len() as int) == newer,
        n >= newer.len() ==> newest(newer, n) == newer,
{
    assert((older + newer).skip(older.len() as int) =~= newer);
}

/// One more entry comes last; the others stay, but for the first where there are
/// three hundred.
pub proof fn law_new_entry_comes_last<T>(log: Seq<T>, entry: T)
    ensures
        log.len() < 300 ==> log_push(log, entry) == log.push(entry),
        log.len() >= 300 ==> log_push(log, entry) == log.skip(1).push(entry),
{
    if log.len() >= 300 {
        assert(log_push(log, entry) =~= log.skip(1).push(entry));
    }
}

proof fn lemma_count_add(
    a: Seq<SyncLogEntry>,
    b: Seq<SyncLogEntry>,
    p: spec_fn(LogLine) -> bool,
)
    ensures
        count(a + b, p) == count(a, p) + count(b, p),
    decreases b.len(),
{
    let all = a + b;
    if b.len() > 0 {
        lemma_count_add(a, b.drop_last(), p);
        assert(all.drop_last() =~= a + b.drop_last());
        assert(all.last() == b.last());
    } else {
        assert(all =~= a);
    }
}

/// Each entry counts once for each thing that it tells of: entries before and
/// after it add to the counts, and it adds one exactly if it tells of the thing.
pub proof fn law_entries_are_counted(
    before: Seq<SyncLogEntry>,
    entry: SyncLogEntry,
    after: Seq<SyncLogEntry>,
    p: spec_fn(LogLine) -> bool,
)
    ensures
        count((before.push(entry)) + after, p) == count(before, p) + count(after, p) + if p(
            entry@,
        ) {
            1nat
        } else {
            0nat
        },
        count(Seq::<SyncLogEntry>::empty(), p) == 0,
{
    lemma_count_add(before.push(entry), after, p);
    assert(before.push(entry).drop_last() =~= before);
}

/// An entry tells of a success or a failure by its level, and of a conflict or a
/// retry by its words, in letters of either case.
pub proof fn law_entries_tell_by_their_words(
    line: LogLine,
    head: Seq<char>,
    words: Seq<char>,
    tail: Seq<char>,
)
    ensures
        is_success()(line) <==> text::same_ignoring_case(line.level, "info"@),
        is_failure()(line) <==> text::same_ignoring_case(line.level, "warn"@),
        line.message == head + words + tail && text::same_ignoring_case(
            words,
            "conflict keep remote"@,
        ) ==> is_conflict()(line),
        line.message == head + words + tail && text::same_ignoring_case(words, "attempt"@)
            ==> is_retry()(line),
{
    reveal_strlit("conflict keep remote");
    reveal_strlit("attempt");
    if line.message == head + words + tail {
        assert(text::lower(line.message) =~= text::lower(head) + text::lower(words) + text::lower(
            tail,
        ));
        text::law_inner_text_occurs(text::lower(head), text::lower(words), text::lower(tail));
        let c = "conflict keep remote"@;
        let a = "attempt"@;
        assert(text::lower(c) =~= c);
        assert(text::lower(a) =~= a);
    }
}

/// An entry tells of a conflict or a retry only if the words stand in it.
pub proof fn law_only_the_words_tell(line: LogLine) -> (around: (
    Seq<char>,
    Seq<char>,
    Seq<char>,
    Seq<char>,
))
    ensures
        is_conflict()(line) ==> text::lower(line.message) == around.0 + "conflict keep remote"@
            + around.1,
        is_retry()(line) ==> text::lower(line.message) == around.2 + "attempt"@ + around.3,
{
    let e = Seq::<char>::empty();
    let m = text::lower(line.message);
    let c = if is_conflict()(line) {
        text::law_occurring_text_is_inside(m, "conflict keep remote"@)
    } else {
        (e, e)
    };
    let a = if is_retry()(line) {
        text::law_occurring_text_is_inside(m, "attempt"@)
    } else {
        (e, e)
    };
    (c.0, c.1, a.0, a.1)
}

/// What is said of a line of the log is what it holds.
pub proof fn law_entry_is_seen_as_it_is(e: SyncLogEntry)
    ensures
        e@.ts == e.ts,
        e@.level == e.level@,
        e@.action == e.action@,
        e@.path == e.path@,
        e@.message == e.message@,
{
}

} // verus!
