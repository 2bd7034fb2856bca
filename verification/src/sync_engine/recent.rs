//! What happened to a path a moment ago: changes that were sent already, and
//! files that came from the peer.

use vstd::prelude::*;

use crate::clock;
use crate::sync_engine::SyncAction;

verus! {

/// The seconds in which the same change of a path is not sent twice.
pub const DEDUPE_WINDOW_SECS: u64 = 3;

/// The seconds in which changes of a pulled file are not sent back.
pub const ORIGIN_SUPPRESS_SECS: u64 = 10;

/// A value that a path had at some second.
#[derive(Debug)]
struct Stamped<V> {
    key: String,
    value: V,
    ts: u64,
}

/// The latest value of each path, with its second. No path occurs twice.
#[derive(Debug)]
pub struct RecentMap<V> {
    entries: Vec<Stamped<V>>,
}

/// The seconds from `ts` to `now`; none where `ts` lies ahead.
pub open spec fn age(now: u64, ts: u64) -> int {
    if now >= ts {
        now - ts
    } else {
        0
    }
}

/// The part of `m` that is at most `window` seconds old.
pub open spec fn recent<V>(m: Map<Seq<char>, (V, u64)>, now: u64, window: u64) -> Map<
    Seq<char>,
    (V, u64),
> {
    m.restrict(Set::new(|k: Seq<char>| m.contains_key(k) && age(now, m[k].1) <= window))
}

spec fn stands_at<V>(entries: Seq<Stamped<V>>, k: Seq<char>, i: int) -> bool {
    0 <= i < entries.len() && entries[i].key@ == k
}

spec fn occurs<V>(entries: Seq<Stamped<V>>, k: Seq<char>) -> bool {
    exists|i: int| stands_at(entries, k, i)
}

spec fn distinct<V>(entries: Seq<Stamped<V>>) -> bool {
    forall|i: int, j: int|
        0 <= i < entries.len() && 0 <= j < entries.len() && (#[trigger] entries[i]).key@ == (
        #[trigger] entries[j]).key@ ==> i == j
}

spec fn contents<V>(entries: Seq<Stamped<V>>) -> Map<Seq<char>, (V, u64)> {
    Map::new(
        |k: Seq<char>| occurs(entries, k),
        |k: Seq<char>|
            {
                let i = choose|i: int| stands_at(entries, k, i);
                (entries[i].value, entries[i].ts)
            },
    )
}

impl<V> View for RecentMap<V> {
    type V = Map<Seq<char>, (V, u64)>;

    closed spec fn view(&self) -> Map<Seq<char>, (V, u64)> {
        contents(self.entries@)
    }
}

spec fn came_from<V>(all: Seq<Stamped<V>>, n: int, now: u64, window: u64, e: Stamped<V>) -> bool {
    exists|i: int| n <= i < all.len() && #[trigger] all[i] == e && age(now, all[i].ts) <= window
}

proof fn lemma_contents<V>(entries: Seq<Stamped<V>>, i: int)
    requires
        distinct(entries),
        0 <= i < entries.len(),
    ensures
        contents(entries).contains_key(entries[i].key@),
        contents(entries)[entries[i].key@] == (entries[i].value, entries[i].ts),
{
    assert(stands_at(entries, entries[i].key@, i));
    let j = choose|j: int| stands_at(entries, entries[i].key@, j);
    assert(entries[j].key@ == entries[i].key@);
}

impl<V: Copy> RecentMap<V> {
    /// No path occurs twice.
    pub closed spec fn wf(self) -> bool {
        distinct(self.entries@)
    }

    /// The map without paths.
    pub fn new() -> (r: Self)
        ensures
            r.wf(),
            r@ == Map::<Seq<char>, (V, u64)>::empty(),
    {
        let r = RecentMap { entries: Vec::new() };
        assert(r@ =~= Map::<Seq<char>, (V, u64)>::empty());
        r
    }

    /// Forgets what is more than `window` seconds old.
    pub fn retain_recent(&mut self, now: u64, window: u64)
        requires
            old(self).wf(),
        ensures
            final(self).wf(),
            final(self)@ == recent(old(self)@, now, window),
    {
        let ghost all = self.entries@;
        let mut rest: Vec<Stamped<V>> = Vec::new();
        core::mem::swap(&mut rest, &mut self.entries);
        let mut kept: Vec<Stamped<V>> = Vec::new();
        while rest.len() > 0
            invariant
                distinct(all),
                rest@.len() <= all.len(),
                rest@ == all.take(rest@.len() as int),
                distinct(kept@),
                forall|k: int|
                    0 <= k < kept@.len() ==> came_from(
                        all,
                        rest@.len() as int,
                        now,
                        window,
                        #[trigger] kept@[k],
                    ),
                forall|i: int|
                    rest@.len() <= i < all.len() && age(now, (#[trigger] all[i]).ts) <= window
                        ==> kept@.contains(all[i]),
            decreases rest@.len(),
        {
            let ghost n = rest@.len() as int;
            let ghost before = kept@;
            if let Some(e) = rest.pop() {
                assert(e == all[n - 1]);
                assert(rest@ =~= all.take(n - 1));
                let fresh: bool = if now >= e.ts {
                    now - e.ts <= window
                } else {
                    true
                };
                if fresh {
                    kept.push(e);
                    proof {
                        assert(kept@[before.len() as int] == all[n - 1]);
                        assert forall|k: int| 0 <= k < before.len() implies (
                        #[trigger] kept@[k]).key@ != e.key@ && came_from(
                            all,
                            n - 1,
                            now,
                            window,
                            kept@[k],
                        ) by {
                            assert(came_from(all, n, now, window, before[k]));
                        }
                        assert forall|i: int|
                            n - 1 <= i < all.len() && age(now, (#[trigger] all[i]).ts)
                                <= window implies kept@.contains(all[i]) by {
                            if i >= n {
                                let k = choose|k: int| 0 <= k < before.len() && before[k] == all[i];
                                assert(kept@[k] == all[i]);
                            }
                        }
                    }
                }
            }
        }
        self.entries = kept;
        proof {
            let m = contents(all);
            let r = recent(m, now, window);
            let v = contents(kept@);
            assert forall|k: Seq<char>| #[trigger] v.dom().contains(k) implies r.contains_key(k) && v[k]
                == r[k] by {
                let a = choose|i: int| stands_at(kept@, k, i);
                assert(came_from(all, 0, now, window, kept@[a]));
                let i = choose|i: int|
                    0 <= i < all.len() && #[trigger] all[i] == kept@[a] && age(now, all[i].ts)
                        <= window;
                lemma_contents(kept@, a);
                lemma_contents(all, i);
            }
            assert forall|k: Seq<char>| #[trigger] r.dom().contains(k) implies v.contains_key(k) by {
                let i = choose|i: int| stands_at(all, k, i);
                lemma_contents(all, i);
                assert(kept@.contains(all[i]));
                let a = choose|a: int| 0 <= a < kept@.len() && kept@[a] == all[i];
                lemma_contents(kept@, a);
            }
            assert(v =~= r);
        }
    }

    /// The value of a path.
    pub fn get(&self, key: &str) -> (r: Option<V>)
        requires
            self.wf(),
        ensures
            match r {
                Some(v) => self@.contains_key(key@) && self@[key@].0 == v,
                None => !self@.contains_key(key@),
            },
    {
        let mut i: usize = 0;
        while i < self.entries.len()
            invariant
                i <= self.entries@.len(),
                distinct(self.entries@),
                forall|k: int| 0 <= k < i ==> (#[trigger] self.entries@[k]).key@ != key@,
            decreases self.entries@.len() - i,
        {
            if crate::text::same_text(self.entries[i].key.as_str(), key) {
                proof {
                    lemma_contents(self.entries@, i as int);
                }
                return Some(self.entries[i].value);
            }
            i = i + 1;
        }
        proof {
            if self@.contains_key(key@) {
                let j = choose|j: int| stands_at(self.entries@, key@, j);
                assert(self.entries@[j].key@ == key@);
            }
        }
        None
    }

    /// Sets the value of a path at the second `ts`.
    pub fn insert(&mut self, key: &str, value: V, ts: u64)
        requires
            old(self).wf(),
        ensures
            final(self).wf(),
            final(self)@ == old(self)@.insert(key@, (value, ts)),
    {
        let ghost all = self.entries@;
        let entry = Stamped { key: key.to_string(), value, ts };
        let mut i: usize = 0;
        while i < self.entries.len()
            invariant
                i <= self.entries@.len(),
                self.entries@ == all,
                distinct(all),
                old(self)@ == contents(all),
                entry.key@ == key@,
                entry.value == value,
                entry.ts == ts,
                forall|k: int| 0 <= k < i ==> (#[trigger] all[k]).key@ != key@,
            decreases all.len() - i,
        {
            if crate::text::same_text(self.entries[i].key.as_str(), key) {
                self.entries.set(i, entry);
                proof {
                    lemma_replaced(all, i as int, self.entries@);
                }
                return ;
            }
            i = i + 1;
        }
        self.entries.push(entry);
        proof {
            lemma_added(all, self.entries@);
        }
    }
}

proof fn lemma_replaced<V>(all: Seq<Stamped<V>>, i: int, now: Seq<Stamped<V>>)
    requires
        distinct(all),
        0 <= i < all.len(),
        now.len() == all.len(),
        now == all.update(i, now[i]),
        now[i].key@ == all[i].key@,
    ensures
        distinct(now),
        contents(now) == contents(all).insert(all[i].key@, (now[i].value, now[i].ts)),
{
    assert forall|a: int, b: int|
        0 <= a < now.len() && 0 <= b < now.len() && (#[trigger] now[a]).key@ == (
        #[trigger] now[b]).key@ implies a == b by {
        assert(all[a].key@ == now[a].key@ && all[b].key@ == now[b].key@);
    }
    let m = contents(all).insert(all[i].key@, (now[i].value, now[i].ts));
    let v = contents(now);
    assert forall|k: Seq<char>| #[trigger] v.dom().contains(k) implies m.contains_key(k) && v[k] == m[k] by {
        let a = choose|a: int| stands_at(now, k, a);
        lemma_contents(now, a);
        lemma_contents(all, a);
        assert(all[a].key@ == now[a].key@);
        lemma_contents(now, i);
    }
    assert forall|k: Seq<char>| #[trigger] m.dom().contains(k) implies v.contains_key(k) by {
        if k == all[i].key@ {
            lemma_contents(now, i);
        } else {
            let a = choose|a: int| stands_at(all, k, a);
            assert(now[a] == all[a]);
            lemma_contents(now, a);
        }
    }
    assert(v =~= m);
}

proof fn lemma_added<V>(all: Seq<Stamped<V>>, now: Seq<Stamped<V>>)
    requires
        distinct(all),
        now.len() == all.len() + 1,
        now == all.push(now.last()),
        forall|k: int| 0 <= k < all.len() ==> (#[trigger] all[k]).key@ != now.last().key@,
    ensures
        distinct(now),
        contents(now) == contents(all).insert(
            now.last().key@,
            (now.last().value, now.last().ts),
        ),
{
    let n = all.len() as int;
    assert forall|a: int| 0 <= a < n implies #[trigger] now[a] == all[a] by {}
    let m = contents(all).insert(now[n].key@, (now[n].value, now[n].ts));
    let v = contents(now);
    assert forall|k: Seq<char>| #[trigger] v.dom().contains(k) implies m.contains_key(k) && v[k] == m[k] by {
        let a = choose|a: int| stands_at(now, k, a);
        lemma_contents(now, a);
        if a < n {
            lemma_contents(all, a);
            assert(now[a] == all[a]);
        }
    }
    assert forall|k: Seq<char>| #[trigger] m.dom().contains(k) implies v.contains_key(k) by {
        if k == now[n].key@ {
            lemma_contents(now, n);
        } else {
            let a = choose|a: int| stands_at(all, k, a);
            assert(now[a] == all[a]);
            lemma_contents(now, a);
        }
    }
    assert(v =~= m);
}

// --------------------------------------------------------------- sent already

/// The change of `path` was sent already, within the window.
pub open spec fn sent_before(
    cache: Map<Seq<char>, (SyncAction, u64)>,
    path: Seq<char>,
    action: SyncAction,
    now: u64,
) -> bool {
    let fresh = recent(cache, now, DEDUPE_WINDOW_SECS);
    fresh.contains_key(path) && fresh[path].0 == action
}

/// The cache after a change of `path` was looked up at `now`.
pub open spec fn dedup_cache(
    cache: Map<Seq<char>, (SyncAction, u64)>,
    path: Seq<char>,
    action: SyncAction,
    now: u64,
) -> Map<Seq<char>, (SyncAction, u64)> {
    let fresh = recent(cache, now, DEDUPE_WINDOW_SECS);
    if sent_before(cache, path, action, now) {
        fresh
    } else {
        fresh.insert(path, (action, now))
    }
}

/// Whether the change of `path` was sent already when it comes at `now`; if
/// not, it is taken note of.
pub fn should_skip_dedup_at(
    cache: &mut RecentMap<SyncAction>,
    path: &str,
    action: SyncAction,
    now: u64,
) -> (r: bool)
    requires
        old(cache).wf(),
    ensures
        final(cache).wf(),
        r == sent_before(old(cache)@, path@, action, now),
        final(cache)@ == dedup_cache(old(cache)@, path@, action, now),
{
    cache.retain_recent(now, DEDUPE_WINDOW_SECS);
    if let Some(previous) = cache.get(path) {
        if previous == action {
            return true;
        }
    }
    cache.insert(path, action, now);
    false
}

/// Whether the change of `path` was sent already when it comes now; if not, it
/// is taken note of.
pub fn should_skip_dedup(cache: &mut RecentMap<SyncAction>, path: &str, action: SyncAction) -> (r:
    bool)
    requires
        old(cache).wf(),
    ensures
        final(cache).wf(),
        exists|now: u64|
            r == #[trigger] sent_before(old(cache)@, path@, action, now) && final(cache)@
                == dedup_cache(old(cache)@, path@, action, now),
{
    let now: u64 = clock::now_ts();
    should_skip_dedup_at(cache, path, action, now)
}

// ------------------------------------------------------------------ from the peer

/// Whether `path` was pulled from the peer within the window before `now`.
pub fn is_remote_origin_at(cache: &mut RecentMap<()>, path: &str, now: u64) -> (r: bool)
    requires
        old(cache).wf(),
    ensures
        final(cache).wf(),
        final(cache)@ == recent(old(cache)@, now, ORIGIN_SUPPRESS_SECS),
        r == final(cache)@.contains_key(path@),
{
    cache.retain_recent(now, ORIGIN_SUPPRESS_SECS);
    match cache.get(path) {
        Some(_) => true,
        None => false,
    }
}

/// Whether `path` was pulled from the peer a moment ago.
pub fn is_remote_origin(cache: &mut RecentMap<()>, path: &str) -> (r: bool)
    requires
        old(cache).wf(),
    ensures
        final(cache).wf(),
        exists|now: u64|
            final(cache)@ == #[trigger] recent(old(cache)@, now, ORIGIN_SUPPRESS_SECS),
        r == final(cache)@.contains_key(path@),
{
    let now: u64 = clock::now_ts();
    is_remote_origin_at(cache, path, now)
}

/// Takes note that `path` was pulled from the peer at `now`.
pub fn mark_remote_origin(cache: &mut RecentMap<()>, path: &str, now: u64)
    requires
        old(cache).wf(),
    ensures
        final(cache).wf(),
        final(cache)@ == old(cache)@.insert(path@, ((), now)),
{
    cache.insert(path, (), now);
}

// ------------------------------------------------------------------------- laws

/// The same change of a path, seen again within the window, is skipped; a
/// different change, and the same one after the window, is sent.
pub proof fn law_repeated_change_is_skipped(
    cache: Map<Seq<char>, (SyncAction, u64)>,
    path: Seq<char>,
    first: SyncAction,
    second: SyncAction,
    t1: u64,
    t2: u64,
)
    requires
        !sent_before(cache, path, first, t1),
    ensures
        sent_before(dedup_cache(cache, path, first, t1), path, second, t2) <==> (second == first
            && age(t2, t1) <= DEDUPE_WINDOW_SECS),
{
}

/// What happens to one path does not change whether another is skipped.
pub proof fn law_paths_are_skipped_apart(
    cache: Map<Seq<char>, (SyncAction, u64)>,
    path: Seq<char>,
    other: Seq<char>,
    action: SyncAction,
    other_action: SyncAction,
    t1: u64,
    t2: u64,
)
    requires
        path != other,
        t1 <= t2,
    ensures
        sent_before(dedup_cache(cache, other, other_action, t1), path, action, t2)
            == sent_before(cache, path, action, t2),
{
}

/// A pulled file is not sent back for ten seconds, and is after them.
pub proof fn law_pulled_file_is_not_sent_back(
    cache: Map<Seq<char>, ((), u64)>,
    path: Seq<char>,
    pulled: u64,
    now: u64,
)
    ensures
        recent(cache.insert(path, ((), pulled)), now, ORIGIN_SUPPRESS_SECS).contains_key(path)
            <==> age(now, pulled) <= ORIGIN_SUPPRESS_SECS,
{
}

/// What is remembered is forgotten exactly when it is older than the window, by
/// the clock; what lies ahead of the clock is not old. Nothing else changes.
pub proof fn law_remembered_within_the_window<V>(
    m: Map<Seq<char>, (V, u64)>,
    now: u64,
    window: u64,
    k: Seq<char>,
)
    ensures
        recent(m, now, window).contains_key(k) <==> m.contains_key(k) && now as int <= m[k].1
            + window,
        recent(m, now, window).contains_key(k) ==> recent(m, now, window)[k] == m[k],
{
}

/// A change counts as sent exactly if the last change of the path that was sent
/// was the same, three seconds ago at most. One that does not is taken note of
/// for the path; other paths are not touched by it.
pub proof fn law_sent_within_three_seconds(
    cache: Map<Seq<char>, (SyncAction, u64)>,
    path: Seq<char>,
    action: SyncAction,
    now: u64,
    other: Seq<char>,
)
    ensures
        sent_before(cache, path, action, now) <==> cache.contains_key(path) && cache[path].0
            == action && now <= cache[path].1 + 3,
        sent_before(cache, path, action, now) ==> dedup_cache(cache, path, action, now)[path]
            == cache[path],
        !sent_before(cache, path, action, now) ==> dedup_cache(cache, path, action, now)[path] == (
            action,
            now,
        ),
        dedup_cache(cache, path, action, now).contains_key(path),
        other != path ==> (dedup_cache(cache, path, action, now).contains_key(other)
            <==> cache.contains_key(other) && now <= cache[other].1 + 3),
        other != path && dedup_cache(cache, path, action, now).contains_key(other) ==> dedup_cache(
            cache,
            path,
            action,
            now,
        )[other] == cache[other],
{
}

/// A file counts as pulled for ten seconds, and no longer.
pub proof fn law_pulled_within_ten_seconds(
    cache: Map<Seq<char>, ((), u64)>,
    path: Seq<char>,
    now: u64,
)
    ensures
        recent(cache, now, ORIGIN_SUPPRESS_SECS).contains_key(path) <==> cache.contains_key(path)
            && now <= cache[path].1 + 10,
{
}

} // verus!
