//! From what the file system reports to what is done: the changes of a moment
//! are gathered, one for each path.

use vstd::prelude::*;

use crate::paths;
use crate::sync_engine::RenameEvent;
use crate::sync_engine::SyncAction;
use crate::sync_engine::SyncEvent;

verus! {

/// The milliseconds without a change after which a batch is complete.
pub const QUIET_MILLIS: u64 = 800;

/// What a report of the file system is about.
#[derive(Clone, Copy, Debug, PartialEq, Eq, Structural)]
pub enum WatchKind {
    /// Something was removed.
    Remove,
    /// Something got another name, and both names are known.
    RenameBoth,
    /// Anything else.
    Other,
}

/// What a report of the file system amounts to.
#[derive(Debug)]
pub enum Watched {
    Rename(RenameEvent),
    Changes(Vec<SyncEvent>),
}

/// What a change asks for.
pub open spec fn event_action(kind: WatchKind) -> SyncAction {
    match kind {
        WatchKind::Remove => SyncAction::Delete,
        _ => SyncAction::Upsert,
    }
}

/// What a change asks for: a removal deletes, anything else updates.
pub fn map_event_action(kind: WatchKind) -> (r: SyncAction)
    ensures
        r == event_action(kind),
{
    match kind {
        WatchKind::Remove => SyncAction::Delete,
        _ => SyncAction::Upsert,
    }
}

/// What a report on `paths` amounts to: a renaming where both names are given,
/// else one change for each path.
pub fn classify(kind: WatchKind, paths: Vec<String>) -> (r: Watched)
    ensures
        if kind is RenameBoth && paths@.len() >= 2 {
            r matches Watched::Rename(e) && e.from@ == paths@[0]@ && e.to@ == paths@[1]@
        } else {
            r matches Watched::Changes(es) && es@.len() == paths@.len() && forall|i: int|
                0 <= i < es@.len() ==> (#[trigger] es@[i]).path@ == paths@[i]@ && es@[i].action
                    == event_action(kind)
        },
{
    if kind == WatchKind::RenameBoth && paths.len() >= 2 {
        return Watched::Rename(RenameEvent { from: paths[0].clone(), to: paths[1].clone() });
    }
    let action = map_event_action(kind);
    let mut out: Vec<SyncEvent> = Vec::new();
    let mut i: usize = 0;
    while i < paths.len()
        invariant
            i <= paths@.len(),
            out@.len() == i,
            action == event_action(kind),
            forall|k: int|
                0 <= k < i ==> (#[trigger] out@[k]).path@ == paths@[k]@ && out@[k].action
                    == event_action(kind),
        decreases paths@.len() - i,
    {
        out.push(SyncEvent { path: paths[i].clone(), action });
        i = i + 1;
    }
    Watched::Changes(out)
}

/// The changes of a moment: one action for each path, and the renamings in the
/// order in which they came.
#[derive(Debug)]
pub struct Batch {
    changes: Vec<SyncEvent>,
    renames: Vec<RenameEvent>,
}

/// What arrives while a batch is gathered.
#[derive(Debug)]
pub enum Arrival {
    Change(SyncEvent),
    Rename(RenameEvent),
    /// No more changes can come.
    ChangesEnded,
    /// No change came for a while.
    ChangesQuiet,
    /// No renaming came for a while, or none can come any more.
    RenamesQuiet,
}

/// The pending actions after one more change, which replaces what is pending
/// for the path.
pub open spec fn merged(
    pending: Map<Seq<char>, SyncAction>,
    path: Seq<char>,
    action: SyncAction,
) -> Map<Seq<char>, SyncAction> {
    pending.insert(path, action)
}

/// `after` are the pending actions `before` after one more change of `path`. It
/// counts for the path with its text, or for a pending one that is the same
/// path in other words; of two paths that are read alike and have different
/// texts none is.
pub open spec fn merges(
    after: Map<Seq<char>, SyncAction>,
    before: Map<Seq<char>, SyncAction>,
    path: Seq<char>,
    action: SyncAction,
) -> bool {
    exists|key: Seq<char>| #[trigger]
        paths::maybe_same(key, path) && (key == path || before.contains_key(key)) && after
            == merged(before, key, action)
}

spec fn distinct(changes: Seq<SyncEvent>) -> bool {
    forall|i: int, j: int|
        0 <= i < changes.len() && 0 <= j < changes.len() && (#[trigger] changes[i]).path@ == (
        #[trigger] changes[j]).path@ ==> i == j
}

spec fn actions(changes: Seq<SyncEvent>) -> Map<Seq<char>, SyncAction>
    decreases changes.len(),
{
    if changes.len() == 0 {
        Map::empty()
    } else {
        actions(changes.drop_last()).insert(changes.last().path@, changes.last().action)
    }
}

proof fn lemma_actions(changes: Seq<SyncEvent>, i: int)
    requires
        distinct(changes),
        0 <= i < changes.len(),
    ensures
        actions(changes).contains_key(changes[i].path@),
        actions(changes)[changes[i].path@] == changes[i].action,
    decreases changes.len(),
{
    if i < changes.len() - 1 {
        let t = changes.drop_last();
        assert forall|a: int, b: int|
            0 <= a < t.len() && 0 <= b < t.len() && (#[trigger] t[a]).path@ == (
            #[trigger] t[b]).path@ implies a == b by {
            assert(t[a] == changes[a] && t[b] == changes[b]);
        }
        lemma_actions(t, i);
        assert(t[i] == changes[i]);
        assert(changes[i].path@ != changes.last().path@);
    }
}

proof fn lemma_absent(changes: Seq<SyncEvent>, path: Seq<char>)
    requires
        forall|i: int| 0 <= i < changes.len() ==> (#[trigger] changes[i]).path@ != path,
    ensures
        !actions(changes).contains_key(path),
    decreases changes.len(),
{
    if changes.len() > 0 {
        let t = changes.drop_last();
        assert forall|i: int| 0 <= i < t.len() implies (#[trigger] t[i]).path@ != path by {
            assert(t[i] == changes[i]);
        }
        lemma_absent(t, path);
        assert(changes.last().path@ != path);
    }
}

proof fn lemma_updated(changes: Seq<SyncEvent>, i: int, event: SyncEvent)
    requires
        distinct(changes),
        0 <= i < changes.len(),
        event.path@ == changes[i].path@,
    ensures
        distinct(changes.update(i, event)),
        actions(changes.update(i, event)) == actions(changes).insert(event.path@, event.action),
    decreases changes.len(),
{
    let u = changes.update(i, event);
    assert forall|a: int, b: int|
        0 <= a < u.len() && 0 <= b < u.len() && (#[trigger] u[a]).path@ == (
        #[trigger] u[b]).path@ implies a == b by {
        assert(changes[a].path@ == u[a].path@ && changes[b].path@ == u[b].path@);
    }
    let t = changes.drop_last();
    if i == changes.len() - 1 {
        assert(u.drop_last() =~= t);
        assert(actions(u) =~= actions(changes).insert(event.path@, event.action));
    } else {
        assert forall|a: int, b: int|
            0 <= a < t.len() && 0 <= b < t.len() && (#[trigger] t[a]).path@ == (
            #[trigger] t[b]).path@ implies a == b by {
            assert(t[a] == changes[a] && t[b] == changes[b]);
        }
        lemma_updated(t, i, event);
        assert(u.drop_last() =~= t.update(i, event));
        assert(u.last() == changes.last());
        assert(changes[i].path@ != changes.last().path@);
        assert(actions(u) =~= actions(changes).insert(event.path@, event.action));
    }
}

impl Batch {
    /// No path occurs twice.
    pub closed spec fn wf(self) -> bool {
        distinct(self.changes@)
    }

    /// The pending action of each path.
    pub closed spec fn pending(self) -> Map<Seq<char>, SyncAction> {
        actions(self.changes@)
    }

    /// The renamings, as pairs of names.
    pub closed spec fn renamings(self) -> Seq<(Seq<char>, Seq<char>)> {
        Seq::new(self.renames@.len(), |i: int| (self.renames@[i].from@, self.renames@[i].to@))
    }

    /// The batch that begins with one change.
    pub fn begin(first: SyncEvent) -> (r: Batch)
        ensures
            r.wf(),
            r.pending() == Map::<Seq<char>, SyncAction>::empty().insert(first.path@, first.action),
            r.renamings().len() == 0,
    {
        let ghost g = first;
        let mut changes: Vec<SyncEvent> = Vec::new();
        changes.push(first);
        proof {
            assert(changes@.drop_last() =~= Seq::<SyncEvent>::empty());
            assert(changes@.last() == g);
            assert(actions(Seq::<SyncEvent>::empty()) == Map::<Seq<char>, SyncAction>::empty());
        }
        Batch { changes, renames: Vec::new() }
    }

    /// Takes one more arrival in; gives whether the batch goes on.
    pub fn take(&mut self, arrival: Arrival) -> (go_on: bool)
        requires
            old(self).wf(),
        ensures
            final(self).wf(),
            go_on == !(arrival is ChangesEnded || arrival is ChangesQuiet),
            match arrival {
                Arrival::Change(e) => merges(
                    final(self).pending(),
                    old(self).pending(),
                    e.path@,
                    e.action,
                ),
                _ => final(self).pending() == old(self).pending(),
            },
            final(self).renamings() == match arrival {
                Arrival::Rename(e) => old(self).renamings().push((e.from@, e.to@)),
                _ => old(self).renamings(),
            },
    {
        match arrival {
            Arrival::Change(event) => {
                self.merge(event);
                true
            },
            Arrival::Rename(event) => {
                let ghost before = *self;
                self.renames.push(event);
                assert(self.renamings() =~= before.renamings().push((event.from@, event.to@)));
                true
            },
            Arrival::ChangesEnded => false,
            Arrival::ChangesQuiet => false,
            Arrival::RenamesQuiet => true,
        }
    }

    fn merge(&mut self, event: SyncEvent)
        requires
            old(self).wf(),
        ensures
            final(self).wf(),
            merges(final(self).pending(), old(self).pending(), event.path@, event.action),
            final(self).renamings() == old(self).renamings(),
    {
        let ghost all = self.changes@;
        let mut i: usize = 0;
        while i < self.changes.len()
            invariant
                i <= self.changes@.len(),
                self.changes@ == all,
                all == old(self).changes@,
                self.renames == old(self).renames,
                distinct(all),
                forall|k: int| 0 <= k < i ==> (#[trigger] all[k]).path@ != event.path@,
            decreases all.len() - i,
        {
            if paths::same_path(self.changes[i].path.as_str(), event.path.as_str()) {
                let ghost key = all[i as int].path@;
                proof {
                    lemma_actions(all, i as int);
                    assert(paths::maybe_same(key, event.path@));
                }
                let update = SyncEvent {
                    path: self.changes[i].path.clone(),
                    action: event.action,
                };
                proof {
                    lemma_updated(all, i as int, update);
                }
                self.changes.set(i, update);
                return ;
            }
            i = i + 1;
        }
        proof {
            lemma_absent(all, event.path@);
            assert(all.push(event).drop_last() =~= all);
            assert(all.push(event).last() == event);
            assert(paths::maybe_same(event.path@, event.path@));
        }
        self.changes.push(event);
    }

    /// The renamings of a complete batch, in order, and its pending changes, one
    /// for each path.
    pub fn finish(self) -> (r: (Vec<RenameEvent>, Vec<SyncEvent>))
        requires
            self.wf(),
        ensures
            r.0@.len() == self.renamings().len(),
            forall|i: int|
                0 <= i < r.0@.len() ==> ((#[trigger] r.0@[i]).from@, r.0@[i].to@)
                    == self.renamings()[i],
            forall|i: int|
                0 <= i < r.1@.len() ==> self.pending().contains_key((#[trigger] r.1@[i]).path@)
                    && self.pending()[r.1@[i].path@] == r.1@[i].action,
            forall|i: int, j: int|
                0 <= i < r.1@.len() && 0 <= j < r.1@.len() && (#[trigger] r.1@[i]).path@ == (
                #[trigger] r.1@[j]).path@ ==> i == j,
            forall|path: Seq<char>| #[trigger]
                self.pending().contains_key(path) ==> exists|i: int|
                    0 <= i < r.1@.len() && (#[trigger] r.1@[i]).path@ == path,
    {
        proof {
            let all = self.changes@;
            assert forall|i: int| 0 <= i < all.len() implies self.pending().contains_key(
                (#[trigger] all[i]).path@,
            ) && self.pending()[all[i].path@] == all[i].action by {
                lemma_actions(all, i);
            }
            assert forall|path: Seq<char>| #[trigger]
                self.pending().contains_key(path) implies exists|i: int|
                0 <= i < all.len() && (#[trigger] all[i]).path@ == path by {
                if forall|i: int| 0 <= i < all.len() ==> (#[trigger] all[i]).path@ != path {
                    lemma_absent(all, path);
                }
            }
        }
        (self.renames, self.changes)
    }
}

// ------------------------------------------------------------------------- laws

/// Among paths that are read alike, a change counts for the path that it names,
/// and for no other.
pub proof fn law_path_stands_for_itself(
    after: Map<Seq<char>, SyncAction>,
    before: Map<Seq<char>, SyncAction>,
    path: Seq<char>,
    action: SyncAction,
)
    requires
        merges(after, before, path, action),
        forall|key: Seq<char>| #[trigger]
            before.contains_key(key) ==> paths::read_alike(key, path),
    ensures
        after == merged(before, path, action),
{
}

/// What is pending after `events`, each a path and an action.
pub open spec fn gathered(events: Seq<(Seq<char>, SyncAction)>) -> Map<Seq<char>, SyncAction>
    decreases events.len(),
{
    if events.len() == 0 {
        Map::empty()
    } else {
        merged(gathered(events.drop_last()), events.last().0, events.last().1)
    }
}

/// The last of `events` on `path` is the one at `i`.
pub open spec fn last_change(events: Seq<(Seq<char>, SyncAction)>, path: Seq<char>, i: int) -> bool {
    &&& 0 <= i < events.len()
    &&& events[i].0 == path
    &&& forall|k: int| i < k < events.len() ==> (#[trigger] events[k]).0 != path
}

/// However many changes of a path a batch gathered, one action is pending for
/// it: that of the last change.
pub proof fn law_last_change_counts(events: Seq<(Seq<char>, SyncAction)>, path: Seq<char>)
    ensures
        gathered(events).contains_key(path) <==> exists|i: int| last_change(events, path, i),
        forall|i: int| #[trigger]
            last_change(events, path, i) ==> gathered(events)[path] == events[i].1,
    decreases events.len(),
{
    if events.len() > 0 {
        let before = events.drop_last();
        let n = events.len() - 1;
        law_last_change_counts(before, path);
        if events[n].0 == path {
            assert(last_change(events, path, n));
            assert forall|i: int| #[trigger] last_change(events, path, i) implies i == n by {
                if i < n {
                    assert(events[n].0 != path);
                }
            }
        } else {
            assert forall|i: int| last_change(before, path, i) implies #[trigger] last_change(
                events,
                path,
                i,
            ) by {
                assert forall|k: int| i < k < events.len() implies (#[trigger] events[k]).0
                    != path by {
                    if k < n {
                        assert(before[k] == events[k]);
                    }
                }
                assert(before[i] == events[i]);
            }
            assert forall|i: int| last_change(events, path, i) implies #[trigger] last_change(
                before,
                path,
                i,
            ) && before[i] == events[i] by {
                assert(i != n);
                assert forall|k: int| i < k < before.len() implies (#[trigger] before[k]).0
                    != path by {
                    assert(before[k] == events[k]);
                }
            }
            if gathered(before).contains_key(path) {
                let i = choose|i: int| last_change(before, path, i);
                assert(last_change(events, path, i));
            }
            if exists|i: int| last_change(events, path, i) {
                let i = choose|i: int| last_change(events, path, i);
                assert(last_change(before, path, i));
            }
            assert forall|i: int| #[trigger] last_change(events, path, i) implies gathered(
                events,
            )[path] == events[i].1 by {
                assert(last_change(before, path, i));
            }
        }
    }
}

/// A removal asks for a deletion, and any other change for an update.
pub proof fn law_only_removals_delete(kind: WatchKind)
    ensures
        event_action(kind) == SyncAction::Delete <==> kind == WatchKind::Remove,
{
}

/// One more change is pending for its path, whatever was pending for it, and no
/// other path is touched.
pub proof fn law_last_change_is_pending(
    pending: Map<Seq<char>, SyncAction>,
    path: Seq<char>,
    action: SyncAction,
    other: Seq<char>,
)
    ensures
        merged(pending, path, action).contains_key(path),
        merged(pending, path, action)[path] == action,
        other != path ==> merged(pending, path, action).contains_key(other)
            == pending.contains_key(other),
        other != path && pending.contains_key(other) ==> merged(pending, path, action)[other]
            == pending[other],
{
}

/// A batch waits for a pause of half a second at least, and of a second at most.
pub proof fn law_batch_waits_for_a_pause()
    ensures
        500 <= QUIET_MILLIS <= 1000,
{
}

} // verus!
