use std::collections::VecDeque;

use openbolt::error::OpenBoltError;
use openbolt::sync_engine::batch;
use openbolt::sync_engine::batch::Arrival;
use openbolt::sync_engine::batch::Batch;
use openbolt::sync_engine::batch::WatchKind;
use openbolt::sync_engine::batch::Watched;
use openbolt::sync_engine::inbound;
use openbolt::sync_engine::inbound::Pulled;
use openbolt::sync_engine::inbound::RemoteFile;
use openbolt::sync_engine::inbound::RemoteWalk;
use openbolt::sync_engine::log::SyncLogEntry;
use openbolt::sync_engine::recent;
use openbolt::sync_engine::recent::RecentMap;
use openbolt::sync_engine::request::Verb;
use openbolt::sync_engine::retry::RetryAction;
use openbolt::sync_engine::session;
use openbolt::sync_engine::session::Step;
use openbolt::sync_engine::session::SyncSession;
use openbolt::sync_engine::session::Wake;
use openbolt::sync_engine::transfer;
use openbolt::sync_engine::transfer::ChangePlan;
use openbolt::sync_engine::transfer::Comparison;
use openbolt::sync_engine::RemoteFsEntry;
use openbolt::sync_engine::RemoteStat;
use openbolt::sync_engine::RenameEvent;
use openbolt::sync_engine::SyncAction;
use openbolt::sync_engine::SyncDirection;
use openbolt::sync_engine::SyncEvent;

fn event(path: &str, action: SyncAction) -> SyncEvent {
    SyncEvent { path: path.to_string(), action }
}

fn entry(name: &str, is_dir: bool, mtime: u64) -> RemoteFsEntry {
    RemoteFsEntry { name: name.to_string(), is_dir, size: 1, mtime }
}

fn new_session(direction: SyncDirection, patterns: &[&str]) -> SyncSession {
    SyncSession::new(
        "/s".to_string(),
        "/data".to_string(),
        "10.99.99.3".to_string(),
        Some("t".to_string()),
        direction,
        patterns.iter().map(|p| p.to_string()).collect(),
        VecDeque::new(),
    )
}

#[test]
fn reports_become_changes() {
    assert_eq!(batch::map_event_action(WatchKind::Remove), SyncAction::Delete);
    assert_eq!(batch::map_event_action(WatchKind::Other), SyncAction::Upsert);
    let two = vec!["/s/a".to_string(), "/s/b".to_string()];
    match batch::classify(WatchKind::RenameBoth, two) {
        Watched::Rename(e) => {
            assert_eq!(e.from, "/s/a");
            assert_eq!(e.to, "/s/b");
        }
        Watched::Changes(_) => panic!("a renaming"),
    }
    match batch::classify(WatchKind::RenameBoth, vec!["/s/a".to_string()]) {
        Watched::Changes(es) => {
            assert_eq!(es.len(), 1);
            assert_eq!(es[0].action, SyncAction::Upsert);
        }
        Watched::Rename(_) => panic!("one name is no renaming"),
    }
    match batch::classify(WatchKind::Remove, vec!["/s/a".to_string(), "/s/b".to_string()]) {
        Watched::Changes(es) => {
            assert_eq!(es[1].path, "/s/b");
            assert_eq!(es[1].action, SyncAction::Delete);
        }
        Watched::Rename(_) => panic!("a removal"),
    }
}

#[test]
fn a_batch_has_one_action_for_each_path() {
    let mut b = Batch::begin(event("/s/a", SyncAction::Upsert));
    assert!(b.take(Arrival::Change(event("/s/a", SyncAction::Upsert))));
    assert!(b.take(Arrival::Change(event("/s/a", SyncAction::Delete))));
    assert!(b.take(Arrival::Change(event("/s/b", SyncAction::Delete))));
    assert!(b.take(Arrival::Change(event("/s/b", SyncAction::Upsert))));
    assert!(b.take(Arrival::RenamesQuiet));
    assert!(b.take(Arrival::Rename(RenameEvent {
        from: "/s/x".to_string(),
        to: "/s/y".to_string()
    })));
    assert!(!b.take(Arrival::ChangesQuiet));
    assert!(!b.take(Arrival::ChangesEnded));
    let (renames, changes) = b.finish();
    assert_eq!(renames.len(), 1);
    assert_eq!(renames[0].to, "/s/y");
    assert_eq!(changes.len(), 2);
    for c in &changes {
        let expected = if c.path == "/s/a" { SyncAction::Delete } else { SyncAction::Upsert };
        assert_eq!(c.action, expected);
    }
}

#[test]
fn the_same_change_is_skipped_within_its_window() {
    let mut cache: RecentMap<SyncAction> = RecentMap::new();
    assert!(!recent::should_skip_dedup_at(&mut cache, "/a", SyncAction::Upsert, 100));
    assert!(recent::should_skip_dedup_at(&mut cache, "/a", SyncAction::Upsert, 103));
    assert!(!recent::should_skip_dedup_at(&mut cache, "/b", SyncAction::Upsert, 103));
    assert!(!recent::should_skip_dedup_at(&mut cache, "/a", SyncAction::Delete, 103));
    assert!(recent::should_skip_dedup_at(&mut cache, "/a", SyncAction::Delete, 90));
    assert!(!recent::should_skip_dedup_at(&mut cache, "/a", SyncAction::Delete, 107));
    assert!(!recent::should_skip_dedup(&mut cache, "/now", SyncAction::Delete));
    assert!(recent::should_skip_dedup(&mut cache, "/now", SyncAction::Delete));
}

#[test]
fn a_pulled_file_is_known_for_ten_seconds() {
    let mut cache: RecentMap<()> = RecentMap::new();
    recent::mark_remote_origin(&mut cache, "/a", 100);
    assert!(recent::is_remote_origin_at(&mut cache, "/a", 110));
    assert!(!recent::is_remote_origin_at(&mut cache, "/b", 110));
    assert!(!recent::is_remote_origin_at(&mut cache, "/a", 111));
    assert!(!recent::is_remote_origin_at(&mut cache, "/a", 100));
    assert!(!recent::is_remote_origin(&mut cache, "/a"));
}

#[test]
fn files_are_compared_by_size_and_time() {
    let stat = |exists, is_dir, size, mtime| Some(RemoteStat { exists, is_dir, size, mtime });
    assert_eq!(transfer::compare_files(1, 5, None), Comparison::Upload);
    assert_eq!(transfer::compare_files(1, 5, stat(false, false, None, None)), Comparison::Upload);
    assert_eq!(transfer::compare_files(1, 5, stat(true, true, Some(1), Some(9))), Comparison::Upload);
    assert_eq!(
        transfer::compare_files(1, 5, stat(true, false, Some(1), Some(6))),
        Comparison::RemoteNewer
    );
    assert_eq!(transfer::compare_files(1, 5, stat(true, false, Some(1), Some(5))), Comparison::Same);
    assert_eq!(
        transfer::compare_files(2, 5, stat(true, false, Some(1), Some(5))),
        Comparison::Upload
    );
    assert_eq!(
        transfer::compare_files(1, 6, stat(true, false, Some(1), Some(5))),
        Comparison::Upload
    );
    assert_eq!(transfer::compare_files(0, 0, stat(true, false, None, None)), Comparison::Same);
}

#[test]
fn a_change_is_planned() {
    let s = new_session(SyncDirection::Outbound, &[]);
    match s.plan_change("/s/a/b.txt", SyncAction::Upsert, true, true).plan {
        ChangePlan::Compare { stat, upload } => {
            assert_eq!(stat.verb, Verb::Stat);
            assert_eq!(stat.url, "http://10.99.99.3:7733/api/fs/stat?path=%2Fdata%2Fa%2Fb.txt");
            assert_eq!(upload.url, "http://10.99.99.3:7733/api/fs/upload?path=%2Fdata%2Fa");
            assert_eq!(upload.api_token.as_deref(), Some("t"));
            assert_eq!(upload.file.as_ref().unwrap().file_name, "b.txt");
            assert_eq!(upload.file.as_ref().unwrap().local_path, "/s/a/b.txt");
        }
        _ => panic!("a comparison"),
    }
    for plan in [
        s.plan_change("/s/a", SyncAction::Delete, true, true),
        s.plan_change("/s/a", SyncAction::Upsert, false, false),
    ] {
        match plan.plan {
            ChangePlan::Delete(r) => {
                assert_eq!(r.url, "http://10.99.99.3:7733/api/fs/delete?path=%2Fdata%2Fa")
            }
            _ => panic!("a deletion"),
        }
    }
    assert!(matches!(
        s.plan_change("/s/folder", SyncAction::Upsert, true, false).plan,
        ChangePlan::Nothing
    ));
    assert!(matches!(
        s.plan_change("/other/a", SyncAction::Delete, true, true).plan,
        ChangePlan::Nothing
    ));
    let nameless = transfer::plan_change(
        SyncAction::Upsert,
        "x",
        Some("x".to_string()),
        None,
        None,
        true,
        true,
        "/data",
        "p",
        None,
    );
    match nameless {
        ChangePlan::Compare { upload, .. } => {
            assert_eq!(upload.file.unwrap().file_name, "sync.bin");
            assert_eq!(upload.url, "http://p:7733/api/fs/upload?path=%2Fdata");
        }
        _ => panic!("a comparison"),
    }
}

#[test]
fn a_renaming_is_planned() {
    let s = new_session(SyncDirection::Outbound, &["tmp"]);
    let rename = RenameEvent { from: "/s/a".to_string(), to: "/s/b".to_string() };
    assert!(!s.ignores_rename(&rename));
    let r = s.plan_rename(&rename).request.unwrap();
    assert_eq!(r.verb, Verb::Move);
    assert_eq!(r.url, "http://10.99.99.3:7733/api/fs/move?from=%2Fdata%2Fa&to=%2Fdata%2Fb");
    let away = RenameEvent { from: "/s/a".to_string(), to: "/t/b".to_string() };
    assert!(s.plan_rename(&away).request.is_none());
    assert!(s.plan_rename(&away).again.is_none());
    let left_out = RenameEvent { from: "/s/a.tmp".to_string(), to: "/s/b".to_string() };
    assert!(s.ignores_rename(&left_out));
}

#[test]
fn changes_are_let_through_once() {
    let mut s = new_session(SyncDirection::Outbound, &["*.tmp"]);
    assert!(!s.lets_through_at("a.tmp", "/s/a.tmp", SyncAction::Upsert, 50, 50));
    assert!(s.lets_through_at("a", "/s/a", SyncAction::Upsert, 50, 50));
    assert!(!s.lets_through_at("a", "/s/a", SyncAction::Upsert, 51, 51));
    assert!(s.lets_through_at("a", "/s/a", SyncAction::Delete, 51, 51));
    s.note_origin("/s/b", 60);
    assert!(!s.lets_through_at("b", "/s/b", SyncAction::Upsert, 70, 70));
    assert!(s.lets_through_at("b", "/s/b", SyncAction::Upsert, 71, 71));
    assert!(s.lets_through("/s/new", SyncAction::Upsert));
    assert!(!s.lets_through("/s/new", SyncAction::Upsert));
}

#[test]
fn outcomes_are_logged_and_failures_queued() {
    let mut s = new_session(SyncDirection::Outbound, &[]);
    let mut logs: VecDeque<SyncLogEntry> = VecDeque::new();
    let again = s.plan_change("/s/a", SyncAction::Upsert, true, true).again;
    assert!(again.is_some());
    let ok = s.settle_change(&mut logs, "/s/a", SyncAction::Upsert, again, Ok(()));
    assert!(!ok.save);
    assert_eq!(ok.entry.level, "info");
    assert_eq!(ok.entry.action, "upsert");
    assert_eq!(ok.entry.path, "/s/a");
    assert_eq!(ok.entry.message, "ok");
    assert!(s.retry_queue.is_empty());
    let again = s.plan_change("/s/a", SyncAction::Delete, true, true).again;
    let bad = s.settle_change(
        &mut logs,
        "/s/a",
        SyncAction::Delete,
        again,
        Err(OpenBoltError::CommandFailed("x".to_string())),
    );
    assert!(bad.save);
    assert_eq!(bad.entry.action, "delete");
    assert_eq!(bad.entry.message, "failed: external command failed: x");
    assert_eq!(s.retry_queue.len(), 1);
    let again = s.plan_change("/t/a", SyncAction::Delete, true, true).again;
    let away =
        s.settle_change(&mut logs, "/t/a", SyncAction::Delete, again, Err(OpenBoltError::InvalidPath));
    assert!(!away.save);
    assert_eq!(s.retry_queue.len(), 1);
    let rename = RenameEvent { from: "/s/a".to_string(), to: "/s/b".to_string() };
    let again = s.plan_rename(&rename).again;
    let renamed = s.settle_rename(&mut logs, &rename, again, Err(OpenBoltError::InvalidPath));
    assert!(renamed.save);
    assert_eq!(renamed.entry.action, "rename");
    assert_eq!(renamed.entry.path, "/s/b");
    assert_eq!(renamed.entry.message, "failed: invalid path");
    assert!(matches!(s.retry_queue[1].action, RetryAction::Move { .. }));
    let again = s.plan_rename(&rename).again;
    assert!(!s.settle_rename(&mut logs, &rename, again, Ok(())).save);
    assert_eq!(logs.len(), 5);
    assert_eq!(s.on_wake(Wake::RetryTick), Step::RunRetries);
    let mut pass = s.begin_retries();
    assert_eq!(pass.waiting.len(), 2);
    assert_eq!(s.on_wake(Wake::RetryTick), Step::Sleep);
    let first = pass.next().unwrap();
    pass.settle(&mut logs, first, Ok(()));
    let second = pass.next().unwrap();
    pass.settle(&mut logs, second, Err(OpenBoltError::InvalidPath));
    s.end_retries(pass);
    assert_eq!(s.retry_queue.len(), 1);
    assert_eq!(s.retry_queue[0].attempts, 1);
}

#[test]
fn a_session_wakes_up() {
    let out = new_session(SyncDirection::Outbound, &[]);
    let both = new_session(SyncDirection::Bidirectional, &[]);
    assert_eq!(out.on_wake(Wake::Stop), Step::SaveAndStop);
    assert_eq!(out.on_wake(Wake::InboundTick), Step::Sleep);
    assert_eq!(both.on_wake(Wake::InboundTick), Step::PullInbound);
    assert_eq!(both.on_wake(Wake::Change), Step::GatherBatch);
    assert_eq!(both.on_wake(Wake::ChangesEnded), Step::Sleep);
}

#[test]
fn a_session_starts_with_a_line() {
    let mut logs: VecDeque<SyncLogEntry> = VecDeque::new();
    let lines =
        session::log_start(&mut logs, "/s", "/data", "10.99.99.3", SyncDirection::Bidirectional, 2);
    assert_eq!(lines.len(), 2);
    assert_eq!(
        lines[0].message,
        "sync started to 10.99.99.3:/data direction=Bidirectional ignore_patterns=2"
    );
    assert_eq!(
        lines[1].message,
        "bidirectional mode: outbound watcher + inbound pull every 30s"
    );
    assert_eq!(logs.len(), 2);
    let lines =
        session::log_start(&mut logs, "/s", "/data", "10.99.99.3", SyncDirection::Outbound, 0);
    assert_eq!(lines.len(), 1);
    assert_eq!(
        lines[0].message,
        "sync started to 10.99.99.3:/data direction=Outbound ignore_patterns=0"
    );
    assert!(session::check_local_root(true).is_ok());
    assert_eq!(
        openbolt::error::to_err(session::check_local_root(false).err().unwrap()),
        "external command failed: local sync directory does not exist"
    );
}

#[test]
fn the_peer_is_searched() {
    let mut walk = RemoteWalk::begin("/data/");
    let top = walk.next_folder().unwrap();
    assert_eq!(top.path, "/data/");
    assert_eq!(top.depth, 0);
    walk.visit(&top, &vec![entry("a.txt", false, 3), entry("sub", true, 0), entry("z", true, 0)]);
    let z = walk.next_folder().unwrap();
    assert_eq!(z.path, "/data/z");
    walk.visit(&z, &vec![]);
    let sub = walk.next_folder().unwrap();
    assert_eq!(sub.path, "/data/sub");
    assert_eq!(sub.depth, 1);
    walk.visit(&sub, &vec![entry("b.txt", false, 4)]);
    assert!(walk.next_folder().is_none());
    let files = walk.finish();
    assert_eq!(files.len(), 2);
    assert_eq!(files[0].rel, "a.txt");
    assert_eq!(files[0].entry.mtime, 3);
    assert_eq!(files[1].rel, "sub/b.txt");
}

#[test]
fn the_search_ends_at_its_depth() {
    let mut walk = RemoteWalk::begin("/d");
    let mut visited = 0;
    while let Some(folder) = walk.next_folder() {
        visited += 1;
        walk.visit(&folder, &vec![entry("x", true, 0), entry("f", false, 0)]);
    }
    assert_eq!(visited, 9);
    assert_eq!(walk.finish().len(), 9);
}

#[test]
fn newer_files_are_pulled() {
    let s = new_session(SyncDirection::Bidirectional, &["skip"]);
    let file = RemoteFile { rel: "a/b.txt".to_string(), entry: entry("b.txt", false, 10) };
    let place = s.place_pull(&file.rel).unwrap();
    assert_eq!(std::path::Path::new(&place), std::path::Path::new("/s").join("a").join("b.txt"));
    assert!(s.place_pull("skip/x").is_none());
    assert!(s.place_pull("10:30.txt").is_some());
    match s.plan_change("/s/10:30.txt", SyncAction::Upsert, true, true).plan {
        ChangePlan::Compare { upload, .. } => {
            assert_eq!(upload.file.unwrap().file_name, "10:30.txt")
        }
        _ => panic!("a comparison"),
    }
    assert_eq!(inbound::place_with("/s/", "a/b.txt", '\\'), "/s/a\\b.txt");
    assert_eq!(inbound::place_with("/s/", "a/b.txt", '/'), "/s/a/b.txt");
    assert_eq!(s.keep_place("C:\\s\\a".to_string(), "a").as_deref(), Some("C:\\s\\a"));
    assert!(s.keep_place("C:\\s\\Skip".to_string(), "Skip").is_none());
    let r = s.plan_pull(&file, None).unwrap();
    assert_eq!(r.verb, Verb::Download);
    assert_eq!(r.url, "http://10.99.99.3:7733/api/fs/download?path=%2Fdata%2Fa%2Fb.txt");
    assert!(s.plan_pull(&file, Some(9)).is_some());
    assert!(s.plan_pull(&file, Some(10)).is_none());
    assert!(s.plan_pull(&file, Some(11)).is_none());
}

#[test]
fn pulls_are_logged() {
    let mut logs: VecDeque<SyncLogEntry> = VecDeque::new();
    let e = inbound::note_pull(&mut logs, "a", Pulled::Refused("404".to_string())).unwrap();
    assert_eq!(e.message, "download failed: 404");
    assert_eq!(e.level, "warn");
    assert_eq!(e.action, "inbound");
    assert_eq!(e.path, "a");
    let e = inbound::note_pull(&mut logs, "a", Pulled::NoAnswer("x".to_string())).unwrap();
    assert_eq!(e.message, "download error: x");
    let e = inbound::note_pull(&mut logs, "a", Pulled::NotWritten("x".to_string())).unwrap();
    assert_eq!(e.message, "write failed: x");
    assert!(inbound::note_pull(&mut logs, "a", Pulled::Incomplete).is_none());
    let e = inbound::note_pull(&mut logs, "a", Pulled::Written).unwrap();
    assert_eq!(e.message, "pulled from remote");
    assert_eq!(e.level, "info");
    assert_eq!(logs.len(), 4);
}
