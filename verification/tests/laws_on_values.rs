use std::collections::VecDeque;

use openbolt::error::OpenBoltError;
use openbolt::file_api;
use openbolt::ignore::build_globset;
use openbolt::ignore::gather_globs;
use openbolt::ignore::ignores;
use openbolt::kvm::lan_mouse_args;
use openbolt::kvm::KvmMode;
use openbolt::sync_engine::batch::Arrival;
use openbolt::sync_engine::batch::Batch;
use openbolt::sync_engine::inbound;
use openbolt::sync_engine::inbound::RemoteFile;
use openbolt::sync_engine::inbound::RemoteWalk;
use openbolt::sync_engine::join_remote_path;
use openbolt::sync_engine::log::SyncLogEntry;
use openbolt::sync_engine::request;
use openbolt::sync_engine::request::Verb;
use openbolt::sync_engine::retry;
use openbolt::sync_engine::retry::RetryAction;
use openbolt::sync_engine::retry::RetryPass;
use openbolt::sync_engine::retry::RetryTask;
use openbolt::sync_engine::transfer;
use openbolt::sync_engine::transfer::ChangePlan;
use openbolt::sync_engine::transfer::Comparison;
use openbolt::sync_engine::RemoteFsEntry;
use openbolt::sync_engine::RemoteStat;
use openbolt::sync_engine::SyncAction;
use openbolt::sync_engine::SyncEvent;

fn query_of(url: &str) -> String {
    url.split_once('?').unwrap().1.to_string()
}

#[test]
fn a_requested_path_is_read_back() {
    for path in ["/a b/ü.txt", "100%", "50% off", "/x&y=z?#", "%zz", "+", "a%20b", "a%2541", "%ff"] {
        let url = request::request_on(Verb::Stat, "10.99.99.3", path, None).url;
        assert_eq!(file_api::path_of_query(&query_of(&url)).ok().unwrap(), path);
        let url = request::request_move("10.99.99.3", path, "/to&from=x", None).url;
        assert_eq!(
            file_api::move_of_query(&query_of(&url)).ok().unwrap(),
            (path.to_string(), "/to&from=x".to_string())
        );
    }
}

#[test]
fn requests_lead_to_their_routes() {
    for route in file_api::router() {
        let r = request::request_on(route.verb, "10.99.99.3", "/a", None);
        assert!(r.url.starts_with(&format!("http://10.99.99.3:7733{}", route.path)));
    }
}

#[test]
fn a_new_task_is_dropped_by_its_eighth_failure() {
    let mut logs: VecDeque<SyncLogEntry> = VecDeque::new();
    let mut queue: VecDeque<RetryTask> = VecDeque::new();
    queue.push_back(RetryTask {
        id: 1,
        attempts: 0,
        action: RetryAction::Delete {
            remote_path: "/a".to_string(),
            peer_ip: "p".to_string(),
            api_token: None,
        },
    });
    let mut passes = 0;
    while !queue.is_empty() {
        let mut pass = RetryPass::begin(queue);
        while let Some(task) = pass.next() {
            pass.settle(&mut logs, task, Err(OpenBoltError::InvalidPath));
        }
        queue = pass.finish();
        passes += 1;
    }
    assert_eq!(passes, 8);
}

#[test]
fn of_two_files_the_newer_one_wins() {
    let stat = |size, mtime| {
        Some(RemoteStat { exists: true, is_dir: false, size: Some(size), mtime: Some(mtime) })
    };
    assert_eq!(transfer::compare_files(1, 10, stat(2, 20)), Comparison::RemoteNewer);
    assert_eq!(transfer::compare_files(2, 20, stat(1, 10)), Comparison::Upload);
    let remote = |mtime| RemoteFile {
        rel: "a".to_string(),
        entry: RemoteFsEntry { name: "a".to_string(), is_dir: false, size: 2, mtime },
    };
    assert!(inbound::plan_pull(&remote(20), Some(10), "/d", "p", None).is_some());
    assert!(inbound::plan_pull(&remote(10), Some(20), "/d", "p", None).is_none());
    assert!(inbound::plan_pull(&remote(10), Some(10), "/d", "p", None).is_none());
}

#[test]
fn a_sent_file_is_found_at_its_path() {
    let sent = join_remote_path("/data/", "x\\y.txt");
    assert_eq!(sent, "/data/x/y.txt");
    let entry = |name: &str, is_dir| RemoteFsEntry {
        name: name.to_string(),
        is_dir,
        size: 0,
        mtime: 1,
    };
    let mut walk = RemoteWalk::begin("/data/");
    let top = walk.next_folder().unwrap();
    walk.visit(&top, &vec![entry("x", true)]);
    let x = walk.next_folder().unwrap();
    walk.visit(&x, &vec![entry("y.txt", false)]);
    let files = walk.finish();
    assert_eq!(files[0].rel, "x/y.txt");
    let r = inbound::plan_pull(&files[0], None, "/data/", "p", None).unwrap();
    assert_eq!(r.url, request::request_on(Verb::Download, "p", &sent, None).url);
}

#[test]
fn one_path_in_two_spellings_is_one_change() {
    let event = |path: &str, action| SyncEvent { path: path.to_string(), action };
    let mut b = Batch::begin(event("/s/a", SyncAction::Delete));
    b.take(Arrival::Change(event("/s//a", SyncAction::Upsert)));
    b.take(Arrival::Change(event("/s/A", SyncAction::Delete)));
    let (_, changes) = b.finish();
    assert_eq!(changes.len(), 2);
    assert_eq!(changes[0].path, "/s/a");
    assert_eq!(changes[0].action, SyncAction::Upsert);
    assert_eq!(changes[1].action, SyncAction::Delete);
    let mut b = Batch::begin(event("C:\\s\\a", SyncAction::Upsert));
    b.take(Arrival::Change(event("C:\\s\\b", SyncAction::Upsert)));
    assert_eq!(b.finish().1.len(), 2);
}

#[test]
fn a_failed_change_is_queued_as_it_was_sent() {
    for action in [SyncAction::Upsert, SyncAction::Delete] {
        for (root, path) in [("/s/", "/s/a/b.txt"), ("C:/s", "C:/s/a/b.txt")] {
            let planned =
                transfer::sync_one_path(root, "D:/data", "10.99.99.3", Some("t"), path, action, true, true);
            let first = match planned.plan {
                ChangePlan::Delete(r) => r,
                ChangePlan::Compare { upload, .. } => upload,
                ChangePlan::Nothing => panic!("below the folder"),
            };
            let again = retry::execute_retry_action(&planned.again.unwrap());
            assert_eq!(again.verb, first.verb);
            assert_eq!(again.url, first.url);
            assert_eq!(again.api_token, first.api_token);
            assert_eq!(again.file.map(|f| f.file_name), first.file.map(|f| f.file_name));
        }
    }
}

#[test]
fn a_whole_search_finds_every_file_once() {
    let entry = |name: &str, is_dir| RemoteFsEntry {
        name: name.to_string(),
        is_dir,
        size: 0,
        mtime: 1,
    };
    let mut walk = RemoteWalk::begin("/d");
    while let Some(folder) = walk.next_folder() {
        match folder.path.as_str() {
            "/d" => walk.visit(&folder, &vec![entry("x", true), entry("f", false), entry("y", true)]),
            "/d/x" => walk.visit(&folder, &vec![entry("f", false), entry("z", true)]),
            "/d/x/z" => walk.visit(&folder, &vec![entry("f", false)]),
            _ => {}
        }
    }
    let mut rels: Vec<String> = walk.finish().into_iter().map(|f| f.rel).collect();
    rels.sort();
    assert_eq!(rels, vec!["f", "x/f", "x/z/f"]);
}

#[test]
fn one_more_pattern_ignores_no_less() {
    let few = vec!["tmp".to_string()];
    let more = vec!["tmp".to_string(), "*.log".to_string()];
    assert!(ignores("a/tmp/b", &few, None));
    assert!(ignores("a/tmp/b", &more, build_globset(&more).as_ref()));
    assert!(!ignores("a.log", &few, None));
    assert!(ignores("a.log", &more, build_globset(&more).as_ref()));
    assert!(gather_globs(&more).1);
    assert!(!gather_globs(&vec!["[".to_string(), " ".to_string()]).1);
}

#[test]
fn client_and_server_meet() {
    let server = lan_mouse_args(KvmMode::Server, "10.99.99.2", "10.99.99.3");
    let client = lan_mouse_args(KvmMode::Client, "10.99.99.3", "10.99.99.2");
    assert_eq!(server[3], client[3]);
}
