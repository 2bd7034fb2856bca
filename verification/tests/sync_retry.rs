use std::collections::VecDeque;

use openbolt::error::to_err;
use openbolt::error::OpenBoltError;
use openbolt::sync_engine::join_remote_path;
use openbolt::sync_engine::log;
use openbolt::sync_engine::log::SyncLogEntry;
use openbolt::sync_engine::request;
use openbolt::sync_engine::request::Next;
use openbolt::sync_engine::request::Reply;
use openbolt::sync_engine::request::Verb;
use openbolt::sync_engine::retry;
use openbolt::sync_engine::retry::RetryAction;
use openbolt::sync_engine::retry::RetryPass;
use openbolt::sync_engine::retry::RetryTask;
use openbolt::sync_engine::RenameEvent;
use openbolt::sync_engine::SyncAction;

fn delete_task(id: u64, attempts: u32) -> RetryTask {
    RetryTask {
        id,
        attempts,
        action: RetryAction::Delete {
            remote_path: format!("/d/{id}"),
            peer_ip: "10.99.99.3".to_string(),
            api_token: None,
        },
    }
}

fn ids(queue: &VecDeque<RetryTask>) -> Vec<u64> {
    queue.iter().map(|t| t.id).collect()
}

#[test]
fn remote_paths_are_joined() {
    assert_eq!(join_remote_path("/data/", "a\\b/c.txt"), "/data/a/b/c.txt");
    assert_eq!(join_remote_path("/data", ""), "/data/");
    assert_eq!(join_remote_path("//", "a"), "/a");
}

#[test]
fn a_failed_update_becomes_a_task() {
    let task = retry::build_retry_task(
        "/home/me/sync",
        "/data/",
        "10.99.99.3",
        Some("t".to_string()),
        "/home/me/sync/a/b.txt",
        SyncAction::Upsert,
    )
    .unwrap();
    assert_eq!(task.attempts, 0);
    assert!(task.id > 0);
    match task.action {
        RetryAction::Upsert { local_path, remote_parent, file_name, peer_ip, api_token } => {
            assert_eq!(local_path, "/home/me/sync/a/b.txt");
            assert_eq!(remote_parent, "/data/a");
            assert_eq!(file_name, "b.txt");
            assert_eq!(peer_ip, "10.99.99.3");
            assert_eq!(api_token.as_deref(), Some("t"));
        }
        _ => panic!("not an update"),
    }
}

#[test]
fn a_peer_may_have_drives() {
    for (base, folder) in [("C:/data", "C:/data/a"), ("C:\\data", "C:\\data/a"), ("/d.x/", "/d.x/a")] {
        let task = retry::build_retry_task(
            "/s/",
            base,
            "10.99.99.3",
            None,
            "/s/a/b.txt",
            SyncAction::Upsert,
        )
        .unwrap();
        match task.action {
            RetryAction::Upsert { remote_parent, file_name, .. } => {
                assert_eq!(remote_parent, folder);
                assert_eq!(file_name, "b.txt");
            }
            _ => panic!("not an update"),
        }
    }
    let task = retry::build_retry_task(
        "C:/s",
        "/data",
        "10.99.99.3",
        None,
        "C:/s/a.txt",
        SyncAction::Delete,
    )
    .unwrap();
    match task.action {
        RetryAction::Delete { remote_path, .. } => assert_eq!(remote_path, "/data/a.txt"),
        _ => panic!("not a deletion"),
    }
}

#[test]
fn a_failed_deletion_becomes_a_task() {
    let task = retry::build_retry_task(
        "/home/me/sync",
        "/data",
        "10.99.99.3",
        None,
        "/home/me/sync/a/b.txt",
        SyncAction::Delete,
    )
    .unwrap();
    match task.action {
        RetryAction::Delete { remote_path, .. } => assert_eq!(remote_path, "/data/a/b.txt"),
        _ => panic!("not a deletion"),
    }
}

#[test]
fn no_task_for_a_path_elsewhere() {
    assert!(retry::build_retry_task(
        "/home/me/sync",
        "/data",
        "10.99.99.3",
        None,
        "/home/me/other/b.txt",
        SyncAction::Delete
    )
    .is_none());
    assert!(retry::retry_of_change(
        SyncAction::Upsert,
        "..",
        Some("..".to_string()),
        None,
        None,
        "/data",
        "10.99.99.3",
        None
    )
    .is_none());
}

#[test]
fn a_failed_renaming_becomes_a_task() {
    let rename = RenameEvent { from: "/s/a".to_string(), to: "/s/b/c".to_string() };
    let task =
        retry::build_retry_rename_task("/s", "/data", "10.99.99.3", None, &rename).unwrap();
    match task.action {
        RetryAction::Move { from, to, .. } => {
            assert_eq!(from, "/data/a");
            assert_eq!(to, "/data/b/c");
        }
        _ => panic!("not a move"),
    }
    let away = RenameEvent { from: "/s/a".to_string(), to: "/t/b".to_string() };
    assert!(retry::build_retry_rename_task("/s", "/data", "10.99.99.3", None, &away).is_none());
}

#[test]
fn the_queue_is_stored_below_the_folder() {
    let path = retry::retry_store_path("/home/me/sync");
    let expected = std::path::Path::new("/home/me/sync").join(".openbolt").join("retry_queue.json");
    assert_eq!(std::path::Path::new(&path), expected);
    let mut queue: VecDeque<RetryTask> = VecDeque::new();
    queue.push_back(delete_task(1, 0));
    let status = retry::get_retry_queue_status(&queue, "/home/me/sync");
    assert_eq!(status.pending, 1);
    assert_eq!(status.store_path, path);
    assert!(retry::clear_retry_queue().is_empty());
}

#[test]
fn missing_numbers_are_given() {
    let queue: VecDeque<RetryTask> = vec![delete_task(0, 2), delete_task(5, 1)].into();
    let loaded = retry::assign_missing_ids(queue);
    assert_ne!(loaded[0].id, 0);
    assert_eq!(loaded[0].attempts, 2);
    assert_eq!(loaded[1].id, 5);
    let queue: VecDeque<RetryTask> = vec![delete_task(0, 2), delete_task(5, 1)].into();
    assert_eq!(ids(&retry::number_queue(queue, &vec![7, 8])), vec![7, 5]);
    let task = retry::number_task(delete_task(0, 3), 9);
    assert_eq!((task.id, task.attempts), (9, 3));
    let task = retry::task_with(Some(delete_task(1, 4).action), 6).unwrap();
    assert_eq!((task.id, task.attempts), (6, 0));
    assert!(retry::task_with(None, 6).is_none());
}

#[test]
fn an_item_is_taken_by_its_number() {
    let mut queue: VecDeque<RetryTask> =
        vec![delete_task(1, 0), delete_task(2, 3), delete_task(2, 4)].into();
    let task = retry::retry_queue_item(&mut queue, 2).unwrap();
    assert_eq!(task.attempts, 3);
    assert_eq!(ids(&queue), vec![1, 2]);
    let err = retry::retry_queue_item(&mut queue, 7).err().unwrap();
    assert_eq!(to_err(err), "external command failed: retry item not found");
    assert_eq!(ids(&queue), vec![1, 2]);
}

#[test]
fn items_are_removed_by_their_number() {
    let queue: VecDeque<RetryTask> =
        vec![delete_task(2, 0), delete_task(1, 3), delete_task(2, 4)].into();
    assert_eq!(ids(&retry::remove_retry_queue_item(queue, 2)), vec![1]);
}

#[test]
fn items_are_listed_by_kind_and_failures() {
    let move_task = RetryTask {
        id: 9,
        attempts: 6,
        action: RetryAction::Move {
            from: "/a".to_string(),
            to: "/b".to_string(),
            peer_ip: "p".to_string(),
            api_token: None,
        },
    };
    let queue: VecDeque<RetryTask> = vec![delete_task(1, 0), delete_task(2, 5), move_task].into();
    let all = retry::get_retry_queue_items(&queue, 10, None, None);
    assert_eq!(all.len(), 3);
    assert_eq!(all[2].kind, "move");
    assert_eq!(all[2].target, "/b");
    assert_eq!(all[0].target, "/d/1");
    let deletes = retry::get_retry_queue_items(&queue, 10, Some("DELETE".to_string()), None);
    assert_eq!(deletes.iter().map(|i| i.id).collect::<Vec<_>>(), vec![1, 2]);
    let tried = retry::get_retry_queue_items(&queue, 10, Some("All".to_string()), Some(5));
    assert_eq!(tried.iter().map(|i| i.id).collect::<Vec<_>>(), vec![2, 9]);
    let first = retry::get_retry_queue_items(&queue, 1, Some("delete".to_string()), Some(1));
    assert_eq!(first.iter().map(|i| i.id).collect::<Vec<_>>(), vec![2]);
    assert!(retry::get_retry_queue_items(&queue, 0, None, None).is_empty());
    let many: VecDeque<RetryTask> = (1..=250).map(|i| delete_task(i, 0)).collect();
    assert_eq!(retry::get_retry_queue_items(&many, 1000, None, None).len(), 200);
}

#[test]
fn a_pass_drops_successes_and_worn_out_tasks() {
    let queue: VecDeque<RetryTask> =
        vec![delete_task(1, 0), delete_task(2, 7), delete_task(3, 6)].into();
    let mut logs: VecDeque<SyncLogEntry> = VecDeque::new();
    let mut pass = RetryPass::begin(queue);
    let first = pass.next().unwrap();
    assert_eq!(first.id, 1);
    let entry = pass.settle(&mut logs, first, Ok(()));
    assert_eq!(entry.level, "info");
    assert_eq!(entry.action, "retry_delete");
    assert_eq!(entry.path, "retry");
    assert_eq!(entry.message, "ok");
    let second = pass.next().unwrap();
    let entry =
        pass.settle(&mut logs, second, Err(OpenBoltError::CommandFailed("no".to_string())));
    assert_eq!(entry.level, "warn");
    assert_eq!(entry.message, "failed attempt 8: external command failed: no");
    let third = pass.next().unwrap();
    pass.settle(&mut logs, third, Err(OpenBoltError::InvalidPath));
    assert!(pass.next().is_none());
    let rest = pass.finish();
    assert_eq!(ids(&rest), vec![3]);
    assert_eq!(rest[0].attempts, 7);
    assert_eq!(logs.len(), 3);
    let stats = log::get_sync_stats(&logs);
    assert_eq!(stats.total, 3);
    assert_eq!(stats.success, 1);
    assert_eq!(stats.failed, 2);
    assert_eq!(stats.retries, 2);
    assert_eq!(stats.conflicts, 0);
}

#[test]
fn transfers_become_requests() {
    let upsert = RetryAction::Upsert {
        local_path: "/s/a b".to_string(),
        remote_parent: "/data/x".to_string(),
        file_name: "a b".to_string(),
        peer_ip: "10.99.99.3".to_string(),
        api_token: Some("t".to_string()),
    };
    let r = retry::execute_retry_action(&upsert);
    assert_eq!(r.verb, Verb::Upload);
    assert_eq!(r.url, "http://10.99.99.3:7733/api/fs/upload?path=%2Fdata%2Fx");
    assert_eq!(r.api_token.as_deref(), Some("t"));
    let file = r.file.unwrap();
    assert_eq!(file.local_path, "/s/a b");
    assert_eq!(file.file_name, "a b");
    let r = retry::execute_retry_action(&delete_task(4, 0).action);
    assert_eq!(r.verb, Verb::Delete);
    assert_eq!(r.url, "http://10.99.99.3:7733/api/fs/delete?path=%2Fd%2F4");
    assert!(r.file.is_none());
    let r = retry::execute_retry_action(&RetryAction::Move {
        from: "/a".to_string(),
        to: "/b".to_string(),
        peer_ip: "p".to_string(),
        api_token: None,
    });
    assert_eq!(r.url, "http://p:7733/api/fs/move?from=%2Fa&to=%2Fb");
}

#[test]
fn requests_are_tried_three_times() {
    assert!(matches!(request::after_try(Verb::Stat, 1, Reply::Success), Next::Done));
    assert!(matches!(
        request::after_try(Verb::Stat, 1, Reply::Status("500".to_string())),
        Next::WaitAndTry(200)
    ));
    assert!(matches!(
        request::after_try(Verb::Upload, 2, Reply::Failed("x".to_string())),
        Next::WaitAndTry(400)
    ));
    match request::after_try(Verb::Move, 3, Reply::Status("404 Not Found".to_string())) {
        Next::WaitAndFail(600, e) => assert_eq!(
            to_err(e),
            "external command failed: move failed (attempt 3): 404 Not Found"
        ),
        _ => panic!("not given up"),
    }
    match request::after_try(Verb::Delete, 3, Reply::Failed("timed out".to_string())) {
        Next::WaitAndFail(600, e) => assert_eq!(
            to_err(e),
            "external command failed: delete request failed (attempt 3): timed out"
        ),
        _ => panic!("not given up"),
    }
    match request::after_try(Verb::Upload, 3, Reply::Failed("timed out".to_string())) {
        Next::Fail(e) => assert_eq!(
            to_err(e),
            "external command failed: upload request failed (attempt 3): timed out"
        ),
        _ => panic!("not given up at once"),
    }
}

#[test]
fn the_token_travels_in_a_header() {
    assert!(request::with_token(None).is_none());
    assert_eq!(
        request::with_token(Some("t")),
        Some(("x-openbolt-token", "t".to_string()))
    );
}

#[test]
fn the_log_keeps_the_newest_lines() {
    let mut logs: VecDeque<SyncLogEntry> = VecDeque::new();
    for i in 0..305 {
        log::append_log_at(&mut logs, i, "info", "upsert", "/a", &format!("line {i}"));
    }
    assert_eq!(logs.len(), 300);
    assert_eq!(logs[0].message, "line 5");
    assert_eq!(logs[299].message, "line 304");
    assert_eq!(log::get_sync_logs(&logs, None).len(), 100);
    assert_eq!(log::get_sync_logs(&logs, None)[0].message, "line 205");
    assert_eq!(log::get_sync_logs(&logs, Some(2))[0].ts, 303);
    assert_eq!(log::get_sync_logs(&logs, Some(900)).len(), 300);
    assert!(log::get_sync_logs(&logs, Some(0)).is_empty());
    let entry = log::append_log(&mut logs, "WARN", "x", "y", "Conflict KEEP remote");
    assert!(entry.ts > 1_600_000_000);
    let stats = log::get_sync_stats(&logs);
    assert_eq!(stats.total, 300);
    assert_eq!(stats.success, 299);
    assert_eq!(stats.failed, 1);
    assert_eq!(stats.conflicts, 1);
    log::clear_sync_logs(&mut logs);
    assert!(logs.is_empty());
}
