use ragfs::config::{BackendEntry, BackendRole, MultiWriteConfig, OperationItemConfig};
use ragfs::context::{test_ctx, Error};
use ragfs::listing::{
    filter_internal, filter_internal_tree, grep_search_dir, merge_grep_matches, merge_redirect_entries,
    merge_tree_redirects, redirect_file_info, rel_path, FileInfo, GrepMatch, GrepResult, TreeEntry,
};
use ragfs::locks::{lock_order, PathSerializer};
use ragfs::meta::{RedirectEntry, RedirectMeta, SyncLogMeta, SyncOp};
use ragfs::sync::{
    after_attempt, collect_dir_work, first_read_content, needs_retry, plan_replay, quorum_result,
    replay_content_sources, replay_failure_ignored, round_replays, sync_scan_dirs, sync_status_report, AttemptStep, FanoutOutcome,
    ReplayResult, ReplayStep, RetryStatus, SyncRetryReport, MAX_RETRY_PER_ROUND,
};

fn one_backup_config() -> MultiWriteConfig {
    MultiWriteConfig::with_backends(
        vec![BackendEntry {
            name: "backup1".to_string(),
            role: BackendRole::Backup,
            operations: Vec::new(),
            excludes: Vec::new(),
        }],
        vec![],
        "sync",
        Some(1),
        Some(0),
        None,
    )
}

#[test]
fn test_fanout_sync_returns_structured_quorum_error() {
    let c = one_backup_config();
    let targets = c.write_targets("/local/acct/docs/fail.txt", 0);
    let _ctx = test_ctx();
    let outcomes = targets
        .iter()
        .map(|&i| (c.backends()[i].name.clone(), FanoutOutcome::Failed(Error::NotFound("/backup/fail.txt".to_string()))))
        .collect();
    let err = quorum_result(c.ack_required(targets.len()), outcomes).expect_err("sync fanout should surface structured quorum failure");
    match err {
        Error::SyncWriteQuorum { succeeded, required, attempted, failures } => {
            assert_eq!(succeeded, 0);
            assert_eq!(required, 1);
            assert_eq!(attempted, 1);
            assert_eq!(failures.len(), 1);
            assert_eq!(failures[0].backend, "backup1");
            assert_eq!(failures[0].kind, "not_found");
            assert_eq!(failures[0].message, "not found: /backup/fail.txt");
        }
        other => panic!("unexpected error: {other:?}"),
    }
}

#[test]
fn quorum_met_and_failure_kinds() {
    let ok = quorum_result(
        1,
        vec![
            ("a".to_string(), FanoutOutcome::TimedOut),
            ("b".to_string(), FanoutOutcome::Succeeded),
        ],
    );
    assert!(ok.is_ok());
    match quorum_result(
        2,
        vec![
            ("a".to_string(), FanoutOutcome::TimedOut),
            ("b".to_string(), FanoutOutcome::Succeeded),
            ("c".to_string(), FanoutOutcome::Aborted("panicked".to_string())),
        ],
    ) {
        Err(Error::SyncWriteQuorum { succeeded, required, attempted, failures }) => {
            assert_eq!((succeeded, required, attempted), (1, 2, 3));
            assert_eq!(failures[0].kind, "timeout");
            assert_eq!(failures[1].backend, "c");
            assert_eq!(failures[1].kind, "join");
            assert_eq!(failures[1].message, "join error: panicked");
        }
        other => panic!("unexpected: {other:?}"),
    }
    assert!(quorum_result(0, vec![]).is_ok());
}

#[test]
fn status_report_orders_entries_and_counts_lag() {
    let c = one_backup_config();
    let mut log = SyncLogMeta::new();
    log.record("b.txt".to_string(), 3, SyncOp::Write);
    log.record("a.txt".to_string(), 2, SyncOp::Create);
    log.ack("a.txt", "backup1".to_string());
    let redirect = RedirectMeta::new();
    let work = collect_dir_work(&c, "/local/acct/docs", "/local/acct/docs", true, &log, &redirect);
    assert_eq!(work.len(), 2);
    let report = sync_status_report("/local/acct/docs".to_string(), &work);
    assert_eq!(report.entry_count, 2);
    assert_eq!(report.pending_target_count, 1);
    assert_eq!(report.entries[0].path, "/local/acct/docs/a.txt");
    assert!(report.entries[0].all_synced);
    assert_eq!(report.entries[0].targets[0].acked_seq, 2);
    assert_eq!(report.entries[1].path, "/local/acct/docs/b.txt");
    assert!(!report.entries[1].all_synced);
    assert_eq!(report.entries[1].targets[0].name, "backup1");
    assert!(!report.entries[1].targets[0].in_sync);
    // A file query keeps only that file.
    let one = collect_dir_work(&c, "/local/acct/docs", "/local/acct/docs/b.txt", false, &log, &redirect);
    assert_eq!(one.len(), 1);
    assert_eq!(one[0].latest_seq, 3);
    assert_eq!(one[0].last_op, "write");
    // A redirected file lists its redirect targets.
    let mut redirect2 = RedirectMeta::new();
    redirect2.set_targets("b.txt".to_string(), vec!["other".to_string()]);
    let w2 = collect_dir_work(&c, "/local/acct/docs", "/local/acct/docs/b.txt", false, &log, &redirect2);
    assert_eq!(w2[0].targets.len(), 1);
    assert_eq!(w2[0].targets[0].name, "other");
    assert_eq!(w2[0].targets[0].acked_seq, 0);
}

#[test]
fn scan_dirs() {
    assert_eq!(sync_scan_dirs("/d/a.txt", false, &vec!["/x".to_string()]), vec!["/d".to_string()]);
    assert_eq!(
        sync_scan_dirs("/d", true, &vec!["/d/x".to_string(), "/d".to_string(), "/d/y".to_string(), "/d/x".to_string()]),
        vec!["/d".to_string(), "/d/x".to_string(), "/d/y".to_string()]
    );
}

#[test]
fn retry_report_lines() {
    assert_eq!(MAX_RETRY_PER_ROUND, 3);
    assert!(needs_retry(1, 2));
    assert!(!needs_retry(2, 2));
    let mut r = SyncRetryReport::new("/d".to_string());
    r.record("/d/a".to_string(), "b1".to_string(), 3, 3, None);
    r.record("/d/b".to_string(), "b1".to_string(), 4, 1, Some(ReplayResult::Succeeded));
    r.record("/d/c".to_string(), "b1".to_string(), 5, 2, Some(ReplayResult::Failed(None)));
    r.record("/d/e".to_string(), "b1".to_string(), 5, 2, Some(ReplayResult::Failed(Some("boom".to_string()))));
    assert_eq!((r.skipped, r.retried, r.failed), (1, 1, 2));
    assert_eq!(r.results[0].status, RetryStatus::Skipped);
    assert_eq!(r.results[1].status, RetryStatus::Retried);
    assert_eq!(r.results[1].acked_seq, 4);
    assert_eq!(r.results[2].status, RetryStatus::Failed);
    assert_eq!(r.results[2].acked_seq, 2);
    assert_eq!(r.results[2].error, Some("unknown replay error".to_string()));
    assert_eq!(r.results[3].error, Some("boom".to_string()));
}

#[test]
fn replay_plans() {
    let c = one_backup_config();
    assert!(matches!(plan_replay(&c, "backup1", "write", &None, None), Ok((1, ReplayStep::CopyContent))));
    assert!(matches!(plan_replay(&c, "backup1", "truncate", &None, None), Ok((1, ReplayStep::CopyContent))));
    assert!(matches!(plan_replay(&c, "backup1", "mkdir", &None, None), Ok((1, ReplayStep::Mkdir { mode: 0o755 }))));
    assert!(matches!(plan_replay(&c, "backup1", "chmod", &None, None), Ok((1, ReplayStep::Chmod { mode: 0o644 }))));
    assert!(matches!(plan_replay(&c, "backup1", "chmod", &None, Some(0o600)), Ok((1, ReplayStep::Chmod { mode: 0o600 }))));
    assert!(matches!(plan_replay(&c, "backup1", "rename", &None, None), Ok((1, ReplayStep::Nothing))));
    match plan_replay(&c, "backup1", "rename", &Some("/n".to_string()), None) {
        Ok((1, ReplayStep::Rename { to })) => assert_eq!(to, "/n"),
        other => panic!("unexpected: {other:?}"),
    }
    assert!(matches!(plan_replay(&c, "backup1", "frobnicate", &None, None), Ok((1, ReplayStep::Nothing))));
    match plan_replay(&c, "ghost", "write", &None, None) {
        Err(Error::Internal(m)) => assert_eq!(m, "backup 'ghost' not found"),
        other => panic!("unexpected: {other:?}"),
    }
    assert!(replay_failure_ignored(&ReplayStep::Remove));
    assert!(replay_failure_ignored(&ReplayStep::Rename { to: "/x".to_string() }));
    assert!(!replay_failure_ignored(&ReplayStep::Create));
    assert_eq!(first_read_content(vec![None, Some(b"x".to_vec()), Some(b"y".to_vec())]), b"x".to_vec());
    assert_eq!(first_read_content(vec![None]), Vec::<u8>::new());
}

fn file(name: &str) -> FileInfo {
    FileInfo::new_file(name.to_string(), 1, 0o600)
}

#[test]
fn test_read_dir_redirect_entries_use_target_stat() {
    let listing = filter_internal(vec![file(".redirect.json"), file("a.txt"), file(".sync_log.json")]);
    let mut entries = listing;
    let info = redirect_file_info("report.pdf", vec![Some(FileInfo::new_file("ignored".to_string(), 8, 0o644))]);
    merge_redirect_entries(&mut entries, vec![info]);
    let report = entries.iter().find(|e| e.name == "report.pdf").expect("redirected file should be visible in read_dir");
    assert_eq!(report.size, 8);
    assert_eq!(report.mode, 0o644);
    assert_eq!(entries.len(), 2);
    assert_eq!(entries[0].name, "a.txt");
}

#[test]
fn listing_merge_keeps_existing_names() {
    let mut entries = vec![file("a.txt")];
    merge_redirect_entries(&mut entries, vec![file("a.txt"), file("b.pdf")]);
    assert_eq!(entries.len(), 2);
    assert_eq!(entries[0].size, 1);
    assert_eq!(entries[1].name, "b.pdf");
    let fallback = redirect_file_info("x.pdf", vec![None]);
    assert_eq!((fallback.size, fallback.mode, fallback.is_dir), (0, 0o644, false));
    assert_eq!(fallback.name, "x.pdf");
}

fn tree(path: &str) -> TreeEntry {
    TreeEntry { path: path.to_string(), rel_path: String::new(), info: file("x"), redirect: false }
}

#[test]
fn tree_merge_and_relative_paths() {
    assert_eq!(rel_path("/", "/a/b"), "a/b");
    assert_eq!(rel_path("/a", "/a/b"), "b");
    assert_eq!(rel_path("/a", "/ab/c"), "b/c");
    assert_eq!(rel_path("/q", "/a/b"), "a/b");
    let mut entries = filter_internal_tree(vec![tree("/a/x"), tree("/a/.sync_log.json")]);
    assert_eq!(entries.len(), 1);
    merge_tree_redirects(&mut entries, "/a", "/a", &vec!["x".to_string(), "r.pdf".to_string()]);
    assert_eq!(entries.len(), 2);
    assert_eq!(entries[1].path, "/a/r.pdf");
    assert_eq!(entries[1].rel_path, "r.pdf");
    assert!(entries[1].redirect);
    assert_eq!(entries[1].info.size, 0);
    assert_eq!(grep_search_dir("/a/x", false), "/a");
    assert_eq!(grep_search_dir("/a", true), "/a");
}

#[test]
fn grep_merge_respects_limit() {
    let m = |f: &str| GrepMatch { file: f.to_string(), line: 1, content: "hit".to_string() };
    let mut r = GrepResult { matches: vec![m("a")], count: 1 };
    merge_grep_matches(&mut r, vec![m("b"), m("c"), m("d")], Some(3));
    assert_eq!(r.count, 3);
    assert_eq!(r.matches.len(), 3);
    assert_eq!(r.matches[2].file, "c");
    let mut s = GrepResult { matches: vec![], count: 0 };
    merge_grep_matches(&mut s, vec![m("b"), m("c")], None);
    assert_eq!(s.count, 2);
}

#[test]
fn path_locks_and_lock_order() {
    let mut p = PathSerializer::new();
    let a = p.get_path_lock("/a");
    let b = p.get_path_lock("/b");
    assert_eq!(p.get_path_lock("/a"), a);
    assert_ne!(a, b);
    let d = PathSerializer::default();
    drop(d);
    assert_eq!(lock_order("/x", "/a"), ("/a".to_string(), "/x".to_string()));
    assert_eq!(lock_order("/a", "/x"), ("/a".to_string(), "/x".to_string()));
}

#[test]
fn replay_attempts_stop_at_first_success_or_after_three() {
    assert!(matches!(after_attempt(1, None), AttemptStep::Finished(ReplayResult::Succeeded)));
    assert!(matches!(after_attempt(3, None), AttemptStep::Finished(ReplayResult::Succeeded)));
    assert!(matches!(after_attempt(1, Some("e1".to_string())), AttemptStep::Again));
    assert!(matches!(after_attempt(2, Some("e2".to_string())), AttemptStep::Again));
    match after_attempt(3, Some("e3".to_string())) {
        AttemptStep::Finished(ReplayResult::Failed(Some(m))) => assert_eq!(m, "e3"),
        other => panic!("unexpected: {other:?}"),
    }
}

#[test]
fn replay_reads_from_redirect_targets_or_primary() {
    let c = one_backup_config();
    assert_eq!(replay_content_sources(&c, None), vec![0]);
    let e = RedirectEntry::new(vec!["ghost".to_string(), "backup1".to_string()]);
    assert_eq!(replay_content_sources(&c, Some(&e)), vec![1]);
}

#[test]
fn second_retry_after_successful_retry_skips_everything() {
    let c = MultiWriteConfig::with_backends(
        vec![
            BackendEntry { name: "b1".to_string(), role: BackendRole::Backup, operations: Vec::new(), excludes: Vec::new() },
            BackendEntry { name: "b2".to_string(), role: BackendRole::Backup, operations: Vec::new(), excludes: Vec::new() },
        ],
        vec![],
        "async",
        None,
        None,
        None,
    );
    let mut log = SyncLogMeta::new();
    log.record("a.txt".to_string(), 4, SyncOp::Write);
    log.record("b.txt".to_string(), 5, SyncOp::Create);
    log.ack("b.txt", "b1".to_string());
    let redirect = RedirectMeta::new();
    let dir = "/local/acct/docs";

    // The round replays exactly the lagging (file, backup) pairs.
    let before = collect_dir_work(&c, dir, dir, true, &log, &redirect);
    let order: Vec<String> = before.iter().map(|w| w.path.clone()).collect();
    let a = order.iter().position(|p| p == "/local/acct/docs/a.txt").unwrap();
    let b = order.iter().position(|p| p == "/local/acct/docs/b.txt").unwrap();
    let mut expected = vec![(a, 0), (a, 1), (b, 1)];
    expected.sort();
    assert_eq!(round_replays(&before), expected);

    // First retry: every lagging target is replayed successfully and acknowledged.
    let mut first = SyncRetryReport::new(dir.to_string());
    for w in collect_dir_work(&c, dir, dir, true, &log, &redirect) {
        for t in &w.targets {
            let replay = if needs_retry(t.acked_seq, w.latest_seq) {
                log.ack(ragfs::path::file_name(&w.path), t.name.clone());
                Some(ReplayResult::Succeeded)
            } else {
                None
            };
            first.record(w.path.clone(), t.name.clone(), w.latest_seq, t.acked_seq, replay);
        }
    }
    assert_eq!((first.retried, first.failed, first.skipped), (3, 0, 1));

    // Second retry: nothing lags any more.
    let work = collect_dir_work(&c, dir, dir, true, &log, &redirect);
    let mut second = SyncRetryReport::new(dir.to_string());
    for w in &work {
        for t in &w.targets {
            assert!(!needs_retry(t.acked_seq, w.latest_seq));
            second.record(w.path.clone(), t.name.clone(), w.latest_seq, t.acked_seq, None);
        }
    }
    assert_eq!((second.retried, second.failed, second.skipped), (0, 0, 4));
    assert_eq!(second.results.len(), 4);
    assert_eq!(sync_status_report(dir.to_string(), &work).pending_target_count, 0);
    assert!(round_replays(&work).is_empty());
}
