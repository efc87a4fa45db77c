use ragfs::config::{BackendEntry, BackendRole, MultiWriteConfig, OperationItemConfig, SyncType};
use ragfs::meta::{apply_cross_dir_rename, apply_write, RedirectEntry, RedirectMeta, SyncLogMeta};
use ragfs::ops::{plan_rename, plan_write, rename_fanout_targets, rename_on_primary, WriteRoute};
use ragfs::policy::{ends_with, extension_rule_matches, FilePolicy, RedirectPolicy};
use ragfs::route::{choose_read_route, route_source, ReadRoute, ReadRouteCache, ReadRouteMetrics, ReadRouteSource};

fn op(name: &str, priority: u32) -> OperationItemConfig {
    OperationItemConfig { operation: name.to_string(), priority }
}

fn backup(name: &str, operations: Vec<OperationItemConfig>, excludes: Vec<RedirectPolicy>) -> BackendEntry {
    BackendEntry { name: name.to_string(), role: BackendRole::Backup, operations, excludes }
}

#[test]
fn participation_and_priority() {
    let b = backup("b", vec![], vec![]);
    assert!(b.participates_in_write());
    assert!(!b.participates_in_read());
    assert_eq!(b.read_priority(), None);
    let r = backup("r", vec![op("read", 5)], vec![]);
    assert!(!r.participates_in_write());
    assert!(r.participates_in_read());
    assert_eq!(r.read_priority(), Some(5));
    let rw = backup("rw", vec![op("write", 0), op("read", 2), op("read", 9)], vec![]);
    assert!(rw.participates_in_write());
    assert_eq!(rw.read_priority(), Some(2));
}

fn sample_config(sync: &str) -> MultiWriteConfig {
    MultiWriteConfig::with_backends(
        vec![
            backup("cold", vec![], vec![]),
            backup("fast", vec![op("read", 1), op("write", 0)], vec![]),
            backup("slow", vec![op("read", 7)], vec![]),
            backup(
                "small",
                vec![op("read", 1)],
                vec![RedirectPolicy::FileOverSizePolicy { max_size_mb: 1, target: None }],
            ),
            backup(
                "nopdf",
                vec![op("write", 0)],
                vec![RedirectPolicy::FileExtensionPolicy { extensions: vec!["\\.pdf$".to_string()], target: None }],
            ),
        ],
        vec![
            RedirectPolicy::FileExtensionPolicy {
                extensions: vec!["(pdf|ppt)".to_string()],
                target: Some(vec!["slow".to_string(), "missing".to_string()]),
            },
            RedirectPolicy::FileOverSizePolicy { max_size_mb: 1, target: Some(vec!["cold".to_string()]) },
        ],
        sync,
        None,
        None,
        Some(0),
    )
}

#[test]
fn config_defaults() {
    let c = sample_config("async");
    assert_eq!(c.backends().len(), 6);
    assert_eq!(c.primary().name, "primary");
    assert_eq!(c.primary().role, BackendRole::Primary);
    assert_eq!(c.sync_type(), SyncType::Async);
    assert_eq!(c.write_ack_timeout_ms(), 0);
    assert_eq!(c.write_concurrency(), None);
    assert_eq!(c.ack_required(3), 3);
    assert_eq!(sample_config("sync").sync_type(), SyncType::Sync);
    let d = MultiWriteConfig::with_backends(vec![], vec![], "SYNC", Some(1), Some(500), Some(4));
    assert_eq!(d.sync_type(), SyncType::Async);
    assert_eq!(d.ack_required(3), 1);
    assert_eq!(d.ack_required(0), 0);
    assert_eq!(d.write_ack_timeout_ms(), 500);
    assert_eq!(d.write_concurrency(), Some(4));
    assert!(!d.has_write_backups());
    assert!(c.has_write_backups());
}

#[test]
fn write_and_read_selection() {
    let c = sample_config("async");
    assert_eq!(c.write_backups(), vec![1, 2, 5]);
    assert_eq!(c.write_targets("/a/x.pdf", 0), vec![1, 2]);
    assert_eq!(c.write_targets("/a/x.txt", 0), vec![1, 2, 5]);
    // Read order: priority 1 (fast, then small in configuration order), then 7.
    assert_eq!(c.read_backups_sorted(), vec![2, 4, 3]);
    assert_eq!(c.read_fallback_order(), vec![2, 4, 3, 0]);
    assert_eq!(c.backup_by_name("slow"), Some(3));
    assert_eq!(c.backup_by_name("primary"), Some(0));
    assert_eq!(c.backup_by_name("nope"), None);
    assert!(c.is_excluded(4, "/a/big.bin", 2 * 1024 * 1024));
    assert!(!c.is_excluded(4, "/a/small.bin", 1024));
    assert_eq!(c.backends_named(&vec!["slow".to_string(), "missing".to_string(), "cold".to_string()]), vec![3, 1]);
}

#[test]
fn redirect_decision_takes_first_matching_policy() {
    let c = sample_config("async");
    assert_eq!(c.check_redirect("/a/x.pdf", 10 * 1024 * 1024), Some(vec!["slow".to_string(), "missing".to_string()]));
    assert_eq!(c.check_redirect("/a/x.bin", 10 * 1024 * 1024), Some(vec!["cold".to_string()]));
    assert_eq!(c.check_redirect("/a/x.bin", 10), None);
    match plan_write(&c, "/a/x.pdf", 3) {
        WriteRoute::Redirect { targets, backends } => {
            assert_eq!(targets, vec!["slow".to_string(), "missing".to_string()]);
            assert_eq!(backends, vec![3]);
        }
        other => panic!("unexpected: {:?}", other),
    }
    match plan_write(&c, "/a/x.txt", 3) {
        WriteRoute::Primary { backups } => assert_eq!(backups, vec![1, 2, 5]),
        other => panic!("unexpected: {:?}", other),
    }
}

#[test]
fn effective_targets_follow_redirects_or_write_targets() {
    let c = sample_config("async");
    let e = RedirectEntry::new(vec!["slow".to_string()]);
    assert_eq!(c.effective_target_names("/a/x.pdf", Some(&e)), vec!["slow".to_string()]);
    assert_eq!(
        c.effective_target_names("/a/x.pdf", None),
        vec!["cold".to_string(), "fast".to_string()]
    );
}

#[test]
fn test_rename_redirected_file_renames_original_redirect_target() {
    // Every decision of writing, then renaming, a redirected file: the write
    // goes to the redirect target only, the rename skips the primary (which
    // never held the file), fans out to the redirect target, and moves the
    // redirect entry from the old name to the new one.
    let c = MultiWriteConfig::with_backends(
        vec![backup("backup1", vec![op("read", 1)], vec![])],
        vec![RedirectPolicy::FileExtensionPolicy {
            extensions: vec!["\\.pdf$".to_string()],
            target: Some(vec!["backup1".to_string()]),
        }],
        "sync",
        Some(1),
        Some(0),
        None,
    );
    let payload = b"pdf payload";
    let mut src_redirect = RedirectMeta::new();
    let mut src_log = SyncLogMeta::new();
    let mut tgt_redirect = RedirectMeta::new();
    let mut tgt_log = SyncLogMeta::new();
    match plan_write(&c, "/local/acct/src/a.pdf", payload.len() as u64) {
        WriteRoute::Redirect { targets, backends } => {
            assert_eq!(backends, vec![1]);
            apply_write(&mut src_redirect, &mut src_log, "a.pdf".to_string(), 1, Some(targets));
        }
        other => panic!("a pdf must be redirected: {:?}", other),
    }

    let plan = plan_rename("/local/acct/src/a.pdf", "/local/acct/dst/b.pdf");
    assert_eq!(plan.source_dir, "/local/acct/src");
    assert_eq!(plan.target_dir, "/local/acct/dst");
    assert_eq!(plan.old_name, "a.pdf");
    assert_eq!(plan.new_name, "b.pdf");
    assert!(!plan.same_dir);
    let entry = src_redirect.entries.get(&plan.old_name).map(|e| e.duplicate());
    assert!(entry.is_some());
    // The primary does not hold the file, so the rename does not go there.
    assert!(!rename_on_primary(entry.as_ref()));
    // The redirect target backend receives the rename fanout.
    assert_eq!(rename_fanout_targets(&c, "/local/acct/src/a.pdf", entry.as_ref()), vec![1]);
    apply_cross_dir_rename(
        &mut src_redirect,
        &mut src_log,
        &mut tgt_redirect,
        &mut tgt_log,
        &plan.old_name,
        &plan.new_name,
        "/local/acct/dst/b.pdf".to_string(),
        2,
    );
    // The old path is no longer redirected; the new one is, to the same target.
    assert!(src_redirect.entries.get("a.pdf").is_none());
    assert_eq!(tgt_redirect.entries.get("b.pdf").unwrap().targets, vec!["backup1".to_string()]);

    // A file that is not redirected is renamed on the primary and on the write targets.
    assert!(rename_on_primary(None));
    assert_eq!(rename_fanout_targets(&c, "/local/acct/src/a.txt", None), Vec::<usize>::new());
    assert!(plan_rename("/d/a", "/d/b").same_dir);
}

#[test]
fn policy_rules() {
    assert!(ends_with("report.pdf", ".pdf"));
    assert!(!ends_with("pdf", ".pdf"));
    assert!(ends_with("x", ""));
    assert!(extension_rule_matches("pdf", "a.txt", Some(true)));
    assert!(!extension_rule_matches("pdf", "a.pdf", Some(false)));
    assert!(extension_rule_matches(".pdf", "a.pdf", None));
    assert!(!extension_rule_matches(".pdf", "a.txt", None));
    // An invalid regex falls back to a suffix test on the file name.
    let p = RedirectPolicy::FileExtensionPolicy { extensions: vec!["x(".to_string()], target: None };
    assert!(p.matches("/d/ax(", 0));
    assert!(!p.matches("/d/x(/a", 0));
    // The pattern is matched against the file name only.
    let q = RedirectPolicy::FileExtensionPolicy { extensions: vec!["^doc".to_string()], target: None };
    assert!(q.matches("/x/doc.txt", 0));
    assert!(!q.matches("/doc/a.txt", 0));
    let big = RedirectPolicy::FileOverSizePolicy { max_size_mb: u64::MAX, target: None };
    assert!(!big.matches("/a", u64::MAX));
    let one = RedirectPolicy::FileOverSizePolicy { max_size_mb: 1, target: None };
    assert!(!one.matches("/a", 1024 * 1024));
    assert!(one.matches("/a", 1024 * 1024 + 1));
    assert_eq!(one.target(), None);
}

#[test]
fn read_route_choice() {
    assert_eq!(choose_read_route(&vec![false, true, true], true, &vec![true]), ReadRoute::Backup(1));
    assert_eq!(choose_read_route(&vec![false], true, &vec![true]), ReadRoute::Primary);
    assert_eq!(choose_read_route(&vec![], false, &vec![false, true]), ReadRoute::Redirect(1));
    assert_eq!(choose_read_route(&vec![false], false, &vec![]), ReadRoute::Miss);
    assert_eq!(route_source(ReadRoute::Redirect(0)), ReadRouteSource::Redirect);
    assert_eq!(route_source(ReadRoute::Miss), ReadRouteSource::Miss);
}

#[test]
fn test_read_route_metrics_capture_backup_and_cache_hits() {
    // First read resolves to the backup and caches the route; the second is a cache hit.
    let mut cache = ReadRouteCache::new(1000, 16);
    let mut metrics = ReadRouteMetrics::new();
    let path = "/local/acct/hot/cache.txt";
    assert_eq!(cache.cached_read_route(path, 0), None);
    let route = choose_read_route(&vec![true], false, &vec![]);
    metrics.record_read_route(route_source(route));
    cache.cache_read_route(path.to_string(), Some("backup1".to_string()), 0);
    assert_eq!(cache.cached_read_route(path, 5), Some(Some("backup1".to_string())));
    metrics.record_read_route(ReadRouteSource::Cache);
    assert_eq!(metrics.backup_hits, 1);
    assert_eq!(metrics.cache_hits, 1);
    assert_eq!(metrics.primary_hits, 0);
    assert_eq!(metrics.misses, 0);
}

#[test]
fn route_cache_expiry_and_capacity() {
    let mut cache = ReadRouteCache::new(10, 2);
    cache.cache_read_route("/a".to_string(), None, 0);
    cache.cache_read_route("/b".to_string(), Some("primary".to_string()), 5);
    assert_eq!(cache.entries.len(), 2);
    // The third entry evicts the oldest one.
    cache.cache_read_route("/c".to_string(), Some("b1".to_string()), 6);
    assert_eq!(cache.entries.len(), 2);
    assert!(!cache.entries.contains_key("/a"));
    assert!(cache.entries.contains_key("/b"));
    // Stale entries go first.
    cache.cache_read_route("/d".to_string(), None, 16);
    assert!(!cache.entries.contains_key("/b"));
    assert!(cache.entries.contains_key("/c"));
    assert!(cache.entries.contains_key("/d"));
    // A lookup after the time-to-live drops the entry.
    assert_eq!(cache.cached_read_route("/c", 17), None);
    assert!(!cache.entries.contains_key("/c"));
    assert_eq!(cache.cached_read_route("/d", 17), Some(None));
    cache.invalidate_read_route("/d");
    assert_eq!(cache.entries.len(), 0);
    let mut none = ReadRouteCache::new(10, 0);
    none.cache_read_route("/x".to_string(), None, 1);
    assert_eq!(none.entries.len(), 0);
}

#[test]
fn metrics_counters_wrap() {
    let mut m = ReadRouteMetrics::new();
    m.misses = u64::MAX;
    m.record_read_route(ReadRouteSource::Miss);
    assert_eq!(m.misses, 0);
    m.record_read_route(ReadRouteSource::Primary);
    m.record_read_route(ReadRouteSource::Redirect);
    assert_eq!(m.primary_hits, 1);
    assert_eq!(m.redirect_hits, 1);
}

#[test]
fn cached_route_is_read_back_within_ttl() {
    let mut cache = ReadRouteCache::new(50, 1);
    cache.cache_read_route("/old".to_string(), Some("primary".to_string()), 10);
    cache.cache_read_route("/hot".to_string(), Some("backup1".to_string()), 20);
    // The full cache keeps the newest route.
    assert_eq!(cache.entries.len(), 1);
    assert_eq!(cache.cached_read_route("/hot", 70), Some(Some("backup1".to_string())));
    assert_eq!(cache.cached_read_route("/hot", 71), None);
}
