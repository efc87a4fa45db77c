use ragfs::context::Error;
use ragfs::meta::{
    apply_cross_dir_rename, apply_same_dir_rename, apply_write, meta_read_action, RedirectEntry,
    RedirectMeta, SyncLogEntry, SyncLogMeta, SyncOp,
};
use ragfs::strmap::StrMap;

#[test]
fn strmap_insert_get_remove() {
    let mut m: StrMap<u32> = StrMap::new();
    m.insert("a".to_string(), 1);
    m.insert("b".to_string(), 2);
    m.insert("a".to_string(), 3);
    assert_eq!(m.len(), 2);
    assert_eq!(m.get("a"), Some(&3));
    assert_eq!(m.remove("b"), Some(2));
    assert_eq!(m.remove("b"), None);
    assert!(!m.contains_key("b"));
    assert_eq!(m.len(), 1);
}

#[test]
fn new_entry_fields_per_operation() {
    let e = SyncLogEntry::new(1, SyncOp::Create);
    assert_eq!(e.latest_seq, 1);
    assert_eq!(e.last_op, "create");
    assert_eq!(e.rename_to, None);
    assert_eq!(e.mode, None);
    let m = SyncLogEntry::new(2, SyncOp::Mkdir { mode: 0o755 });
    assert_eq!(m.last_op, "mkdir");
    assert_eq!(m.mode, Some(0o755));
    let r = SyncLogEntry::new(3, SyncOp::Rename { to: "/x/y".to_string() });
    assert_eq!(r.last_op, "rename");
    assert_eq!(r.rename_to, Some("/x/y".to_string()));
    assert_eq!(SyncLogEntry::new(4, SyncOp::RemoveAll).last_op, "remove_all");
    assert_eq!(SyncLogEntry::new(5, SyncOp::Chmod { mode: 0o600 }).mode, Some(0o600));
}

#[test]
fn logged_operation_lags_until_acknowledged() {
    let mut log = SyncLogMeta::new();
    log.record("a.txt".to_string(), 5, SyncOp::Write);
    let e = log.entries.get("a.txt").unwrap();
    assert_eq!(e.acked_seq("backup1"), 0);
    assert!(e.acked_seq("backup1") < e.latest_seq);
    log.ack("a.txt", "backup1".to_string());
    let e = log.entries.get("a.txt").unwrap();
    assert_eq!(e.acked_seq("backup1"), 5);
    assert_eq!(e.acked_seq("backup2"), 0);
    // A new operation clears the acknowledgements.
    log.record("a.txt".to_string(), 6, SyncOp::Truncate);
    assert_eq!(log.entries.get("a.txt").unwrap().acked_seq("backup1"), 0);
    // Acknowledging an unknown file changes nothing.
    log.ack("zzz", "backup1".to_string());
    assert_eq!(log.entries.len(), 1);
}

#[test]
fn redirected_write_records_targets() {
    let mut redirect = RedirectMeta::new();
    let mut log = SyncLogMeta::new();
    apply_write(&mut redirect, &mut log, "doc.pdf".to_string(), 1, Some(vec!["backup1".to_string()]));
    assert_eq!(redirect.entries.get("doc.pdf").unwrap().targets, vec!["backup1".to_string()]);
    assert_eq!(log.entries.get("doc.pdf").unwrap().last_op, "write");
    assert_eq!(log.entries.get("doc.pdf").unwrap().rename_to, None);
    assert_eq!(log.entries.get("doc.pdf").unwrap().mode, None);
    apply_write(&mut redirect, &mut log, "a.txt".to_string(), 2, None);
    assert!(redirect.entries.get("a.txt").is_none());
    assert_eq!(log.entries.get("a.txt").unwrap().latest_seq, 2);
}

#[test]
fn same_dir_rename_moves_redirect_entry() {
    let mut redirect = RedirectMeta::new();
    redirect.set_targets("a.pdf".to_string(), vec!["backup1".to_string()]);
    let mut log = SyncLogMeta::new();
    apply_same_dir_rename(&mut redirect, &mut log, "a.pdf", "b.pdf", "/d/b.pdf".to_string(), 7);
    assert!(redirect.entries.get("a.pdf").is_none());
    assert_eq!(redirect.entries.get("b.pdf").unwrap().targets, vec!["backup1".to_string()]);
    let e = log.entries.get("a.pdf").unwrap();
    assert_eq!(e.last_op, "rename");
    assert_eq!(e.rename_to, Some("/d/b.pdf".to_string()));
    assert_eq!(e.latest_seq, 7);
    assert_eq!(e.mode, None);
    assert!(log.entries.get("b.pdf").is_none());
}

#[test]
fn test_cross_dir_rename_does_not_create_target_write_log() {
    let mut src_redirect = RedirectMeta::new();
    let mut src_log = SyncLogMeta::new();
    let mut tgt_redirect = RedirectMeta::new();
    let mut tgt_log = SyncLogMeta::new();
    apply_cross_dir_rename(
        &mut src_redirect,
        &mut src_log,
        &mut tgt_redirect,
        &mut tgt_log,
        "file.txt",
        "file.txt",
        "/local/acct/dst/file.txt".to_string(),
        1,
    );
    assert!(
        !tgt_log.entries.contains_key("file.txt"),
        "target directory must not record a fake write for cross-dir rename"
    );
    let rename_entry = src_log.entries.get("file.txt").expect("source directory should record rename command");
    assert_eq!(rename_entry.last_op, "rename");
    assert_eq!(rename_entry.rename_to, Some("/local/acct/dst/file.txt".to_string()));
    assert_eq!(rename_entry.mode, None);
}

#[test]
fn cross_dir_rename_moves_redirect_entry_to_target_dir() {
    let mut src_redirect = RedirectMeta::new();
    src_redirect.set_targets("a.pdf".to_string(), vec!["backup1".to_string()]);
    let mut src_log = SyncLogMeta::new();
    let mut tgt_redirect = RedirectMeta::new();
    let mut tgt_log = SyncLogMeta::new();
    tgt_log.record("other.txt".to_string(), 1, SyncOp::Create);
    apply_cross_dir_rename(&mut src_redirect, &mut src_log, &mut tgt_redirect, &mut tgt_log, "a.pdf", "b.pdf", "/dst/b.pdf".to_string(), 2);
    assert!(src_redirect.entries.get("a.pdf").is_none());
    assert_eq!(tgt_redirect.entries.get("b.pdf").unwrap().targets, vec!["backup1".to_string()]);
    assert_eq!(tgt_log.entries.len(), 1);
    assert!(tgt_log.entries.contains_key("other.txt"));
    assert!(!tgt_log.entries.contains_key("b.pdf"));
    let e = RedirectEntry::new(vec!["x".to_string()]).duplicate();
    assert_eq!(e.targets, vec!["x".to_string()]);
}

#[test]
fn metadata_read_outcomes() {
    assert!(matches!(meta_read_action(Ok(vec![])), Ok(None)));
    assert!(matches!(meta_read_action(Ok(b"{}".to_vec())), Ok(Some(ref d)) if d == b"{}"));
    assert!(matches!(meta_read_action(Err(Error::NotFound("/d/.redirect.json".to_string()))), Ok(None)));
    assert!(matches!(meta_read_action(Err(Error::Internal("io".to_string()))), Err(Error::Internal(ref m)) if m == "io"));
}
