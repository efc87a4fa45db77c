use ragfs::context::{current_required_ctx, test_ctx, BackendFailure, DefaultFsContextResolver, Error, FsContext, FsContextResolver};
use ragfs::path::{file_name, is_internal_name, join_path, meta_path, parent_dir};
use ragfs::text::{decimal, join, str_lt};

#[test]
fn parent_dir_without_slash_is_root() {
    assert_eq!(parent_dir("a.txt"), "/");
    assert_eq!(parent_dir("/a/b/"), "/a/b");
}

#[test]
fn file_name_without_slash_is_whole_path() {
    assert_eq!(file_name("a.txt"), "a.txt");
    assert_eq!(file_name("/a/b/"), "");
}

#[test]
fn join_path_and_meta_path() {
    assert_eq!(join_path("/", "x"), "/x");
    assert_eq!(join_path("/a/b", "x"), "/a/b/x");
    assert_eq!(meta_path("/", ".redirect.json"), "/.redirect.json");
    assert_eq!(meta_path("/local/acct/docs", ".sync_log.json"), "/local/acct/docs/.sync_log.json");
}

#[test]
fn join_of_parent_and_name_gives_path_back() {
    for p in ["/a/b/c.txt", "/a", "/", "/x/y/"] {
        assert_eq!(join_path(&parent_dir(p), file_name(p)), p);
    }
    // A path without a slash is the one that does not come back.
    assert_eq!(join_path(&parent_dir("a"), file_name("a")), "/a");
}

#[test]
fn internal_names() {
    assert!(is_internal_name(".redirect.json"));
    assert!(is_internal_name(".sync_log.json"));
    assert!(is_internal_name(".path.ovlock"));
    assert!(!is_internal_name("redirect.json"));
    assert!(!is_internal_name("a.txt"));
}

#[test]
fn resolver_accepts_repeated_leading_slashes_and_short_paths() {
    let resolver = DefaultFsContextResolver;
    assert_eq!(resolver.resolve("//local/t2").unwrap().account_id(), "t2");
    assert_eq!(resolver.resolve("local/t3/x").unwrap().account_id(), "t3");
    match resolver.resolve("/local//x") {
        Err(Error::Internal(m)) => assert_eq!(m, "cannot resolve FsContext from path: /local//x"),
        other => panic!("unexpected: {:?}", other),
    }
    assert!(resolver.resolve("/local").is_err());
    assert!(resolver.resolve("/locals/a").is_err());
}

#[test]
fn current_context_required() {
    match current_required_ctx(None) {
        Err(Error::Internal(m)) => assert_eq!(m, "FsContext not set in current task"),
        other => panic!("unexpected: {:?}", other),
    }
    let ctx = current_required_ctx(Some(FsContext::new("t".to_string()))).unwrap();
    assert_eq!(ctx.account_id(), "t");
    assert_eq!(test_ctx().account_id(), "acct");
}

#[test]
fn error_kinds_and_messages() {
    let e = Error::NotFound("/backup/fail.txt".to_string());
    assert_eq!(e.kind(), "not_found");
    assert_eq!(e.message(), "not found: /backup/fail.txt");
    assert_eq!(Error::Internal("x".to_string()).kind(), "internal");
    assert_eq!(Error::Serialization("bad".to_string()).message(), "serialization error: bad");
    let q = Error::SyncWriteQuorum {
        succeeded: 1,
        required: 2,
        attempted: 3,
        failures: vec![
            BackendFailure { backend: "b1".to_string(), kind: "timeout".to_string(), message: "timeout".to_string() },
            BackendFailure { backend: "b2".to_string(), kind: "not_found".to_string(), message: "not found: /p".to_string() },
        ],
    };
    assert_eq!(q.kind(), "sync_write_quorum");
    assert_eq!(q.message(), "sync write failed: 1/3 backups succeeded. Errors: b1: timeout; b2: not found: /p");
}

#[test]
fn decimal_join_and_order() {
    assert_eq!(decimal(0), "0");
    assert_eq!(decimal(7), "7");
    assert_eq!(decimal(1024), "1024");
    assert_eq!(decimal(u64::MAX), "18446744073709551615");
    assert_eq!(join(&vec![], "; "), "");
    assert_eq!(join(&vec!["a".to_string()], "; "), "a");
    assert_eq!(join(&vec!["a".to_string(), "b".to_string(), "c".to_string()], ", "), "a, b, c");
    assert!(str_lt("/a", "/b"));
    assert!(str_lt("/a", "/a/b"));
    assert!(!str_lt("/b", "/a/b"));
    assert!(!str_lt("/a", "/a"));
    assert!(str_lt("", "a"));
}
