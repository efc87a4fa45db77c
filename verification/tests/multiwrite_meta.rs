use ragfs::context::{DefaultFsContextResolver, FsContextResolver};
use ragfs::path::{file_name, parent_dir};

#[test]
fn test_parent_dir() {
    assert_eq!(parent_dir("/a/b/c.txt"), "/a/b");
    assert_eq!(parent_dir("/a"), "/");
    assert_eq!(parent_dir("/"), "/");
}

#[test]
fn test_file_name() {
    assert_eq!(file_name("/a/b/c.txt"), "c.txt");
    assert_eq!(file_name("/a"), "a");
}

#[test]
fn test_default_resolver() {
    let resolver = DefaultFsContextResolver;
    let ctx = resolver.resolve("/local/tenant-1/resources/file.txt").unwrap();
    assert_eq!(ctx.account_id(), "tenant-1");
}

#[test]
fn test_default_resolver_invalid_path() {
    let resolver = DefaultFsContextResolver;
    assert!(resolver.resolve("/invalid/path").is_err());
}
