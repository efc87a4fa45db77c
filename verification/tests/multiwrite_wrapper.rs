use ragfs::policy::{FilePolicy, RedirectPolicy};

#[test]
fn multiwrite_wrapper_test_file_policy_over_size() {
    let policy = RedirectPolicy::FileOverSizePolicy {
        max_size_mb: 1,
        target: Some(vec!["backup1".to_string()]),
    };
    assert!(policy.matches("/a/big.bin", 2 * 1024 * 1024));
    assert!(!policy.matches("/a/small.txt", 512));
}

#[test]
fn multiwrite_wrapper_test_file_policy_extension() {
    let policy = RedirectPolicy::FileExtensionPolicy {
        extensions: vec!["(pdf|ppt)".to_string()],
        target: Some(vec!["backup1".to_string()]),
    };
    assert!(policy.matches("/a/doc.pdf", 0));
    assert!(policy.matches("/a/slides.ppt", 0));
    assert!(!policy.matches("/a/text.txt", 0));
}

#[test]
fn tests_test_file_policy_over_size() {
    let policy = RedirectPolicy::FileOverSizePolicy {
        max_size_mb: 1,
        target: Some(vec!["backup1".to_string()]),
    };
    assert!(policy.matches("/a/big.bin", 2 * 1024 * 1024));
    assert!(!policy.matches("/a/small.txt", 512));
}

#[test]
fn tests_test_file_policy_extension() {
    let policy = RedirectPolicy::FileExtensionPolicy {
        extensions: vec!["(pdf|ppt)".to_string()],
        target: Some(vec!["backup1".to_string()]),
    };
    assert!(policy.matches("/a/doc.pdf", 0));
    assert!(policy.matches("/a/slides.ppt", 0));
    assert!(!policy.matches("/a/text.txt", 0));
}
