use git_sprout::delegate::exit_code;
use git_sprout::stats::{CloneBackend, Stats};

#[test]
fn backends_report_their_names() {
    assert_eq!(CloneBackend::Apfs.as_str(), "apfs");
    assert_eq!(CloneBackend::Ficlone.as_str(), "ficlone");
    assert_eq!(CloneBackend::Refs.as_str(), "refs");
    assert_eq!(CloneBackend::Unavailable.as_str(), "none");
}

#[test]
fn falling_back_records_the_reason_and_nothing_else() {
    let mut stats = Stats::default();
    stats.cloned = 3;
    stats.fall_back("--no-cow".to_string());
    assert!(stats.fell_back);
    assert_eq!(stats.fallback_reason.as_deref(), Some("--no-cow"));
    assert_eq!(stats.cloned, 3);
    assert_eq!(stats.clone_backend, CloneBackend::Unavailable);
    assert!(stats.source.is_none());
}

#[test]
fn git_exit_codes_pass_through_where_they_fit() {
    assert_eq!(exit_code(Some(0)), 0);
    assert_eq!(exit_code(Some(128)), 128);
    assert_eq!(exit_code(Some(255)), 255);
    assert_eq!(exit_code(Some(256)), 1);
    assert_eq!(exit_code(Some(-1)), 1);
    assert_eq!(exit_code(None), 1);
}
