use git_sprout::clone::{cloner_for, Cloner, Platform, Reflink};
use git_sprout::request::decline;
use git_sprout::stats::CloneBackend;

#[test]
fn each_platform_gets_its_primitive() {
    assert_eq!(cloner_for(Platform::MacOs).backend(), CloneBackend::Apfs);
    assert!(cloner_for(Platform::MacOs).clones_directories());
    assert_eq!(cloner_for(Platform::Linux).backend(), CloneBackend::Ficlone);
    assert_eq!(cloner_for(Platform::Android).backend(), CloneBackend::Ficlone);
    assert_eq!(cloner_for(Platform::Windows), Cloner::Reflink(Reflink::new(CloneBackend::Refs)));
    assert!(!cloner_for(Platform::Windows).clones_directories());
    assert_eq!(cloner_for(Platform::Other).backend(), CloneBackend::Unavailable);
}

#[test]
fn declining_names_the_first_reason() {
    assert_eq!(decline(true, true, false, true).as_deref(), Some("--no-cow"));
    assert_eq!(decline(false, true, false, true).as_deref(), Some("SPROUT_DISABLE=1"));
    assert_eq!(decline(false, false, false, true).as_deref(), Some("--no-checkout"));
    assert_eq!(decline(false, false, true, true).as_deref(), Some("--orphan"));
    assert_eq!(decline(false, false, true, false), None);
}
