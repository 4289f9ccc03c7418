use git_sprout::scratch_index::{default_version, unknown_mode};

#[test]
fn a_plain_repository_gets_version_two() {
    assert_eq!(default_version(None, None, false), 2);
}

#[test]
fn configuration_and_environment_choose_the_version() {
    assert_eq!(default_version(None, Some("4"), false), 4);
    assert_eq!(default_version(Some("3"), Some("4"), false), 3);
}

#[test]
fn many_files_asks_for_version_four() {
    assert_eq!(default_version(None, None, true), 4);
    assert_eq!(default_version(None, Some("2"), true), 2);
}

#[test]
fn an_impossible_version_falls_back_to_the_default() {
    assert_eq!(default_version(None, Some("9"), false), 2);
    assert_eq!(default_version(None, Some("nonsense"), false), 2);
}

#[test]
fn surrounding_white_space_is_ignored() {
    assert_eq!(default_version(Some(" 3\n"), None, false), 3);
    assert_eq!(default_version(Some("\u{3000}4\u{a0}"), None, false), 4);
    assert_eq!(default_version(Some("+3"), None, false), 3);
}

#[test]
fn an_unreadable_environment_still_shadows_the_configuration() {
    assert_eq!(default_version(Some("x"), Some("4"), false), 2);
    assert_eq!(default_version(Some("x"), Some("3"), true), 4);
    assert_eq!(default_version(Some("99999999999"), None, false), 2);
}

#[test]
fn only_index_modes_pass() {
    assert_eq!(unknown_mode(&[0o100644, 0o100755, 0o120000, 0o160000]), None);
    assert_eq!(unknown_mode(&[0o100644, 0o100664, 0o7]), Some(0o100664));
}
