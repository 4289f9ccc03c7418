use git_sprout::paths::{same_path, PathStyle};
use git_sprout::source::{
    candidates, closest, differing_paths, in_preference_order, parse_list, Modified, OnDisk,
    Worktree,
};

#[test]
fn reads_the_porcelain_listing() {
    let output = b"worktree /repo\nHEAD abc\nbranch refs/heads/main\n\n\
                   worktree /repo/wt\nHEAD def\ndetached\n\n\
                   worktree /repo/gone\nHEAD 123\nprunable gitdir file points to non-existent location\n\n\
                   worktree /repo/bare\nbare\n\n"
        .as_slice();
    let worktrees = parse_list(output);
    assert_eq!(worktrees.len(), 4);
    assert_eq!(worktrees[0].path, b"/repo".to_vec());
    assert_eq!(worktrees[0].head.as_deref(), Some("abc"));
    assert!(!worktrees[0].bare);
    assert!(worktrees[2].prunable);
    assert!(worktrees[3].bare);
}

fn worktree(path: &str) -> Worktree {
    Worktree {
        path: path.as_bytes().to_vec(),
        head: None,
        bare: false,
        prunable: false,
    }
}

#[test]
fn prefers_the_current_checkout_then_the_main_one() {
    let worktrees = vec![worktree("/repo"), worktree("/repo/a"), worktree("/repo/b")];
    let ordered = in_preference_order(&worktrees, Some(b"/repo/b".as_slice()), &[None, None, None], PathStyle::Unix);
    assert_eq!(worktrees[ordered[0]].path, b"/repo/b".to_vec());
    assert_eq!(worktrees[ordered[1]].path, b"/repo".to_vec());
    assert_eq!(worktrees[ordered[2]].path, b"/repo/a".to_vec());
}

#[test]
fn the_rest_run_from_the_most_recently_modified() {
    let worktrees = vec![
        worktree("/repo"),
        worktree("/repo/a"),
        worktree("/repo/b"),
        worktree("/repo/c"),
        worktree("/repo/d"),
    ];
    let at = |secs| Some(Modified { secs, nanos: 0 });
    let ordered = in_preference_order(&worktrees, None, &[None, at(5), None, at(9), at(5)], PathStyle::Unix);
    assert_eq!(ordered, vec![0, 3, 4, 1, 2]);
}

#[test]
fn the_current_checkout_is_found_by_path_equality() {
    let worktrees = vec![worktree("/repo"), worktree("/repo/a")];
    let ordered = in_preference_order(&worktrees, Some(b"/repo//a/".as_slice()), &[None, None], PathStyle::Unix);
    assert_eq!(ordered, vec![1, 0]);
    let ordered = in_preference_order(&worktrees, Some(b"/repo/.".as_slice()), &[None, None], PathStyle::Unix);
    assert_eq!(ordered, vec![0, 1]);
}

#[test]
fn paths_compare_by_component() {
    assert!(same_path(b"/repo/a", b"/repo//a/", PathStyle::Unix));
    assert!(same_path(b"/repo/./a", b"/repo/a", PathStyle::Unix));
    assert!(!same_path(b"/repo/a", b"repo/a", PathStyle::Unix));
    assert!(!same_path(b"./a", b"a", PathStyle::Unix));
    assert!(!same_path(b"/repo/../a", b"/a", PathStyle::Unix));
    assert!(!same_path(b"C:\\wt", b"C:/wt", PathStyle::Unix));
}

#[test]
fn windows_paths_compare_by_component() {
    let windows = PathStyle::Windows;
    assert!(same_path(b"C:\\wt", b"C:/wt", windows));
    assert!(same_path(b"c:/wt/", b"C:\\wt", windows));
    assert!(same_path(b"C:\\repo\\.\\wt", b"C:/repo/wt", windows));
    assert!(!same_path(b"C:wt", b"C:/wt", windows));
    assert!(!same_path(b"D:/wt", b"C:/wt", windows));
    assert!(same_path(b"\\\\server\\share\\wt", b"//server/share/wt", windows));
    assert!(same_path(b"\\\\server\\share", b"\\\\server\\share\\", windows));
    assert!(!same_path(b"\\\\server\\share\\wt", b"\\\\server\\other\\wt", windows));
    assert!(!same_path(b"\\\\?\\C:\\wt", b"C:\\wt", windows));
    assert!(same_path(b"\\\\?\\c:\\wt", b"\\\\?\\C:\\wt", windows));
    assert!(!same_path(b"\\\\?\\C:\\a/b", b"\\\\?\\C:\\a\\b", windows));
    assert!(!same_path(b"\\\\?\\C:\\a\\.\\b", b"\\\\?\\C:\\a\\b", windows));
    assert!(same_path(b"\\\\.\\COM1", b"//./COM1", windows));
    assert!(!same_path(b"./a", b"a", windows));
    assert!(same_path(b".\\a", b"./a", windows));
}

#[test]
fn a_destination_typed_with_backslashes_is_the_listed_worktree_on_windows() {
    let worktrees = vec![worktree("C:/repo"), worktree("C:/repo/wt")];
    let disk = vec![OnDisk { is_dir: true, device: None }; 2];
    let order = vec![0, 1];
    assert_eq!(candidates(&worktrees, &order, b"C:\\repo\\wt", None, &disk, PathStyle::Windows), vec![0]);
    assert_eq!(candidates(&worktrees, &order, b"C:\\repo\\wt", None, &disk, PathStyle::Unix), vec![0, 1]);
}

#[test]
fn lines_before_the_first_entry_are_ignored() {
    let worktrees = parse_list(b"HEAD abc\nbare\nworktree /x\nprunable\n");
    assert_eq!(worktrees.len(), 1);
    assert_eq!(worktrees[0].path, b"/x".to_vec());
    assert!(worktrees[0].prunable);
    assert!(!worktrees[0].bare);
    assert_eq!(worktrees[0].head, None);
    assert!(parse_list(b"").is_empty());
}

#[test]
fn a_head_that_is_not_utf8_is_dropped() {
    let worktrees = parse_list(b"worktree /x\nHEAD \xff\n");
    assert_eq!(worktrees[0].head, None);
}

#[test]
fn only_serving_checkouts_are_candidates() {
    let mut worktrees: Vec<Worktree> = (0..8).map(|i| worktree(&format!("/w{i}"))).collect();
    worktrees[1].bare = true;
    worktrees[2].prunable = true;
    let on = |device| OnDisk {
        is_dir: true,
        device: Some(device),
    };
    let mut disk = vec![on(1); 8];
    disk[3].is_dir = false;
    disk[4] = on(2);
    let order: Vec<usize> = (0..8).collect();
    assert_eq!(candidates(&worktrees, &order, b"/w5/", Some(1), &disk, PathStyle::Unix), vec![0, 6, 7]);
    assert_eq!(candidates(&worktrees, &order, b"/elsewhere", None, &disk, PathStyle::Unix), vec![0, 4, 5, 6, 7]);
    let all = vec![on(1); 8];
    let plain: Vec<Worktree> = (0..8).map(|i| worktree(&format!("/w{i}"))).collect();
    assert_eq!(candidates(&plain, &order, b"/elsewhere", Some(1), &all, PathStyle::Unix).len(), 5);
}

#[test]
fn the_fewest_differing_paths_win_and_ties_go_to_the_earlier() {
    assert_eq!(closest(&[]), None);
    assert_eq!(closest(&[4, 2, 7, 2]), Some(1));
    assert_eq!(closest(&[usize::MAX, usize::MAX]), Some(0));
}

#[test]
fn differing_paths_count_the_nul_terminated_names() {
    assert_eq!(differing_paths(Some(b"a\0b/c\0".as_slice())), 2);
    assert_eq!(differing_paths(Some(b"".as_slice())), 0);
    assert_eq!(differing_paths(None), usize::MAX);
}
