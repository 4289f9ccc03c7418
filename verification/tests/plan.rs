use git_sprout::pathmap::{PathMap, PathSet};
use git_sprout::plan::{
    assemble, children_by_directory, source_attribute_files, source_holds_only,
    subtree_is_fully_verified, verify_paths, entry_can_stand_in, is_poisoned, IndexEntry, Planned, Time, Verdict,
};
use git_sprout::tree::{Blob, Listing, Oid};

fn oid(byte: u8) -> Oid {
    Oid::from_hex(format!("{:02x}", byte).repeat(20).as_bytes()).unwrap()
}

fn listing(blobs: &[(&str, u8)], trees: &[(&str, u8)], gitlinks: &[&str]) -> Listing {
    let mut listing = Listing::new();
    for (path, byte) in blobs {
        listing.blobs.insert(
            path.as_bytes().to_vec(),
            Blob {
                mode: 0o100644,
                oid: oid(*byte),
            },
        );
    }
    for (path, byte) in trees {
        listing.trees.insert(path.as_bytes().to_vec(), oid(*byte));
    }
    for path in gitlinks {
        listing.gitlinks.insert(path.as_bytes().to_vec());
    }
    listing
}

fn set(paths: &[&str]) -> PathSet {
    let mut set = PathSet::new();
    for path in paths {
        set.insert(path.as_bytes().to_vec());
    }
    set
}

fn members(set: &PathSet) -> Vec<Vec<u8>> {
    (0..set.len()).map(|i| set.key_at(i).to_vec()).collect()
}

fn planned(path: &str, byte: u8) -> Planned {
    Planned {
        path: path.as_bytes().to_vec(),
        mode: 0o100644,
        oid: oid(byte),
        mtime: Time { secs: 1, nsecs: 2 },
    }
}

#[test]
fn maps_every_directory_to_its_own_children() {
    let listing = listing(
        &[("src/a.txt", 1), ("src/deep/b.txt", 2), ("top.txt", 3)],
        &[("src", 4), ("src/deep", 5)],
        &[],
    );
    let children = children_by_directory(&listing);
    assert_eq!(
        members(children.get(b"".as_slice()).unwrap()),
        vec![b"src".to_vec(), b"top.txt".to_vec()]
    );
    assert_eq!(
        members(children.get(b"src".as_slice()).unwrap()),
        vec![b"a.txt".to_vec(), b"deep".to_vec()]
    );
}

#[test]
fn a_subtree_needs_every_blob_verified() {
    let listing = listing(&[("src/a.txt", 1), ("src/b.txt", 2)], &[("src", 4)], &[]);
    let all = set(&["src/a.txt", "src/b.txt"]);
    assert!(subtree_is_fully_verified(&listing, b"src", &all));
    let partial = set(&["src/a.txt"]);
    assert!(!subtree_is_fully_verified(&listing, b"src", &partial));
}

#[test]
fn a_subtree_with_a_submodule_is_never_cloned_whole() {
    let listing = listing(&[("src/a.txt", 1)], &[("src", 4)], &["src/vendor"]);
    let all = set(&["src/a.txt"]);
    assert!(!subtree_is_fully_verified(&listing, b"src", &all));
}

#[test]
fn an_empty_subtree_is_not_worth_cloning() {
    let listing = listing(&[], &[("src", 4)], &[]);
    assert!(!subtree_is_fully_verified(&listing, b"src", &PathSet::new()));
}

#[test]
fn a_sibling_with_a_longer_name_is_not_under_the_directory() {
    let listing = listing(&[("src-old/a.txt", 1), ("src/a.txt", 2), ("src.rs", 3)], &[("src", 4)], &["src-old/x"]);
    let verified = set(&["src/a.txt"]);
    assert!(subtree_is_fully_verified(&listing, b"src", &verified));
}

fn listed(dirs: &[(&str, &[&str])]) -> PathMap<PathSet> {
    let mut map = PathMap::new();
    for (dir, names) in dirs {
        map.insert(dir.as_bytes().to_vec(), set(names));
    }
    map
}

#[test]
fn an_untracked_file_disqualifies_the_source_directory() {
    let listing = listing(&[("src/a.txt", 1)], &[("src", 4)], &[]);
    let children = children_by_directory(&listing);
    assert!(source_holds_only(&listed(&[("src", &["a.txt"])]), b"src", &children));
    assert!(!source_holds_only(&listed(&[("src", &["a.txt", "untracked.log"])]), b"src", &children));
    assert!(!source_holds_only(&listed(&[]), b"src", &children));
}

#[test]
fn the_source_directory_is_checked_at_every_depth() {
    let listing = listing(&[("src/deep/b.txt", 1), ("src/a.txt", 2)], &[("src", 4), ("src/deep", 5)], &[]);
    let children = children_by_directory(&listing);
    let clean = listed(&[("src", &["a.txt", "deep"]), ("src/deep", &["b.txt"])]);
    assert!(source_holds_only(&clean, b"src", &children));
    let dirty = listed(&[("src", &["a.txt", "deep"]), ("src/deep", &["b.txt", "core"])]);
    assert!(!source_holds_only(&dirty, b"src", &children));
}

fn entry(path: &str, stage: u8, byte: u8, secs: u32, verdict: Verdict) -> IndexEntry {
    IndexEntry {
        path: path.as_bytes().to_vec(),
        stage,
        mode: 0o100644,
        oid: oid(byte),
        mtime: Time { secs, nsecs: 0 },
        verdict,
    }
}

#[test]
fn verification_sorts_blobs_by_verdict() {
    let target = listing(&[("a", 1), ("b", 2), ("c", 3), ("d", 4)], &[], &[]);
    let index = vec![
        entry("a", 0, 1, 7, Verdict::Clone),
        entry("c", 0, 3, 9, Verdict::AskGit),
        entry("d", 0, 4, 10, Verdict::Reject),
    ];
    let verified = verify_paths(&target, &index, &[]);
    assert_eq!(verified.considered, 4);
    assert_eq!(verified.paths.len(), 1);
    assert_eq!(verified.paths[0].path, b"a".to_vec());
    assert_eq!(verified.paths[0].oid, oid(1));
    assert_eq!(verified.paths[0].mode, 0o100644);
    assert_eq!(verified.paths[0].mtime, Time { secs: 7, nsecs: 0 });
    assert_eq!(verified.racy.len(), 1);
    assert_eq!(verified.racy[0].path, b"c".to_vec());
    assert_eq!(verified.racy[0].mtime, Time { secs: 9, nsecs: 0 });
}

#[test]
fn poisoned_paths_are_passed_over() {
    let target = listing(&[("docs/a.md", 1), ("src/b.rs", 2), ("top", 3)], &[], &[]);
    let index = vec![
        entry("docs/a.md", 0, 1, 1, Verdict::Clone),
        entry("src/b.rs", 0, 2, 2, Verdict::Clone),
        entry("top", 0, 3, 3, Verdict::Clone),
    ];
    let verified = verify_paths(&target, &index, &[b"docs/".to_vec()]);
    let paths: Vec<Vec<u8>> = verified.paths.iter().map(|p| p.path.clone()).collect();
    assert_eq!(paths, vec![b"src/b.rs".to_vec(), b"top".to_vec()]);
    let verified = verify_paths(&target, &index, &[Vec::new()]);
    assert!(verified.paths.is_empty());
    assert_eq!(verified.considered, 3);
}

#[test]
fn a_blob_the_index_does_not_match_is_passed_over() {
    let target = listing(&[("a", 1), ("b", 2), ("c", 3)], &[], &[]);
    let mut executable = entry("b", 0, 2, 2, Verdict::Clone);
    executable.mode = 0o100755;
    let index = vec![entry("a", 0, 9, 1, Verdict::Clone), executable];
    let verified = verify_paths(&target, &index, &[]);
    assert!(verified.paths.is_empty());
    assert!(verified.racy.is_empty());
}

#[test]
fn a_conflicted_path_is_answered_by_our_side() {
    let target = listing(&[("a", 2)], &[], &[]);
    let index = vec![
        entry("a", 1, 1, 1, Verdict::Clone),
        entry("a", 2, 2, 5, Verdict::AskGit),
        entry("a", 3, 3, 6, Verdict::Clone),
    ];
    let verified = verify_paths(&target, &index, &[]);
    assert!(verified.paths.is_empty());
    assert_eq!(verified.racy.len(), 1);
    assert_eq!(verified.racy[0].mtime, Time { secs: 5, nsecs: 0 });
}

#[test]
fn poisoning_goes_by_prefix() {
    let poisoned = vec![b"src/".to_vec()];
    assert!(is_poisoned(b"src/main.rs", &poisoned));
    assert!(!is_poisoned(b"srcs/main.rs", &poisoned));
    assert!(!is_poisoned(b"README", &poisoned));
    assert!(is_poisoned(b"README", &[Vec::new()]));
    assert!(!is_poisoned(b"README", &[]));
}

#[test]
fn an_entry_stands_in_only_for_the_same_object_and_mode() {
    let blob = Blob { mode: 0o100644, oid: oid(1) };
    assert!(entry_can_stand_in(&blob, &entry("a", 0, 1, 0, Verdict::Clone)));
    assert!(!entry_can_stand_in(&blob, &entry("a", 0, 2, 0, Verdict::Clone)));
    let mut link = entry("a", 0, 1, 0, Verdict::Clone);
    link.mode = 0o120000;
    assert!(!entry_can_stand_in(&blob, &link));
}

#[test]
fn a_clean_matching_subtree_is_cloned_whole() {
    let target = listing(
        &[("src/a.txt", 1), ("src/deep/b.txt", 2), ("top.txt", 3)],
        &[("src", 4), ("src/deep", 5)],
        &[],
    );
    let source = listing(&[], &[("src", 4), ("src/deep", 5)], &[]);
    let verified = vec![planned("src/a.txt", 1), planned("src/deep/b.txt", 2), planned("top.txt", 3)];
    let disk = listed(&[("src", &["a.txt", "deep"]), ("src/deep", &["b.txt"])]);
    let plan = assemble(&target, &source, verified, true, &PathSet::new(), &disk);
    assert_eq!(plan.directories, vec![b"src".to_vec()]);
    assert_eq!(plan.files.len(), 1);
    assert_eq!(plan.files[0].path, b"top.txt".to_vec());
    assert_eq!(plan.materialised.len(), 3);
}

#[test]
fn a_changed_or_occupied_subtree_is_cloned_file_by_file() {
    let target = listing(&[("src/a.txt", 1)], &[("src", 4)], &[]);
    let changed = listing(&[], &[("src", 9)], &[]);
    let disk = listed(&[("src", &["a.txt"])]);
    let plan = assemble(&target, &changed, vec![planned("src/a.txt", 1)], true, &PathSet::new(), &disk);
    assert!(plan.directories.is_empty());
    assert_eq!(plan.files.len(), 1);
    let same = listing(&[], &[("src", 4)], &[]);
    let plan = assemble(&target, &same, vec![planned("src/a.txt", 1)], true, &set(&["src"]), &disk);
    assert!(plan.directories.is_empty());
    let plan = assemble(&target, &same, vec![planned("src/a.txt", 1)], false, &PathSet::new(), &disk);
    assert!(plan.directories.is_empty());
    assert_eq!(plan.files.len(), 1);
    let plan = assemble(&target, &same, vec![planned("src/a.txt", 1)], true, &PathSet::new(), &disk);
    assert_eq!(plan.directories, vec![b"src".to_vec()]);
    assert!(plan.files.is_empty());
}

#[test]
fn only_the_topmost_directory_is_chosen() {
    let target = listing(&[("a/b/c", 1)], &[("a", 4), ("a/b", 5)], &[]);
    let source = listing(&[], &[("a", 4), ("a/b", 5)], &[]);
    let disk = listed(&[("a", &["b"]), ("a/b", &["c"])]);
    let plan = assemble(&target, &source, vec![planned("a/b/c", 1)], true, &PathSet::new(), &disk);
    assert_eq!(plan.directories, vec![b"a".to_vec()]);
}

#[test]
fn attribute_files_in_the_index_are_split_by_verdict() {
    let entries = vec![
        entry(".gitattributes", 0, 1, 0, Verdict::Clone),
        entry("src/.gitattributes", 0, 2, 0, Verdict::AskGit),
        entry("src/main.rs", 0, 3, 0, Verdict::Reject),
    ];
    let (files, suspect) = source_attribute_files(&entries);
    assert_eq!(files.len(), 2);
    assert_eq!(files.get(b".gitattributes".as_slice()), Some(&oid(1)));
    assert_eq!(suspect, vec![b"src/.gitattributes".to_vec()]);
}

#[test]
fn the_defaults_are_empty() {
    let listing = Listing::default();
    assert_eq!(listing.blobs.len(), 0);
    assert_eq!(listing.clone(), Listing::new());
    let verified = git_sprout::plan::Verified::default();
    assert!(verified.paths.is_empty() && verified.racy.is_empty());
    assert_eq!(verified.considered, 0);
    let plan = git_sprout::plan::Plan::default();
    assert!(plan.directories.is_empty() && plan.files.is_empty() && plan.materialised.is_empty());
}
