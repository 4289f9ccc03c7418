use git_sprout::tree::{directory_of, is_attributes_file, parse, Blob, Oid};

fn record(mode: &str, kind: &str, oid: &str, path: &str) -> Vec<u8> {
    format!("{mode} {kind} {oid}\t{path}\0").into_bytes()
}

const A: &str = "aaaaaaaaaaaaaaaaaaaaaaaaaaaaaaaaaaaaaaaa";
const B: &str = "bbbbbbbbbbbbbbbbbbbbbbbbbbbbbbbbbbbbbbbb";

#[test]
fn reads_blobs_trees_and_gitlinks() {
    let mut output = record("040000", "tree", A, "src");
    output.extend(record("100755", "blob", B, "src/run.sh"));
    output.extend(record("160000", "commit", A, "vendor/lib"));
    let listing = parse(&output).expect("parses");
    assert_eq!(listing.trees.len(), 1);
    assert_eq!(
        listing.blobs.get(b"src/run.sh".as_slice()),
        Some(&Blob {
            mode: 0o100755,
            oid: Oid::from_hex(B.as_bytes()).unwrap()
        })
    );
    assert!(listing.gitlinks.contains(b"vendor/lib".as_slice()));
}

#[test]
fn keeps_paths_that_are_not_utf8() {
    let mut output = b"100644 blob ".to_vec();
    output.extend(A.as_bytes());
    output.extend(b"\ta/\xff\0");
    let listing = parse(&output).expect("parses");
    assert!(listing.blobs.contains_key(b"a/\xff".as_slice()));
}

#[test]
fn recognises_attributes_files_at_any_depth() {
    assert!(is_attributes_file(b".gitattributes"));
    assert!(is_attributes_file(b"src/.gitattributes"));
    assert!(!is_attributes_file(b"src/not.gitattributes"));
    assert!(!is_attributes_file(b"gitattributes"));
}

#[test]
fn splits_the_directory_from_the_path() {
    assert_eq!(directory_of(b"a/b/c.txt"), b"a/b/");
    assert_eq!(directory_of(b"c.txt"), b"");
}

#[test]
fn object_ids_decode_to_their_bytes() {
    let oid = Oid::from_hex(b"0123456789abcdefABCDEF0123456789abcdef01").unwrap();
    assert_eq!(
        oid.as_bytes(),
        &[0x01, 0x23, 0x45, 0x67, 0x89, 0xab, 0xcd, 0xef, 0xab, 0xcd, 0xef, 0x01, 0x23, 0x45, 0x67, 0x89, 0xab, 0xcd, 0xef, 0x01]
    );
    assert_eq!(Oid::from_hex(&[b'a'; 64]).unwrap().as_bytes().len(), 32);
    assert!(Oid::from_hex(b"abc").is_none());
    assert!(Oid::from_hex(&[b'g'; 40]).is_none());
}

#[test]
fn a_malformed_record_fails_the_whole_listing() {
    assert!(parse(b"100644 blob aaaa\tx\0").is_none());
    assert!(parse(&record("100644", "tag", A, "x")).is_none());
    assert!(parse(&record("100648", "blob", A, "x")).is_none());
    assert!(parse(&record("", "blob", A, "x")).is_none());
    assert!(parse(b"100644 blob no-tab\0").is_none());
    assert!(parse(&record("77777777777", "blob", A, "x")).is_none());
}

#[test]
fn empty_records_are_skipped_and_a_later_record_wins() {
    let mut output = b"\0".to_vec();
    output.extend(record("100644", "blob", A, "x"));
    output.extend(record("+100755", "blob", B, "x"));
    let listing = parse(&output).expect("parses");
    assert_eq!(listing.blobs.len(), 1);
    assert_eq!(listing.blobs.get(b"x".as_slice()).unwrap().mode, 0o100755);
    assert!(parse(b"").expect("parses").blobs.len() == 0);
}

#[test]
fn the_listing_is_kept_in_path_order() {
    let mut output = record("100644", "blob", A, "b");
    output.extend(record("100644", "blob", A, "a.txt"));
    output.extend(record("100644", "blob", A, "a/x"));
    output.extend(record("100644", "blob", A, "a"));
    let listing = parse(&output).expect("parses");
    let keys: Vec<&[u8]> = (0..listing.blobs.len()).map(|i| listing.blobs.key_at(i)).collect();
    assert_eq!(keys, vec![b"a".as_slice(), b"a.txt", b"a/x", b"b"]);
}

#[test]
fn attribute_files_are_picked_out_of_the_blobs() {
    let mut output = record("100644", "blob", A, ".gitattributes");
    output.extend(record("100644", "blob", B, "src/.gitattributes"));
    output.extend(record("100644", "blob", A, "src/main.rs"));
    let listing = parse(&output).expect("parses");
    let files = listing.attribute_files();
    assert_eq!(files.len(), 2);
    assert_eq!(
        files.get(b"src/.gitattributes".as_slice()).unwrap(),
        &Oid::from_hex(B.as_bytes()).unwrap()
    );
    assert!(files.get(b"src/main.rs".as_slice()).is_none());
}

#[test]
fn a_root_path_has_an_empty_directory() {
    assert_eq!(directory_of(b""), b"");
    assert_eq!(directory_of(b"a/"), b"a/");
    assert_eq!(directory_of(b"/x"), b"/");
}
