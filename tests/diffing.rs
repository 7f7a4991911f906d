use libfoldiff::common::{FoldiffError, VERSION_NUMBER_LATEST};
use libfoldiff::diffing::DiffingDiff;
use libfoldiff::hash::hash_stream;
use libfoldiff::manifest::SENTINEL;

fn builder() -> DiffingDiff {
    DiffingDiff::new("old".to_string(), "new".to_string())
}

fn add(d: &mut DiffingDiff, in_new: bool, path: &str, content: &[u8]) {
    d.add_file(in_new, path.to_string(), hash_stream(content)).unwrap();
}

#[test]
fn pure_untouched() {
    let mut d = builder();
    add(&mut d, false, "a.txt", b"hello");
    add(&mut d, true, "a.txt", b"hello");
    let m = d.generate_manifest();
    assert_eq!(m.untouched_files, vec![(hash_stream(b"hello"), "a.txt".to_string())]);
    assert!(m.deleted_files.is_empty() && m.new_files.is_empty());
    assert!(m.duplicated_files.is_empty() && m.patched_files.is_empty());
    assert!(d.blobs_new().is_empty() && d.blobs_patch().is_empty());
    assert_eq!(m.version, VERSION_NUMBER_LATEST);
}

#[test]
fn rename_is_duplicated_from_old() {
    let mut d = builder();
    add(&mut d, false, "foo.bin", b"XXXX");
    add(&mut d, true, "bar.bin", b"XXXX");
    let m = d.generate_manifest();
    assert_eq!(m.duplicated_files.len(), 1);
    let e = &m.duplicated_files[0];
    assert_eq!(e.hash, hash_stream(b"XXXX"));
    assert_eq!(e.old_paths, vec!["foo.bin".to_string()]);
    assert_eq!(e.new_paths, vec!["bar.bin".to_string()]);
    assert_eq!(e.idx, SENTINEL);
    assert!(m.untouched_files.is_empty() && m.new_files.is_empty() && m.patched_files.is_empty());
    assert!(m.deleted_files.is_empty());
    assert!(d.blobs_new().is_empty() && d.blobs_patch().is_empty());
}

#[test]
fn modify_is_patched() {
    let mut d = builder();
    add(&mut d, false, "data.bin", b"AAAA");
    add(&mut d, true, "data.bin", b"BBBB");
    let m = d.generate_manifest();
    assert_eq!(m.patched_files.len(), 1);
    let p = &m.patched_files[0];
    assert_eq!(p.old_hash, hash_stream(b"AAAA"));
    assert_eq!(p.new_hash, hash_stream(b"BBBB"));
    assert_eq!(p.path, "data.bin");
    assert_eq!(p.index, 0);
    // the old content's group is not reported as deleted
    assert!(m.deleted_files.is_empty());
    assert_eq!(d.blobs_patch(), &vec!["data.bin".to_string()]);
    assert!(d.blobs_new().is_empty());
}

#[test]
fn new_file_gets_new_blob() {
    let mut d = builder();
    add(&mut d, true, "readme.md", b"doc");
    let m = d.generate_manifest();
    assert_eq!(m.new_files.len(), 1);
    assert_eq!(m.new_files[0].hash, hash_stream(b"doc"));
    assert_eq!(m.new_files[0].path, "readme.md");
    assert_eq!(m.new_files[0].index, 0);
    assert_eq!(d.blobs_new(), &vec!["readme.md".to_string()]);
}

#[test]
fn deletion_and_duplicate_creation() {
    let mut d = builder();
    add(&mut d, false, "gone.txt", b"G");
    add(&mut d, true, "a", b"K");
    add(&mut d, true, "b", b"K");
    let m = d.generate_manifest();
    assert_eq!(m.deleted_files, vec![(hash_stream(b"G"), "gone.txt".to_string())]);
    assert_eq!(m.duplicated_files.len(), 1);
    let e = &m.duplicated_files[0];
    assert_eq!(e.hash, hash_stream(b"K"));
    assert!(e.old_paths.is_empty());
    assert_eq!(e.new_paths, vec!["a".to_string(), "b".to_string()]);
    assert_eq!(e.idx, 0);
    // the content comes from new blob 0, filled from the first new path
    assert_eq!(d.blobs_new(), &vec!["a".to_string()]);
    assert!(d.blobs_patch().is_empty());
}

#[test]
fn empty_trees_give_empty_manifest() {
    let mut d = builder();
    let m = d.generate_manifest();
    assert!(m.untouched_files.is_empty() && m.deleted_files.is_empty() && m.new_files.is_empty());
    assert!(m.duplicated_files.is_empty() && m.patched_files.is_empty());
}

#[test]
fn empty_file_is_a_regular_entry() {
    let mut d = builder();
    add(&mut d, true, "empty", b"");
    let m = d.generate_manifest();
    assert_eq!(m.new_files.len(), 1);
    assert_eq!(m.new_files[0].hash, hash_stream(b""));
}

#[test]
fn same_path_twice_is_refused() {
    let mut d = builder();
    add(&mut d, false, "x", b"1");
    assert_eq!(d.add_file(false, "x".to_string(), hash_stream(b"2")), Err(FoldiffError::DuplicatePath));
    // the other side is independent
    assert_eq!(d.add_file(true, "x".to_string(), hash_stream(b"2")), Ok(()));
}

#[test]
fn groups_are_emitted_in_hash_order_and_idempotently() {
    let mut d = builder();
    for (i, c) in ["one", "two", "three", "four", "five"].iter().enumerate() {
        add(&mut d, true, &format!("n{i}"), c.as_bytes());
    }
    let m1 = d.generate_manifest();
    let hashes: Vec<u64> = m1.new_files.iter().map(|n| n.hash).collect();
    let mut sorted = hashes.clone();
    sorted.sort();
    assert_eq!(hashes, sorted);
    let idx: Vec<u64> = m1.new_files.iter().map(|n| n.index).collect();
    assert_eq!(idx, vec![0, 1, 2, 3, 4]);
    let b1 = d.blobs_new().clone();
    let m2 = d.generate_manifest();
    let again: Vec<(u64, u64, String)> = m2.new_files.iter().map(|n| (n.hash, n.index, n.path.clone())).collect();
    let first: Vec<(u64, u64, String)> = m1.new_files.iter().map(|n| (n.hash, n.index, n.path.clone())).collect();
    assert_eq!(first, again);
    assert_eq!(&b1, d.blobs_new());
}

#[test]
fn hash_of_empty_input() {
    // XXH64 with seed 0 of the empty string
    assert_eq!(hash_stream(b""), 0xEF46_DB37_51D8_E999);
    assert_ne!(hash_stream(b"a"), hash_stream(b"b"));
}
