use libfoldiff::applying::{check_hash, duplicate_source, ApplyingDiff, DupSource};
use libfoldiff::common::{FoldiffError, VERSION_NUMBER_1_0_0_R, VERSION_NUMBER_1_1_0};
use libfoldiff::container::{count_header, index_blobs, read_110, verify_and_read_ver, write_manifest, write_new_blob};
use libfoldiff::hash::hash_stream;
use libfoldiff::manifest::{DiffManifest, DuplicatedFile, NewFile, PatchedFile, SENTINEL};
use libfoldiff::upgrade::auto_upgrade;
use libfoldiff::verify::{check_expected, compare_names, expected_files, ExpectedFile};
use libfoldiff::zstddiff::{apply_chunk, delta_plan, diff};

const RAW: &[u8] = b"\x96\x94\x00\x01\x01\x00\x90\x90\x90\x90\x90";

/// A file in the current layout with the given new files and (old, new) patch pairs.
fn build(new_files: &[&[u8]], patches: &[(&[u8], &[u8])]) -> Vec<u8> {
    let mut out = write_manifest(RAW).unwrap();
    out.extend(count_header(new_files.len() as u64));
    for f in new_files {
        out.extend(write_new_blob(f, 7, 0).unwrap());
    }
    out.extend(count_header(patches.len() as u64));
    for (o, n) in patches {
        out.extend(diff(o, n, Some(3), None, None, None).unwrap());
    }
    out
}

fn open(file: &[u8]) -> ApplyingDiff {
    let (_, pos) = verify_and_read_ver(file).unwrap();
    let (_, end) = read_110(file, pos).unwrap();
    ApplyingDiff::read_diff_from(file, DiffManifest::with_version(VERSION_NUMBER_1_1_0), end).unwrap()
}

#[test]
fn version_tags() {
    assert_eq!(verify_and_read_ver(b"FLDF\x00\x01\x01\x00rest"), Ok((VERSION_NUMBER_1_1_0, 8)));
    assert_eq!(verify_and_read_ver(b"FLDF\x96\x94\x00\x01"), Ok((VERSION_NUMBER_1_0_0_R, 4)));
    assert_eq!(verify_and_read_ver(b"FLDX\x00\x01\x01\x00"), Err(FoldiffError::BadMagic));
    assert_eq!(verify_and_read_ver(b"FLDF\x00\x02\x00\x00"), Err(FoldiffError::UnknownVersion([0, 2, 0, 0])));
    assert_eq!(verify_and_read_ver(b"FLD"), Err(FoldiffError::Truncated));
    assert_eq!(verify_and_read_ver(b"FLDF\x00"), Err(FoldiffError::Truncated));
}

#[test]
fn empty_container_is_self_describing() {
    let file = build(&[], &[]);
    assert_eq!(&file[0..8], b"FLDF\x00\x01\x01\x00");
    let (raw, end) = read_110(&file, 8).unwrap();
    assert_eq!(raw, RAW);
    assert_eq!(end + 16, file.len());
    let ix = index_blobs(&file, end).unwrap();
    assert!(ix.blobs_new.is_empty() && ix.blobs_patch.is_empty());
}

#[test]
fn trailing_and_missing_bytes_are_errors() {
    let mut file = build(&[b"abc"], &[(b"old", b"new")]);
    let (_, end) = read_110(&file, 8).unwrap();
    assert!(index_blobs(&file, end).is_ok());
    file.push(0);
    assert_eq!(index_blobs(&file, end).err(), Some(FoldiffError::TrailingBytes));
    file.truncate(file.len() - 2);
    assert_eq!(index_blobs(&file, end).err(), Some(FoldiffError::Truncated));
    assert_eq!(read_110(&file[..12], 8).err(), Some(FoldiffError::Truncated));
}

#[test]
fn blobs_are_found_and_rebuilt() {
    let old_a = b"the old contents of a".repeat(20);
    let new_a = b"the new contents of a".repeat(20);
    let file = build(&[b"first new file", b"second"], &[(&old_a, &new_a)]);
    let ad = open(&file);
    assert_eq!(ad.blobs_new().len(), 2);
    assert_eq!(ad.blobs_patch().len(), 1);
    let one = ad.create_new_file(&file, 0, hash_stream(b"first new file")).unwrap();
    assert_eq!(one, b"first new file");
    let two = ad.create_new_file(&file, 1, hash_stream(b"second")).unwrap();
    assert_eq!(two, b"second");
    let patched = ad.patch_file(&file, &old_a, 0, hash_stream(&old_a), hash_stream(&new_a)).unwrap();
    assert_eq!(patched, new_a);
}

#[test]
fn hash_mismatches_are_reported() {
    let old_a = b"old".repeat(10);
    let new_a = b"new".repeat(10);
    let file = build(&[b"content"], &[(&old_a, &new_a)]);
    let ad = open(&file);
    let actual = hash_stream(b"content");
    assert_eq!(
        ad.create_new_file(&file, 0, actual ^ 1),
        Err(FoldiffError::DestinationMismatch { expected: actual ^ 1, actual })
    );
    assert_eq!(ad.create_new_file(&file, 5, actual), Err(FoldiffError::IndexOutOfRange));
    let src = hash_stream(&old_a);
    assert_eq!(
        ad.patch_file(&file, &old_a, 0, src ^ 1, hash_stream(&new_a)),
        Err(FoldiffError::SourceMismatch { expected: src ^ 1, actual: src })
    );
    let dst = hash_stream(&new_a);
    assert_eq!(
        ad.patch_file(&file, &old_a, 0, src, dst ^ 1),
        Err(FoldiffError::DestinationMismatch { expected: dst ^ 1, actual: dst })
    );
    assert_eq!(ad.patch_file(&file, &old_a, 1, src, dst), Err(FoldiffError::IndexOutOfRange));
    assert_eq!(check_hash(3, 3, true), Ok(()));
    assert_eq!(check_hash(3, 4, true), Err(FoldiffError::SourceMismatch { expected: 3, actual: 4 }));
}

#[test]
fn new_blob_is_compressed() {
    let data = vec![7u8; 4096];
    let rec = write_new_blob(&data, 7, 0).unwrap();
    assert!(rec.len() < data.len());
    assert_eq!(u64::from_be_bytes(rec[0..8].try_into().unwrap()) as usize, rec.len() - 8);
}

#[test]
fn duplicate_sources() {
    let from_old = DuplicatedFile { hash: 1, idx: SENTINEL, old_paths: vec!["o".into()], new_paths: vec!["n".into()] };
    assert!(matches!(duplicate_source(&from_old), Ok(DupSource::Old(p)) if p == "o"));
    let from_blob = DuplicatedFile { hash: 1, idx: 3, old_paths: vec![], new_paths: vec!["a".into(), "b".into()] };
    assert!(matches!(duplicate_source(&from_blob), Ok(DupSource::Blob(3))));
    let broken = DuplicatedFile { hash: 1, idx: SENTINEL, old_paths: vec![], new_paths: vec!["n".into()] };
    assert!(matches!(duplicate_source(&broken), Err(FoldiffError::IndexOutOfRange)));
}

fn legacy_file() -> Vec<u8> {
    let mut f = b"FLDF".to_vec();
    f.extend_from_slice(RAW);
    f.extend(count_header(1));
    f.extend(write_new_blob(b"legacy new file", 3, 0).unwrap());
    f.extend(count_header(0));
    f
}

#[test]
fn upgrade_compresses_manifest_and_keeps_blobs() {
    let legacy = legacy_file();
    let up = auto_upgrade(&legacy, RAW.len()).unwrap();
    assert_eq!(&up[0..8], b"FLDF\x00\x01\x01\x00");
    let (raw, end) = read_110(&up, 8).unwrap();
    assert_eq!(raw, RAW);
    assert_eq!(&up[end..], &legacy[4 + RAW.len()..]);
    let ad = open(&up);
    assert_eq!(ad.create_new_file(&up, 0, hash_stream(b"legacy new file")).unwrap(), b"legacy new file");
}

#[test]
fn upgrade_refuses_current_and_broken_files() {
    let current = build(&[], &[]);
    assert_eq!(auto_upgrade(&current, 0), Err(FoldiffError::UpToDate));
    assert_eq!(auto_upgrade(b"NOPE\x01", 0), Err(FoldiffError::BadMagic));
    assert_eq!(auto_upgrade(&legacy_file(), 10_000), Err(FoldiffError::Truncated));
}

#[test]
fn legacy_manifest_version_is_checked() {
    assert_eq!(DiffManifest::with_version(VERSION_NUMBER_1_0_0_R).check_legacy_version(), Ok(()));
    assert_eq!(
        DiffManifest::with_version(VERSION_NUMBER_1_1_0).check_legacy_version(),
        Err(FoldiffError::UnknownVersion(VERSION_NUMBER_1_1_0))
    );
}

#[test]
fn manifest_expectations_cover_both_trees() {
    let mut m = DiffManifest::with_version(VERSION_NUMBER_1_1_0);
    m.untouched_files.push((1, "u".into()));
    m.deleted_files.push((2, "d".into()));
    m.new_files.push(NewFile { hash: 3, index: 0, path: "n".into() });
    m.patched_files.push(PatchedFile { old_hash: 4, new_hash: 5, index: 0, path: "p".into() });
    m.duplicated_files.push(DuplicatedFile { hash: 6, idx: SENTINEL, old_paths: vec!["x".into()], new_paths: vec!["y".into(), "z".into()] });
    let e: Vec<(u64, bool, String)> = expected_files(&m).into_iter().map(|e| (e.hash, e.in_new, e.path)).collect();
    let want: Vec<(u64, bool, String)> = vec![
        (1, false, "u".into()),
        (1, true, "u".into()),
        (2, false, "d".into()),
        (3, true, "n".into()),
        (4, false, "p".into()),
        (5, true, "p".into()),
        (6, false, "x".into()),
        (6, true, "y".into()),
        (6, true, "z".into()),
    ];
    assert_eq!(e, want);
}

#[test]
fn listings_compare_by_name() {
    let a: Vec<String> = vec!["x".into(), "y".into(), "z".into()];
    let b: Vec<String> = vec!["z".into(), "w".into(), "x".into()];
    let c = compare_names(&a, &b);
    assert_eq!(c.only_first, vec!["y".to_string()]);
    assert_eq!(c.only_second, vec!["w".to_string()]);
    assert_eq!(c.both, vec!["x".to_string(), "z".to_string()]);
}

#[test]
fn patches_can_be_applied_chunk_by_chunk() {
    let old_a = b"chunked old content ".repeat(50);
    let new_a = b"chunked new content ".repeat(50);
    let file = build(&[], &[(&old_a, &new_a)]);
    let ad = open(&file);
    let start = ad.patch_blob_start(&file, 0).unwrap();
    assert_eq!(ad.patch_blob_start(&file, 1), Err(FoldiffError::IndexOutOfRange));
    let delta = &file[start..];
    let steps = delta_plan(delta, old_a.len()).unwrap();
    assert_eq!(steps.len(), 1);
    assert_eq!((steps[0].old_start, steps[0].old_end), (0, old_a.len()));
    let mut out = Vec::new();
    for st in &steps {
        out.extend(apply_chunk(&old_a[st.old_start..st.old_end], &delta[st.frame_start..st.frame_end]).unwrap());
    }
    assert_eq!(out, new_a);
    assert_eq!(delta_plan(&delta[..4], old_a.len()).err(), Some(FoldiffError::Truncated));
    assert!(matches!(apply_chunk(b"x", b"not a frame"), Err(FoldiffError::Codec(_))));
}

#[test]
fn vouched_files_are_judged() {
    let e = ExpectedFile { hash: 7, in_new: true, path: "p".into() };
    assert_eq!(check_expected(&e, Some(7)), Ok(()));
    assert_eq!(check_expected(&e, None), Err(FoldiffError::MissingFile));
    assert_eq!(check_expected(&e, Some(8)), Err(FoldiffError::DestinationMismatch { expected: 7, actual: 8 }));
    let o = ExpectedFile { hash: 7, in_new: false, path: "p".into() };
    assert_eq!(check_expected(&o, Some(8)), Err(FoldiffError::SourceMismatch { expected: 7, actual: 8 }));
}

#[test]
fn corrupt_new_blob_is_a_codec_error() {
    let mut file = build(&[b"some new content here"], &[]);
    let ad = open(&file);
    let (a, _) = ad.new_blob_range(&file, 0).unwrap();
    file[a] ^= 0xff;
    assert!(matches!(ad.create_new_file(&file, 0, hash_stream(b"some new content here")), Err(FoldiffError::Codec(_))));
}
