use libfoldiff::common::FoldiffError;
use libfoldiff::zstddiff::{
    apply, calc_chunk_num, calc_chunks, chunk_start, diff, push_u64, read_u64, resolve_len, CHUNK_SIZE,
};
use rand::random;

fn small_case(threads: Option<usize>) {
    // 64k
    let mut data_old = vec![0u8; 64_000];
    // set some bits
    for _ in 0..128_000 {
        let oset = (random::<f64>() * data_old.len() as f64) as usize;
        data_old[oset] = random();
    }
    // change it a bit
    let mut data_new = data_old.repeat(2);
    for _ in 0..16_000 {
        let oset = (random::<f64>() * data_new.len() as f64) as usize;
        data_new[oset] = random();
    }

    let d = diff(&data_old, &data_new, None, threads, Some(64_000), None).unwrap();

    let ol = resolve_len(&data_old, None);
    assert_eq!(ol, 64_000);
    let out = apply(&data_old, &d).unwrap();
    let dcsz = out.len() as u64;

    assert_eq!(dcsz, 128_000);
    assert_eq!(data_new, out);
}

#[test]
fn test_zstddiff_small() {
    small_case(None);
}

#[test]
fn zstddiff_test_zstddiff_small() {
    small_case(Some(2));
}

#[test]
fn chunk_count_edges() {
    assert_eq!(calc_chunk_num(0), 1);
    assert_eq!(calc_chunk_num(1), 1);
    assert_eq!(calc_chunk_num(CHUNK_SIZE), 1);
    assert_eq!(calc_chunk_num(CHUNK_SIZE + 1), 2);
    // a 5 GiB file is cut into five chunks
    assert_eq!(calc_chunk_num(5 * (1u64 << 30)), 5);
}

#[test]
fn chunk_bounds_split_evenly() {
    assert_eq!(chunk_start(0, 3, 10), 0);
    assert_eq!(chunk_start(1, 3, 10), 3);
    assert_eq!(chunk_start(2, 3, 10), 6);
    assert_eq!(chunk_start(3, 3, 10), 10);
    assert_eq!(calc_chunks(2, 5), vec![0, 2, 5]);
    assert_eq!(calc_chunks(1, 0), vec![0, 0]);
    // no overflow on the largest lengths
    assert_eq!(chunk_start(1, 2, u64::MAX), u64::MAX / 2);
}

#[test]
fn big_endian_round_trip() {
    let mut v = vec![9u8];
    push_u64(&mut v, 0x0102_0304_0506_0708);
    assert_eq!(v, vec![9, 1, 2, 3, 4, 5, 6, 7, 8]);
    assert_eq!(read_u64(&v, 1), Some(0x0102_0304_0506_0708));
    assert_eq!(read_u64(&v, 2), None);
    assert_eq!(read_u64(&[], 0), None);
}

#[test]
fn empty_files_use_one_empty_chunk() {
    let d = diff(&[], &[], None, None, None, None).unwrap();
    assert_eq!(read_u64(&d, 0), Some(1));
    let out = apply(&[], &d).unwrap();
    assert!(out.is_empty());
}

#[test]
fn empty_old_file_still_carries_new_content() {
    let new = b"fresh content".to_vec();
    let d = diff(&[], &new, Some(3), None, Some(0), Some(new.len() as u64)).unwrap();
    assert_eq!(apply(&[], &d).unwrap(), new);
}

#[test]
fn identical_files_round_trip() {
    let old: Vec<u8> = (0..10_000u32).map(|i| (i % 251) as u8).collect();
    let d = diff(&old, &old, None, None, None, None).unwrap();
    assert!(d.len() < old.len());
    assert_eq!(apply(&old, &d).unwrap(), old);
}

#[test]
fn apply_reads_only_its_own_delta() {
    let old = b"abcdefgh".repeat(100);
    let new = b"abcdXfgh".repeat(100);
    let mut d = diff(&old, &new, None, None, None, None).unwrap();
    d.extend_from_slice(b"trailing blobs of the container");
    assert_eq!(apply(&old, &d).unwrap(), new);
}

#[test]
fn truncated_delta_is_refused() {
    let old = b"0123456789".to_vec();
    let new = b"0123456780".to_vec();
    let d = diff(&old, &new, None, None, None, None).unwrap();
    assert_eq!(apply(&old, &d[..d.len() - 1]), Err(FoldiffError::Truncated));
    assert_eq!(apply(&old, &d[..4]), Err(FoldiffError::Truncated));
    // a chunk count with no chunks behind it
    let mut bad = Vec::new();
    push_u64(&mut bad, 3);
    assert_eq!(apply(&old, &bad), Err(FoldiffError::Truncated));
}

#[test]
fn corrupt_delta_reports_codec_error() {
    let mut bad = Vec::new();
    push_u64(&mut bad, 1);
    push_u64(&mut bad, 4);
    bad.extend_from_slice(&[1, 2, 3, 4]);
    assert!(matches!(apply(b"old", &bad), Err(FoldiffError::Codec(_))));
}
