//! Migrating diff files from the legacy layout to the current one.
use crate::common::{FoldiffError, VERSION_NUMBER_1_0_0_R, VERSION_NUMBER_1_1_0};
use crate::compress::{frame_decoded, frame_decodes};
use crate::container::{
    delta_end, header_bytes, parse_blobs, parse_patches, spec_manifest_frame, spec_read_version,
    verify_and_read_ver, write_manifest,
};
use crate::zstddiff::{be8, be_value, lemma_be_round_trip, lemma_pow256_8, parse_frames};
use vstd::prelude::*;

verus! {

/// The current-layout file for a legacy file `d` whose raw manifest spans `len` bytes after
/// the magic, given the compressed frame `f` of that manifest.
pub open spec fn upgraded(d: Seq<u8>, len: nat, f: Seq<u8>) -> Seq<u8> {
    header_bytes(f) + d.subrange(4 + len as int, d.len() as int)
}

/// Copies `src[from..]` onto the end of `out`.
fn push_tail(out: &mut Vec<u8>, src: &[u8], from: usize)
    requires
        from <= src@.len(),
    ensures
        final(out)@ == old(out)@ + src@.subrange(from as int, src@.len() as int),
{
    let mut i: usize = from;
    while i < src.len()
        invariant
            from <= i <= src@.len(),
            out@ == old(out)@ + src@.subrange(from as int, i as int),
        decreases src@.len() - i,
    {
        out.push(src[i]);
        i = i + 1;
        assert(out@ =~= old(out)@ + src@.subrange(from as int, i as int));
    }
}

/// Rewrites a legacy (`1.0.0-r`) diff file in the current (`1.1.0`) layout: the raw manifest
/// of `manifest_len` bytes after the magic is compressed behind its length; the blobs after it
/// are copied unchanged.
pub fn upgrade_100r_110(src: &[u8], manifest_len: usize) -> (r: Result<Vec<u8>, FoldiffError>)
    ensures
        4 + manifest_len > src@.len() <==> r == Err::<Vec<u8>, FoldiffError>(FoldiffError::Truncated),
        r matches Ok(v) ==> 4 + manifest_len <= src@.len() && exists|f: Seq<u8>|
            frame_decodes(f) && frame_decoded(f) == src@.subrange(4, 4 + manifest_len) && v@ == upgraded(
                src@,
                manifest_len as nat,
                f,
            ),
        r matches Err(e) ==> e is Truncated || e is Codec,
{
    if src.len() < 4 || manifest_len > src.len() - 4 {
        return Err(FoldiffError::Truncated);
    }
    let end = 4 + manifest_len;
    let mut out = match write_manifest(&src[4..end]) {
        Ok(v) => v,
        Err(e) => return Err(e),
    };
    let ghost head = out@;
    push_tail(&mut out, src, end);
    Ok(out)
}

/// Upgrades a diff file to the current layout. `manifest_len` is the byte length of its raw
/// manifest if it is a legacy file (found by decoding it); a current file is refused as
/// already up to date.
pub fn auto_upgrade(src: &[u8], manifest_len: usize) -> (r: Result<Vec<u8>, FoldiffError>)
    ensures
        spec_read_version(src@) matches Err(e) ==> r == Err::<Vec<u8>, FoldiffError>(e),
        spec_read_version(src@) matches Ok((v, _)) && v == VERSION_NUMBER_1_1_0@
            ==> r == Err::<Vec<u8>, FoldiffError>(FoldiffError::UpToDate),
        spec_read_version(src@) matches Ok((v, _)) && v == VERSION_NUMBER_1_0_0_R@ ==> {
            &&& (4 + manifest_len > src@.len() <==> r == Err::<Vec<u8>, FoldiffError>(FoldiffError::Truncated))
            &&& r matches Err(e) ==> e is Truncated || e is Codec
        },
        r matches Ok(v) ==> (spec_read_version(src@) matches Ok((t, p)) && t == VERSION_NUMBER_1_0_0_R@ && p == 4)
            && 4 + manifest_len <= src@.len() && exists|f: Seq<u8>|
            frame_decodes(f) && frame_decoded(f) == src@.subrange(4, 4 + manifest_len) && v@ == upgraded(
                src@,
                manifest_len as nat,
                f,
            ),
{
    let (ver, _pos) = match verify_and_read_ver(src) {
        Ok(x) => x,
        Err(e) => return Err(e),
    };
    if ver[0] == 0 {
        assert(VERSION_NUMBER_1_0_0_R@[0] == 1);
        return Err(FoldiffError::UpToDate);
    }
    upgrade_100r_110(src, manifest_len)
}


pub open spec fn shift_ranges(rs: Seq<(int, int)>, k: int) -> Seq<(int, int)> {
    rs.map_values(|r: (int, int)| (r.0 + k, r.1 + k))
}

pub open spec fn shift_offsets(os: Seq<int>, k: int) -> Seq<int> {
    os.map_values(|o: int| o + k)
}

/// The blob index of `parse_blobs`, moved by `k` bytes.
pub open spec fn shift_blobs(b: Option<(Seq<int>, Seq<int>, int)>, k: int) -> Option<(Seq<int>, Seq<int>, int)> {
    match b {
        Some((nw, pt, end)) => Some((shift_offsets(nw, k), shift_offsets(pt, k), end + k)),
        None => None,
    }
}

#[verifier::rlimit(40)]
proof fn lemma_frames_after(x: Seq<u8>, t: Seq<u8>, q: int, c: nat)
    requires
        0 <= q,
    ensures
        parse_frames(x + t, x.len() + q, c) == match parse_frames(t, q, c) {
            Some((rs, e)) => Some((shift_ranges(rs, x.len() as int), e + x.len())),
            None => None,
        },
    decreases c,
{
    let s = x + t;
    let p = x.len() + q;
    if c > 0 && q + 8 <= t.len() {
        assert(s.subrange(p, p + 8) =~= t.subrange(q, q + 8));
        let l = be_value(t.subrange(q, q + 8));
        if q + 8 + l <= t.len() {
            lemma_frames_after(x, t, q + 8 + l, (c - 1) as nat);
            let inner = parse_frames(t, q + 8 + l, (c - 1) as nat);
            if inner is Some {
                let (rs, e) = inner.unwrap();
                assert(shift_ranges(seq![(q + 8, q + 8 + l)] + rs, x.len() as int) =~= seq![
                    (p + 8, p + 8 + l),
                ] + shift_ranges(rs, x.len() as int));
            }
        }
    }
}

#[verifier::rlimit(40)]
proof fn lemma_patches_after(x: Seq<u8>, t: Seq<u8>, q: int, c: nat)
    requires
        0 <= q,
    ensures
        parse_patches(x + t, x.len() + q, c) == match parse_patches(t, q, c) {
            Some((os, e)) => Some((shift_offsets(os, x.len() as int), e + x.len())),
            None => None,
        },
    decreases c,
{
    let s = x + t;
    let p = x.len() + q;
    if c > 0 {
        if q + 8 <= t.len() {
            assert(s.subrange(p, p + 8) =~= t.subrange(q, q + 8));
            lemma_frames_after(x, t, q + 8, be_value(t.subrange(q, q + 8)));
        }
        assert(delta_end(s, p) == match delta_end(t, q) {
            Some(e) => Some(e + x.len()),
            None => None,
        });
        if delta_end(t, q) is Some {
            let e = delta_end(t, q).unwrap();
            if e > q {
                lemma_patches_after(x, t, e, (c - 1) as nat);
                let inner = parse_patches(t, e, (c - 1) as nat);
                if inner is Some {
                    let (os, end) = inner.unwrap();
                    assert(shift_offsets(seq![q] + os, x.len() as int) =~= seq![p] + shift_offsets(os, x.len() as int));
                }
            }
        }
    }
}

/// Prefixing bytes moves every blob that the reader finds by their length.
#[verifier::rlimit(40)]
proof fn lemma_blobs_after(x: Seq<u8>, t: Seq<u8>)
    ensures
        parse_blobs(x + t, x.len() as int) == shift_blobs(parse_blobs(t, 0), x.len() as int),
{
    let s = x + t;
    let p = x.len() as int;
    if 8 <= t.len() {
        assert(s.subrange(p, p + 8) =~= t.subrange(0, 8));
        let kn = be_value(t.subrange(0, 8));
        lemma_frames_after(x, t, 8, kn);
        let fr = parse_frames(t, 8, kn);
        if fr is Some {
            let (rs, e) = fr.unwrap();
            lemma_parse_frames_nonneg(t, 8, kn);
            if e + 8 <= t.len() {
                assert(s.subrange(e + p, e + p + 8) =~= t.subrange(e, e + 8));
                let kp = be_value(t.subrange(e, e + 8));
                lemma_patches_after(x, t, e + 8, kp);
                assert(shift_ranges(rs, p).map_values(|r: (int, int)| r.0 - 8) =~= shift_offsets(
                    rs.map_values(|r: (int, int)| r.0 - 8),
                    p,
                ));
            }
        }
    }
}

proof fn lemma_parse_frames_nonneg(s: Seq<u8>, pos: int, count: nat)
    requires
        0 <= pos,
        parse_frames(s, pos, count) is Some,
    ensures
        pos <= parse_frames(s, pos, count).unwrap().1,
    decreases count,
{
    if count > 0 {
        let l = be_value(s.subrange(pos, pos + 8));
        lemma_parse_frames_nonneg(s, pos + 8 + l, (count - 1) as nat);
    }
}

/// Upgrading preserves what a diff means: the upgraded file reads as the current layout, its
/// manifest frame decodes, and to the legacy file's raw manifest, and its blobs are the legacy
/// file's blobs, byte for byte, each moved by the same distance.
pub proof fn lemma_upgrade_preserves(d: Seq<u8>, len: nat, f: Seq<u8>)
    requires
        spec_read_version(d) == Ok::<(Seq<u8>, int), FoldiffError>((VERSION_NUMBER_1_0_0_R@, 4)),
        4 + len <= d.len(),
        frame_decodes(f),
        frame_decoded(f) == d.subrange(4, 4 + len as int),
        f.len() <= u64::MAX,
    ensures
        ({
            let u = upgraded(d, len, f);
            let k = 16 + f.len() - (4 + len);
            &&& spec_read_version(u) == Ok::<(Seq<u8>, int), FoldiffError>((VERSION_NUMBER_1_1_0@, 8))
            &&& spec_manifest_frame(u, 8) == Some((16int, 16 + f.len() as int))
            &&& frame_decodes(u.subrange(16, 16 + f.len() as int))
            &&& frame_decoded(u.subrange(16, 16 + f.len() as int)) == d.subrange(4, 4 + len as int)
            &&& parse_blobs(u, 16 + f.len() as int) == shift_blobs(parse_blobs(d, 4 + len as int), k)
            &&& u.subrange(16 + f.len() as int, u.len() as int) == d.subrange(4 + len as int, d.len() as int)
        }),
{
    let u = upgraded(d, len, f);
    let t = d.subrange(4 + len as int, d.len() as int);
    let h = header_bytes(f);
    assert(u =~= h + t);
    lemma_header_reads(f, t);
    assert(u.subrange(16 + f.len() as int, u.len() as int) =~= t);
    lemma_blobs_after(h, t);
    let x = d.subrange(0, 4 + len as int);
    assert(d =~= x + t);
    lemma_blobs_after(x, t);
    lemma_shift_twice(parse_blobs(t, 0), x.len() as int, 16 + f.len() - (4 + len));
}

proof fn lemma_shift_twice(b: Option<(Seq<int>, Seq<int>, int)>, j: int, k: int)
    ensures
        shift_blobs(shift_blobs(b, j), k) == shift_blobs(b, j + k),
{
    if b is Some {
        let (nw, pt, end) = b.unwrap();
        assert(shift_offsets(shift_offsets(nw, j), k) =~= shift_offsets(nw, j + k));
        assert(shift_offsets(shift_offsets(pt, j), k) =~= shift_offsets(pt, j + k));
    }
}

/// A file that opens with the current header reads as the current layout, with `f` as its
/// manifest frame.
pub proof fn lemma_header_reads(f: Seq<u8>, t: Seq<u8>)
    requires
        f.len() <= u64::MAX,
    ensures
        ({
            let u = header_bytes(f) + t;
            &&& spec_read_version(u) == Ok::<(Seq<u8>, int), FoldiffError>((VERSION_NUMBER_1_1_0@, 8))
            &&& spec_manifest_frame(u, 8) == Some((16int, 16 + f.len() as int))
            &&& u.subrange(16, 16 + f.len() as int) == f
            &&& header_bytes(f).len() == 16 + f.len()
        }),
{
    let u = header_bytes(f) + t;
    lemma_pow256_8();
    lemma_be_round_trip(f.len(), 8);
    assert(crate::common::MAGIC_BYTES@ =~= seq![0x46u8, 0x4c, 0x44, 0x46]);
    assert(crate::common::VERSION_NUMBER_LATEST@ =~= seq![0u8, 1, 1, 0]);
    assert(VERSION_NUMBER_1_1_0@ =~= seq![0u8, 1, 1, 0]);
    assert(u.subrange(0, 4) =~= crate::common::MAGIC_BYTES@);
    assert(u.subrange(4, 8) =~= VERSION_NUMBER_1_1_0@);
    assert(u[4] == 0);
    assert(u.subrange(8, 16) =~= be8(f.len() as u64));
    assert(u.subrange(16, 16 + f.len() as int) =~= f);
}

} // verus!
