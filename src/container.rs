//! The diff file: magic, version tag, manifest, new-blob array, patch-blob array.
use crate::common::{
    FoldiffError, MAGIC_BYTES, VERSION_NUMBER_1_0_0_R, VERSION_NUMBER_1_1_0, VERSION_NUMBER_LATEST,
};
use crate::compress::{decode_frame, encode_frame, frame_decoded, frame_decodes, io_message};
use crate::zstddiff::{
    be8, be_value, delta_bytes, frames, int_ranges, lemma_be_round_trip, lemma_parse_frames_of,
    lemma_parse_frames_ranges, lemma_pow256_8, parse_frames, push_u64, read_frames, read_u64,
};
use vstd::prelude::*;

verus! {

/// Where a version tag leaves the reader, and which layout follows.
pub open spec fn spec_read_version(s: Seq<u8>) -> Result<(Seq<u8>, int), FoldiffError> {
    if s.len() < 4 {
        Err(FoldiffError::Truncated)
    } else if s.subrange(0, 4) != MAGIC_BYTES@ {
        Err(FoldiffError::BadMagic)
    } else if s.len() < 8 {
        Err(FoldiffError::Truncated)
    } else if s[4] == 0 {
        if s.subrange(4, 8) == VERSION_NUMBER_1_1_0@ {
            Ok((VERSION_NUMBER_1_1_0@, 8))
        } else {
            Err(FoldiffError::UnknownVersion([s[4], s[5], s[6], s[7]]))
        }
    } else {
        // a legacy manifest starts right after the magic
        Ok((VERSION_NUMBER_1_0_0_R@, 4))
    }
}

/// Checks the magic bytes and reads the version tag. Returns the tag and the position at
/// which the manifest starts: after the tag for the current layout, right after the magic
/// for the legacy one, whose first manifest byte is never zero.
pub fn verify_and_read_ver(s: &[u8]) -> (r: Result<([u8; 4], usize), FoldiffError>)
    ensures
        match spec_read_version(s@) {
            Ok((v, p)) => r matches Ok((tag, pos)) && tag@ == v && pos == p,
            Err(e) => r == Err::<([u8; 4], usize), FoldiffError>(e),
        },
{
    if s.len() < 4 {
        return Err(FoldiffError::Truncated);
    }
    if s[0] != MAGIC_BYTES[0] || s[1] != MAGIC_BYTES[1] || s[2] != MAGIC_BYTES[2] || s[3] != MAGIC_BYTES[3] {
        assert(s@.subrange(0, 4) != MAGIC_BYTES@) by {
            if s@.subrange(0, 4) == MAGIC_BYTES@ {
                assert(s@.subrange(0, 4)[0] == s@[0]);
                assert(s@.subrange(0, 4)[1] == s@[1]);
                assert(s@.subrange(0, 4)[2] == s@[2]);
                assert(s@.subrange(0, 4)[3] == s@[3]);
            }
        }
        return Err(FoldiffError::BadMagic);
    }
    assert(s@.subrange(0, 4) =~= MAGIC_BYTES@);
    if s.len() < 8 {
        return Err(FoldiffError::Truncated);
    }
    if s[4] == 0 {
        let tag: [u8; 4] = [s[4], s[5], s[6], s[7]];
        if s[5] == VERSION_NUMBER_1_1_0[1] && s[6] == VERSION_NUMBER_1_1_0[2] && s[7] == VERSION_NUMBER_1_1_0[3] {
            assert(s@.subrange(4, 8) =~= VERSION_NUMBER_1_1_0@);
            Ok((VERSION_NUMBER_1_1_0, 8))
        } else {
            assert(s@.subrange(4, 8) != VERSION_NUMBER_1_1_0@) by {
                if s@.subrange(4, 8) == VERSION_NUMBER_1_1_0@ {
                    assert(s@.subrange(4, 8)[1] == s@[5]);
                    assert(s@.subrange(4, 8)[2] == s@[6]);
                    assert(s@.subrange(4, 8)[3] == s@[7]);
                }
            }
            Err(FoldiffError::UnknownVersion(tag))
        }
    } else {
        Ok((VERSION_NUMBER_1_0_0_R, 4))
    }
}

/// The compressed manifest frame of the current layout at `pos`: its range, after the
/// eight-byte length.
pub open spec fn spec_manifest_frame(s: Seq<u8>, pos: int) -> Option<(int, int)> {
    if pos < 0 || pos + 8 > s.len() {
        None
    } else {
        let m = be_value(s.subrange(pos, pos + 8));
        if pos + 8 + m > s.len() {
            None
        } else {
            Some((pos + 8, pos + 8 + m))
        }
    }
}

/// Reads the compressed manifest of the current layout at `pos` and decompresses it.
/// Returns the serialized manifest and the position after the frame.
pub fn read_110(s: &[u8], pos: usize) -> (r: Result<(Vec<u8>, usize), FoldiffError>)
    ensures
        spec_manifest_frame(s@, pos as int) is None <==> r == Err::<(Vec<u8>, usize), FoldiffError>(
            FoldiffError::Truncated,
        ),
        spec_manifest_frame(s@, pos as int) matches Some((a, b)) ==> {
            &&& r is Ok <==> frame_decodes(s@.subrange(a, b))
            &&& r matches Ok((raw, end)) ==> end == b && raw@ == frame_decoded(s@.subrange(a, b))
            &&& r matches Err(e) ==> e is Codec
        },
{
    let m = match read_u64(s, pos) {
        Some(m) => m,
        None => return Err(FoldiffError::Truncated),
    };
    if m > (s.len() - pos - 8) as u64 {
        return Err(FoldiffError::Truncated);
    }
    let a = pos + 8;
    let b = a + m as usize;
    match decode_frame(&s[a..b]) {
        Ok(raw) => Ok((raw, b)),
        Err(e) => Err(FoldiffError::Codec(io_message(&e))),
    }
}

/// Where the chunked delta at `pos` ends, if its framing is whole.
pub open spec fn delta_end(s: Seq<u8>, pos: int) -> Option<int> {
    if pos < 0 || pos + 8 > s.len() {
        None
    } else {
        match parse_frames(s, pos + 8, be_value(s.subrange(pos, pos + 8))) {
            Some((_, end)) => Some(end),
            None => None,
        }
    }
}

/// The offsets of `count` consecutive chunked deltas starting at `pos`, and where the last ends.
pub open spec fn parse_patches(s: Seq<u8>, pos: int, count: nat) -> Option<(Seq<int>, int)>
    decreases count,
{
    if count == 0 {
        Some((Seq::empty(), pos))
    } else {
        match delta_end(s, pos) {
            Some(e) => if e <= pos {
                None
            } else {
                match parse_patches(s, e, (count - 1) as nat) {
                    Some((offs, end)) => Some((seq![pos] + offs, end)),
                    None => None,
                }
            },
            None => None,
        }
    }
}

/// The new-blob offsets, patch-blob offsets and end of the blob arrays starting at `pos`.
/// A blob's offset is that of its eight-byte length header.
pub open spec fn parse_blobs(s: Seq<u8>, pos: int) -> Option<(Seq<int>, Seq<int>, int)> {
    if pos < 0 || pos + 8 > s.len() {
        None
    } else {
        let kn = be_value(s.subrange(pos, pos + 8));
        match parse_frames(s, pos + 8, kn) {
            Some((rs, e)) => if e + 8 > s.len() {
                None
            } else {
                let kp = be_value(s.subrange(e, e + 8));
                match parse_patches(s, e + 8, kp) {
                    Some((offs, end)) => Some(
                        (rs.map_values(|r: (int, int)| r.0 - 8), offs, end),
                    ),
                    None => None,
                }
            },
            None => None,
        }
    }
}

/// A list of file offsets as integers.
pub open spec fn offsets(v: Seq<u64>) -> Seq<int> {
    v.map_values(|o: u64| o as int)
}

/// Where each blob of a diff file starts.
pub struct BlobIndex {
    pub blobs_new: Vec<u64>,
    pub blobs_patch: Vec<u64>,
}

/// Where the chunked delta at `pos` ends.
fn skip_delta(s: &[u8], pos: usize) -> (r: Option<usize>)
    requires
        pos <= s@.len(),
    ensures
        match r {
            Some(e) => delta_end(s@, pos as int) == Some(e as int) && pos < e <= s@.len(),
            None => delta_end(s@, pos as int) is None,
        },
{
    let _len = s.len();
    let n = match read_u64(s, pos) {
        Some(n) => n,
        None => return None,
    };
    match read_frames(s, pos + 8, n) {
        Some((_, e)) => {
            proof {
                lemma_parse_frames_ranges(s@, pos + 8, n as nat);
            }
            Some(e)
        },
        None => None,
    }
}

/// Walks the two blob arrays that start at `pos` by their length headers alone and records
/// where each blob starts. The arrays must end exactly at the end of `s`.
#[verifier::rlimit(40)]
pub fn index_blobs(s: &[u8], pos: usize) -> (r: Result<BlobIndex, FoldiffError>)
    requires
        pos <= s@.len(),
    ensures
        match parse_blobs(s@, pos as int) {
            None => r == Err::<BlobIndex, FoldiffError>(FoldiffError::Truncated),
            Some((nw, pt, end)) => if end == s@.len() {
                r matches Ok(ix) && offsets(ix.blobs_new@) == nw
                    && offsets(ix.blobs_patch@) == pt
            } else {
                r == Err::<BlobIndex, FoldiffError>(FoldiffError::TrailingBytes)
            },
        },
{
    let _len = s.len();
    let kn = match read_u64(s, pos) {
        Some(k) => k,
        None => return Err(FoldiffError::Truncated),
    };
    let (ranges, e) = match read_frames(s, pos + 8, kn) {
        Some(x) => x,
        None => return Err(FoldiffError::Truncated),
    };
    proof {
        lemma_parse_frames_ranges(s@, pos + 8, kn as nat);
    }
    let mut blobs_new: Vec<u64> = Vec::new();
    let mut i: usize = 0;
    while i < ranges.len()
        invariant
            i <= ranges@.len(),
            blobs_new@.len() == i,
            forall|j: int| 0 <= j < int_ranges(ranges@).len() ==> pos + 8 <= #[trigger] int_ranges(ranges@)[j].0 <= int_ranges(ranges@)[j].1 <= s@.len(),
            forall|j: int| 0 <= j < i ==> blobs_new@[j] as int == #[trigger] int_ranges(ranges@)[j].0 - 8,
        decreases ranges@.len() - i,
    {
        assert(int_ranges(ranges@)[i as int].0 == ranges@[i as int].0 as int);
        blobs_new.push((ranges[i].0 - 8) as u64);
        i = i + 1;
    }
    assert(offsets(blobs_new@) =~= int_ranges(ranges@).map_values(|r: (int, int)| r.0 - 8));
    let kp = match read_u64(s, e) {
        Some(k) => k,
        None => return Err(FoldiffError::Truncated),
    };
    let mut blobs_patch: Vec<u64> = Vec::new();
    let mut p: usize = e + 8;
    let mut k: u64 = 0;
    while k < kp
        invariant
            k <= kp,
            e + 8 <= p <= s@.len(),
            blobs_patch@.len() == k,
            pos + 8 <= e + 8 <= s@.len(),
            parse_frames(s@, pos + 8, kn as nat) == Some((int_ranges(ranges@), e as int)),
            kn as nat == be_value(s@.subrange(pos as int, pos + 8)),
            kp as nat == be_value(s@.subrange(e as int, e + 8)),
            offsets(blobs_new@) == int_ranges(ranges@).map_values(|r: (int, int)| r.0 - 8),
            parse_patches(s@, e + 8, kp as nat) == match parse_patches(s@, p as int, (kp - k) as nat) {
                Some((offs, end)) => Some((offsets(blobs_patch@) + offs, end)),
                None => None,
            },
        decreases kp - k,
    {
        let next = match skip_delta(s, p) {
            Some(n) => n,
            None => return Err(FoldiffError::Truncated),
        };
        proof {
            let rest = parse_patches(s@, next as int, (kp - k - 1) as nat);
            if rest is Some {
                let (offs, end) = rest.unwrap();
                assert(offsets(blobs_patch@.push(p as u64)) + offs =~= offsets(blobs_patch@) + (seq![p as int] + offs));
            }
        }
        blobs_patch.push(p as u64);
        p = next;
        k = k + 1;
    }
    assert(offsets(blobs_patch@) + Seq::<int>::empty() =~= offsets(blobs_patch@));
    if p != s.len() {
        return Err(FoldiffError::TrailingBytes);
    }
    Ok(BlobIndex { blobs_new, blobs_patch })
}


/// Magic, current version tag, then the compressed manifest frame after its length.
pub open spec fn header_bytes(frame: Seq<u8>) -> Seq<u8> {
    MAGIC_BYTES@ + VERSION_NUMBER_LATEST@ + be8(frame.len() as u64) + frame
}

/// Chunked deltas one after another.
pub open spec fn concat_deltas(ds: Seq<Seq<Seq<u8>>>) -> Seq<u8>
    decreases ds.len(),
{
    if ds.len() == 0 {
        Seq::empty()
    } else {
        delta_bytes(ds[0]) + concat_deltas(ds.drop_first())
    }
}

/// A whole diff file: header, the new-blob array, the patch-blob array.
pub open spec fn container_bytes(
    frame: Seq<u8>,
    new_frames: Seq<Seq<u8>>,
    deltas: Seq<Seq<Seq<u8>>>,
) -> Seq<u8> {
    header_bytes(frame) + be8(new_frames.len() as u64) + frames(new_frames) + be8(
        deltas.len() as u64,
    ) + concat_deltas(deltas)
}

/// Every length that a container stores fits its eight-byte header.
pub open spec fn fits_headers(frame: Seq<u8>, new_frames: Seq<Seq<u8>>, deltas: Seq<Seq<Seq<u8>>>) -> bool {
    &&& frame.len() <= u64::MAX
    &&& new_frames.len() <= u64::MAX
    &&& deltas.len() <= u64::MAX
    &&& forall|i: int| 0 <= i < new_frames.len() ==> #[trigger] new_frames[i].len() <= u64::MAX
    &&& forall|i: int, j: int|
        0 <= i < deltas.len() && 0 <= j < deltas[i].len() ==> #[trigger] deltas[i][j].len() <= u64::MAX
    &&& forall|i: int| 0 <= i < deltas.len() ==> #[trigger] deltas[i].len() <= u64::MAX
}

/// The chunked delta that opens the bytes after `x` ends where its own bytes end.
#[verifier::rlimit(40)]
proof fn lemma_delta_end_of(x: Seq<u8>, d: Seq<Seq<u8>>, y: Seq<u8>)
    requires
        forall|j: int| 0 <= j < d.len() ==> #[trigger] d[j].len() <= u64::MAX,
        d.len() <= u64::MAX,
    ensures
        delta_end(x + delta_bytes(d) + y, x.len() as int) == Some((x.len() + delta_bytes(d).len()) as int),
        delta_bytes(d).len() >= 8,
{
    let s = x + delta_bytes(d) + y;
    let h = be8(d.len() as u64);
    lemma_pow256_8();
    lemma_be_round_trip(d.len(), 8);
    let p = x.len() as int;
    assert(s =~= (x + h) + frames(d) + y);
    assert(s.subrange(p, p + 8) =~= h);
    lemma_parse_frames_of(x + h, d, y);
}

proof fn lemma_parse_patches_of(x: Seq<u8>, ds: Seq<Seq<Seq<u8>>>, rest: Seq<u8>)
    requires
        forall|i: int, j: int|
            0 <= i < ds.len() && 0 <= j < ds[i].len() ==> #[trigger] ds[i][j].len() <= u64::MAX,
        forall|i: int| 0 <= i < ds.len() ==> #[trigger] ds[i].len() <= u64::MAX,
    ensures
        ({
            let s = x + concat_deltas(ds) + rest;
            &&& parse_patches(s, x.len() as int, ds.len()) is Some
            &&& parse_patches(s, x.len() as int, ds.len()).unwrap().1 == x.len() + concat_deltas(ds).len()
            &&& parse_patches(s, x.len() as int, ds.len()).unwrap().0.len() == ds.len()
        }),
    decreases ds.len(),
{
    if ds.len() > 0 {
        let s = x + concat_deltas(ds) + rest;
        let d0 = ds[0];
        let tail = ds.drop_first();
        assert forall|i: int, j: int| 0 <= i < tail.len() && 0 <= j < tail[i].len() implies #[trigger] tail[i][j].len() <= u64::MAX by {
            assert(tail[i] == ds[i + 1]);
        }
        assert forall|i: int| 0 <= i < tail.len() implies #[trigger] tail[i].len() <= u64::MAX by {
            assert(tail[i] == ds[i + 1]);
        }
        assert forall|j: int| 0 <= j < d0.len() implies #[trigger] d0[j].len() <= u64::MAX by {
            assert(ds[0][j].len() <= u64::MAX);
        }
        let x2 = x + delta_bytes(d0);
        lemma_parse_patches_of(x2, tail, rest);
        assert(s =~= x2 + concat_deltas(tail) + rest);
        assert(s =~= x + delta_bytes(d0) + (concat_deltas(tail) + rest));
        lemma_delta_end_of(x, d0, concat_deltas(tail) + rest);
    }
}

/// Container self-description: a reader that follows only the length headers of a diff
/// file finds the current version, the manifest frame, every blob, and stops exactly at the
/// end of the file; bytes appended after it are left over, which the reader refuses.
#[verifier::rlimit(40)]
pub proof fn lemma_container_self_describing(
    frame: Seq<u8>,
    new_frames: Seq<Seq<u8>>,
    deltas: Seq<Seq<Seq<u8>>>,
    rest: Seq<u8>,
)
    requires
        fits_headers(frame, new_frames, deltas),
    ensures
        ({
            let c = container_bytes(frame, new_frames, deltas);
            let s = c + rest;
            &&& spec_read_version(s) == Ok::<(Seq<u8>, int), FoldiffError>((VERSION_NUMBER_1_1_0@, 8))
            &&& spec_manifest_frame(s, 8) == Some((16int, 16 + frame.len() as int))
            &&& s.subrange(16, 16 + frame.len() as int) == frame
            &&& parse_blobs(s, 16 + frame.len() as int) matches Some((nw, pt, end)) && end == c.len()
                && nw.len() == new_frames.len() && pt.len() == deltas.len()
        }),
{
    let c = container_bytes(frame, new_frames, deltas);
    let s = c + rest;
    lemma_pow256_8();
    lemma_be_round_trip(frame.len(), 8);
    lemma_be_round_trip(new_frames.len(), 8);
    lemma_be_round_trip(deltas.len(), 8);
    let hb = header_bytes(frame);
    assert(MAGIC_BYTES@ =~= seq![0x46u8, 0x4c, 0x44, 0x46]);
    assert(VERSION_NUMBER_LATEST@ =~= seq![0u8, 1, 1, 0]);
    assert(VERSION_NUMBER_1_1_0@ =~= seq![0u8, 1, 1, 0]);
    assert(s.subrange(0, 4) =~= MAGIC_BYTES@);
    assert(s.subrange(4, 8) =~= VERSION_NUMBER_1_1_0@);
    assert(s[4] == 0);
    assert(s.subrange(8, 16) =~= be8(frame.len() as u64));
    assert(s.subrange(16, 16 + frame.len() as int) =~= frame);
    let x1 = hb + be8(new_frames.len() as u64);
    let tail1 = be8(deltas.len() as u64) + concat_deltas(deltas) + rest;
    assert(s =~= x1 + frames(new_frames) + tail1);
    lemma_parse_frames_of(x1, new_frames, tail1);
    let p = hb.len() as int;
    assert(s.subrange(p, p + 8) =~= be8(new_frames.len() as u64));
    let e = x1.len() + frames(new_frames).len();
    assert(s.subrange(e as int, e as int + 8) =~= be8(deltas.len() as u64));
    let x2 = x1 + frames(new_frames) + be8(deltas.len() as u64);
    assert(s =~= x2 + concat_deltas(deltas) + rest);
    lemma_parse_patches_of(x2, deltas, rest);
    lemma_parse_frames_ranges(s, p + 8, new_frames.len());
}

/// Compression level of the manifest frame.
pub const MANIFEST_LEVEL: i32 = 19;

/// Compresses the serialized manifest (level 19) and frames it behind the magic and the
/// current version tag.
pub fn write_manifest(raw: &[u8]) -> (r: Result<Vec<u8>, FoldiffError>)
    ensures
        r matches Ok(v) ==> exists|f: Seq<u8>|
            frame_decodes(f) && frame_decoded(f) == raw@ && v@ == header_bytes(f),
        r matches Err(e) ==> e is Codec,
{
    match encode_frame(raw, MANIFEST_LEVEL, 0, false, false) {
        Ok(f) => {
            let mut out: Vec<u8> = Vec::new();
            let mut i: usize = 0;
            while i < 4
                invariant
                    i <= 4,
                    out@ == MAGIC_BYTES@.subrange(0, i as int),
                decreases 4 - i,
            {
                out.push(MAGIC_BYTES[i]);
                i = i + 1;
                assert(out@ =~= MAGIC_BYTES@.subrange(0, i as int));
            }
            let mut j: usize = 0;
            while j < 4
                invariant
                    j <= 4,
                    out@ == MAGIC_BYTES@ + VERSION_NUMBER_LATEST@.subrange(0, j as int),
                decreases 4 - j,
            {
                out.push(VERSION_NUMBER_LATEST[j]);
                j = j + 1;
                assert(out@ =~= MAGIC_BYTES@ + VERSION_NUMBER_LATEST@.subrange(0, j as int));
            }
            let mut f = f;
            push_u64(&mut out, f.len() as u64);
            let ghost fv = f@;
            out.append(&mut f);
            assert(out@ =~= header_bytes(fv));
            Ok(out)
        },
        Err(e) => Err(FoldiffError::Codec(io_message(&e))),
    }
}

/// Compresses one new file into a self-contained frame, behind its eight-byte length.
pub fn write_new_blob(data: &[u8], level: u8, threads: usize) -> (r: Result<Vec<u8>, FoldiffError>)
    ensures
        r matches Ok(v) ==> exists|f: Seq<u8>|
            frame_decodes(f) && frame_decoded(f) == data@ && v@ == be8(f.len() as u64) + f,
        r matches Err(e) ==> e is Codec,
{
    let t: u32 = if threads > u32::MAX as usize {
        u32::MAX
    } else {
        threads as u32
    };
    match encode_frame(data, level as i32, t, false, false) {
        Ok(f) => {
            let mut f = f;
            let mut out: Vec<u8> = Vec::new();
            push_u64(&mut out, f.len() as u64);
            let ghost fv = f@;
            out.append(&mut f);
            Ok(out)
        },
        Err(e) => Err(FoldiffError::Codec(io_message(&e))),
    }
}

/// The eight-byte count that opens each blob array.
pub fn count_header(k: u64) -> (r: Vec<u8>)
    ensures
        r@ == be8(k),
{
    let mut out: Vec<u8> = Vec::new();
    push_u64(&mut out, k);
    assert(out@ =~= be8(k));
    out
}

} // verus!
