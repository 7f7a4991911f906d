//! Applying a diff: the blob index of a diff file and the per-file work of the four tasks.
use crate::common::FoldiffError;
use crate::compress::{decode_frame, frame_decoded, frame_decodes, io_message};
use crate::container::{index_blobs, offsets, parse_blobs};
use crate::hash::{hash_stream, xxh64};
use crate::manifest::{DiffManifest, DuplicatedFile, SENTINEL};
use crate::zstddiff::{applied, apply, be_value, delta_decodes, parse_delta, read_u64};
use vstd::prelude::*;

verus! {

/// A diff file read for applying: its manifest and where each blob starts.
pub struct ApplyingDiff {
    manifest: DiffManifest,
    blobs_new: Vec<u64>,
    blobs_patch: Vec<u64>,
}

/// Where new blob `index` lies in the diff file `s`: the range of its compressed frame.
pub open spec fn spec_new_blob(s: Seq<u8>, offs: Seq<u64>, index: u64) -> Result<(int, int), FoldiffError> {
    if index >= offs.len() {
        Err(FoldiffError::IndexOutOfRange)
    } else {
        let o = offs[index as int] as int;
        if o + 8 > s.len() {
            Err(FoldiffError::Truncated)
        } else {
            let l = be_value(s.subrange(o, o + 8));
            if o + 8 + l > s.len() {
                Err(FoldiffError::Truncated)
            } else {
                Ok((o + 8, o + 8 + l))
            }
        }
    }
}

/// Where the source of a duplicated entry's content is: an old file, or a new blob.
pub enum DupSource {
    /// Copy the old file at this path.
    Old(String),
    /// Decompress this new blob into the first new path, then copy that file to the others.
    Blob(u64),
}

/// Checks a hash computed over content against the value that the manifest asserts.
pub fn check_hash(expected: u64, actual: u64, is_source: bool) -> (r: Result<(), FoldiffError>)
    ensures
        r is Ok <==> expected == actual,
        r matches Err(e) ==> e == if is_source {
            FoldiffError::SourceMismatch { expected, actual }
        } else {
            FoldiffError::DestinationMismatch { expected, actual }
        },
{
    if expected == actual {
        Ok(())
    } else if is_source {
        Err(FoldiffError::SourceMismatch { expected, actual })
    } else {
        Err(FoldiffError::DestinationMismatch { expected, actual })
    }
}

/// Where the content of a duplicated entry comes from.
pub fn duplicate_source(d: &DuplicatedFile) -> (r: Result<DupSource, FoldiffError>)
    ensures
        d.idx == SENTINEL && d.old_paths@.len() > 0 ==> (r matches Ok(DupSource::Old(p)) && p@ == d.old_paths@[0]@),
        d.idx != SENTINEL && d.new_paths@.len() > 0 ==> (r matches Ok(DupSource::Blob(b)) && b == d.idx),
        (d.idx == SENTINEL && d.old_paths@.len() == 0) || (d.idx != SENTINEL && d.new_paths@.len() == 0)
            ==> r == Err::<DupSource, FoldiffError>(FoldiffError::IndexOutOfRange),
{
    if d.idx == SENTINEL {
        if d.old_paths.len() == 0 {
            Err(FoldiffError::IndexOutOfRange)
        } else {
            Ok(DupSource::Old(d.old_paths[0].clone()))
        }
    } else if d.new_paths.len() == 0 {
        Err(FoldiffError::IndexOutOfRange)
    } else {
        Ok(DupSource::Blob(d.idx))
    }
}

impl ApplyingDiff {
    pub closed spec fn spec_blobs_new(&self) -> Seq<u64> {
        self.blobs_new@
    }

    pub closed spec fn spec_blobs_patch(&self) -> Seq<u64> {
        self.blobs_patch@
    }

    pub closed spec fn spec_manifest(&self) -> DiffManifest {
        self.manifest
    }

    /// The manifest.
    pub fn manifest(&self) -> (r: &DiffManifest)
        ensures
            *r == self.spec_manifest(),
    {
        &self.manifest
    }

    /// Where each new blob starts (at its length header).
    pub fn blobs_new(&self) -> (r: &Vec<u64>)
        ensures
            r@ == self.spec_blobs_new(),
    {
        &self.blobs_new
    }

    /// Where each patch blob starts (at its chunk count).
    pub fn blobs_patch(&self) -> (r: &Vec<u64>)
        ensures
            r@ == self.spec_blobs_patch(),
    {
        &self.blobs_patch
    }

    /// Indexes the blob arrays of the diff file `s`, which start right after its manifest at
    /// `manifest_end`; `manifest` is what that manifest decoded to.
    pub fn read_diff_from(s: &[u8], manifest: DiffManifest, manifest_end: usize) -> (r: Result<ApplyingDiff, FoldiffError>)
        requires
            manifest_end <= s@.len(),
        ensures
            match parse_blobs(s@, manifest_end as int) {
                None => r == Err::<ApplyingDiff, FoldiffError>(FoldiffError::Truncated),
                Some((nw, pt, end)) => if end == s@.len() {
                    r matches Ok(a) && offsets(a.spec_blobs_new()) == nw && offsets(a.spec_blobs_patch()) == pt
                        && a.spec_manifest() == manifest
                } else {
                    r == Err::<ApplyingDiff, FoldiffError>(FoldiffError::TrailingBytes)
                },
            },
    {
        match index_blobs(s, manifest_end) {
            Ok(ix) => Ok(ApplyingDiff { manifest, blobs_new: ix.blobs_new, blobs_patch: ix.blobs_patch }),
            Err(e) => Err(e),
        }
    }

    /// The range of new blob `index`'s compressed frame within the diff file `s`.
    pub fn new_blob_range(&self, s: &[u8], index: u64) -> (r: Result<(usize, usize), FoldiffError>)
        ensures
            match spec_new_blob(s@, self.spec_blobs_new(), index) {
                Ok((a, b)) => r matches Ok((x, y)) && x == a && y == b,
                Err(e) => r == Err::<(usize, usize), FoldiffError>(e),
            },
    {
        let _len = s.len();
        if index >= self.blobs_new.len() as u64 {
            return Err(FoldiffError::IndexOutOfRange);
        }
        let o = self.blobs_new[index as usize];
        if o > s.len() as u64 {
            return Err(FoldiffError::Truncated);
        }
        let l = match read_u64(s, o as usize) {
            Some(l) => l,
            None => return Err(FoldiffError::Truncated),
        };
        if l > (s.len() - o as usize - 8) as u64 {
            return Err(FoldiffError::Truncated);
        }
        Ok((o as usize + 8, o as usize + 8 + l as usize))
    }

    /// Rebuilds a file stored whole in new blob `index` and checks that it hashes to `hash`.
    pub fn create_new_file(&self, s: &[u8], index: u64, hash: u64) -> (r: Result<Vec<u8>, FoldiffError>)
        ensures
            match spec_new_blob(s@, self.spec_blobs_new(), index) {
                Err(e) => r == Err::<Vec<u8>, FoldiffError>(e),
                Ok((a, b)) => {
                    let f = s@.subrange(a, b);
                    if !frame_decodes(f) {
                        r matches Err(FoldiffError::Codec(_))
                    } else if xxh64(frame_decoded(f)) != hash {
                        r == Err::<Vec<u8>, FoldiffError>(
                            FoldiffError::DestinationMismatch { expected: hash, actual: xxh64(frame_decoded(f)) },
                        )
                    } else {
                        r matches Ok(v) && v@ == frame_decoded(f)
                    }
                },
            },
    {
        let (a, b) = match self.new_blob_range(s, index) {
            Ok(x) => x,
            Err(e) => return Err(e),
        };
        let data = match decode_frame(&s[a..b]) {
            Ok(d) => d,
            Err(e) => return Err(FoldiffError::Codec(io_message(&e))),
        };
        let h = hash_stream(&data);
        match check_hash(hash, h, false) {
            Ok(()) => Ok(data),
            Err(e) => Err(e),
        }
    }

    /// Where patch blob `index` starts within the diff file `s`.
    pub fn patch_blob_start(&self, s: &[u8], index: u64) -> (r: Result<usize, FoldiffError>)
        ensures
            index >= self.spec_blobs_patch().len() <==> r == Err::<usize, FoldiffError>(FoldiffError::IndexOutOfRange),
            index < self.spec_blobs_patch().len() ==> if self.spec_blobs_patch()[index as int] > s@.len() {
                r == Err::<usize, FoldiffError>(FoldiffError::Truncated)
            } else {
                r == Ok::<usize, FoldiffError>(self.spec_blobs_patch()[index as int] as usize)
            },
    {
        if index >= self.blobs_patch.len() as u64 {
            return Err(FoldiffError::IndexOutOfRange);
        }
        let o = self.blobs_patch[index as usize];
        if o > s.len() as u64 {
            return Err(FoldiffError::Truncated);
        }
        Ok(o as usize)
    }

    /// Rebuilds a patched file from its old content `old` and patch blob `index`, and checks
    /// the hashes of both the source and the result.
    pub fn patch_file(&self, s: &[u8], old: &[u8], index: u64, old_hash: u64, new_hash: u64) -> (r: Result<Vec<u8>, FoldiffError>)
        ensures
            index >= self.spec_blobs_patch().len() <==> r == Err::<Vec<u8>, FoldiffError>(FoldiffError::IndexOutOfRange),
            index < self.spec_blobs_patch().len() ==> {
                let o = self.spec_blobs_patch()[index as int] as int;
                let d = s@.subrange(o, s@.len() as int);
                &&& (o > s@.len() || parse_delta(d) is None) <==> r == Err::<Vec<u8>, FoldiffError>(FoldiffError::Truncated)
                &&& o <= s@.len() && parse_delta(d) is Some && !delta_decodes(old@, d) ==> (r matches Err(FoldiffError::Codec(_)))
                &&& o <= s@.len() && delta_decodes(old@, d) ==> {
                    let out = applied(old@, d).unwrap();
                    if xxh64(old@) != old_hash {
                        r == Err::<Vec<u8>, FoldiffError>(FoldiffError::SourceMismatch { expected: old_hash, actual: xxh64(old@) })
                    } else if xxh64(out) != new_hash {
                        r == Err::<Vec<u8>, FoldiffError>(FoldiffError::DestinationMismatch { expected: new_hash, actual: xxh64(out) })
                    } else {
                        r matches Ok(v) && v@ == out
                    }
                }
            },
    {
        if index >= self.blobs_patch.len() as u64 {
            return Err(FoldiffError::IndexOutOfRange);
        }
        let o = self.blobs_patch[index as usize];
        if o > s.len() as u64 {
            return Err(FoldiffError::Truncated);
        }
        let out = match apply(old, &s[o as usize..s.len()]) {
            Ok(v) => v,
            Err(e) => return Err(e),
        };
        let hs = hash_stream(old);
        match check_hash(old_hash, hs, true) {
            Ok(()) => {},
            Err(e) => return Err(e),
        }
        let hd = hash_stream(&out);
        match check_hash(new_hash, hd, false) {
            Ok(()) => Ok(out),
            Err(e) => Err(e),
        }
    }
}

} // verus!
