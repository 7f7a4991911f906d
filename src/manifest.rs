//! The manifest: five typed categories of files, with indices into the two blob arrays.
use crate::common::VERSION_NUMBER_1_0_0_R;
use crate::common::FoldiffError;
use vstd::prelude::*;

verus! {

/// `idx` of a duplicated entry whose content is sourced from the old tree.
pub const SENTINEL: u64 = 0xffff_ffff_ffff_ffff;

/// An untouched or deleted file: its content hash and its path.
pub type HashAndPath = (u64, String);

/// A file present only in the new tree, stored whole in new-blob `index`.
#[derive(Clone, Debug, Default)]
pub struct NewFile {
    pub hash: u64,
    pub index: u64,
    pub path: String,
}

/// Content found at several paths, or moved: sourced from the old tree when
/// `idx == SENTINEL`, else from new-blob `idx`.
#[derive(Clone, Debug, Default)]
pub struct DuplicatedFile {
    pub hash: u64,
    pub idx: u64,
    pub old_paths: Vec<String>,
    pub new_paths: Vec<String>,
}

/// A path present on both sides with differing content, rebuilt from patch-blob `index`.
#[derive(Clone, Debug, Default)]
pub struct PatchedFile {
    pub old_hash: u64,
    pub new_hash: u64,
    pub index: u64,
    pub path: String,
}

/// The record stored, serialized, at the head of a diff file.
#[derive(Clone, Debug)]
pub struct DiffManifest {
    pub version: [u8; 4],
    pub untouched_files: Vec<HashAndPath>,
    pub deleted_files: Vec<HashAndPath>,
    pub new_files: Vec<NewFile>,
    pub duplicated_files: Vec<DuplicatedFile>,
    pub patched_files: Vec<PatchedFile>,
}

/// The paths of a list of strings.
pub open spec fn paths_view(v: Seq<String>) -> Seq<Seq<char>> {
    v.map_values(|s: String| s@)
}

/// A manifest as mathematical values.
pub struct ManifestModel {
    pub untouched: Seq<(u64, Seq<char>)>,
    pub deleted: Seq<(u64, Seq<char>)>,
    /// `(hash, index, path)`
    pub new_files: Seq<(u64, u64, Seq<char>)>,
    /// `(hash, idx, old_paths, new_paths)`
    pub duplicated: Seq<(u64, u64, Seq<Seq<char>>, Seq<Seq<char>>)>,
    /// `(old_hash, new_hash, index, path)`
    pub patched: Seq<(u64, u64, u64, Seq<char>)>,
}

impl ManifestModel {
    pub open spec fn empty() -> ManifestModel {
        ManifestModel {
            untouched: Seq::empty(),
            deleted: Seq::empty(),
            new_files: Seq::empty(),
            duplicated: Seq::empty(),
            patched: Seq::empty(),
        }
    }
}

impl View for DiffManifest {
    type V = ManifestModel;

    open spec fn view(&self) -> ManifestModel {
        ManifestModel {
            untouched: self.untouched_files@.map_values(|e: HashAndPath| (e.0, e.1@)),
            deleted: self.deleted_files@.map_values(|e: HashAndPath| (e.0, e.1@)),
            new_files: self.new_files@.map_values(|e: NewFile| (e.hash, e.index, e.path@)),
            duplicated: self.duplicated_files@.map_values(
                |e: DuplicatedFile| (e.hash, e.idx, paths_view(e.old_paths@), paths_view(e.new_paths@)),
            ),
            patched: self.patched_files@.map_values(
                |e: PatchedFile| (e.old_hash, e.new_hash, e.index, e.path@),
            ),
        }
    }
}

impl DiffManifest {
    /// An empty manifest carrying `version`.
    pub fn with_version(version: [u8; 4]) -> (r: DiffManifest)
        ensures
            r.version == version,
            r@ == ManifestModel::empty(),
    {
        let r = DiffManifest {
            version,
            untouched_files: Vec::new(),
            deleted_files: Vec::new(),
            new_files: Vec::new(),
            duplicated_files: Vec::new(),
            patched_files: Vec::new(),
        };
        assert(r@.untouched =~= Seq::empty());
        assert(r@.deleted =~= Seq::empty());
        assert(r@.new_files =~= Seq::empty());
        assert(r@.duplicated =~= Seq::empty());
        assert(r@.patched =~= Seq::empty());
        r
    }

    /// A raw (legacy) manifest must carry the legacy version tag inside it.
    pub fn check_legacy_version(&self) -> (r: Result<(), FoldiffError>)
        ensures
            r is Ok <==> self.version@ == VERSION_NUMBER_1_0_0_R@,
            r matches Err(e) ==> e == FoldiffError::UnknownVersion(self.version),
    {
        if self.version[0] == VERSION_NUMBER_1_0_0_R[0] && self.version[1] == VERSION_NUMBER_1_0_0_R[1]
            && self.version[2] == VERSION_NUMBER_1_0_0_R[2] && self.version[3] == VERSION_NUMBER_1_0_0_R[3] {
            assert(self.version@ =~= VERSION_NUMBER_1_0_0_R@);
            Ok(())
        } else {
            Err(FoldiffError::UnknownVersion(self.version))
        }
    }
}

} // verus!
