use vstd::prelude::*;

verus! {

/// The four bytes that open every diff file.
pub const MAGIC_BYTES: [u8; 4] = [0x46, 0x4c, 0x44, 0x46];

/// Version tag of the legacy layout (`1.0.0-r`): raw msgpack manifest after the magic.
pub const VERSION_NUMBER_1_0_0_R: [u8; 4] = [1, 0, 0, 0x72];

/// Version tag of the current layout (`1.1.0`): length-prefixed compressed manifest.
pub const VERSION_NUMBER_1_1_0: [u8; 4] = [0, 1, 1, 0];

/// The version that writers produce.
pub const VERSION_NUMBER_LATEST: [u8; 4] = [0, 1, 1, 0];

/// Configuration handed in by the front-end.
#[derive(Copy, Clone, Debug)]
pub struct FoldiffCfg {
    pub threads: usize,
    pub level_new: u8,
    pub level_diff: u8,
}

} // verus!

verus! {

/// Everything that the library reports as a failure.
#[derive(Clone, Debug, PartialEq, Eq)]
pub enum FoldiffError {
    /// The first four bytes are not `FLDF`.
    BadMagic,
    /// A version tag that this library does not read.
    UnknownVersion([u8; 4]),
    /// A header or a blob runs past the end of the input.
    Truncated,
    /// Bytes remain after the last blob of a container.
    TrailingBytes,
    /// A manifest entry refers to a blob slot that the container does not have.
    IndexOutOfRange,
    /// A file read from the old tree does not hash to the value that the manifest asserts.
    SourceMismatch { expected: u64, actual: u64 },
    /// Content produced for the new tree does not hash to the value that the manifest asserts.
    DestinationMismatch { expected: u64, actual: u64 },
    /// The compressor or the decompressor failed, with its message.
    Codec(String),
    /// A file that the manifest vouches for does not exist.
    MissingFile,
    /// The diff is already in the latest format.
    UpToDate,
    /// A path was added twice to the same side of a diff under construction.
    DuplicatePath,
}

} // verus!
