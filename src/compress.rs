//! The compression primitive: zstd frames, plain or against a reference prefix.
use std::io::Write;
use vstd::prelude::*;

verus! {

#[verifier::external_type_specification]
#[verifier::external_body]
pub struct ExIoError(std::io::Error);

/// Whether zstd's decoder, with window log cap `cap`, accepts `frame` against `prefix`.
pub uninterp spec fn prefix_decodes(prefix: Seq<u8>, frame: Seq<u8>, cap: u32) -> bool;

/// What zstd's decoder, with window log cap `cap`, yields for `frame` against `prefix`.
pub uninterp spec fn prefix_decoded(prefix: Seq<u8>, frame: Seq<u8>, cap: u32) -> Seq<u8>;

/// Whether zstd's decoder accepts the self-contained `frame`.
pub uninterp spec fn frame_decodes(frame: Seq<u8>) -> bool;

/// What zstd's decoder yields for a self-contained `frame`.
pub uninterp spec fn frame_decoded(frame: Seq<u8>) -> Seq<u8>;

/// The settings of the reference-prefix encoder.
pub struct PrefixSettings {
    pub level: i32,
    pub threads: u32,
    pub window_log: u32,
    pub long_distance_matching: bool,
    pub dict_id: bool,
    pub checksum: bool,
    pub content_size: bool,
}

/// Relies on `zstd::stream::write::Encoder::with_ref_prefix` and its parameter setters:
/// compresses `data` against `prefix`. zstd is lossless, so a decoder whose window log cap is
/// the encoder's window log accepts the frame against the same prefix and gives `data` back.
#[verifier::external_body]
pub(crate) fn encode_with_prefix(prefix: &[u8], data: &[u8], cfg: &PrefixSettings) -> (r: Result<Vec<u8>, std::io::Error>)
    ensures
        r matches Ok(v) ==> prefix_decodes(prefix@, v@, cfg.window_log)
            && prefix_decoded(prefix@, v@, cfg.window_log) == data@,
{
    let mut enc = zstd::stream::write::Encoder::with_ref_prefix(Vec::new(), cfg.level, prefix)?;
    enc.long_distance_matching(cfg.long_distance_matching)?;
    enc.window_log(cfg.window_log)?;
    enc.set_pledged_src_size(Some(data.len() as u64))?;
    enc.include_dictid(cfg.dict_id)?;
    enc.include_checksum(cfg.checksum)?;
    enc.include_contentsize(cfg.content_size)?;
    enc.multithread(cfg.threads)?;
    enc.write_all(data)?;
    enc.finish()
}

/// Relies on `zstd::stream::read::Decoder::with_ref_prefix` with window log cap `cap`:
/// whether it accepts `frame` against `prefix`, and the bytes it yields.
#[verifier::external_body]
pub(crate) fn decode_with_prefix(prefix: &[u8], frame: &[u8], cap: u32) -> (r: Result<Vec<u8>, std::io::Error>)
    ensures
        r is Ok <==> prefix_decodes(prefix@, frame@, cap),
        r matches Ok(v) ==> v@ == prefix_decoded(prefix@, frame@, cap),
{
    let mut dec = zstd::stream::read::Decoder::with_ref_prefix(frame, prefix)?;
    dec.window_log_max(cap)?;
    let mut out = Vec::new();
    std::io::copy(&mut dec, &mut out)?;
    Ok(out)
}

/// Relies on `zstd::stream::write::Encoder`: one self-contained frame holding `data`;
/// zstd is lossless, so the frame decodes to `data`.
#[verifier::external_body]
pub(crate) fn encode_frame(data: &[u8], level: i32, threads: u32, checksum: bool, content_size: bool) -> (r: Result<Vec<u8>, std::io::Error>)
    ensures
        r matches Ok(v) ==> frame_decodes(v@) && frame_decoded(v@) == data@,
{
    let mut enc = zstd::stream::write::Encoder::new(Vec::new(), level)?;
    enc.set_pledged_src_size(Some(data.len() as u64))?;
    enc.include_checksum(checksum)?;
    enc.include_contentsize(content_size)?;
    enc.multithread(threads)?;
    enc.write_all(data)?;
    enc.finish()
}

/// Relies on `zstd::stream::decode_all`: whether it accepts `frame`, and the bytes it yields.
#[verifier::external_body]
pub(crate) fn decode_frame(frame: &[u8]) -> (r: Result<Vec<u8>, std::io::Error>)
    ensures
        r is Ok <==> frame_decodes(frame@),
        r matches Ok(v) ==> v@ == frame_decoded(frame@),
{
    zstd::stream::decode_all(frame)
}

/// Relies on `std::io::Error`'s `Display`: its message.
#[verifier::external_body]
pub(crate) fn io_message(e: &std::io::Error) -> String {
    e.to_string()
}

} // verus!
