//! The general-purpose compressors, behind contracts that are taken on trust.
//!
//! Of a decoder a contract says what it reads: the names `*_read` stand for the first
//! `count` bytes of what a compressed body expands to, or `None` where the body is
//! damaged or too short. Of an encoder it says that what it wrote can be read back.

use vstd::prelude::*;

verus! {

#[verifier::external_type_specification]
#[verifier::external_body]
pub struct ExIoError(std::io::Error);

/// Whether zstd may write `frame` for `data` at `level`. Which of several frames it is may
/// differ between machines for very long data.
pub uninterp spec fn zstd_may_write(data: Seq<u8>, level: i32, frame: Seq<u8>) -> bool;

/// The first `count` bytes that a zstd decoder reads from `body`.
pub uninterp spec fn zstd_read(body: Seq<u8>, count: nat) -> Option<Seq<u8>>;

/// Whether the brotli encoder may write `body` for `data`. Its choices rest on
/// logarithms in floating point, whose last digit is left open by the platform.
pub uninterp spec fn brotli_may_write(
    data: Seq<u8>,
    buffer_size: usize,
    quality: u32,
    lgwin: u32,
    body: Seq<u8>,
) -> bool;

/// The first `count` bytes that a brotli decoder with an input buffer of `buffer_size`
/// bytes reads from `body`.
pub uninterp spec fn brotli_read(body: Seq<u8>, buffer_size: usize, count: nat) -> Option<Seq<u8>>;

/// Whether liblzma may write `body` for `data` at `preset`. Which of several streams
/// it is may differ between the liblzma releases that a system can have.
pub uninterp spec fn xz_may_write(data: Seq<u8>, preset: u32, body: Seq<u8>) -> bool;

/// The first `count` bytes that an xz decoder reads from `body`.
pub uninterp spec fn xz_read(body: Seq<u8>, count: nat) -> Option<Seq<u8>>;

/// Whether `stream` is a raw deflate stream that may be written for `data` at `level`.
/// Which of several streams it is may depend on the buffers it passes through.
pub uninterp spec fn deflate_may_write(data: Seq<u8>, level: u32, stream: Seq<u8>) -> bool;

/// The first `count` bytes that a raw deflate decoder reads from `body`.
pub uninterp spec fn deflate_read(body: Seq<u8>, count: nat) -> Option<Seq<u8>>;

/// `zstd::stream::encode_all`. Where it succeeds, the frame is one that zstd may write for
/// these arguments, and reading it back gives the data from its start. It fails only where
/// zstd cannot get memory, so success is not promised.
#[verifier::external_body]
pub(crate) fn zstd_encode(data: &[u8], level: i32) -> (frame: Result<Vec<u8>, std::io::Error>)
    ensures
        frame matches Ok(frame) ==> zstd_may_write(data@, level, frame@),
        frame matches Ok(frame) ==> forall|count: nat|
            count <= data@.len() ==> #[trigger] zstd_read(frame@, count) == Some(
                data@.take(count as int),
            ),
{
    zstd::stream::encode_all(std::io::Cursor::new(data), level)
}

/// What came of a zstd read.
pub enum ZstdEnd {
    /// The target was filled.
    Filled,
    /// No decoder could be set up.
    NoDecoder,
    /// The body ended early or is damaged.
    Failed,
}

/// `zstd::Decoder::new` and `read_exact` on it. Where the target is filled, it holds
/// the bytes that the body expands to. It also fails where zstd cannot get memory, so
/// a failure says nothing of the body. What a failed read leaves in the target is not
/// stated.
#[verifier::external_body]
pub(crate) fn zstd_decode(body: &[u8], target: &mut [u8]) -> (end: ZstdEnd)
    ensures
        final(target)@.len() == old(target)@.len(),
        end is Filled ==> zstd_read(body@, old(target)@.len()) == Some(final(target)@),
{
    match zstd::Decoder::new(body) {
        Ok(mut decoder) => match std::io::Read::read_exact(&mut decoder, target) {
            Ok(_) => ZstdEnd::Filled,
            Err(_) => ZstdEnd::Failed,
        },
        Err(_) => ZstdEnd::NoDecoder,
    }
}

/// `brotli::CompressorWriter`: all of `data` written to it, then dropped, which ends
/// the stream. The bytes are one of the streams that the encoder may write for these
/// arguments, and reading them back through a buffer of 4096 bytes gives the data from
/// its start.
#[verifier::external_body]
pub(crate) fn brotli_encode(data: &[u8], buffer_size: usize, quality: u32, lgwin: u32) -> (body:
    Vec<u8>)
    requires
        buffer_size > 0,
        quality <= 11,
        10 <= lgwin <= 24,
    ensures
        brotli_may_write(data@, buffer_size, quality, lgwin, body@),
        forall|count: nat|
            count <= data@.len() ==> #[trigger] brotli_read(body@, 4096, count) == Some(
                data@.take(count as int),
            ),
{
    let mut body: Vec<u8> = Vec::new();
    let mut writer = brotli::CompressorWriter::new(&mut body, buffer_size, quality, lgwin);
    std::io::Write::write_all(&mut writer, data).unwrap();
    drop(writer);
    body
}

/// `brotli::Decompressor::new` and `read_exact` on it: whether and with what the target
/// is filled is a function of the body and of the target's length. What a failed read
/// leaves in the target is not stated.
#[verifier::external_body]
pub(crate) fn brotli_decode(body: &[u8], buffer_size: usize, target: &mut [u8]) -> (filled: bool)
    requires
        buffer_size > 0,
    ensures
        final(target)@.len() == old(target)@.len(),
        filled <==> brotli_read(body@, buffer_size, old(target)@.len()) is Some,
        filled ==> brotli_read(body@, buffer_size, old(target)@.len()) == Some(final(target)@),
{
    let mut reader = brotli::Decompressor::new(body, buffer_size);
    std::io::Read::read_exact(&mut reader, target).is_ok()
}

/// `xz2::write::XzEncoder`: all of `data` written to it, then finished. The bytes are
/// one of the streams that liblzma may write for these arguments, and reading them
/// back gives the data from its start. It panics where liblzma cannot get memory.
#[verifier::external_body]
pub(crate) fn xz_encode(data: &[u8], preset: u32) -> (body: Vec<u8>)
    requires
        preset <= 9,
    ensures
        xz_may_write(data@, preset, body@),
        forall|count: nat|
            count <= data@.len() ==> #[trigger] xz_read(body@, count) == Some(
                data@.take(count as int),
            ),
{
    let mut encoder = xz2::write::XzEncoder::new(Vec::new(), preset);
    std::io::Write::write_all(&mut encoder, data).unwrap();
    encoder.finish().unwrap()
}

/// `xz2::read::XzDecoder::new` and `read_exact` on it. Where the target is filled, it
/// holds the bytes that the body expands to. It also fails where liblzma cannot get
/// memory, so a failure says nothing of the body. What a failed read leaves in the
/// target is not stated.
#[verifier::external_body]
pub(crate) fn xz_decode(body: &[u8], target: &mut [u8]) -> (filled: bool)
    ensures
        final(target)@.len() == old(target)@.len(),
        filled ==> xz_read(body@, old(target)@.len()) == Some(final(target)@),
{
    let mut decoder = xz2::read::XzDecoder::new(body);
    std::io::Read::read_exact(&mut decoder, target).is_ok()
}

/// `flate2::write::DeflateEncoder` at a level from `flate2::Compression::new`: all of
/// `data` written to it, then finished. Writing into a vector does not fail, so finishing
/// succeeds; the stream is one that may be written for these arguments, and reading it back
/// gives the data from its start.
#[verifier::external_body]
pub(crate) fn deflate_encode(data: &[u8], level: u32) -> (body: Result<Vec<u8>, std::io::Error>)
    requires
        level <= 9,
    ensures
        body is Ok,
        body matches Ok(body) ==> deflate_may_write(data@, level, body@),
        body matches Ok(body) ==> forall|count: nat|
            count <= data@.len() ==> #[trigger] deflate_read(body@, count) == Some(
                data@.take(count as int),
            ),
{
    let level = flate2::Compression::new(level);
    let mut encoder = flate2::write::DeflateEncoder::new(Vec::new(), level);
    std::io::Write::write_all(&mut encoder, data).unwrap();
    encoder.finish()
}

/// `flate2::read::DeflateDecoder::new` and `read_exact` on it: whether and with what
/// the target is filled is a function of the body and of the target's length. What a
/// failed read leaves in the target is not stated.
#[verifier::external_body]
pub(crate) fn deflate_decode(body: &[u8], target: &mut [u8]) -> (filled: bool)
    ensures
        final(target)@.len() == old(target)@.len(),
        filled <==> deflate_read(body@, old(target)@.len()) is Some,
        filled ==> deflate_read(body@, old(target)@.len()) == Some(final(target)@),
{
    let mut decoder = flate2::read::DeflateDecoder::new(body);
    std::io::Read::read_exact(&mut decoder, target).is_ok()
}

} // verus!
