//! The compressors of other crates: zstd for bundles, gzip for tar archives.

use std::io::Read;
use std::io::Write;
use vstd::prelude::*;

verus! {

/// Whether the zstd compressor, asked for `data` at `level` with these
/// settings, gives a stream. Running out of memory is left aside here as
/// it is for every allocation.
pub uninterp spec fn zstd_compresses(
    data: Seq<u8>,
    level: i32,
    checksum: bool,
    content_size: bool,
) -> bool;

/// The zstd stream that the compressor emits for `data` at `level`, with
/// the size of `data` pledged, and with the frame checksum and the
/// content-size field switched on or off.
pub uninterp spec fn zstd_frame(
    data: Seq<u8>,
    level: i32,
    checksum: bool,
    content_size: bool,
) -> Seq<u8>;

/// Whether the zstd decompressor accepts `stream`.
pub uninterp spec fn zstd_accepts(stream: Seq<u8>) -> bool;

/// What the zstd decompressor makes of `stream` when it accepts it.
pub uninterp spec fn zstd_content(stream: Seq<u8>) -> Seq<u8>;

/// Runs `data` through a `zstd::stream::Encoder` (`new`,
/// `set_pledged_src_size`, `include_checksum`, `include_contentsize`,
/// `write_all`, `finish`).
///
/// Trusted: whether a stream comes out, and which, is a function of the
/// data and the three settings; and zstd is lossless, so its own
/// decompressor accepts the stream and turns it back into the data.
/// Nothing says for which data and settings a stream comes out.
#[verifier::external_body]
pub(crate) fn zstd_compress(
    data: &[u8],
    level: i32,
    checksum: bool,
    content_size: bool,
) -> (outcome: Result<Vec<u8>, String>)
    ensures
        outcome is Ok <==> zstd_compresses(data@, level, checksum, content_size),
        outcome matches Ok(stream) ==> stream@ == zstd_frame(data@, level, checksum, content_size)
            && zstd_accepts(stream@) && zstd_content(stream@) == data@,
{
    let run = || -> std::io::Result<Vec<u8>> {
        let mut encoder = zstd::stream::Encoder::new(Vec::with_capacity(data.len()), level)?;
        encoder.set_pledged_src_size(Some(data.len() as u64))?;
        encoder.include_checksum(checksum)?;
        encoder.include_contentsize(content_size)?;
        encoder.write_all(data)?;
        encoder.finish()
    };
    run().map_err(|e| e.to_string())
}

/// Reads all of `stream` through a `zstd::Decoder` (`new`, then
/// `read_to_end`).
///
/// Trusted: whether the stream is accepted, and what comes out, is a
/// function of the stream alone. Nothing says which streams are
/// accepted, but for those that the compressor made.
#[verifier::external_body]
pub(crate) fn zstd_decompress(stream: &[u8]) -> (outcome: Result<Vec<u8>, String>)
    ensures
        outcome is Ok <==> zstd_accepts(stream@),
        outcome matches Ok(data) ==> data@ == zstd_content(stream@),
{
    let run = || -> std::io::Result<Vec<u8>> {
        let mut decoder = zstd::Decoder::new(stream)?;
        let mut data = Vec::new();
        decoder.read_to_end(&mut data)?;
        Ok(data)
    };
    run().map_err(|e| e.to_string())
}

/// Whether flate2, asked for `data` at `level` with the given header
/// fields, gives a gzip stream.
pub uninterp spec fn gzip_compresses(
    data: Seq<u8>,
    extra: Seq<u8>,
    filename: Seq<u8>,
    operating_system: u8,
    mtime: u32,
    level: u32,
) -> bool;

/// The gzip stream that flate2 emits for `data` at `level`, with the
/// given header fields.
pub uninterp spec fn gzip_stream(
    data: Seq<u8>,
    extra: Seq<u8>,
    filename: Seq<u8>,
    operating_system: u8,
    mtime: u32,
    level: u32,
) -> Seq<u8>;

/// Runs `data` through a `flate2::GzBuilder` (`new`, `extra`, `filename`,
/// `operating_system`, `mtime`, `write` with `Compression::new`) and the
/// encoder that it makes (`write_all`, `finish`).
///
/// Trusted: whether a stream comes out, and which, is a function of the
/// data, the header fields and the level. Nothing says for which of them
/// a stream comes out. The builder panics on an extra field of more than
/// 65535 bytes and on a NUL in the file name, and the compressor takes
/// levels up to nine, so all else is left out.
#[verifier::external_body]
pub(crate) fn gzip_compress(
    data: &[u8],
    extra: &[u8],
    filename: &[u8],
    operating_system: u8,
    mtime: u32,
    level: u32,
) -> (outcome: Result<Vec<u8>, String>)
    requires
        extra@.len() <= u16::MAX,
        forall|i: int| 0 <= i < filename@.len() ==> filename@[i] != 0,
        level <= 9,
    ensures
        outcome is Ok <==> gzip_compresses(
            data@,
            extra@,
            filename@,
            operating_system,
            mtime,
            level,
        ),
        outcome matches Ok(stream) ==> stream@ == gzip_stream(
            data@,
            extra@,
            filename@,
            operating_system,
            mtime,
            level,
        ),
{
    let builder = flate2::GzBuilder::new().extra(extra).filename(filename).operating_system(
        operating_system,
    ).mtime(mtime);
    let mut encoder = builder.write(Vec::new(), flate2::Compression::new(level));
    match encoder.write_all(data) {
        Ok(_) => encoder.finish().map_err(|e| e.to_string()),
        Err(e) => Err(e.to_string()),
    }
}

} // verus!
