//! The outside codecs: gzip in both directions and the image decoder.
//!
//! Nothing about these is proved. Each trusted function below calls one codec
//! and states what the rest of the library relies on; the public functions
//! around them only turn a codec's error into one of this library's.
use crate::bitmap::Bitmap;
use crate::bitmap::Image;
use crate::error::Error;
use std::io::Read;
use std::io::Write;
use vstd::prelude::*;

verus! {

/// `std::io::Error`, the error of the gzip decoder. Opaque: only carried
/// from the decoder to where it is turned into `Error::Decompression`.
#[verifier::external_type_specification]
#[verifier::external_body]
pub struct ExIoError(std::io::Error);

/// `gzp::GzpError`, the error of the gzip writer. Opaque: only carried from
/// the writer to where it is turned into `Error::Io`.
#[verifier::external_type_specification]
#[verifier::external_body]
pub struct ExGzpError(gzp::GzpError);

/// `image::ImageError`, the error of the image decoder. Opaque: only carried
/// from the decoder to where it is turned into `Error::ImageDecode`.
#[verifier::external_type_specification]
#[verifier::external_body]
pub struct ExImageError(image::ImageError);

/// The compression level of the frame stream: the strongest.
pub const COMPRESSION_LEVEL: u32 = 9;

/// What the gzip decoder makes of `data`: the bytes of its first member, or
/// `None` where the decoder reports an error (a bad header, a corrupt or
/// truncated body, a checksum that does not match).
pub uninterp spec fn gz_decoded(data: Seq<u8>) -> Option<Seq<u8>>;

/// What the gzip writer makes of `data` at the given compression level when
/// it writes into memory on the calling thread: the compressed stream, or
/// `None` where the writer reports an error. The stream's header carries no
/// time and no trace of the machine, so the same bytes at the same level
/// give the same stream.
pub uninterp spec fn gz_encoded(data: Seq<u8>, level: u32) -> Option<Seq<u8>>;

/// What the image decoder makes of a file with the given path and contents:
/// the image in RGBA, or `None` where the path's extension names no known
/// format or the contents do not decode.
pub uninterp spec fn image_decoded(path: Seq<char>, contents: Seq<u8>) -> Option<Image>;

/// Runs `flate2::read::GzDecoder` over `data` to its end.
///
/// Trusted: the outcome is a function of `data` alone, here named
/// `gz_decoded`.
#[verifier::external_body]
pub(crate) fn gunzip(data: &[u8]) -> (r: Result<Vec<u8>, std::io::Error>)
    ensures
        match r {
            Ok(bytes) => gz_decoded(data@) == Some(bytes@),
            Err(_) => gz_decoded(data@) is None,
        },
{
    let mut bytes = Vec::new();
    let mut decoder = flate2::read::GzDecoder::new(data);
    decoder.read_to_end(&mut bytes)?;
    Ok(bytes)
}

/// Compresses `data` with `gzp`'s gzip writer at the given compression
/// level, on the calling thread, into memory.
///
/// Trusted: the outcome is a function of `data` and the level, here named
/// `gz_encoded`; and when the writer succeeds, what it wrote is a gzip
/// stream that the decoder turns back into `data`, whatever the level.
#[verifier::external_body]
pub(crate) fn gzip(data: &[u8], level: u32) -> (r: Result<Vec<u8>, gzp::GzpError>)
    requires
        level <= 9,
    ensures
        match r {
            Ok(blob) => gz_encoded(data@, level) == Some(blob@) && gz_decoded(blob@) == Some(
                data@,
            ),
            Err(_) => gz_encoded(data@, level) is None,
        },
{
    let mut encoder = gzp::ZBuilder::<gzp::deflate::Gzip, _>::new()
        .compression_level(gzp::Compression::new(level))
        .num_threads(0)
        .from_writer(Vec::new());
    encoder.write_all(data)?;
    encoder.finish()
}

/// Decodes an image file as `image::open` does, from contents already read:
/// the format is taken from the path's extension, the pixels are converted
/// to 8-bit RGBA.
///
/// Trusted: the outcome is a function of the path and the contents, here
/// named `image_decoded`, and the decoder's buffer holds four bytes for each
/// pixel of the size it reports.
#[verifier::external_body]
pub(crate) fn decode_rgba(path: &str, contents: &[u8]) -> (r: Result<Bitmap, image::ImageError>)
    ensures
        match r {
            Ok(b) => b.wf() && image_decoded(path@, contents@) == Some(b@),
            Err(_) => image_decoded(path@, contents@) is None,
        },
{
    let format = image::ImageFormat::from_path(path)?;
    let rgba = image::load_from_memory_with_format(contents, format)?.to_rgba8();
    Ok(Bitmap { width: rgba.width() as usize, height: rgba.height() as usize, data: rgba.into_raw() })
}

/// Decompresses a gzip stream.
///
/// Fails with `Error::Decompression` exactly where the decoder rejects the
/// stream.
pub fn decompress(data: &[u8]) -> (r: Result<Vec<u8>, Error>)
    ensures
        match gz_decoded(data@) {
            Some(bytes) => r matches Ok(v) && v@ == bytes,
            None => r == Err::<Vec<u8>, Error>(Error::Decompression),
        },
{
    inflated(gunzip(data))
}

/// The library's view of what the gzip decoder returned.
fn inflated(outcome: Result<Vec<u8>, std::io::Error>) -> (r: Result<Vec<u8>, Error>)
    ensures
        match outcome {
            Ok(bytes) => r == Ok::<Vec<u8>, Error>(bytes),
            Err(_) => r == Err::<Vec<u8>, Error>(Error::Decompression),
        },
{
    match outcome {
        Ok(bytes) => Ok(bytes),
        Err(_) => Err(Error::Decompression),
    }
}

/// Compresses `data` into a gzip stream.
///
/// Returns the stream that the compressor makes of `data` at
/// `COMPRESSION_LEVEL`; it decompresses to `data` again. Fails with
/// `Error::Io` exactly where the compressor reports an error.
pub fn compress(data: &[u8]) -> (r: Result<Vec<u8>, Error>)
    ensures
        match gz_encoded(data@, COMPRESSION_LEVEL) {
            Some(blob) => r matches Ok(v) && v@ == blob && gz_decoded(blob) == Some(data@),
            None => r == Err::<Vec<u8>, Error>(Error::Io),
        },
{
    deflated(gzip(data, COMPRESSION_LEVEL))
}

/// The library's view of what the gzip compressor returned.
fn deflated(outcome: Result<Vec<u8>, gzp::GzpError>) -> (r: Result<Vec<u8>, Error>)
    ensures
        match outcome {
            Ok(blob) => r == Ok::<Vec<u8>, Error>(blob),
            Err(_) => r == Err::<Vec<u8>, Error>(Error::Io),
        },
{
    match outcome {
        Ok(blob) => Ok(blob),
        Err(_) => Err(Error::Io),
    }
}

/// Decodes the image file with the given path and contents to RGBA.
///
/// Fails with `Error::ImageDecode` exactly where the decoder rejects the
/// file.
pub fn decode_image(path: &str, contents: &[u8]) -> (r: Result<Bitmap, Error>)
    ensures
        match image_decoded(path@, contents@) {
            Some(image) => r matches Ok(b) && b.wf() && b@ == image,
            None => r matches Err(e) && e == Error::ImageDecode,
        },
{
    decoded(decode_rgba(path, contents))
}

/// The library's view of what the image decoder returned.
fn decoded(outcome: Result<Bitmap, image::ImageError>) -> (r: Result<Bitmap, Error>)
    ensures
        match outcome {
            Ok(b) => r == Ok::<Bitmap, Error>(b),
            Err(_) => r matches Err(e) && e == Error::ImageDecode,
        },
{
    match outcome {
        Ok(b) => Ok(b),
        Err(_) => Err(Error::ImageDecode),
    }
}

} // verus!
