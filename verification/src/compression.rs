//! Re-encoding images as JPEG at a chosen quality.
use vstd::prelude::*;
use std::io::Cursor;
use image::io::Reader as ImageReader;
use image::codecs::jpeg::JpegEncoder;

verus! {

/// What `image` makes of the bytes `input` re-encoded as JPEG at `quality`:
/// the JPEG bytes, or nothing when the bytes are no image it can read or
/// the encoder fails.
pub uninterp spec fn jpeg_recompressed(input: Seq<u8>, quality: u8) -> Option<Seq<u8>>;

/// Reads `input` with `image::io::Reader` (format guessed from the bytes),
/// decodes it, and encodes the image with
/// `JpegEncoder::new_with_quality(.., quality)` into a new buffer. Claimed:
/// the outcome is `jpeg_recompressed` of the bytes and the quality, a
/// function of them alone; neither formats nor the encoding are stated.
/// The decoders hold internal `unwrap`s; that none of them can fire on any
/// bytes is not stated either, since their source does not settle it.
#[verifier::external_body]
fn recompress_jpeg(input: &[u8], quality: u8) -> (r: Option<Vec<u8>>)
    ensures
        match r {
            Some(v) => jpeg_recompressed(input@, quality) == Some(v@),
            None => jpeg_recompressed(input@, quality) is None,
        },
{
    let reader = ImageReader::new(Cursor::new(input)).with_guessed_format().ok()?;
    let img = reader.decode().ok()?;
    let mut compressed_data = Vec::new();
    JpegEncoder::new_with_quality(&mut compressed_data, quality).encode_image(&img).ok()?;
    Some(compressed_data)
}

/// The image in `input` re-encoded as JPEG at `quality`; the bytes must be
/// an image that can be read and encoded.
pub fn compress_image(input: &[u8], quality: u8) -> (r: Vec<u8>)
    requires
        jpeg_recompressed(input@, quality) is Some,
    ensures
        jpeg_recompressed(input@, quality) == Some(r@),
{
    match recompress_jpeg(input, quality) {
        Some(v) => v,
        None => Vec::new(),
    }
}

/// The image in `input` re-encoded as JPEG at `quality`, or `None` when the
/// bytes cannot be read as an image or encoded.
pub fn try_compress_image(input: &[u8], quality: u8) -> (r: Option<Vec<u8>>)
    ensures
        match r {
            Some(v) => jpeg_recompressed(input@, quality) == Some(v@),
            None => jpeg_recompressed(input@, quality) is None,
        },
{
    match recompress_jpeg(input, quality) {
        Some(_) => Some(compress_image(input, quality)),
        None => None,
    }
}

} // verus!
