//! Decoding the server's picture into a grayscale image with the `image` crate.

use vstd::prelude::*;
use crate::raster::{GrayImage, GrayView};

verus! {

/// What the `image` crate makes of `bytes`: the grayscale raster (width,
/// height and row-major 8-bit pixels), or the text of the error it reports
/// when the bytes are not an image of a format it recognises and decodes.
/// With the format fixed by `guess_format`'s built-in signatures, the
/// outcome depends on the bytes alone.
pub uninterp spec fn decoded_luma8(bytes: Seq<u8>) -> Result<(u32, u32, Seq<u8>), Seq<char>>;

/// Calls `image::guess_format`, then `image::load_from_memory_with_format`
/// with the format found, then `DynamicImage::to_luma8`, and hands back the
/// grayscale image's width, height and pixel store, or the `Display` text of
/// the `image::ImageError` either call returned. The contract claims that
/// the outcome is `decoded_luma8` of the bytes, and that the store holds at
/// least `width * height` bytes, which every `ImageBuffer` guarantees; the
/// shades and the texts themselves are not stated.
#[verifier::external_body]
fn load_luma8(bytes: &[u8]) -> (r: Result<(u32, u32, Vec<u8>), String>)
    ensures
        match (r, decoded_luma8(bytes@)) {
            (Ok(t), Ok(s)) => (t.0, t.1, t.2@) == s && t.2@.len() >= t.0 * t.1,
            (Err(m), Err(sm)) => m@ == sm,
            _ => false,
        },
{
    let format = match image::guess_format(bytes) {
        Ok(format) => format,
        Err(e) => return Err(format!("{}", e)),
    };
    match image::load_from_memory_with_format(bytes, format) {
        Ok(img) => {
            let gray = img.to_luma8();
            Ok((gray.width(), gray.height(), gray.into_raw()))
        },
        Err(e) => Err(format!("{}", e)),
    }
}

/// Why the server's picture could not be used.
#[derive(Debug)]
pub enum PictureError {
    /// The bytes are not an image the decoder reads; the decoder's message.
    Undecodable(String),
}

/// Decodes the server's picture and converts it to 8-bit grayscale.
pub fn decode_picture(bytes: &[u8]) -> (r: Result<GrayImage, PictureError>)
    ensures
        match (r, decoded_luma8(bytes@)) {
            (Ok(img), Ok(s)) => img@ == (GrayView { width: s.0, height: s.1, pixels: s.2 }),
            (Err(PictureError::Undecodable(m)), Err(sm)) => m@ == sm,
            _ => false,
        },
{
    match load_luma8(bytes) {
        Ok((width, height, pixels)) => {
            match GrayImage::from_raw(width, height, pixels) {
                Some(gray) => Ok(gray),
                None => {
                    assert(false);
                    Err(PictureError::Undecodable(String::new()))
                },
            }
        },
        Err(message) => Err(PictureError::Undecodable(message)),
    }
}

} // verus!
