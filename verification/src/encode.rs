//! PNG output of a cropped selection, through the `png` crate.
use vstd::prelude::*;
use crate::image::Shot;

verus! {

/// The bytes that the `png` crate's encoder produces for a `width` x
/// `height` RGBA8 image with 8-bit samples and its default settings.
pub uninterp spec fn png_rgba8(width: u32, height: u32, pixels: Seq<u8>) -> Seq<u8>;

/// Why an image could not be encoded, by the kind of the encoder's error.
#[derive(Clone, Copy, Debug, PartialEq, Eq, Structural)]
pub enum EncodeError {
    /// Writing the output failed.
    Io,
    /// The image cannot be a PNG (a zero width or height).
    Format,
    /// The pixel data does not have the image's size.
    Parameter,
    /// An encoder limit was exceeded.
    LimitsExceeded,
}

/// The encoded bytes, or why encoding failed.
pub type EncodeResult = Result<Vec<u8>, EncodeError>;

/// The four bytes of `v`, most significant first.
pub open spec fn be32(v: u32) -> Seq<u8> {
    seq![(v / 0x1000000) as u8, (v / 0x10000 % 0x100) as u8, (v / 0x100 % 0x100) as u8, (v % 0x100) as u8]
}

/// The first 29 bytes of an RGBA8 PNG: the signature, then the IHDR
/// chunk's length (13), its type, the width and height, bit depth 8, colour
/// type 6 (RGBA), and compression, filter and interlace methods 0.
pub open spec fn png_rgba8_header(width: u32, height: u32) -> Seq<u8> {
    seq![137u8, 80, 78, 71, 13, 10, 26, 10] + seq![0u8, 0, 0, 13] + seq![73u8, 72, 68, 82] + be32(
        width,
    ) + be32(height) + seq![8u8, 6, 0, 0, 0]
}

/// Encodes `pixels` as an RGBA8, 8-bit PNG of `width` x `height` with
/// `png::Encoder` (its default compression and filter), into memory.
///
/// Trusted: the contract states what the `png` crate's source shows. The
/// header (`write_header`) is refused with a format error for a zero width
/// or height; `write_image_data` refuses data whose length is not
/// `width * height * 4` with a parameter error; otherwise the image is
/// written, and since a `Vec` writer does not fail, encoding succeeds. The
/// output starts with the signature and the IHDR chunk; the rest of it (the
/// compressed data and the chunk checksums) is only named, `png_rgba8`.
#[verifier::external_body]
fn png_encode_rgba8(width: u32, height: u32, pixels: &[u8]) -> (r: EncodeResult)
    requires
        width * height * 4 <= usize::MAX,
    ensures
        width == 0 || height == 0 ==> r == EncodeResult::Err(EncodeError::Format),
        width > 0 && height > 0 && pixels@.len() != width * height * 4 ==> r == EncodeResult::Err(
            EncodeError::Parameter,
        ),
        width > 0 && height > 0 && pixels@.len() == width * height * 4 ==> r is Ok,
        r matches Ok(b) ==> b@ == png_rgba8(width, height, pixels@),
        r matches Ok(b) ==> b@.len() >= 29,
        r matches Ok(b) ==> b@.subrange(0, 29) == png_rgba8_header(width, height),
{
    let mut out: Vec<u8> = Vec::new();
    let mut enc = png::Encoder::new(&mut out, width, height);
    enc.set_color(png::ColorType::Rgba);
    enc.set_depth(png::BitDepth::Eight);
    let written = match enc.write_header() {
        Ok(mut w) => w.write_image_data(pixels).and(w.finish()),
        Err(e) => Err(e),
    };
    match written {
        Ok(()) => Ok(out),
        Err(png::EncodingError::IoError(_)) => Err(EncodeError::Io),
        Err(png::EncodingError::Format(_)) => Err(EncodeError::Format),
        Err(png::EncodingError::Parameter(_)) => Err(EncodeError::Parameter),
        Err(png::EncodingError::LimitsExceeded) => Err(EncodeError::LimitsExceeded),
    }
}

/// Encodes a frozen image or a crop of one as a PNG (RGBA, 8-bit samples).
/// An image with a zero width or height cannot be a PNG: that is the one
/// error; otherwise the result is the `png` crate's encoding of its pixels.
pub fn encode_png(shot: &Shot) -> (r: Result<Vec<u8>, EncodeError>)
    requires
        shot.wf(),
    ensures
        r is Err <==> shot.width == 0 || shot.height == 0,
        r matches Err(e) ==> e == EncodeError::Format,
        r matches Ok(b) ==> b@ == png_rgba8(shot.width, shot.height, shot.pixels@)
            && b@.subrange(0, 29) == png_rgba8_header(shot.width, shot.height),
{
    let total = shot.pixels.len();
    assert(shot.width * shot.height * 4 <= usize::MAX);
    png_encode_rgba8(shot.width, shot.height, shot.pixels.as_slice())
}

} // verus!
