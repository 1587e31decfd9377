//! The transcode step: decode an image container to 8-bit RGBA, re-encode it
//! as lossy WebP at a given quality.
//!
//! Both codec calls are outside work. What they return is named by
//! uninterpreted functions of their inputs: decoding and default-configured
//! lossy WebP encoding each depend on nothing but their arguments.

use vstd::prelude::*;

verus! {

/// Why one transcode failed: the bytes are not a recognized image, or the
/// encoder refused the decoded pixel buffer.
#[derive(Clone, Copy, PartialEq, Eq, Structural, Debug)]
pub enum TranscodeError {
    Decode,
    Encode,
}

impl TranscodeError {
    /// A short description of the failure.
    pub fn describe(&self) -> (r: String)
        ensures
            (*self is Decode) ==> r@ == "the bytes are not a recognized image"@,
            (*self is Encode) ==> r@ == "the encoder refused the pixel buffer"@,
    {
        match self {
            TranscodeError::Decode => String::from_str("the bytes are not a recognized image"),
            TranscodeError::Encode => String::from_str("the encoder refused the pixel buffer"),
        }
    }
}

/// What decoding a byte buffer yields: `None` when the bytes are not a
/// recognized image, else the image's width, height, and RGBA pixel bytes.
pub uninterp spec fn rgba_of(bytes: Seq<u8>) -> Option<(nat, nat, Seq<u8>)>;

/// What lossy WebP encoding of an RGBA buffer at a quality yields.
pub uninterp spec fn webp_encoding_of(
    pixels: Seq<u8>,
    width: nat,
    height: nat,
    quality: nat,
) -> Seq<u8>;

/// Whether lossy WebP encoding of an RGBA buffer at a quality succeeds.
pub uninterp spec fn webp_encodable(
    pixels: Seq<u8>,
    width: nat,
    height: nat,
    quality: nat,
) -> bool;

/// The dimensions the WebP encoder takes: nonzero, and at most libwebp's
/// `WEBP_MAX_DIMENSION` of 16383 on each side.
pub open spec fn dims_ok(width: nat, height: nat) -> bool {
    1 <= width <= 16383 && 1 <= height <= 16383
}

/// Whether one transcode succeeds: the bytes decode, the decoded dimensions
/// are within the encoder's bounds, and the encoder accepts the pixels.
pub open spec fn transcode_succeeds(bytes: Seq<u8>, quality: nat) -> bool {
    match rgba_of(bytes) {
        None => false,
        Some(d) => dims_ok(d.0, d.1) && webp_encodable(d.2, d.0, d.1, quality),
    }
}

/// Relies on `image::load_from_memory` and `DynamicImage::to_rgba8`: decoding
/// is a function of the bytes alone; a decoded RGBA image's raw container
/// holds exactly `width * height * 4` bytes.
#[verifier::external_body]
fn decode_rgba(bytes: &Vec<u8>) -> (r: Result<(Vec<u8>, u32, u32), String>)
    ensures
        match r {
            Ok(t) => rgba_of(bytes@) == Some((t.1 as nat, t.2 as nat, t.0@)) && t.0@.len() == 4
                * (t.1 as nat) * (t.2 as nat),
            Err(_) => rgba_of(bytes@) is None,
        },
{
    match image::load_from_memory(bytes.as_slice()) {
        Ok(img) => {
            let rgba = img.to_rgba8();
            let w = rgba.width();
            let h = rgba.height();
            Ok((rgba.into_raw(), w, h))
        },
        Err(e) => Err(e.to_string()),
    }
}

/// Relies on `webp::Encoder::from_rgba` and `Encoder::encode_simple`: lossy
/// WebP encoding under libwebp's default configuration is a function of the
/// pixel buffer, its dimensions, and the quality alone, and so is whether it
/// succeeds. `from_rgba` expects at least `width * height * 4` bytes, its
/// stride arithmetic needs the width well below `i32::MAX / 4`, dimensions
/// above libwebp's `WEBP_MAX_DIMENSION` of 16383 (or zero) are refused, and
/// quality outside 0..=100 fails the configuration check, so all of that
/// stands in the `requires`. A successful encoding is a WebP container and
/// is never empty (it begins with its RIFF header).
#[verifier::external_body]
fn encode_webp(pixels: &Vec<u8>, width: u32, height: u32, quality: u8) -> (r: Option<Vec<u8>>)
    requires
        pixels@.len() == 4 * (width as nat) * (height as nat),
        dims_ok(width as nat, height as nat),
        quality <= 100,
    ensures
        (r is Some) == webp_encodable(pixels@, width as nat, height as nat, quality as nat),
        r matches Some(v) ==> v@ == webp_encoding_of(
            pixels@,
            width as nat,
            height as nat,
            quality as nat,
        ) && v@.len() > 0,
{
    let encoder = webp::Encoder::from_rgba(pixels.as_slice(), width, height);
    match encoder.encode_simple(false, quality.into()) {
        Ok(mem) => Some(mem.to_vec()),
        Err(_) => None,
    }
}

/// One transcode: decode `bytes`, re-encode at `quality`. Gives the encoded
/// bytes, the caller-measured byte count of the source, and the encoded byte
/// count. Fails with `Decode` exactly when the bytes are not a recognized
/// image; succeeds exactly when they decode to in-bounds dimensions that the
/// encoder accepts, and fails with `Encode` otherwise.
pub fn compress_and_encode_image(bytes: &Vec<u8>, quality: u8, original_size: usize) -> (r: Result<
    (Vec<u8>, usize, usize),
    TranscodeError,
>)
    requires
        quality <= 100,
    ensures
        (r matches Err(e) && e == TranscodeError::Decode) <==> rgba_of(bytes@) is None,
        (r is Ok) == transcode_succeeds(bytes@, quality as nat),
        r matches Ok(t) ==> {
            let d = rgba_of(bytes@)->Some_0;
            &&& rgba_of(bytes@) is Some
            &&& t.0@ == webp_encoding_of(d.2, d.0, d.1, quality as nat)
            &&& t.1 == original_size
            &&& t.2 == t.0@.len()
            &&& t.2 > 0
        },
{
    match decode_rgba(bytes) {
        Err(_) => Err(TranscodeError::Decode),
        Ok((pixels, w, h)) => {
            if w < 1 || w > 16383 || h < 1 || h > 16383 {
                Err(TranscodeError::Encode)
            } else {
                match encode_webp(&pixels, w, h, quality) {
                    None => Err(TranscodeError::Encode),
                    Some(data) => {
                        let compressed_size = data.len();
                        Ok((data, original_size, compressed_size))
                    },
                }
            }
        },
    }
}

} // verus!
